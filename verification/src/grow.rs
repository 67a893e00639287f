//! The `grow` (pack) operation: bundle files and directories into one larger,
//! reversible `.fa10` archive.
//!
//! This module decides the archive's layout and sizes and builds its bytes;
//! reading the inputs and writing the output file is the caller's part.
use vstd::prelude::*;

use crate::archive::{PendingEntry, PendingView};
use crate::error::{err_view, ErrorView, Fa10Error};
use crate::format::{
    lemma_encode_len, lemma_read_back, spec_check_header, spec_read_from, spec_encoded_len, spec_manifest_with_trailer, spec_payload_size, EntryKind, EntryView, Entry, Manifest, HEADER_MAGIC,
    TRAILER_LEN,
};
use crate::progress::Progress;
use crate::restore::{lemma_content_region_len, lemma_records_ok, manifest_fits, sizes_match};
use crate::info::spec_padding_size;
use crate::archive::{law_same_tree_same_entries, same_entries, sorted_by_path};
use crate::safety::{
    check_batch_limit, check_free_space, check_path_allowed, check_size_cap, spec_check_free_space,
    string_seqs, under_any, MAX_UNCONFIRMED_BATCH, MAX_UNCONFIRMED_OUTPUT,
};
use crate::digest::{sha256, sha256_digest};
use crate::text::{decimal, push_bytes, push_decimal};
use crate::text::owned;

verus! {

/// How the target output size is requested, once any multiplier has been
/// applied: an exact size that must be reachable, or a size scaled from the
/// input that is raised to the minimum when it falls short.
#[derive(Debug, Clone, Copy)]
pub enum SizeRequest {
    /// `--size`: the output must be exactly this many bytes.
    Exact(u64),
    /// `--multiplier`: the payload size times the multiplier, rounded.
    Scaled(u64),
}

/// Result of a successful grow.
#[derive(Debug, Clone)]
pub struct GrowOutcome {
    pub output_path: String,
    pub entry_count: usize,
    pub payload_size: u64,
    pub output_size: u64,
    pub padding_size: u64,
    /// True if the requested target was below the minimum and was bumped up.
    pub clamped: bool,
}

/// The mathematical value of a [`GrowOutcome`].
pub struct GrowOutcomeView {
    pub output_path: Seq<char>,
    pub entry_count: usize,
    pub payload_size: u64,
    pub output_size: u64,
    pub padding_size: u64,
    pub clamped: bool,
}

impl View for GrowOutcome {
    type V = GrowOutcomeView;

    open spec fn view(&self) -> GrowOutcomeView {
        GrowOutcomeView {
            output_path: self.output_path@,
            entry_count: self.entry_count,
            payload_size: self.payload_size,
            output_size: self.output_size,
            padding_size: self.padding_size,
            clamped: self.clamped,
        }
    }
}

/// The views of pending entries.
pub open spec fn views_of(es: Seq<PendingEntry>) -> Seq<PendingView> {
    es.map_values(|e: PendingEntry| e@)
}

/// `s` without the `/` separators it ends with (a lone `/` stays).
pub open spec fn without_trailing_slashes(s: Seq<char>) -> Seq<char>
    decreases s.len(),
{
    if s.len() > 1 && s.last() == '/' {
        without_trailing_slashes(s.drop_last())
    } else {
        s
    }
}

/// Default sibling output path: `<input>.fa10`, next to the input (a
/// directory given as `mydir/` gives `mydir.fa10`, not a file inside it).
pub open spec fn spec_default_output(input: Seq<char>) -> Seq<char> {
    without_trailing_slashes(input) + ".fa10"@
}

/// Default sibling output path: `<input>.fa10`, next to the input.
pub fn default_output(input: &str) -> (r: String)
    ensures
        r@ == spec_default_output(input@),
{
    let n = input.unicode_len();
    let mut j: usize = n;
    assert(input@.subrange(0, n as int) == input@);
    while j > 1 && input.get_char(j - 1) == '/'
        invariant
            j <= n,
            n == input@.len(),
            without_trailing_slashes(input@) == without_trailing_slashes(
                input@.subrange(0, j as int),
            ),
        decreases j,
    {
        assert(input@.subrange(0, j as int).drop_last() == input@.subrange(0, j - 1));
        j -= 1;
    }
    let kept = input.substring_char(0, j);
    let mut name = owned(kept);
    name.append(".fa10");
    name
}

/// Where the archive goes: the explicit output, the input itself in place,
/// `<input>.fa10` for a single input, or `archive.fa10` for several.
pub open spec fn spec_resolve_output(
    output: Option<Seq<char>>,
    in_place: bool,
    inputs: Seq<Seq<char>>,
) -> Seq<char> {
    match output {
        Some(o) => o,
        None => if in_place {
            inputs[0]
        } else if inputs.len() == 1 {
            spec_default_output(inputs[0])
        } else {
            "archive.fa10"@
        },
    }
}

/// Where an in-place grow writes before it replaces the input: a sibling
/// `<output>.fa10.tmp`, so the input stays whole until the archive is.
pub fn in_place_temp_path(output: &str) -> (r: String)
    ensures
        r@ == output@ + ".fa10.tmp"@,
{
    let mut name = owned(output);
    name.append(".fa10.tmp");
    name
}

/// The characters of each string.
pub open spec fn strings_view(v: Seq<String>) -> Seq<Seq<char>> {
    v.map_values(|s: String| s@)
}

/// The characters of an optional string.
pub open spec fn opt_view(o: Option<&str>) -> Option<Seq<char>> {
    match o {
        Some(s) => Some(s@),
        None => None,
    }
}

/// Where the archive goes.
pub fn resolve_output(output: Option<&str>, in_place: bool, inputs: &Vec<String>) -> (r: String)
    requires
        in_place ==> inputs@.len() > 0,
    ensures
        r@ == spec_resolve_output(opt_view(output), in_place, strings_view(inputs@)),
{
    match output {
        Some(o) => owned(o),
        None => {
            if in_place {
                assert(strings_view(inputs@)[0] == inputs@[0]@);
                return owned(inputs[0].as_str());
            }
            if inputs.len() == 1 {
                assert(strings_view(inputs@)[0] == inputs@[0]@);
                default_output(inputs[0].as_str())
            } else {
                owned("archive.fa10")
            }
        },
    }
}

/// The SHA-256 field of an entry whose content has not been hashed yet.
pub open spec fn zero_digest() -> Seq<u8> {
    Seq::new(32, |i: int| 0u8)
}

/// A manifest with the right shape (paths/kinds/sizes) but zeroed hashes.
pub open spec fn skeleton_view(es: Seq<PendingView>) -> Seq<EntryView> {
    es.map_values(
        |e: PendingView| EntryView { kind: e.kind, path: e.stored_path, size: e.size, sha256: zero_digest() },
    )
}

/// A manifest with the right shape (paths/kinds/sizes) but zeroed hashes, used
/// only to compute the encoded length up front.
pub fn manifest_skeleton(entries: &Vec<PendingEntry>) -> (m: Manifest)
    ensures
        m@ == skeleton_view(views_of(entries@)),
{
    let mut out: Vec<Entry> = Vec::new();
    let mut i: usize = 0;
    while i < entries.len()
        invariant
            i <= entries@.len(),
            out@.len() == i,
            forall|k: int|
                0 <= k < i ==> #[trigger] out@[k]@ == skeleton_view(views_of(entries@))[k],
        decreases entries@.len() - i,
    {
        let e = &entries[i];
        let zero = [0u8; 32];
        assert(zero@ == zero_digest());
        let ghost before = out@;
        out.push(Entry { kind: e.kind, path: e.stored_path.clone(), size: e.size, sha256: zero });
        assert forall|k: int| 0 <= k < i + 1 implies #[trigger] out@[k]@ == skeleton_view(
            views_of(entries@),
        )[k] by {
            if k < i {
                assert(out@[k] == before[k]);
            }
        }
        i += 1;
    }
    let m = Manifest { entries: out };
    assert(m@ =~= skeleton_view(views_of(entries@)));
    m
}

/// Sum of the sizes of the pending entries.
pub open spec fn pending_total(es: Seq<PendingView>) -> int
    decreases es.len(),
{
    if es.len() == 0 {
        0
    } else {
        pending_total(es.drop_last()) + es.last().size
    }
}

/// The number of `File` entries.
pub open spec fn file_count(es: Seq<PendingView>) -> nat
    decreases es.len(),
{
    if es.len() == 0 {
        0
    } else {
        file_count(es.drop_last()) + if es.last().kind == EntryKind::File {
            1nat
        } else {
            0nat
        }
    }
}

/// The smallest archive that holds the entries: header, contents, manifest
/// and trailer, with no padding.
pub open spec fn min_output(es: Seq<PendingView>) -> int {
    HEADER_MAGIC@.len() + spec_encoded_len(skeleton_view(es)) + TRAILER_LEN + pending_total(es)
}

/// The output size, and whether it was raised to the minimum, for a request.
pub open spec fn spec_sizing(min: int, request: SizeRequest) -> Result<(u64, bool), ErrorView> {
    match request {
        SizeRequest::Exact(s) => if s < min {
            Err(ErrorView::TargetTooSmall { requested: s, minimum: min as u64 })
        } else {
            Ok((s, false))
        },
        SizeRequest::Scaled(s) => if s < min {
            Ok((min as u64, true))
        } else {
            Ok((s, false))
        },
    }
}

/// The plan of a grow: the checks on the entries and options, then the
/// sizes and the output path, or the first error.
pub open spec fn spec_plan_grow(
    inputs: Seq<Seq<char>>,
    es: Seq<PendingView>,
    request: SizeRequest,
    output: Option<Seq<char>>,
    in_place: bool,
    confirm: bool,
    batch: bool,
) -> Result<GrowOutcomeView, ErrorView> {
    if !batch && file_count(es) > MAX_UNCONFIRMED_BATCH {
        Err(ErrorView::BatchLimitExceeded { count: file_count(es) as usize, limit: MAX_UNCONFIRMED_BATCH })
    } else if in_place && !(inputs.len() == 1 && es.len() == 1 && es[0].kind == EntryKind::File) {
        Err(ErrorView::InPlaceNotSingleFile)
    } else if in_place && !confirm {
        Err(ErrorView::InPlaceNeedsConfirm)
    } else {
        let min = min_output(es);
        match spec_sizing(min, request) {
            Err(e) => Err(e),
            Ok((size, clamped)) => Ok(
                GrowOutcomeView {
                    output_path: spec_resolve_output(output, in_place, inputs),
                    entry_count: es.len() as usize,
                    payload_size: pending_total(es) as u64,
                    output_size: size,
                    padding_size: (size - min) as u64,
                    clamped,
                },
            ),
        }
    }
}

/// The view of a grow plan.
pub open spec fn plan_view(r: Result<GrowOutcome, Fa10Error>) -> Result<GrowOutcomeView, ErrorView> {
    match r {
        Ok(o) => Ok(o@),
        Err(e) => Err(e@),
    }
}

/// The sizes of the archive fit in a `u64`.
pub open spec fn sizes_fit(es: Seq<PendingView>) -> bool {
    min_output(es) <= u64::MAX
}

/// Whether the archive of these entries has sizes that fit in a `u64`.
pub fn grow_sizes_fit(entries: &Vec<PendingEntry>) -> (r: bool)
    ensures
        r == sizes_fit(views_of(entries@)),
{
    let skeleton = manifest_skeleton(entries);
    proof {
        lemma_pending_total_prefix(views_of(entries@), 0);
        crate::format::lemma_records_prefix_monotone(skeleton@, 0);
        assert(views_of(entries@).take(0).len() == 0);
        assert(skeleton@.take(0).len() == 0);
    }
    let manifest_len = match skeleton.checked_encoded_len() {
        Some(n) => n,
        None => {
            return false;
        },
    };
    let mut total: u64 = 0;
    let mut i: usize = 0;
    while i < entries.len()
        invariant
            i <= entries@.len(),
            total == pending_total(views_of(entries@).take(i as int)),
            min_output(views_of(entries@)) >= pending_total(views_of(entries@)),
        decreases entries@.len() - i,
    {
        assert(views_of(entries@).take(i + 1).drop_last() == views_of(entries@).take(i as int));
        if entries[i].size > u64::MAX - total {
            proof {
                lemma_pending_total_prefix(views_of(entries@), i + 1);
            }
            return false;
        }
        total = total + entries[i].size;
        i += 1;
    }
    assert(views_of(entries@).take(i as int) == views_of(entries@));
    if manifest_len > u64::MAX - 24 || total > u64::MAX - 24 - manifest_len {
        return false;
    }
    true
}

/// Sizes summed over a prefix never exceed the sum over the whole sequence.
pub proof fn lemma_pending_total_prefix(es: Seq<PendingView>, k: int)
    requires
        0 <= k <= es.len(),
    ensures
        pending_total(es.take(k)) <= pending_total(es),
    decreases es.len(),
{
    if k < es.len() {
        assert(es.drop_last().take(k) == es.take(k));
        lemma_pending_total_prefix(es.drop_last(), k);
    } else {
        assert(es.take(k) == es);
    }
}

/// File entries counted over a prefix never exceed the count over the whole sequence.
pub proof fn lemma_file_count_prefix(es: Seq<PendingView>, k: int)
    requires
        0 <= k <= es.len(),
    ensures
        file_count(es.take(k)) <= file_count(es),
        file_count(es) <= es.len(),
    decreases es.len(),
{
    if es.len() > 0 {
        if k < es.len() {
            assert(es.drop_last().take(k) == es.take(k));
            lemma_file_count_prefix(es.drop_last(), k);
        } else {
            assert(es.take(k) == es);
            lemma_file_count_prefix(es.drop_last(), k - 1);
        }
    } else {
        assert(es.take(k) == es);
    }
}

/// Plan a grow: check the batch limit and the in-place rules, then size the
/// archive (its contents, manifest and padding) and choose its path.
pub fn plan_grow(
    inputs: &Vec<String>,
    entries: &Vec<PendingEntry>,
    request: SizeRequest,
    output: Option<&str>,
    in_place: bool,
    confirm: bool,
    batch: bool,
) -> (r: Result<GrowOutcome, Fa10Error>)
    requires
        sizes_fit(views_of(entries@)),
    ensures
        plan_view(r) == spec_plan_grow(
            strings_view(inputs@),
            views_of(entries@),
            request,
            opt_view(output),
            in_place,
            confirm,
            batch,
        ),
{
    let ghost es = views_of(entries@);
    let n = entries.len();
    let mut files: usize = 0;
    let mut total: u64 = 0;
    let mut i: usize = 0;
    proof {
        lemma_pending_total_prefix(es, 0);
        crate::format::lemma_records_prefix_monotone(skeleton_view(es), 0);
        assert(es.take(0).len() == 0);
        assert(skeleton_view(es).take(0).len() == 0);
    }
    while i < n
        invariant
            i <= n,
            n == entries@.len(),
            es == views_of(entries@),
            sizes_fit(es),
            min_output(es) >= pending_total(es),
            files == file_count(es.take(i as int)),
            files <= i,
            total == pending_total(es.take(i as int)),
        decreases n - i,
    {
        assert(es.take(i + 1).drop_last() == es.take(i as int));
        assert(es.take(i + 1).last() == entries@[i as int]@);
        proof {
            lemma_pending_total_prefix(es, i + 1);
        }
        if entries[i].kind == EntryKind::File {
            files += 1;
        }
        total = total + entries[i].size;
        i += 1;
    }
    assert(es.take(n as int) == es);
    match check_batch_limit(files, batch) {
        Ok(()) => {},
        Err(e) => {
            return Err(e);
        },
    }

    // In-place only makes sense for a single regular file.
    if in_place {
        let single_file = inputs.len() == 1 && n == 1 && entries[0].kind == EntryKind::File;
        if !single_file {
            return Err(Fa10Error::InPlaceNotSingleFile);
        }
        if !confirm {
            return Err(Fa10Error::InPlaceNeedsConfirm);
        }
    }

    // The manifest length is fully determined by the entry paths/count (the
    // per-entry SHA-256 is a fixed 32 bytes), so padding is sized before
    // anything is hashed.
    let skeleton = manifest_skeleton(entries);
    let manifest_len = skeleton.encoded_len();
    let overhead = HEADER_MAGIC.len() as u64 + manifest_len + TRAILER_LEN;
    let min = overhead + total;

    let (output_size, clamped) = match request {
        SizeRequest::Exact(s) => {
            if s < min {
                return Err(Fa10Error::TargetTooSmall { requested: s, minimum: min });
            }
            (s, false)
        },
        SizeRequest::Scaled(s) => {
            if s < min {
                (min, true)
            } else {
                (s, false)
            }
        },
    };
    let padding_size = output_size - min;
    let output_path = resolve_output(output, in_place, inputs);
    Ok(GrowOutcome { output_path, entry_count: n, payload_size: total, output_size, padding_size, clamped })
}


/// Padding blocks are built to about this many bytes.
pub const PADDING_BLOCK_TARGET: usize = 65536;

/// `n` bytes of `pattern` repeated from its start, the last repetition cut short.
pub open spec fn cycle(pattern: Seq<u8>, n: nat) -> Seq<u8> {
    Seq::new(n, |i: int| pattern[i % (pattern.len() as int)])
}

/// The length of the block of whole repetitions that padding is written from:
/// as many as fit in the block target, and at least one.
pub open spec fn block_len(pattern_len: nat) -> nat {
    let target = PADDING_BLOCK_TARGET as nat;
    if target / pattern_len >= 1 {
        ((target / pattern_len) * pattern_len) as nat
    } else {
        pattern_len
    }
}

/// Law: padding of `a + b` bytes is the padding of `a` bytes followed by the
/// padding of `b` bytes whenever `a` is a whole number of repetitions, so
/// padding may be written in such chunks.
pub proof fn law_padding_split(pattern: Seq<u8>, a: nat, b: nat)
    requires
        pattern.len() > 0,
        a % pattern.len() == 0,
    ensures
        cycle(pattern, a + b) == cycle(pattern, a) + cycle(pattern, b),
{
    let n = pattern.len() as int;
    assert forall|i: int| 0 <= i < b implies cycle(pattern, a + b)[a + i] == #[trigger] cycle(
        pattern,
        b,
    )[i] by {
        vstd::arithmetic::div_mod::lemma_add_mod_noop(a as int, i, n);
        vstd::arithmetic::div_mod::lemma_mod_twice(i, n);
    }
    assert(cycle(pattern, a + b) =~= cycle(pattern, a) + cycle(pattern, b));
}

/// The first `c` bytes of a padding are the padding of `c` bytes.
pub proof fn lemma_cycle_prefix(pattern: Seq<u8>, n: nat, c: nat)
    requires
        c <= n,
    ensures
        cycle(pattern, n).take(c as int) == cycle(pattern, c),
{
    assert(cycle(pattern, n).take(c as int) =~= cycle(pattern, c));
}

/// The block that padding is written from: whole repetitions of `pattern`,
/// as many as fit in 64 KiB, and at least one.
pub fn padding_block(pattern: &[u8]) -> (block: Vec<u8>)
    requires
        pattern@.len() > 0,
    ensures
        block@ == cycle(pattern@, block_len(pattern@.len())),
        block_len(pattern@.len()) % pattern@.len() == 0,
        block@.len() >= pattern@.len(),
{
    let len = pattern.len();
    let quotient = PADDING_BLOCK_TARGET / len;
    let reps = if quotient >= 1 { quotient } else { 1 };
    proof {
        assert(reps * len <= PADDING_BLOCK_TARGET || reps == 1) by (nonlinear_arith)
            requires
                reps == (if PADDING_BLOCK_TARGET / len >= 1 { PADDING_BLOCK_TARGET / len } else { 1 }),
                len > 0,
        ;
        vstd::arithmetic::div_mod::lemma_mod_multiples_basic(reps as int, len as int);
    }
    let mut block: Vec<u8> = Vec::new();
    let mut k: usize = 0;
    while k < reps
        invariant
            k <= reps,
            len == pattern@.len(),
            len > 0,
            reps * len <= PADDING_BLOCK_TARGET || reps == 1,
            block@ == cycle(pattern@, (k * len) as nat),
        decreases reps - k,
    {
        proof {
            assert(k * len + len <= reps * len) by (nonlinear_arith)
                requires
                    k < reps,
            ;
            assert((k * len) % (len as int) == 0) by {
                vstd::arithmetic::div_mod::lemma_mod_multiples_basic(k as int, len as int);
            }
            law_padding_split(pattern@, (k * len) as nat, len as nat);
            assert(cycle(pattern@, len as nat) =~= pattern@) by {
                assert forall|i: int| 0 <= i < len implies #[trigger] cycle(pattern@, len as nat)[i]
                    == pattern@[i] by {
                    vstd::arithmetic::div_mod::lemma_small_mod(i as nat, len as nat);
                }
            }
        }
        push_bytes(&mut block, pattern);
        proof {
            assert((k + 1) * len == k * len + len) by (nonlinear_arith);
        }
        k += 1;
    }
    proof {
        assert(reps * len == block_len(len as nat));
        assert(reps * len >= len) by (nonlinear_arith)
            requires
                reps >= 1,
        ;
    }
    block
}

/// Append `remaining` bytes of padding: `pattern` repeated, the last
/// repetition cut short, written in blocks of whole repetitions.
pub fn write_padding<P: Progress>(out: &mut Vec<u8>, pattern: &[u8], remaining: u64, progress: &P)
    requires
        pattern@.len() > 0 || remaining == 0,
    ensures
        final(out)@ == old(out)@ + cycle(pattern@, remaining as nat),
{
    if remaining == 0 {
        assert(cycle(pattern@, 0) =~= Seq::<u8>::empty());
        assert(out@ =~= old(out)@ + cycle(pattern@, 0));
        return;
    }
    let block = padding_block(pattern);
    let mut left: u64 = remaining;
    let mut written: u64 = 0;
    while left > 0
        invariant
            pattern@.len() > 0,
            block@ == cycle(pattern@, block_len(pattern@.len())),
            block_len(pattern@.len()) % pattern@.len() == 0,
            block@.len() > 0,
            written + left == remaining,
            left > 0 ==> (written as int) % (pattern@.len() as int) == 0,
            out@ == old(out)@ + cycle(pattern@, written as nat),
        decreases left,
    {
        let chunk: usize = if left < block.len() as u64 { left as usize } else { block.len() };
        proof {
            lemma_cycle_prefix(pattern@, block_len(pattern@.len()), chunk as nat);
            law_padding_split(pattern@, written as nat, chunk as nat);
            if chunk == block.len() {
                let n = pattern@.len() as int;
                vstd::arithmetic::div_mod::lemma_add_mod_noop(written as int, chunk as int, n);
                assert((chunk as int) % n == 0);
                assert((written as int) % n == 0);
                vstd::arithmetic::div_mod::lemma_small_mod(0, n as nat);
                assert(((written as int) % n + (chunk as int) % n) % n == 0);
                assert((written + chunk) % n == 0);
            } else {
                assert(chunk == left);
            }
        }
        push_bytes(out, &block.as_slice()[0..chunk]);
        assert(block@.subrange(0, chunk as int) == block@.take(chunk as int));
        left = left - chunk as u64;
        written = written + chunk as u64;
        progress.add(chunk as u64);
    }
}


/// Check the padding pattern: an empty one cannot fill anything.
pub fn check_pattern(pattern: &str) -> (r: Result<(), Fa10Error>)
    ensures
        r is Ok <==> pattern@.len() > 0,
        r matches Err(e) ==> e@ == ErrorView::EmptyPattern,
{
    if pattern.as_bytes().len() == 0 {
        return Err(Fa10Error::EmptyPattern);
    }
    proof {
        vstd::utf8::encode_utf8_decode_utf8(pattern@);
    }
    Ok(())
}

/// The message of an entry whose file had another size when it was read.
pub open spec fn changed_message(fs_path: Seq<char>, expected: u64, read: nat) -> Seq<char> {
    fs_path + " changed during read: expected "@ + decimal(expected as nat) + " bytes, read "@
        + decimal(read)
}

/// The manifest record of a pending entry, given the content read for it: a
/// file's content must have the size found when the tree was walked, and is
/// recorded by its SHA-256; a directory records a zeroed digest.
pub open spec fn spec_record(p: PendingView, content: Seq<u8>) -> Result<EntryView, ErrorView> {
    if p.kind == EntryKind::File {
        if content.len() != p.size {
            Err(ErrorView::BadFormat(changed_message(p.fs_path, p.size, content.len())))
        } else {
            Ok(EntryView { kind: p.kind, path: p.stored_path, size: p.size, sha256: sha256(content)@ })
        }
    } else {
        Ok(EntryView { kind: p.kind, path: p.stored_path, size: p.size, sha256: zero_digest() })
    }
}

/// The manifest records of the pending entries, each with its content, or
/// the first error.
pub open spec fn spec_records(ps: Seq<PendingView>, cs: Seq<Seq<u8>>) -> Result<
    Seq<EntryView>,
    ErrorView,
>
    decreases ps.len(),
{
    if ps.len() == 0 {
        Ok(seq![])
    } else {
        match spec_records(ps.drop_last(), cs.take(ps.len() - 1)) {
            Err(e) => Err(e),
            Ok(es) => match spec_record(ps.last(), cs[ps.len() - 1]) {
                Err(e) => Err(e),
                Ok(x) => Ok(es.push(x)),
            },
        }
    }
}

/// The manifest record of a pending entry whose content was read (the
/// content of a directory is not looked at).
pub fn record_entry(e: &PendingEntry, content: &[u8]) -> (r: Result<Entry, Fa10Error>)
    ensures
        match (r, spec_record(e@, content@)) {
            (Ok(x), Ok(v)) => x@ == v,
            (Err(x), Err(v)) => x@ == v,
            _ => false,
        },
{
    if e.kind == EntryKind::File {
        if content.len() as u64 != e.size {
            let mut msg = owned(e.fs_path.as_str());
            msg.append(" changed during read: expected ");
            push_decimal(&mut msg, e.size);
            msg.append(" bytes, read ");
            push_decimal(&mut msg, content.len() as u64);
            return Err(Fa10Error::BadFormat(msg));
        }
        let digest = sha256_digest(content);
        Ok(Entry { kind: e.kind, path: e.stored_path.clone(), size: e.size, sha256: digest })
    } else {
        let zero = [0u8; 32];
        assert(zero@ == zero_digest());
        Ok(Entry { kind: e.kind, path: e.stored_path.clone(), size: e.size, sha256: zero })
    }
}

/// The bytes of each content buffer.
pub open spec fn byte_seqs(v: Seq<Vec<u8>>) -> Seq<Seq<u8>> {
    v.map_values(|c: Vec<u8>| c@)
}

/// The content region: the contents of the file entries, in manifest order.
pub open spec fn content_region(es: Seq<EntryView>, cs: Seq<Seq<u8>>) -> Seq<u8>
    decreases es.len(),
{
    if es.len() == 0 {
        seq![]
    } else {
        content_region(es.drop_last(), cs.take(es.len() - 1)) + if es.last().kind
            == EntryKind::File {
            cs[es.len() - 1]
        } else {
            seq![]
        }
    }
}

/// A whole archive: header, content region, padding, manifest and trailer.
pub open spec fn spec_archive(es: Seq<EntryView>, cs: Seq<Seq<u8>>, padding: Seq<u8>) -> Seq<u8> {
    HEADER_MAGIC@ + content_region(es, cs) + padding + spec_manifest_with_trailer(es)
}

/// What writing the archive of the pending entries gives, with the content
/// read for each and `padding_size` bytes of padding: the bytes, or the first
/// entry's error.
pub open spec fn spec_write_archive(
    ps: Seq<PendingView>,
    cs: Seq<Seq<u8>>,
    padding_size: u64,
    pattern: Seq<u8>,
) -> Result<Seq<u8>, ErrorView> {
    match spec_records(ps, cs) {
        Err(e) => Err(e),
        Ok(es) => Ok(spec_archive(es, cs, cycle(pattern, padding_size as nat))),
    }
}

/// An archive being written, one step at a time: the header, then each
/// entry's content, then the padding, then the manifest. It holds the
/// manifest records of the entries added so far. Each step appends its
/// bytes to a buffer of the caller's, which may write them out at once.
pub struct ArchiveBuilder {
    recorded: Vec<Entry>,
}

impl View for ArchiveBuilder {
    type V = Seq<EntryView>;

    closed spec fn view(&self) -> Seq<EntryView> {
        self.recorded@.map_values(|x: Entry| x@)
    }
}

/// The bytes an added entry contributes to the content region: a file's
/// content, nothing for a directory.
pub open spec fn entry_region(p: PendingView, content: Seq<u8>) -> Seq<u8> {
    if p.kind == EntryKind::File {
        content
    } else {
        seq![]
    }
}

impl ArchiveBuilder {
    /// Begin an archive: append the header magic; no entry recorded yet.
    pub fn start(out: &mut Vec<u8>) -> (b: ArchiveBuilder)
        ensures
            b@ == Seq::<EntryView>::empty(),
            final(out)@ == old(out)@ + HEADER_MAGIC@,
    {
        push_bytes(out, &HEADER_MAGIC);
        let b = ArchiveBuilder { recorded: Vec::new() };
        assert(b@ =~= Seq::<EntryView>::empty());
        b
    }

    /// Add the next entry with the content read for it: record it and append
    /// a file's content. On an error (a file whose size changed) nothing is
    /// recorded or appended.
    pub fn add_entry(&mut self, out: &mut Vec<u8>, e: &PendingEntry, content: &[u8]) -> (r: Result<
        (),
        Fa10Error,
    >)
        ensures
            match spec_record(e@, content@) {
                Ok(x) => r is Ok && final(self)@ == old(self)@.push(x) && final(out)@ == old(
                    out,
                )@ + entry_region(e@, content@),
                Err(v) => r matches Err(err) && err@ == v && final(self)@ == old(self)@
                    && final(out)@ == old(out)@,
            },
    {
        let entry = match record_entry(e, content) {
            Ok(x) => x,
            Err(err) => {
                return Err(err);
            },
        };
        if e.kind == EntryKind::File {
            push_bytes(out, content);
        } else {
            assert(out@ == old(out)@ + Seq::<u8>::empty());
        }
        let ghost before = self@;
        self.recorded.push(entry);
        assert(self@ == before.push(entry@));
        Ok(())
    }

    /// End the archive: append the manifest of the recorded entries and the trailer.
    pub fn finish(self, out: &mut Vec<u8>)
        ensures
            final(out)@ == old(out)@ + spec_manifest_with_trailer(self@),
    {
        let manifest = Manifest { entries: self.recorded };
        assert(manifest@ == self@);
        manifest.write_to(out);
    }
}

/// The size of the next chunk of padding to write when `remaining` bytes
/// are left: a whole block of repetitions of a pattern of `pattern_len`
/// bytes, or all that is left when that is less. Writing padding chunk by
/// chunk gives the same bytes as writing it at once (`law_padding_split`).
pub fn padding_chunk(pattern_len: usize, remaining: u64) -> (n: u64)
    requires
        pattern_len > 0,
    ensures
        n == (if remaining < block_len(pattern_len as nat) {
            remaining as int
        } else {
            block_len(pattern_len as nat) as int
        }),
        n < remaining ==> (n as int) % (pattern_len as int) == 0,
        remaining > 0 ==> n > 0,
{
    let quotient = PADDING_BLOCK_TARGET / pattern_len;
    proof {
        assert(quotient * pattern_len <= PADDING_BLOCK_TARGET) by (nonlinear_arith)
            requires
                quotient == PADDING_BLOCK_TARGET / pattern_len,
                pattern_len > 0,
        ;
    }
    let block: usize = if quotient >= 1 { quotient * pattern_len } else { pattern_len };
    proof {
        assert(block == block_len(pattern_len as nat));
        if quotient >= 1 {
            vstd::arithmetic::div_mod::lemma_mod_multiples_basic(quotient as int, pattern_len as int);
            assert(block >= pattern_len) by (nonlinear_arith)
                requires
                    block == quotient * pattern_len,
                    quotient >= 1,
            ;
        } else {
            vstd::arithmetic::div_mod::lemma_mod_self_0(pattern_len as int);
        }
    }
    if remaining < block as u64 {
        remaining
    } else {
        block as u64
    }
}

/// Build the archive of the pending entries, with `contents[i]` the content
/// read for `entries[i]`: the header, each file's content in order, the
/// padding, then the manifest and its trailer.
pub fn write_archive<P: Progress>(
    entries: &Vec<PendingEntry>,
    contents: &Vec<Vec<u8>>,
    padding_size: u64,
    pattern: &[u8],
    progress: &P,
) -> (r: Result<Vec<u8>, Fa10Error>)
    requires
        entries@.len() == contents@.len(),
        pattern@.len() > 0 || padding_size == 0,
    ensures
        match (r, spec_write_archive(views_of(entries@), byte_seqs(contents@), padding_size, pattern@)) {
            (Ok(b), Ok(s)) => b@ == s,
            (Err(e), Err(v)) => e@ == v,
            _ => false,
        },
{
    let ghost ps = views_of(entries@);
    let ghost cs = byte_seqs(contents@);
    let mut out: Vec<u8> = Vec::new();
    let mut builder = ArchiveBuilder::start(&mut out);
    progress.add(8);
    assert(ps.take(0) =~= Seq::<PendingView>::empty());
    assert(content_region(builder@, cs.take(0)) =~= Seq::<u8>::empty());
    let n = entries.len();
    let mut i: usize = 0;
    while i < n
        invariant
            i <= n,
            n == entries@.len(),
            n == contents@.len(),
            ps == views_of(entries@),
            cs == byte_seqs(contents@),
            builder@.len() == i,
            spec_records(ps.take(i as int), cs.take(i as int)) == Ok::<Seq<EntryView>, ErrorView>(
                builder@,
            ),
            out@ == HEADER_MAGIC@ + content_region(builder@, cs.take(i as int)),
        decreases n - i,
    {
        let ghost before = builder@;
        let ghost out_before = out@;
        assert(ps.take(i + 1).drop_last() == ps.take(i as int));
        assert(cs.take(i + 1).take(i as int) == cs.take(i as int));
        assert(ps.take(i + 1).last() == entries@[i as int]@);
        assert(cs.take(i + 1)[i as int] == contents@[i as int]@);
        let content = contents[i].as_slice();
        match builder.add_entry(&mut out, &entries[i], content) {
            Ok(()) => {},
            Err(err) => {
                proof {
                    lemma_records_error_persists(ps, cs, (i + 1) as nat, n as nat);
                    assert(ps.take(n as int) == ps);
                    assert(cs.take(n as int) == cs);
                }
                return Err(err);
            },
        }
        if entries[i].kind == EntryKind::File {
            progress.add(content.len() as u64);
        }
        proof {
            let after = builder@;
            let x = spec_record(entries@[i as int]@, content@)->Ok_0;
            assert(after == before.push(x));
            assert(after.drop_last() == before);
            assert(after.last() == x);
            assert(x.kind == entries@[i as int].kind);
            assert(content_region(after, cs.take(i + 1)) == content_region(before, cs.take(i as int))
                + if x.kind == EntryKind::File {
                cs.take(i + 1)[i as int]
            } else {
                Seq::<u8>::empty()
            });
        }
        i += 1;
    }
    assert(ps.take(n as int) == ps);
    assert(cs.take(n as int) == cs);
    write_padding(&mut out, pattern, padding_size, progress);
    let start = out.len();
    builder.finish(&mut out);
    progress.add((out.len() - start) as u64);
    Ok(out)
}

/// Once an entry fails to record, recording more entries still fails with
/// the same error.
pub proof fn lemma_records_error_persists(ps: Seq<PendingView>, cs: Seq<Seq<u8>>, k: nat, n: nat)
    requires
        k <= n <= ps.len(),
        cs.len() == ps.len(),
        spec_records(ps.take(k as int), cs.take(k as int)) is Err,
    ensures
        spec_records(ps.take(n as int), cs.take(n as int)) == spec_records(
            ps.take(k as int),
            cs.take(k as int),
        ),
    decreases n - k,
{
    if k < n {
        lemma_records_error_persists(ps, cs, k, (n - 1) as nat);
        assert(ps.take(n as int).drop_last() == ps.take(n - 1));
        assert(cs.take(n as int).take(n - 1) == cs.take(n - 1));
    }
}


/// Directories carry no content: every `EmptyDir` entry has size zero.
pub open spec fn dirs_empty(ps: Seq<PendingView>) -> bool {
    forall|i: int| 0 <= i < ps.len() && #[trigger] ps[i].kind == EntryKind::EmptyDir ==> ps[i].size == 0
}

/// The recorded entries have the kinds, paths and sizes of the pending ones.
pub open spec fn same_shape(es: Seq<EntryView>, ps: Seq<PendingView>) -> bool {
    &&& es.len() == ps.len()
    &&& forall|i: int|
        0 <= i < es.len() ==> #[trigger] es[i].kind == ps[i].kind && es[i].path
            == ps[i].stored_path && es[i].size == ps[i].size
}

/// Entries of the same shape have manifests of the same length.
pub proof fn lemma_same_shape_lengths(es: Seq<EntryView>, ps: Seq<PendingView>)
    requires
        same_shape(es, ps),
    ensures
        spec_encoded_len(es) == spec_encoded_len(skeleton_view(ps)),
        dirs_empty(ps) ==> spec_payload_size(es) == pending_total(ps),
    decreases es.len(),
{
    if es.len() > 0 {
        let n = es.len() - 1;
        assert(same_shape(es.drop_last(), ps.drop_last())) by {
            assert forall|i: int| 0 <= i < n implies #[trigger] es.drop_last()[i].kind
                == ps.drop_last()[i].kind && es.drop_last()[i].path == ps.drop_last()[i].stored_path
                && es.drop_last()[i].size == ps.drop_last()[i].size by {
                assert(es[i].kind == ps[i].kind);
            }
        }
        lemma_same_shape_lengths(es.drop_last(), ps.drop_last());
        assert(skeleton_view(ps).drop_last() == skeleton_view(ps.drop_last()));
        assert(es[n].kind == ps[n].kind);
        if dirs_empty(ps) {
            assert(dirs_empty(ps.drop_last())) by {
                assert forall|i: int|
                    0 <= i < n && #[trigger] ps.drop_last()[i].kind
                        == EntryKind::EmptyDir implies ps.drop_last()[i].size == 0 by {
                    assert(ps[i].kind == EntryKind::EmptyDir);
                }
            }
            if ps[n].kind == EntryKind::EmptyDir {
                assert(ps[n].size == 0);
            }
        }
    }
}

/// Law: the archive that `write_archive` builds with the padding that
/// `plan_grow` chose is exactly the planned output size (directories carrying
/// no content, and the sizes fitting in a `u64`).
pub proof fn law_archive_size(
    inputs: Seq<Seq<char>>,
    ps: Seq<PendingView>,
    cs: Seq<Seq<u8>>,
    request: SizeRequest,
    output: Option<Seq<char>>,
    in_place: bool,
    confirm: bool,
    batch: bool,
    pattern: Seq<u8>,
)
    requires
        cs.len() == ps.len(),
        spec_records(ps, cs) is Ok,
        dirs_empty(ps),
        sizes_fit(ps),
        spec_plan_grow(inputs, ps, request, output, in_place, confirm, batch) is Ok,
    ensures
        ({
            let plan = spec_plan_grow(inputs, ps, request, output, in_place, confirm, batch)->Ok_0;
            &&& spec_write_archive(ps, cs, plan.padding_size, pattern) is Ok
            &&& spec_write_archive(ps, cs, plan.padding_size, pattern)->Ok_0.len()
                == plan.output_size
        }),
{
    let plan = spec_plan_grow(inputs, ps, request, output, in_place, confirm, batch)->Ok_0;
    let es = spec_records(ps, cs)->Ok_0;
    lemma_records_ok(ps, cs);
    assert(same_shape(es, ps)) by {
        assert forall|i: int| 0 <= i < es.len() implies #[trigger] es[i].kind == ps[i].kind
            && es[i].path == ps[i].stored_path && es[i].size == ps[i].size by {
            assert(spec_record(ps[i], cs[i]) == Ok::<EntryView, ErrorView>(es[i]));
        }
    }
    assert(sizes_match(es, cs)) by {
        assert forall|i: int|
            0 <= i < es.len() && es[i].kind == EntryKind::File implies (#[trigger] cs[i]).len()
            == es[i].size by {
            assert(spec_record(ps[i], cs[i]) == Ok::<EntryView, ErrorView>(es[i]));
        }
    }
    assert forall|i: int| 0 <= i < es.len() implies #[trigger] es[i].sha256.len() == 32 by {
        assert(spec_record(ps[i], cs[i]) == Ok::<EntryView, ErrorView>(es[i]));
    }
    lemma_same_shape_lengths(es, ps);
    lemma_content_region_len(es, cs);
    lemma_encode_len(es);
    vstd::bytes::lemma_auto_spec_u64_to_from_le_bytes();
    assert(spec_manifest_with_trailer(es).len() == spec_encoded_len(es) + 16);
}


/// The first of `paths` (from `i` on) whose resolved form lies under a
/// protected prefix, refused; or none.
pub open spec fn spec_first_protected(
    paths: Seq<Seq<char>>,
    resolved: Seq<Seq<char>>,
    prefixes: Seq<Seq<char>>,
    i: nat,
) -> Result<(), ErrorView>
    decreases paths.len() - i,
{
    if i >= paths.len() {
        Ok(())
    } else if under_any(resolved[i as int], prefixes) {
        Err(ErrorView::ProtectedPath(paths[i as int]))
    } else {
        spec_first_protected(paths, resolved, prefixes, i + 1)
    }
}

/// The checks a planned grow must pass before anything is written: no input
/// and not the output under a protected prefix, the size cap, the free-space
/// floor, and no existing output (unless growing in place), in that order.
pub open spec fn spec_check_grow_target(
    inputs: Seq<Seq<char>>,
    resolved_inputs: Seq<Seq<char>>,
    output: Seq<char>,
    resolved_output: Seq<char>,
    prefixes: Seq<Seq<char>>,
    output_size: u64,
    confirm: bool,
    available: u64,
    in_place: bool,
    output_exists: bool,
) -> Result<(), ErrorView> {
    match spec_first_protected(inputs, resolved_inputs, prefixes, 0) {
        Err(e) => Err(e),
        Ok(_) => if under_any(resolved_output, prefixes) {
            Err(ErrorView::ProtectedPath(output))
        } else if !confirm && output_size > MAX_UNCONFIRMED_OUTPUT {
            Err(ErrorView::SizeCapExceeded { size: output_size, cap: MAX_UNCONFIRMED_OUTPUT })
        } else if spec_check_free_space(output_size, available) is Err {
            spec_check_free_space(output_size, available)
        } else if !in_place && output_exists {
            Err(ErrorView::OutputExists(output))
        } else {
            Ok(())
        },
    }
}

/// Check a planned grow before anything is written. The caller resolves
/// the paths and the protected prefixes, measures the free space near the
/// output and looks whether the output exists; this decides.
pub fn check_grow_target(
    inputs: &Vec<String>,
    resolved_inputs: &Vec<String>,
    output: &str,
    resolved_output: &str,
    prefixes: &Vec<String>,
    output_size: u64,
    confirm: bool,
    available: u64,
    in_place: bool,
    output_exists: bool,
) -> (r: Result<(), Fa10Error>)
    requires
        resolved_inputs@.len() == inputs@.len(),
    ensures
        err_view(r) == spec_check_grow_target(
            strings_view(inputs@),
            strings_view(resolved_inputs@),
            output@,
            resolved_output@,
            string_seqs(prefixes@),
            output_size,
            confirm,
            available,
            in_place,
            output_exists,
        ),
{
    let ghost paths = strings_view(inputs@);
    let ghost resolved = strings_view(resolved_inputs@);
    let ghost pre = string_seqs(prefixes@);
    let mut i: usize = 0;
    while i < inputs.len()
        invariant
            i <= inputs@.len(),
            resolved_inputs@.len() == inputs@.len(),
            paths == strings_view(inputs@),
            resolved == strings_view(resolved_inputs@),
            pre == string_seqs(prefixes@),
            spec_first_protected(paths, resolved, pre, 0) == spec_first_protected(
                paths,
                resolved,
                pre,
                i as nat,
            ),
        decreases inputs@.len() - i,
    {
        assert(paths[i as int] == inputs@[i as int]@);
        assert(resolved[i as int] == resolved_inputs@[i as int]@);
        match check_path_allowed(inputs[i].as_str(), resolved_inputs[i].as_str(), prefixes) {
            Ok(()) => {},
            Err(e) => {
                return Err(e);
            },
        }
        i += 1;
    }
    match check_path_allowed(output, resolved_output, prefixes) {
        Ok(()) => {},
        Err(e) => {
            return Err(e);
        },
    }
    match check_size_cap(output_size, confirm) {
        Ok(()) => {},
        Err(e) => {
            return Err(e);
        },
    }
    match check_free_space(output_size, available) {
        Ok(()) => {},
        Err(e) => {
            return Err(e);
        },
    }
    if !in_place && output_exists {
        return Err(Fa10Error::OutputExists(owned(output)));
    }
    Ok(())
}


/// Law: what `info` reads back from a grown archive is what the grow
/// planned. The header checks, the manifest found through the trailer is
/// the recorded one, and its entry count, payload, padding and manifest
/// size are the planned ones (directories carrying no content, the sizes
/// fitting in a `u64`, and the manifest fitting its fixed-width fields).
pub proof fn law_grown_archive_info(
    inputs: Seq<Seq<char>>,
    ps: Seq<PendingView>,
    cs: Seq<Seq<u8>>,
    request: SizeRequest,
    output: Option<Seq<char>>,
    in_place: bool,
    confirm: bool,
    batch: bool,
    pattern: Seq<u8>,
)
    requires
        cs.len() == ps.len(),
        spec_records(ps, cs) is Ok,
        manifest_fits(spec_records(ps, cs)->Ok_0),
        dirs_empty(ps),
        sizes_fit(ps),
        spec_plan_grow(inputs, ps, request, output, in_place, confirm, batch) is Ok,
    ensures
        ({
            let plan = spec_plan_grow(inputs, ps, request, output, in_place, confirm, batch)->Ok_0;
            let es = spec_records(ps, cs)->Ok_0;
            let b = spec_write_archive(ps, cs, plan.padding_size, pattern)->Ok_0;
            &&& spec_check_header(b) == Ok::<(), ErrorView>(())
            &&& spec_read_from(b) == Ok::<Seq<EntryView>, ErrorView>(es)
            &&& b.len() == plan.output_size
            &&& es.len() == plan.entry_count
            &&& spec_payload_size(es) == plan.payload_size
            &&& spec_padding_size(es, b.len() as int) == plan.padding_size
            &&& spec_encoded_len(es) + TRAILER_LEN == plan.output_size - 8 - plan.payload_size
                - plan.padding_size
        }),
{
    let plan = spec_plan_grow(inputs, ps, request, output, in_place, confirm, batch)->Ok_0;
    let es = spec_records(ps, cs)->Ok_0;
    law_archive_size(inputs, ps, cs, request, output, in_place, confirm, batch, pattern);
    lemma_records_ok(ps, cs);
    assert(same_shape(es, ps)) by {
        assert forall|i: int| 0 <= i < es.len() implies #[trigger] es[i].kind == ps[i].kind
            && es[i].path == ps[i].stored_path && es[i].size == ps[i].size by {
            assert(spec_record(ps[i], cs[i]) == Ok::<EntryView, ErrorView>(es[i]));
        }
    }
    assert forall|i: int| 0 <= i < es.len() implies #[trigger] es[i].sha256.len() == 32 by {
        assert(spec_record(ps[i], cs[i]) == Ok::<EntryView, ErrorView>(es[i]));
    }
    lemma_same_shape_lengths(es, ps);
    let padding = cycle(pattern, plan.padding_size as nat);
    let prefix = HEADER_MAGIC@ + content_region(es, cs) + padding;
    let b = spec_archive(es, cs, padding);
    assert(b == prefix + spec_manifest_with_trailer(es));
    assert(b.subrange(0, 8) == HEADER_MAGIC@);
    lemma_read_back(prefix, es);
    assert(spec_check_header(b) == Ok::<(), ErrorView>(()));
    assert(spec_read_from(b) == Ok::<Seq<EntryView>, ErrorView>(es));
    assert(sizes_match(es, cs)) by {
        assert forall|i: int|
            0 <= i < es.len() && es[i].kind == EntryKind::File implies (#[trigger] cs[i]).len()
            == es[i].size by {
            assert(spec_record(ps[i], cs[i]) == Ok::<EntryView, ErrorView>(es[i]));
        }
    }
    lemma_content_region_len(es, cs);
    crate::format::lemma_entries_bytes_len(es);
    assert(0 <= spec_payload_size(es) <= u64::MAX);
    assert(b.len() == plan.output_size);
    assert(es.len() == plan.entry_count);
    assert(spec_payload_size(es) == plan.payload_size);
    assert(spec_padding_size(es, b.len() as int) == plan.padding_size);
}

/// Padding written chunk by chunk, each chunk as `padding_chunk` sizes it.
pub open spec fn chunked_padding(pattern: Seq<u8>, remaining: nat) -> Seq<u8>
    decreases remaining,
{
    if remaining == 0 || pattern.len() == 0 {
        seq![]
    } else {
        let n: nat = if remaining < block_len(pattern.len()) {
            remaining
        } else {
            block_len(pattern.len())
        };
        if n == 0 {
            seq![]
        } else {
            cycle(pattern, n) + chunked_padding(pattern, (remaining - n) as nat)
        }
    }
}

/// Law: writing padding in the chunks that `padding_chunk` gives, one after
/// the other, writes the same bytes as writing it at once.
pub proof fn law_chunked_padding(pattern: Seq<u8>, remaining: nat)
    requires
        pattern.len() > 0,
    ensures
        chunked_padding(pattern, remaining) == cycle(pattern, remaining),
    decreases remaining,
{
    let len = pattern.len();
    let target = PADDING_BLOCK_TARGET as nat;
    assert(block_len(len) >= len && block_len(len) % len == 0) by {
        if target / len >= 1 {
            vstd::arithmetic::div_mod::lemma_mod_multiples_basic((target / len) as int, len as int);
            assert((target / len) * len >= len) by (nonlinear_arith)
                requires
                    target / len >= 1,
            ;
        } else {
            vstd::arithmetic::div_mod::lemma_mod_self_0(len as int);
        }
    }
    if remaining == 0 {
        assert(cycle(pattern, 0) =~= Seq::<u8>::empty());
    } else {
        let n: nat = if remaining < block_len(len) {
            remaining
        } else {
            block_len(len)
        };
        law_chunked_padding(pattern, (remaining - n) as nat);
        if n < remaining {
            law_padding_split(pattern, n, (remaining - n) as nat);
        } else {
            assert(cycle(pattern, 0) =~= Seq::<u8>::empty());
            assert(chunked_padding(pattern, 0) == Seq::<u8>::empty());
            assert(cycle(pattern, n) + Seq::<u8>::empty() =~= cycle(pattern, n));
        }
    }
}

/// Law: the same tree gives the same archive bytes. Two walks that found the
/// same entries, in whatever order, are ordered by `collect_entries` into
/// one list, so the plan and the archive built from the same contents are
/// the same, byte for byte.
pub proof fn law_same_tree_same_archive(
    found_a: Seq<PendingView>,
    found_b: Seq<PendingView>,
    out_a: Seq<PendingView>,
    out_b: Seq<PendingView>,
    inputs: Seq<Seq<char>>,
    cs: Seq<Seq<u8>>,
    request: SizeRequest,
    output: Option<Seq<char>>,
    in_place: bool,
    confirm: bool,
    batch: bool,
    pattern: Seq<u8>,
)
    requires
        same_entries(found_a, found_b),
        sorted_by_path(out_a) && same_entries(out_a, found_a),
        sorted_by_path(out_b) && same_entries(out_b, found_b),
    ensures
        spec_plan_grow(inputs, out_a, request, output, in_place, confirm, batch) == spec_plan_grow(
            inputs,
            out_b,
            request,
            output,
            in_place,
            confirm,
            batch,
        ),
        forall|padding_size: u64|
            spec_write_archive(out_a, cs, padding_size, pattern) == #[trigger] spec_write_archive(
                out_b,
                cs,
                padding_size,
                pattern,
            ),
{
    law_same_tree_same_entries(found_a, found_b, out_a, out_b);
}


/// Law (where the archive goes): an explicit output path is always the
/// output, in place or not, whatever the inputs. Without one, growing in
/// place writes over the input, a single input gets the sibling
/// `<input>.fa10` (trailing `/` dropped), and several get `archive.fa10`.
pub proof fn law_output_path(o: Option<Seq<char>>, in_place: bool, inputs: Seq<Seq<char>>)
    ensures
        o matches Some(p) ==> spec_resolve_output(o, in_place, inputs) == p,
        o is None && in_place ==> spec_resolve_output(o, in_place, inputs) == inputs[0],
        o is None && !in_place && inputs.len() == 1 ==> spec_resolve_output(o, in_place, inputs)
            == without_trailing_slashes(inputs[0]) + ".fa10"@,
        o is None && !in_place && inputs.len() != 1 ==> spec_resolve_output(o, in_place, inputs)
            == "archive.fa10"@,
{
}

/// Law: a successful grow plan writes to the explicit output path when one
/// was given.
pub proof fn law_plan_output_path(
    inputs: Seq<Seq<char>>,
    es: Seq<PendingView>,
    request: SizeRequest,
    o: Seq<char>,
    in_place: bool,
    confirm: bool,
    batch: bool,
)
    requires
        spec_plan_grow(inputs, es, request, Some(o), in_place, confirm, batch) is Ok,
    ensures
        spec_plan_grow(inputs, es, request, Some(o), in_place, confirm, batch)->Ok_0.output_path
            == o,
{
    law_output_path(Some(o), in_place, inputs);
}

/// Sizes are never negative, so neither is their sum.
pub proof fn lemma_pending_total_nonneg(es: Seq<PendingView>)
    ensures
        pending_total(es) >= 0,
    decreases es.len(),
{
    if es.len() > 0 {
        lemma_pending_total_nonneg(es.drop_last());
    }
}

/// The smallest archive is at least a header, a bare manifest and a trailer.
pub proof fn lemma_min_output_lower(es: Seq<PendingView>)
    ensures
        min_output(es) >= 8 + 16 + 16,
        spec_encoded_len(skeleton_view(es)) >= 16,
        min_output(es) == 8 + spec_encoded_len(skeleton_view(es)) + 16 + pending_total(es),
{
    lemma_pending_total_nonneg(es);
    let sk = skeleton_view(es);
    assert forall|i: int| 0 <= i < sk.len() implies #[trigger] sk[i].sha256.len() == 32 by {
        assert(sk[i].sha256 == zero_digest());
    }
    crate::format::lemma_entries_bytes_len(sk);
}

/// Law (how big the archive is): once the batch and in-place rules pass, an
/// exact size request `s` is refused exactly when it is below the smallest
/// archive that holds the entries, and otherwise the archive is exactly `s`
/// bytes, padding making up `s` minus that minimum. A scaled request is
/// never refused: it is raised to the minimum when it falls short (and
/// marked as clamped), and kept as it is otherwise. Either way the plan
/// records every entry and their total size.
pub proof fn law_plan_sizes(
    inputs: Seq<Seq<char>>,
    es: Seq<PendingView>,
    request: SizeRequest,
    output: Option<Seq<char>>,
    in_place: bool,
    confirm: bool,
    batch: bool,
)
    requires
        sizes_fit(es),
        batch || file_count(es) <= MAX_UNCONFIRMED_BATCH,
        in_place ==> inputs.len() == 1 && es.len() == 1 && es[0].kind == EntryKind::File && confirm,
    ensures
        ({
            let r = spec_plan_grow(inputs, es, request, output, in_place, confirm, batch);
            let min = min_output(es);
            &&& match request {
                SizeRequest::Exact(s) => {
                    &&& (r is Err <==> s < min)
                    &&& s < min ==> r == Err::<GrowOutcomeView, ErrorView>(
                        ErrorView::TargetTooSmall { requested: s, minimum: min as u64 },
                    )
                    &&& s >= min ==> r->Ok_0.output_size == s && r->Ok_0.padding_size == s - min
                        && !r->Ok_0.clamped
                },
                SizeRequest::Scaled(s) => {
                    &&& r is Ok
                    &&& r->Ok_0.output_size == (if s < min {
                        min
                    } else {
                        s as int
                    })
                    &&& r->Ok_0.clamped == (s < min)
                    &&& r->Ok_0.padding_size == r->Ok_0.output_size - min
                },
            }
            &&& r is Ok ==> r->Ok_0.payload_size == pending_total(es)
            &&& r is Ok && es.len() <= usize::MAX ==> r->Ok_0.entry_count == es.len()
        }),
{
    lemma_min_output_lower(es);
    lemma_pending_total_nonneg(es);
    let r = spec_plan_grow(inputs, es, request, output, in_place, confirm, batch);
    let min = min_output(es);
    assert(!(!batch && file_count(es) > MAX_UNCONFIRMED_BATCH));
    assert(!(in_place && !(inputs.len() == 1 && es.len() == 1 && es[0].kind == EntryKind::File)));
    assert(!(in_place && !confirm));
    assert(0 <= pending_total(es) <= u64::MAX);
    assert(0 <= min <= u64::MAX);
}

} // verus!
