//! The `restore` (extract) operation: recover the exact tree from a `.fa10`
//! archive.
//!
//! This module decides what an archive holds and where each entry goes, and
//! checks every entry's content; creating directories and files is the
//! caller's part.
use vstd::prelude::*;

use crate::digest::{sha256, sha256_digest};
use crate::error::{err_view, ErrorView, Fa10Error};
use crate::format::{
    lemma_encode_len, lemma_read_back, path_bytes, spec_manifest_with_trailer, check_header, lemma_entries_bytes_len, lemma_manifest_digests, lemma_payload_prefix_monotone, manifest_result_view, spec_check_header,
    spec_encoded_len, spec_payload_size, spec_read_from, Entry, EntryKind, EntryView, Manifest,
    HEADER_MAGIC, TRAILER_LEN,
};
use crate::grow::{content_region, cycle, spec_archive, spec_record, spec_records, spec_write_archive};
use crate::archive::PendingView;
use crate::paths::{named, path_starts_with, pieces, push_names};
use crate::safety::{
    law_extract_path_stays_under_root, safe_extract_path, spec_safe_extract_path, unsafe_stored,
};
use crate::text::{bytes_equal, owned, push_bytes};

verus! {

/// Options controlling a restore operation.
#[derive(Debug, Clone)]
pub struct RestoreOptions {
    pub input: String,
    /// Extraction root. `None` means the current directory.
    pub output: Option<String>,
    /// Verify each entry's SHA-256 (default true).
    pub verify: bool,
    /// Allow overwriting existing files.
    pub force: bool,
}

impl RestoreOptions {
    /// Options for restoring `input` into the current directory, verifying
    /// every entry and overwriting nothing.
    pub fn new(input: &str) -> (o: RestoreOptions)
        ensures
            o.input@ == input@,
            o.output is None,
            o.verify,
            !o.force,
    {
        RestoreOptions { input: owned(input), output: None, verify: true, force: false }
    }
}

/// Result of a successful restore.
#[derive(Debug, Clone)]
pub struct RestoreOutcome {
    pub root: String,
    pub entry_count: usize,
    pub payload_size: u64,
    pub verified: bool,
}

/// The extraction root: the requested directory, or the current one.
pub open spec fn spec_restore_root(output: Option<Seq<char>>) -> Seq<char> {
    match output {
        Some(o) => o,
        None => "."@,
    }
}

/// The extraction root: the requested directory, or the current one.
pub fn restore_root(output: Option<&str>) -> (root: String)
    ensures
        root@ == spec_restore_root(
            match output {
                Some(o) => Some(o@),
                None => None,
            },
        ),
{
    match output {
        Some(o) => owned(o),
        None => owned("."),
    }
}

/// The bytes an archive needs besides its content and padding: header,
/// manifest and trailer.
pub open spec fn overhead(es: Seq<EntryView>) -> int {
    HEADER_MAGIC@.len() + TRAILER_LEN + spec_encoded_len(es)
}

/// Whether the entries' declared sizes fit in the bytes that an archive of
/// `file_len` bytes has between its header and its manifest.
pub open spec fn spec_content_region(es: Seq<EntryView>, file_len: int) -> Result<(), ErrorView> {
    if file_len < overhead(es) {
        Err(ErrorView::BadFormat("archive smaller than its manifest"@))
    } else if spec_payload_size(es) > file_len - overhead(es) {
        Err(ErrorView::BadFormat("manifest entry sizes exceed the archive content region"@))
    } else {
        Ok(())
    }
}

/// Reject an archive whose declared entry sizes exceed the bytes actually
/// present between the header and the manifest. Without this, inflated sizes
/// would read padding/manifest bytes (or run off the end) as file content.
pub fn check_content_region(manifest: &Manifest, file_len: u64) -> (r: Result<(), Fa10Error>)
    ensures
        err_view(r) == spec_content_region(manifest@, file_len as int),
{
    let encoded = match manifest.checked_encoded_len() {
        Some(n) => n,
        None => {
            return Err(Fa10Error::BadFormat(owned("archive smaller than its manifest")));
        },
    };
    if encoded > file_len || file_len - encoded < 24 {
        return Err(Fa10Error::BadFormat(owned("archive smaller than its manifest")));
    }
    let region = file_len - 24 - encoded;
    match manifest.checked_payload_size() {
        Some(p) => {
            if p > region {
                return Err(
                    Fa10Error::BadFormat(
                        owned("manifest entry sizes exceed the archive content region"),
                    ),
                );
            }
            Ok(())
        },
        None => Err(
            Fa10Error::BadFormat(owned("manifest entry sizes exceed the archive content region")),
        ),
    }
}

/// Where the content of entry `i` starts: right after the header and the
/// content of the file entries before it.
pub open spec fn entry_offset(es: Seq<EntryView>, i: int) -> int {
    HEADER_MAGIC@.len() + spec_payload_size(es.take(i))
}

/// The content of file entry `i` in the archive bytes `b`.
pub open spec fn entry_content(b: Seq<u8>, es: Seq<EntryView>, i: int) -> Seq<u8> {
    b.subrange(entry_offset(es, i), entry_offset(es, i) + es[i].size)
}

/// What opening the archive bytes `b` gives: its entries, once the header,
/// the manifest and the content region are checked, or the first error.
pub open spec fn spec_open_archive(b: Seq<u8>) -> Result<Seq<EntryView>, ErrorView> {
    match spec_check_header(b) {
        Err(e) => Err(e),
        Ok(_) => match spec_read_from(b) {
            Err(e) => Err(e),
            Ok(es) => match spec_content_region(es, b.len() as int) {
                Err(e) => Err(e),
                Ok(_) => Ok(es),
            },
        },
    }
}

/// Open an archive held in memory: check the header, reverse-read the
/// manifest and check that the declared sizes fit the content region.
pub fn open_archive(archive: &[u8]) -> (r: Result<Manifest, Fa10Error>)
    ensures
        manifest_result_view(r) == spec_open_archive(archive@),
{
    match check_header(archive) {
        Ok(()) => {},
        Err(e) => {
            return Err(e);
        },
    }
    let manifest = match Manifest::read_from(archive) {
        Ok(m) => m,
        Err(e) => {
            return Err(e);
        },
    };
    match check_content_region(&manifest, archive.len() as u64) {
        Ok(()) => Ok(manifest),
        Err(e) => Err(e),
    }
}

/// The content of entry `i` hashes to its recorded digest.
pub open spec fn digest_matches(b: Seq<u8>, es: Seq<EntryView>, i: int) -> bool {
    sha256(entry_content(b, es, i))@ == es[i].sha256
}

/// Every file entry's content hashes to its recorded digest.
pub open spec fn contents_match(b: Seq<u8>, es: Seq<EntryView>) -> bool {
    forall|i: int|
        0 <= i < es.len() && es[i].kind == EntryKind::File ==> #[trigger] digest_matches(b, es, i)
}

/// What verifying the archive bytes `b` gives: its entries, when it opens and
/// every file's content matches its digest.
pub open spec fn spec_verify_archive(b: Seq<u8>) -> Result<Seq<EntryView>, ErrorView> {
    match spec_open_archive(b) {
        Err(e) => Err(e),
        Ok(es) => if contents_match(b, es) {
            Ok(es)
        } else {
            Err(ErrorView::ContentHashMismatch)
        },
    }
}

/// Check one entry's content against the digest the manifest records.
pub fn check_entry_content(entry: &Entry, content: &[u8]) -> (r: Result<(), Fa10Error>)
    ensures
        r is Ok <==> sha256(content@)@ == entry.sha256@,
        r matches Err(e) ==> e@ == ErrorView::ContentHashMismatch,
{
    let digest = sha256_digest(content);
    if bytes_equal(digest.as_slice(), entry.sha256.as_slice()) {
        Ok(())
    } else {
        Err(Fa10Error::ContentHashMismatch)
    }
}

/// Refuse to replace an existing file unless overwriting was asked for.
pub fn check_overwrite(target: &str, present: bool, force: bool) -> (r: Result<(), Fa10Error>)
    ensures
        r is Ok <==> (!present || force),
        r matches Err(e) ==> e@ == ErrorView::OutputExists(target@),
{
    if present && !force {
        return Err(Fa10Error::OutputExists(owned(target)));
    }
    Ok(())
}

/// Entry offsets advance by each file's size.
pub proof fn lemma_offset_step(es: Seq<EntryView>, i: int)
    requires
        0 <= i < es.len(),
    ensures
        entry_offset(es, i + 1) == entry_offset(es, i) + if es[i].kind == EntryKind::File {
            es[i].size as int
        } else {
            0
        },
        entry_offset(es, i + 1) <= HEADER_MAGIC@.len() + spec_payload_size(es),
{
    assert(es.take(i + 1).drop_last() == es.take(i));
    assert(es.take(i + 1).last() == es[i]);
    lemma_payload_prefix_monotone(es, i + 1);
}

/// Verify an archive held in memory: open it, then check every file
/// entry's content against its SHA-256.
pub fn verify_archive(archive: &[u8]) -> (r: Result<Manifest, Fa10Error>)
    ensures
        manifest_result_view(r) == spec_verify_archive(archive@),
{
    let manifest = match open_archive(archive) {
        Ok(m) => m,
        Err(e) => {
            return Err(e);
        },
    };
    let ghost es = manifest@;
    let ghost b = archive@;
    let n = manifest.entries.len();
    let total = archive.len();
    let mut offset: usize = 8;
    let mut i: usize = 0;
    assert(es.take(0) =~= Seq::<EntryView>::empty());
    proof {
        lemma_manifest_digests(&manifest);
        lemma_entries_bytes_len(es);
    }
    while i < n
        invariant
            i <= n,
            n == es.len(),
            es == manifest@,
            b == archive@,
            total == b.len(),
            spec_open_archive(b) == Ok::<Seq<EntryView>, ErrorView>(es),
            HEADER_MAGIC@.len() + spec_payload_size(es) <= b.len(),
            offset == entry_offset(es, i as int),
            forall|j: int|
                0 <= j < i && es[j].kind == EntryKind::File ==> #[trigger] digest_matches(b, es, j),
        decreases n - i,
    {
        let entry = &manifest.entries[i];
        assert(es[i as int] == entry@);
        proof {
            lemma_offset_step(es, i as int);
        }
        if entry.kind == EntryKind::File {
            assert(offset + entry.size <= total);
            let end = offset + entry.size as usize;
            let content = &archive[offset..end];
            assert(content@ == entry_content(b, es, i as int));
            match check_entry_content(entry, content) {
                Ok(()) => {},
                Err(e) => {
                    assert(!digest_matches(b, es, i as int));
                    assert(!contents_match(b, es));
                    return Err(e);
                },
            }
            offset = end;
        }
        i += 1;
    }
    Ok(manifest)
}


/// One restored entry: where it goes, what it is, and its content (empty
/// for a directory).
#[derive(Debug, Clone)]
pub struct Extracted {
    pub target: String,
    pub kind: EntryKind,
    pub content: Vec<u8>,
}

/// The mathematical value of an [`Extracted`] entry.
pub struct ExtractedView {
    pub target: Seq<char>,
    pub kind: EntryKind,
    pub content: Seq<u8>,
}

impl View for Extracted {
    type V = ExtractedView;

    open spec fn view(&self) -> ExtractedView {
        ExtractedView { target: self.target@, kind: self.kind, content: self.content@ }
    }
}

/// Restoring entry `i` of the archive bytes `b` under `root`: its target
/// path must stay under the root, and a file's content must match its
/// digest when `verify` is asked for.
pub open spec fn spec_extract_entry(
    b: Seq<u8>,
    es: Seq<EntryView>,
    i: int,
    root: Seq<char>,
    verify: bool,
) -> Result<ExtractedView, ErrorView> {
    match spec_safe_extract_path(root, es[i].path) {
        Err(e) => Err(e),
        Ok(t) => if es[i].kind == EntryKind::EmptyDir {
            Ok(ExtractedView { target: t, kind: es[i].kind, content: seq![] })
        } else if verify && !digest_matches(b, es, i) {
            Err(ErrorView::ContentHashMismatch)
        } else {
            Ok(ExtractedView { target: t, kind: es[i].kind, content: entry_content(b, es, i) })
        },
    }
}

/// Restoring the first `n` entries, in manifest order, or the first error.
pub open spec fn spec_extract_prefix(
    b: Seq<u8>,
    es: Seq<EntryView>,
    root: Seq<char>,
    verify: bool,
    n: nat,
) -> Result<Seq<ExtractedView>, ErrorView>
    decreases n,
{
    if n == 0 {
        Ok(seq![])
    } else {
        match spec_extract_prefix(b, es, root, verify, (n - 1) as nat) {
            Err(e) => Err(e),
            Ok(xs) => match spec_extract_entry(b, es, n - 1, root, verify) {
                Err(e) => Err(e),
                Ok(x) => Ok(xs.push(x)),
            },
        }
    }
}

/// What restoring the archive bytes `b` under `root` gives: every entry with
/// its target and content, or the first error.
pub open spec fn spec_extract(b: Seq<u8>, root: Seq<char>, verify: bool) -> Result<
    Seq<ExtractedView>,
    ErrorView,
> {
    match spec_open_archive(b) {
        Err(e) => Err(e),
        Ok(es) => spec_extract_prefix(b, es, root, verify, es.len()),
    }
}

/// The view of an extraction result.
pub open spec fn extracted_view(r: Result<Vec<Extracted>, Fa10Error>) -> Result<
    Seq<ExtractedView>,
    ErrorView,
> {
    match r {
        Ok(v) => Ok(v@.map_values(|x: Extracted| x@)),
        Err(e) => Err(e@),
    }
}

/// Once an entry fails to restore, restoring more entries still fails with
/// the same error.
pub proof fn lemma_extract_error_persists(
    b: Seq<u8>,
    es: Seq<EntryView>,
    root: Seq<char>,
    verify: bool,
    k: nat,
    n: nat,
)
    requires
        k <= n,
        spec_extract_prefix(b, es, root, verify, k) is Err,
    ensures
        spec_extract_prefix(b, es, root, verify, n) == spec_extract_prefix(b, es, root, verify, k),
    decreases n - k,
{
    if k < n {
        lemma_extract_error_persists(b, es, root, verify, k, (n - 1) as nat);
    }
}

/// What restoring one entry asks of the caller: a directory to make, or a
/// file to write, at the given target path.
#[derive(Debug, Clone)]
pub enum EntryAction {
    MakeDir(String),
    WriteFile(String),
}

/// The target path of an action.
pub open spec fn action_target(a: EntryAction) -> Seq<char> {
    match a {
        EntryAction::MakeDir(t) => t@,
        EntryAction::WriteFile(t) => t@,
    }
}

/// The first step of restoring an entry under `root`: refuse a stored path
/// that would leave the root, then make a directory entry or write a file
/// entry at its target.
pub fn plan_entry(root: &str, entry: &Entry) -> (r: Result<EntryAction, Fa10Error>)
    ensures
        match (r, spec_safe_extract_path(root@, entry.path@)) {
            (Ok(a), Ok(t)) => action_target(a) == t && (a is MakeDir <==> entry.kind
                == EntryKind::EmptyDir),
            (Err(e), Err(v)) => e@ == v,
            _ => false,
        },
{
    let target = match safe_extract_path(root, entry.path.as_str()) {
        Ok(t) => t,
        Err(e) => {
            return Err(e);
        },
    };
    if entry.kind == EntryKind::EmptyDir {
        Ok(EntryAction::MakeDir(target))
    } else {
        Ok(EntryAction::WriteFile(target))
    }
}

/// The last step of restoring a file entry: when verification is asked
/// for, its content must hash to the recorded digest.
pub fn accept_content(entry: &Entry, content: &[u8], verify: bool) -> (r: Result<(), Fa10Error>)
    ensures
        r is Ok <==> (!verify || sha256(content@)@ == entry.sha256@),
        r matches Err(e) ==> e@ == ErrorView::ContentHashMismatch,
{
    if verify {
        check_entry_content(entry, content)
    } else {
        Ok(())
    }
}

/// Restore an archive held in memory under `root`: open it, then give each
/// entry its target path (refusing any that would leave the root) and its
/// content, checked against its SHA-256 when `verify` is set.
pub fn extract(archive: &[u8], root: &str, verify: bool) -> (r: Result<Vec<Extracted>, Fa10Error>)
    ensures
        extracted_view(r) == spec_extract(archive@, root@, verify),
{
    let manifest = match open_archive(archive) {
        Ok(m) => m,
        Err(e) => {
            return Err(e);
        },
    };
    let ghost es = manifest@;
    let ghost b = archive@;
    let n = manifest.entries.len();
    let total = archive.len();
    let mut out: Vec<Extracted> = Vec::new();
    let mut offset: usize = 8;
    let mut i: usize = 0;
    assert(es.take(0) =~= Seq::<EntryView>::empty());
    assert(out@.map_values(|x: Extracted| x@) =~= Seq::<ExtractedView>::empty());
    proof {
        lemma_manifest_digests(&manifest);
        lemma_entries_bytes_len(es);
    }
    while i < n
        invariant
            i <= n,
            n == es.len(),
            es == manifest@,
            b == archive@,
            total == b.len(),
            spec_open_archive(b) == Ok::<Seq<EntryView>, ErrorView>(es),
            HEADER_MAGIC@.len() + spec_payload_size(es) <= b.len(),
            offset == entry_offset(es, i as int),
            spec_extract_prefix(b, es, root@, verify, i as nat) == Ok::<
                Seq<ExtractedView>,
                ErrorView,
            >(out@.map_values(|x: Extracted| x@)),
        decreases n - i,
    {
        let entry = &manifest.entries[i];
        assert(es[i as int] == entry@);
        proof {
            lemma_offset_step(es, i as int);
        }
        let target = match plan_entry(root, entry) {
            Ok(EntryAction::MakeDir(t)) => t,
            Ok(EntryAction::WriteFile(t)) => t,
            Err(e) => {
                proof {
                    lemma_extract_error_persists(b, es, root@, verify, (i + 1) as nat, n as nat);
                }
                return Err(e);
            },
        };
        let mut content: Vec<u8> = Vec::new();
        if entry.kind == EntryKind::File {
            assert(offset + entry.size <= total);
            let end = offset + entry.size as usize;
            let slice = &archive[offset..end];
            assert(slice@ == entry_content(b, es, i as int));
            {
                match accept_content(entry, slice, verify) {
                    Ok(()) => {},
                    Err(e) => {
                        proof {
                            lemma_extract_error_persists(
                                b,
                                es,
                                root@,
                                verify,
                                (i + 1) as nat,
                                n as nat,
                            );
                        }
                        return Err(e);
                    },
                }
            }
            push_bytes(&mut content, slice);
            offset = end;
        }
        let ghost before = out@.map_values(|x: Extracted| x@);
        let item = Extracted { target, kind: entry.kind, content };
        out.push(item);
        proof {
            assert(out@.map_values(|x: Extracted| x@) == before.push(item@));
        }
        i += 1;
    }
    Ok(out)
}


/// The manifest's entry count, path lengths and total length fit the
/// format's fixed-width fields.
pub open spec fn manifest_fits(es: Seq<EntryView>) -> bool {
    &&& es.len() <= u32::MAX
    &&& forall|i: int| 0 <= i < es.len() ==> #[trigger] path_bytes(es[i]).len() <= u32::MAX
    &&& spec_encoded_len(es) <= u64::MAX
}

/// What restoring the written entries under `root` should give back: each
/// entry under its stored path, of its kind, with the content that was read
/// for it (nothing for a directory).
pub open spec fn restored_view(ps: Seq<PendingView>, cs: Seq<Seq<u8>>, root: Seq<char>) -> Seq<
    ExtractedView,
> {
    Seq::new(
        ps.len(),
        |i: int|
            ExtractedView {
                target: push_names(root, named(pieces(ps[i].stored_path))),
                kind: ps[i].kind,
                content: if ps[i].kind == EntryKind::File {
                    cs[i]
                } else {
                    seq![]
                },
            },
    )
}

/// Recording succeeds entry by entry: each record is that entry's own.
pub proof fn lemma_records_ok(ps: Seq<PendingView>, cs: Seq<Seq<u8>>)
    requires
        cs.len() == ps.len(),
        spec_records(ps, cs) is Ok,
    ensures
        spec_records(ps, cs)->Ok_0.len() == ps.len(),
        forall|i: int|
            0 <= i < ps.len() ==> spec_record(ps[i], cs[i]) == Ok::<EntryView, ErrorView>(
                #[trigger] spec_records(ps, cs)->Ok_0[i],
            ),
    decreases ps.len(),
{
    if ps.len() > 0 {
        let n = ps.len() - 1;
        lemma_records_ok(ps.drop_last(), cs.take(n));
        assert forall|i: int| 0 <= i < ps.len() implies spec_record(ps[i], cs[i]) == Ok::<
            EntryView,
            ErrorView,
        >(#[trigger] spec_records(ps, cs)->Ok_0[i]) by {
            if i < n {
                assert(ps.drop_last()[i] == ps[i]);
                assert(cs.take(n)[i] == cs[i]);
            }
        }
    }
}

/// Each file's content has the size its entry records.
pub open spec fn sizes_match(es: Seq<EntryView>, cs: Seq<Seq<u8>>) -> bool {
    forall|i: int|
        0 <= i < es.len() && es[i].kind == EntryKind::File ==> (#[trigger] cs[i]).len()
            == es[i].size
}

/// The content region of entries whose contents have their recorded sizes
/// is as long as their payload.
pub proof fn lemma_content_region_len(es: Seq<EntryView>, cs: Seq<Seq<u8>>)
    requires
        cs.len() == es.len(),
        sizes_match(es, cs),
    ensures
        content_region(es, cs).len() == spec_payload_size(es),
    decreases es.len(),
{
    if es.len() > 0 {
        let n = es.len() - 1;
        assert(sizes_match(es.drop_last(), cs.take(n))) by {
            assert forall|i: int|
                0 <= i < es.drop_last().len() && es.drop_last()[i].kind
                    == EntryKind::File implies (#[trigger] cs.take(n)[i]).len()
                == es.drop_last()[i].size by {
                assert(cs[i].len() == es[i].size);
            }
        }
        lemma_content_region_len(es.drop_last(), cs.take(n));
        if es.last().kind == EntryKind::File {
            assert(cs[n].len() == es[n].size);
        }
    }
}

/// The content region of a prefix of the entries is a prefix of the content region.
pub proof fn lemma_content_region_prefix(es: Seq<EntryView>, cs: Seq<Seq<u8>>, k: int)
    requires
        cs.len() == es.len(),
        0 <= k <= es.len(),
    ensures
        content_region(es.take(k), cs.take(k)).len() <= content_region(es, cs).len(),
        content_region(es, cs).subrange(0, content_region(es.take(k), cs.take(k)).len() as int)
            == content_region(es.take(k), cs.take(k)),
    decreases es.len(),
{
    if k == es.len() {
        assert(es.take(k) == es);
        assert(cs.take(k) == cs);
    } else {
        let n = es.len() - 1;
        assert(es.drop_last().take(k) == es.take(k));
        assert(cs.take(n).take(k) == cs.take(k));
        lemma_content_region_prefix(es.drop_last(), cs.take(n), k);
    }
}

/// In an archive, the bytes of each file entry's content are the content
/// that was written for it.
pub proof fn lemma_entry_content_of_archive(
    es: Seq<EntryView>,
    cs: Seq<Seq<u8>>,
    padding: Seq<u8>,
    i: int,
)
    requires
        cs.len() == es.len(),
        sizes_match(es, cs),
        0 <= i < es.len(),
        es[i].kind == EntryKind::File,
    ensures
        entry_content(spec_archive(es, cs, padding), es, i) == cs[i],
{
    let b = spec_archive(es, cs, padding);
    let c = content_region(es, cs);
    let ci = content_region(es.take(i), cs.take(i));
    let cj = content_region(es.take(i + 1), cs.take(i + 1));
    assert(es.take(i + 1).drop_last() == es.take(i));
    assert(cs.take(i + 1).take(i) == cs.take(i));
    assert(es.take(i + 1).last() == es[i]);
    assert(cs.take(i + 1)[i] == cs[i]);
    assert(cj == ci + cs[i]);
    assert(sizes_match(es.take(i), cs.take(i))) by {
        assert forall|j: int|
            0 <= j < es.take(i).len() && es.take(i)[j].kind == EntryKind::File implies (
            #[trigger] cs.take(i)[j]).len() == es.take(i)[j].size by {
            assert(cs[j].len() == es[j].size);
        }
    }
    lemma_content_region_len(es.take(i), cs.take(i));
    lemma_content_region_prefix(es, cs, i + 1);
    let off = ci.len() as int;
    let size = es[i].size as int;
    assert(cs[i].len() == size);
    assert(c.subrange(off, off + size) == cs[i]) by {
        assert(c.subrange(0, cj.len() as int) == cj);
        assert(c.subrange(off, off + size) == cj.subrange(off, off + size));
    }
    assert(b.subrange(8 + off, 8 + off + size) == c.subrange(off, off + size));
}

/// Law (what the format is for): an archive built by `write_archive` opens,
/// passes verification with the manifest it recorded, and restores every
/// entry under the root at its stored path, with exactly the content that
/// was read for it. The manifest must fit the format's fixed-width fields,
/// and every stored path must be one that extraction accepts.
pub proof fn law_archive_roundtrip(
    ps: Seq<PendingView>,
    cs: Seq<Seq<u8>>,
    padding_size: u64,
    pattern: Seq<u8>,
    root: Seq<char>,
    verify: bool,
)
    requires
        cs.len() == ps.len(),
        spec_records(ps, cs) is Ok,
        manifest_fits(spec_records(ps, cs)->Ok_0),
        forall|i: int| 0 <= i < ps.len() ==> !unsafe_stored(#[trigger] ps[i].stored_path),
    ensures
        spec_write_archive(ps, cs, padding_size, pattern) is Ok,
        spec_verify_archive(spec_write_archive(ps, cs, padding_size, pattern)->Ok_0) == Ok::<
            Seq<EntryView>,
            ErrorView,
        >(spec_records(ps, cs)->Ok_0),
        spec_extract(spec_write_archive(ps, cs, padding_size, pattern)->Ok_0, root, verify)
            == Ok::<Seq<ExtractedView>, ErrorView>(restored_view(ps, cs, root)),
{
    let es = spec_records(ps, cs)->Ok_0;
    let padding = cycle(pattern, padding_size as nat);
    let b = spec_archive(es, cs, padding);
    lemma_records_ok(ps, cs);
    assert(forall|i: int|
        0 <= i < es.len() ==> #[trigger] es[i].sha256.len() == 32 && es[i].kind == ps[i].kind
            && es[i].path == ps[i].stored_path) by {
        assert forall|i: int| 0 <= i < es.len() implies #[trigger] es[i].sha256.len() == 32
            && es[i].kind == ps[i].kind && es[i].path == ps[i].stored_path by {
            assert(spec_record(ps[i], cs[i]) == Ok::<EntryView, ErrorView>(es[i]));
        }
    }
    assert(sizes_match(es, cs)) by {
        assert forall|i: int|
            0 <= i < es.len() && es[i].kind == EntryKind::File implies (#[trigger] cs[i]).len()
            == es[i].size by {
            assert(spec_record(ps[i], cs[i]) == Ok::<EntryView, ErrorView>(es[i]));
        }
    }
    // The header, then the manifest found through the trailer.
    let prefix = HEADER_MAGIC@ + content_region(es, cs) + padding;
    assert(b == prefix + spec_manifest_with_trailer(es));
    assert(b.subrange(0, 8) == HEADER_MAGIC@);
    assert(spec_check_header(b) == Ok::<(), ErrorView>(()));
    lemma_read_back(prefix, es);
    // The declared sizes fit the content region.
    lemma_content_region_len(es, cs);
    lemma_encode_len(es);
    vstd::bytes::lemma_auto_spec_u64_to_from_le_bytes();
    assert(spec_manifest_with_trailer(es).len() == spec_encoded_len(es) + 16);
    assert(b.len() == overhead(es) + spec_payload_size(es) + padding_size);
    assert(spec_content_region(es, b.len() as int) == Ok::<(), ErrorView>(()));
    assert(spec_open_archive(b) == Ok::<Seq<EntryView>, ErrorView>(es));
    // Every file's bytes are its content, which hashes to its digest.
    assert forall|i: int| 0 <= i < es.len() && es[i].kind == EntryKind::File implies #[trigger]
        digest_matches(b, es, i) by {
        lemma_entry_content_of_archive(es, cs, padding, i);
        assert(spec_record(ps[i], cs[i]) == Ok::<EntryView, ErrorView>(es[i]));
    }
    assert(contents_match(b, es));
    // Restoring entry by entry gives back each entry.
    let want = restored_view(ps, cs, root);
    assert forall|n: nat| n <= es.len() implies #[trigger] spec_extract_prefix(
        b,
        es,
        root,
        verify,
        n,
    ) == Ok::<Seq<ExtractedView>, ErrorView>(want.take(n as int)) by {
        lemma_extract_written(ps, cs, es, b, padding, root, verify, n);
    }
    assert(want.take(es.len() as int) == want);
}

/// Restoring the first `n` entries of a written archive gives back the first
/// `n` entries written.
proof fn lemma_extract_written(
    ps: Seq<PendingView>,
    cs: Seq<Seq<u8>>,
    es: Seq<EntryView>,
    b: Seq<u8>,
    padding: Seq<u8>,
    root: Seq<char>,
    verify: bool,
    n: nat,
)
    requires
        cs.len() == ps.len(),
        es.len() == ps.len(),
        n <= es.len(),
        b == spec_archive(es, cs, padding),
        sizes_match(es, cs),
        forall|i: int|
            0 <= i < es.len() ==> #[trigger] es[i].kind == ps[i].kind && es[i].path
                == ps[i].stored_path,
        forall|i: int| 0 <= i < ps.len() ==> !unsafe_stored(#[trigger] ps[i].stored_path),
        forall|i: int|
            0 <= i < es.len() && es[i].kind == EntryKind::File ==> #[trigger] digest_matches(
                b,
                es,
                i,
            ),
    ensures
        spec_extract_prefix(b, es, root, verify, n) == Ok::<Seq<ExtractedView>, ErrorView>(
            restored_view(ps, cs, root).take(n as int),
        ),
    decreases n,
{
    let want = restored_view(ps, cs, root);
    if n > 0 {
        let i = n - 1;
        lemma_extract_written(ps, cs, es, b, padding, root, verify, (n - 1) as nat);
        assert(es[i].kind == ps[i].kind && es[i].path == ps[i].stored_path);
        assert(!unsafe_stored(ps[i].stored_path));
        if es[i].kind == EntryKind::File {
            assert(digest_matches(b, es, i));
            lemma_entry_content_of_archive(es, cs, padding, i);
        }
        assert(spec_extract_entry(b, es, i, root, verify) == Ok::<ExtractedView, ErrorView>(
            want[i],
        ));
        assert(want.take(i).push(want[i]) == want.take(n as int));
    } else {
        assert(want.take(0) == Seq::<ExtractedView>::empty());
    }
}


/// Every entry restored from the first `n` entries lies under the root.
proof fn lemma_extract_prefix_under_root(
    b: Seq<u8>,
    es: Seq<EntryView>,
    root: Seq<char>,
    verify: bool,
    n: nat,
)
    requires
        spec_extract_prefix(b, es, root, verify, n) is Ok,
    ensures
        spec_extract_prefix(b, es, root, verify, n)->Ok_0.len() == n,
        forall|i: int|
            0 <= i < n ==> path_starts_with(
                #[trigger] spec_extract_prefix(b, es, root, verify, n)->Ok_0[i].target,
                root,
            ),
    decreases n,
{
    if n > 0 {
        let k = (n - 1) as nat;
        lemma_extract_prefix_under_root(b, es, root, verify, k);
        let xs = spec_extract_prefix(b, es, root, verify, k)->Ok_0;
        let x = spec_extract_entry(b, es, n - 1, root, verify)->Ok_0;
        assert(!unsafe_stored(es[n - 1].path));
        law_extract_path_stays_under_root(root, es[n - 1].path);
        assert(spec_extract_prefix(b, es, root, verify, n)->Ok_0 == xs.push(x));
        assert forall|i: int| 0 <= i < n implies path_starts_with(
            #[trigger] spec_extract_prefix(b, es, root, verify, n)->Ok_0[i].target,
            root,
        ) by {
            if i < k {
                assert(xs.push(x)[i] == xs[i]);
            }
        }
    }
}

/// Law (the Zip-Slip guard, archive-wide): whatever the archive holds, every
/// entry that a successful restore gives lands under the extraction root.
pub proof fn law_extract_stays_under_root(b: Seq<u8>, root: Seq<char>, verify: bool)
    requires
        spec_extract(b, root, verify) is Ok,
    ensures
        forall|i: int|
            0 <= i < spec_extract(b, root, verify)->Ok_0.len() ==> path_starts_with(
                #[trigger] spec_extract(b, root, verify)->Ok_0[i].target,
                root,
            ),
{
    let es = spec_open_archive(b)->Ok_0;
    lemma_extract_prefix_under_root(b, es, root, verify, es.len());
}

} // verus!
