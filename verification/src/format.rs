//! On-disk `.fa10` archive format: header, manifest, and trailer encode/decode.
//!
//! Byte layout:
//!
//! ```text
//! [0]       8   header magic     "FA10ARC\0"
//! [8]       ..  entry contents, concatenated in manifest order
//! [..]      P   padding          repeating recognizable ASCII pattern
//! [..]      M   manifest         (magic, entry table, crc32)
//! [EOF-16]  16  trailer          end magic "FA10AEND" (8) + manifest_length u64 LE (8)
//! ```
//!
//! The manifest is the magic `"FA10MANI"`, the entry count (u32 LE), then per
//! entry: kind u8 (0 = file, 1 = empty dir), path length u32 LE, the path
//! (UTF-8, `/`-separated), content size u64 LE and the SHA-256 of the content
//! (32 bytes); then the CRC32 (u32 LE) of all the manifest bytes before it.
use vstd::bytes::*;
use vstd::prelude::*;
use vstd::utf8::*;

use crate::digest::{crc32, crc32_hash};
use crate::error::{err_view, ErrorView, Fa10Error};
use crate::text::{bytes_equal, decimal, owned, push_bytes, with_decimal};

verus! {

broadcast use {group_utf8_lib, vstd::seq_lib::group_seq_properties};

/// Header magic written at the very start of every `.fa10` archive: `"FA10ARC\0"`.
pub const HEADER_MAGIC: [u8; 8] = [70, 65, 49, 48, 65, 82, 67, 0];

/// Magic at the start of the manifest: `"FA10MANI"`.
pub const MANIFEST_MAGIC: [u8; 8] = [70, 65, 49, 48, 77, 65, 78, 73];

/// Magic at the start of the fixed trailer: `"FA10AEND"`.
pub const END_MAGIC: [u8; 8] = [70, 65, 49, 48, 65, 69, 78, 68];

/// Default, recognizable padding pattern.
pub const DEFAULT_PATTERN: &'static str = "FA10-PADDING-BLOCK-";

/// Length of the fixed trailer: end magic (8) + manifest_length u64 (8).
pub const TRAILER_LEN: u64 = 16;

/// Per-entry fixed overhead in the manifest, in bytes:
/// kind(1) + path_len(4) + size(8) + sha256(32) = 45 (excludes the path bytes,
/// which stand between the path length and the size).
pub const ENTRY_FIXED: u64 = 45;

/// Manifest fixed overhead: magic(8) + entry_count(4) + crc32(4) = 16.
pub const MANIFEST_FIXED: u64 = 16;

/// What an archive entry represents.
#[derive(Debug, Clone, Copy, PartialEq, Eq, Structural)]
pub enum EntryKind {
    File,
    EmptyDir,
}

/// The byte that stands for an entry kind in the manifest.
pub open spec fn kind_byte(k: EntryKind) -> u8 {
    match k {
        EntryKind::File => 0,
        EntryKind::EmptyDir => 1,
    }
}

/// The entry kind a valid kind byte stands for.
pub open spec fn kind_of_byte(b: u8) -> EntryKind {
    if b == 0 {
        EntryKind::File
    } else {
        EntryKind::EmptyDir
    }
}

/// The message of the error for an unknown kind byte.
pub open spec fn unknown_kind_message(b: u8) -> Seq<char> {
    "unknown entry kind "@ + decimal(b as nat)
}

impl EntryKind {
    /// The byte that stands for this kind in the manifest.
    pub fn to_byte(self) -> (b: u8)
        ensures
            b == kind_byte(self),
    {
        match self {
            EntryKind::File => 0,
            EntryKind::EmptyDir => 1,
        }
    }

    /// The kind a manifest byte stands for; any byte but 0 and 1 is refused.
    pub fn from_byte(b: u8) -> (r: Result<EntryKind, Fa10Error>)
        ensures
            b <= 1 ==> r == Ok::<EntryKind, Fa10Error>(kind_of_byte(b)),
            b > 1 ==> (r matches Err(e) && e@ == ErrorView::BadFormat(unknown_kind_message(b))),
    {
        match b {
            0 => Ok(EntryKind::File),
            1 => Ok(EntryKind::EmptyDir),
            other => Err(Fa10Error::BadFormat(with_decimal("unknown entry kind ", other as u64))),
        }
    }
}

/// One member of the archive.
#[derive(Debug, Clone, PartialEq, Eq)]
pub struct Entry {
    pub kind: EntryKind,
    /// Relative, `/`-separated archive path.
    pub path: String,
    /// Content length in bytes (0 for `EmptyDir`).
    pub size: u64,
    /// SHA-256 of the content (zeroed for `EmptyDir`).
    pub sha256: [u8; 32],
}

/// The mathematical value of an [`Entry`].
pub struct EntryView {
    pub kind: EntryKind,
    pub path: Seq<char>,
    pub size: u64,
    pub sha256: Seq<u8>,
}

impl View for Entry {
    type V = EntryView;

    open spec fn view(&self) -> EntryView {
        EntryView { kind: self.kind, path: self.path@, size: self.size, sha256: self.sha256@ }
    }
}

/// Parsed archive manifest.
#[derive(Debug, Clone, Default, PartialEq, Eq)]
pub struct Manifest {
    pub entries: Vec<Entry>,
}

impl View for Manifest {
    type V = Seq<EntryView>;

    open spec fn view(&self) -> Seq<EntryView> {
        self.entries@.map_values(|e: Entry| e@)
    }
}

/// The UTF-8 bytes of an entry's path.
pub open spec fn path_bytes(e: EntryView) -> Seq<u8> {
    encode_utf8(e.path)
}

/// The manifest record of one entry: kind, path length, path, size, digest.
pub open spec fn entry_bytes(e: EntryView) -> Seq<u8> {
    seq![kind_byte(e.kind)] + spec_u32_to_le_bytes(path_bytes(e).len() as u32) + path_bytes(e)
        + spec_u64_to_le_bytes(e.size) + e.sha256
}

/// The records of a sequence of entries, one after the other.
pub open spec fn entries_bytes(es: Seq<EntryView>) -> Seq<u8>
    decreases es.len(),
{
    if es.len() == 0 {
        seq![]
    } else {
        entries_bytes(es.drop_last()) + entry_bytes(es.last())
    }
}

/// The manifest bytes that the CRC32 covers: magic, entry count, records.
pub open spec fn manifest_body(es: Seq<EntryView>) -> Seq<u8> {
    MANIFEST_MAGIC@ + spec_u32_to_le_bytes(es.len() as u32) + entries_bytes(es)
}

/// The encoded manifest: its body followed by the body's CRC32.
pub open spec fn spec_encode(es: Seq<EntryView>) -> Seq<u8> {
    manifest_body(es) + spec_u32_to_le_bytes(crc32(manifest_body(es)))
}

/// Sum of the per-entry record lengths.
pub open spec fn records_len(es: Seq<EntryView>) -> int
    decreases es.len(),
{
    if es.len() == 0 {
        0
    } else {
        records_len(es.drop_last()) + ENTRY_FIXED + path_bytes(es.last()).len()
    }
}

/// The on-disk length of a manifest with these entries (excludes the trailer).
pub open spec fn spec_encoded_len(es: Seq<EntryView>) -> int {
    MANIFEST_FIXED + records_len(es)
}

/// Sum of the sizes of the `File` entries.
pub open spec fn spec_payload_size(es: Seq<EntryView>) -> int
    decreases es.len(),
{
    if es.len() == 0 {
        0
    } else {
        spec_payload_size(es.drop_last()) + (if es.last().kind == EntryKind::File {
            es.last().size as int
        } else {
            0
        })
    }
}

/// The manifest can be encoded faithfully: its entry count and every path
/// length fit the format's 32-bit fields.
pub open spec fn encodable(es: Seq<EntryView>) -> bool {
    &&& es.len() <= u32::MAX
    &&& forall|i: int| 0 <= i < es.len() ==> #[trigger] path_bytes(es[i]).len() <= u32::MAX
    &&& forall|i: int| 0 <= i < es.len() ==> #[trigger] es[i].sha256.len() == 32
}

/// The little-endian `u32` stored at `i`.
pub open spec fn u32_at(b: Seq<u8>, i: int) -> u32 {
    spec_u32_from_le_bytes(b.subrange(i, i + 4))
}

/// The little-endian `u64` stored at `i`.
pub open spec fn u64_at(b: Seq<u8>, i: int) -> u64 {
    spec_u64_from_le_bytes(b.subrange(i, i + 8))
}

/// A `BadFormat` error with the given message.
pub open spec fn bad_format(msg: Seq<char>) -> ErrorView {
    ErrorView::BadFormat(msg)
}

/// Reading one manifest record that starts at `pos`, in a manifest whose
/// records end at `end`: the entry and the position after it, or the error.
pub open spec fn parse_entry(b: Seq<u8>, pos: int, end: int) -> Result<(EntryView, int), ErrorView> {
    if end - pos < ENTRY_FIXED {
        Err(bad_format("truncated manifest entry"@))
    } else if b[pos] > 1 {
        Err(bad_format(unknown_kind_message(b[pos])))
    } else {
        let name_len = u32_at(b, pos + 1) as int;
        let start = pos + 5;
        if name_len > end - pos - ENTRY_FIXED {
            Err(bad_format("manifest path overruns"@))
        } else if !valid_utf8(b.subrange(start, start + name_len)) {
            Err(ErrorView::BadFilename)
        } else {
            let after = start + name_len;
            Ok(
                (
                    EntryView {
                        kind: kind_of_byte(b[pos]),
                        path: decode_utf8(b.subrange(start, after)),
                        size: u64_at(b, after),
                        sha256: b.subrange(after + 8, after + 40),
                    },
                    after + 40,
                ),
            )
        }
    }
}

/// Reading `n` records one after the other from offset 12.
pub open spec fn parse_entries(b: Seq<u8>, end: int, n: nat) -> Result<(Seq<EntryView>, int), ErrorView>
    decreases n,
{
    if n == 0 {
        Ok((seq![], 12))
    } else {
        match parse_entries(b, end, (n - 1) as nat) {
            Err(e) => Err(e),
            Ok((es, pos)) => match parse_entry(b, pos, end) {
                Err(e) => Err(e),
                Ok((e, next)) => Ok((es.push(e), next)),
            },
        }
    }
}

/// What decoding the manifest bytes `b` gives: the entries, or the error.
pub open spec fn spec_decode(b: Seq<u8>) -> Result<Seq<EntryView>, ErrorView> {
    if b.len() < MANIFEST_FIXED {
        Err(bad_format("manifest too short"@))
    } else if b.subrange(0, 8) != MANIFEST_MAGIC@ {
        Err(bad_format("missing manifest magic"@))
    } else {
        let end = b.len() - 4;
        let count = u32_at(b, 8);
        if count > (end - 12) / (ENTRY_FIXED as int) {
            Err(bad_format("manifest entry count out of range"@))
        } else if crc32(b.subrange(0, end)) != u32_at(b, end) {
            Err(ErrorView::FooterCrcMismatch)
        } else {
            match parse_entries(b, end, count as nat) {
                Err(e) => Err(e),
                Ok((es, pos)) => if pos != end {
                    Err(bad_format("trailing bytes in manifest"@))
                } else {
                    Ok(es)
                },
            }
        }
    }
}

/// The view of a decoding result.
pub open spec fn manifest_result_view(r: Result<Manifest, Fa10Error>) -> Result<Seq<EntryView>, ErrorView> {
    match r {
        Ok(m) => Ok(m@),
        Err(e) => Err(e@),
    }
}

/// The manifest followed by the fixed trailer, as `write_to` appends them.
pub open spec fn spec_manifest_with_trailer(es: Seq<EntryView>) -> Seq<u8> {
    spec_encode(es) + END_MAGIC@ + spec_u64_to_le_bytes(spec_encode(es).len() as u64)
}

/// Calls `String::from_utf8` on a copy of the bytes. Trusted: `std` documents
/// that it succeeds exactly on valid UTF-8, and the string then holds the
/// characters those bytes encode.
#[verifier::external_body]
fn string_from_utf8(bytes: &[u8]) -> (r: Option<String>)
    ensures
        r is Some <==> valid_utf8(bytes@),
        r matches Some(s) ==> s@ == decode_utf8(bytes@),
{
    String::from_utf8(bytes.to_vec()).ok()
}

impl Manifest {
    /// Total size of the content region (sum of file entry sizes).
    pub fn payload_size(&self) -> (total: u64)
        requires
            spec_payload_size(self@) <= u64::MAX,
        ensures
            total == spec_payload_size(self@),
    {
        let mut total: u64 = 0;
        let mut i: usize = 0;
        while i < self.entries.len()
            invariant
                i <= self@.len(),
                spec_payload_size(self@) <= u64::MAX,
                total == spec_payload_size(self@.take(i as int)),
            decreases self@.len() - i,
        {
            proof {
                assert(self@.take(i + 1).drop_last() == self@.take(i as int));
                lemma_payload_prefix_monotone(self@, i + 1);
            }
            if self.entries[i].kind == EntryKind::File {
                total = total + self.entries[i].size;
            }
            i += 1;
        }
        assert(self@.take(i as int) == self@);
        total
    }

    /// The payload size, or `None` where the sum of the file sizes does not
    /// fit in a `u64`.
    pub fn checked_payload_size(&self) -> (r: Option<u64>)
        ensures
            r is Some <==> spec_payload_size(self@) <= u64::MAX,
            r matches Some(t) ==> t == spec_payload_size(self@),
    {
        let mut total: u64 = 0;
        let mut i: usize = 0;
        while i < self.entries.len()
            invariant
                i <= self@.len(),
                total == spec_payload_size(self@.take(i as int)),
            decreases self@.len() - i,
        {
            proof {
                assert(self@.take(i + 1).drop_last() == self@.take(i as int));
            }
            if self.entries[i].kind == EntryKind::File {
                if self.entries[i].size > u64::MAX - total {
                    proof {
                        lemma_payload_prefix_monotone(self@, i + 1);
                    }
                    return None;
                }
                total = total + self.entries[i].size;
            }
            i += 1;
        }
        assert(self@.take(i as int) == self@);
        Some(total)
    }

    /// On-disk length of this manifest (excludes the fixed trailer).
    pub fn encoded_len(&self) -> (n: u64)
        requires
            spec_encoded_len(self@) <= u64::MAX,
        ensures
            n == spec_encoded_len(self@),
    {
        let mut total: u64 = MANIFEST_FIXED;
        let mut i: usize = 0;
        while i < self.entries.len()
            invariant
                i <= self@.len(),
                spec_encoded_len(self@) <= u64::MAX,
                total == MANIFEST_FIXED + records_len(self@.take(i as int)),
            decreases self@.len() - i,
        {
            proof {
                assert(self@.take(i + 1).drop_last() == self@.take(i as int));
                lemma_records_prefix_monotone(self@, i + 1);
            }
            let len = self.entries[i].path.as_str().as_bytes().len();
            assert(self@[i as int] == self.entries@[i as int]@);
            assert(len == path_bytes(self@[i as int]).len());
            total = total + ENTRY_FIXED + len as u64;
            i += 1;
        }
        assert(self@.take(i as int) == self@);
        total
    }

    /// The on-disk length, or `None` where it does not fit in a `u64`.
    pub fn checked_encoded_len(&self) -> (r: Option<u64>)
        ensures
            r is Some <==> spec_encoded_len(self@) <= u64::MAX,
            r matches Some(n) ==> n == spec_encoded_len(self@),
    {
        let mut total: u64 = MANIFEST_FIXED;
        let mut i: usize = 0;
        while i < self.entries.len()
            invariant
                i <= self@.len(),
                total == MANIFEST_FIXED + records_len(self@.take(i as int)),
            decreases self@.len() - i,
        {
            proof {
                assert(self@.take(i + 1).drop_last() == self@.take(i as int));
            }
            let len = self.entries[i].path.as_str().as_bytes().len();
            assert(self@[i as int] == self.entries@[i as int]@);
            assert(len == path_bytes(self@[i as int]).len());
            if total > u64::MAX - ENTRY_FIXED || len as u64 > u64::MAX - ENTRY_FIXED - total {
                proof {
                    lemma_records_prefix_monotone(self@, i + 1);
                }
                return None;
            }
            total = total + ENTRY_FIXED + len as u64;
            i += 1;
        }
        assert(self@.take(i as int) == self@);
        Some(total)
    }

    /// Serialize the manifest bytes (without the trailing trailer).
    pub fn encode(&self) -> (buf: Vec<u8>)
        ensures
            buf@ == spec_encode(self@),
    {
        proof {
            lemma_auto_spec_u32_to_from_le_bytes();
            lemma_auto_spec_u64_to_from_le_bytes();
        }
        let mut buf: Vec<u8> = Vec::new();
        push_bytes(&mut buf, &MANIFEST_MAGIC);
        let count = u32_to_le_bytes(self.entries.len() as u32);
        push_bytes(&mut buf, count.as_slice());
        let mut i: usize = 0;
        while i < self.entries.len()
            invariant
                i <= self@.len(),
                buf@ == MANIFEST_MAGIC@ + spec_u32_to_le_bytes(self@.len() as u32)
                    + entries_bytes(self@.take(i as int)),
            decreases self@.len() - i,
        {
            let e = &self.entries[i];
            let ghost before = buf@;
            let name = e.path.as_str().as_bytes();
            buf.push(e.kind.to_byte());
            let len_bytes = u32_to_le_bytes(name.len() as u32);
            push_bytes(&mut buf, len_bytes.as_slice());
            push_bytes(&mut buf, name);
            let size_bytes = u64_to_le_bytes(e.size);
            push_bytes(&mut buf, size_bytes.as_slice());
            push_bytes(&mut buf, e.sha256.as_slice());
            proof {
                assert(self@[i as int] == e@);
                assert(self@.take(i + 1).drop_last() == self@.take(i as int));
                assert(buf@ == before + entry_bytes(e@));
            }
            i += 1;
        }
        assert(self@.take(i as int) == self@);
        let crc = crc32_hash(buf.as_slice());
        let crc_bytes = u32_to_le_bytes(crc);
        push_bytes(&mut buf, crc_bytes.as_slice());
        buf
    }

    /// Append the manifest followed by the fixed trailer to `out`.
    pub fn write_to(&self, out: &mut Vec<u8>)
        ensures
            final(out)@ == old(out)@ + spec_manifest_with_trailer(self@),
    {
        let body = self.encode();
        push_bytes(out, body.as_slice());
        push_bytes(out, &END_MAGIC);
        let len_bytes = u64_to_le_bytes(body.len() as u64);
        push_bytes(out, len_bytes.as_slice());
    }
}

/// Read the record that starts at `pos`; `end` is where the records must stop.
fn parse_one(bytes: &[u8], pos: usize, end: usize) -> (r: Result<(Entry, usize), Fa10Error>)
    requires
        12 <= pos <= end <= bytes@.len(),
    ensures
        match (r, parse_entry(bytes@, pos as int, end as int)) {
            (Ok((e, next)), Ok((ev, snext))) => e@ == ev && next == snext,
            (Err(e), Err(ev)) => e@ == ev,
            _ => false,
        },
{
    if end - pos < ENTRY_FIXED as usize {
        return Err(Fa10Error::BadFormat(owned("truncated manifest entry")));
    }
    let kind = match EntryKind::from_byte(bytes[pos]) {
        Ok(k) => k,
        Err(e) => {
            return Err(e);
        },
    };
    let name_len = u32_from_le_bytes(&bytes[pos + 1..pos + 5]) as usize;
    if name_len > end - pos - ENTRY_FIXED as usize {
        return Err(Fa10Error::BadFormat(owned("manifest path overruns")));
    }
    let start = pos + 5;
    let after = start + name_len;
    let path = match string_from_utf8(&bytes[start..after]) {
        Some(p) => p,
        None => {
            return Err(Fa10Error::BadFilename);
        },
    };
    let size = u64_from_le_bytes(&bytes[after..after + 8]);
    let mut sha256 = [0u8; 32];
    let mut k: usize = 0;
    while k < 32
        invariant
            k <= 32,
            after + 40 <= end <= bytes@.len(),
            forall|j: int| 0 <= j < k ==> sha256@[j] == bytes@[after + 8 + j],
        decreases 32 - k,
    {
        sha256[k] = bytes[after + 8 + k];
        k += 1;
    }
    assert(sha256@ == bytes@.subrange(after + 8, after + 40));
    Ok((Entry { kind, path, size, sha256 }, after + 40))
}

/// Once reading the records has failed, reading more of them fails the same way.
pub proof fn lemma_parse_entries_error_persists(b: Seq<u8>, end: int, n: nat, m: nat)
    requires
        n <= m,
        parse_entries(b, end, n) is Err,
    ensures
        parse_entries(b, end, m) == parse_entries(b, end, n),
    decreases m,
{
    if m > n {
        lemma_parse_entries_error_persists(b, end, n, (m - 1) as nat);
    }
}

impl Manifest {
    /// Decode a manifest from its raw bytes, verifying magic and CRC32.
    pub fn decode(bytes: &[u8]) -> (r: Result<Manifest, Fa10Error>)
        ensures
            manifest_result_view(r) == spec_decode(bytes@),
    {
        if bytes.len() < MANIFEST_FIXED as usize {
            return Err(Fa10Error::BadFormat(owned("manifest too short")));
        }
        if !bytes_equal(&bytes[0..8], &MANIFEST_MAGIC) {
            return Err(Fa10Error::BadFormat(owned("missing manifest magic")));
        }
        let crc_at = bytes.len() - 4;

        // Reject an impossible entry count before reading any record: each
        // record needs at least `ENTRY_FIXED` bytes.
        let count = u32_from_le_bytes(&bytes[8..12]) as usize;
        let max_possible = (crc_at - 12) / ENTRY_FIXED as usize;
        if count > max_possible {
            return Err(Fa10Error::BadFormat(owned("manifest entry count out of range")));
        }

        let expected_crc = crc32_hash(&bytes[0..crc_at]);
        let stored_crc = u32_from_le_bytes(&bytes[crc_at..bytes.len()]);
        if expected_crc != stored_crc {
            return Err(Fa10Error::FooterCrcMismatch);
        }

        let mut pos: usize = 12;
        let mut entries: Vec<Entry> = Vec::new();
        let mut k: usize = 0;
        assert(entries@.map_values(|e: Entry| e@) =~= Seq::<EntryView>::empty());
        while k < count
            invariant
                k <= count,
                12 <= pos <= crc_at,
                crc_at + 4 == bytes@.len(),
                spec_decode(bytes@) == match parse_entries(bytes@, crc_at as int, count as nat) {
                    Err(e) => Err(e),
                    Ok((es, p)) => if p != crc_at as int {
                        Err(bad_format("trailing bytes in manifest"@))
                    } else {
                        Ok::<Seq<EntryView>, ErrorView>(es)
                    },
                },
                parse_entries(bytes@, crc_at as int, k as nat) == Ok::<(Seq<EntryView>, int), ErrorView>(
                    (entries@.map_values(|e: Entry| e@), pos as int),
                ),
            decreases count - k,
        {
            match parse_one(bytes, pos, crc_at) {
                Ok((e, next)) => {
                    proof {
                        assert(entries@.push(e).map_values(|e: Entry| e@) == entries@.map_values(
                            |e: Entry| e@,
                        ).push(e@));
                    }
                    entries.push(e);
                    pos = next;
                },
                Err(e) => {
                    proof {
                        assert(parse_entries(bytes@, crc_at as int, (k + 1) as nat)
                            == Err::<(Seq<EntryView>, int), ErrorView>(e@));
                        lemma_parse_entries_error_persists(
                            bytes@,
                            crc_at as int,
                            (k + 1) as nat,
                            count as nat,
                        );
                    }
                    return Err(e);
                },
            }
            k += 1;
        }
        if pos != crc_at {
            return Err(Fa10Error::BadFormat(owned("trailing bytes in manifest")));
        }
        Ok(Manifest { entries })
    }
}

/// The length of one record: the fixed part and the path bytes.
pub proof fn lemma_entry_bytes_len(e: EntryView)
    requires
        e.sha256.len() == 32,
    ensures
        entry_bytes(e).len() == ENTRY_FIXED + path_bytes(e).len(),
{
    lemma_auto_spec_u32_to_from_le_bytes();
    lemma_auto_spec_u64_to_from_le_bytes();
}

/// The records of a sequence take exactly `records_len` bytes.
pub proof fn lemma_entries_bytes_len(es: Seq<EntryView>)
    requires
        forall|i: int| 0 <= i < es.len() ==> #[trigger] es[i].sha256.len() == 32,
    ensures
        entries_bytes(es).len() == records_len(es),
        records_len(es) >= ENTRY_FIXED * es.len(),
    decreases es.len(),
{
    if es.len() > 0 {
        let init = es.drop_last();
        assert forall|i: int| 0 <= i < init.len() implies #[trigger] init[i].sha256.len() == 32 by {
            assert(init[i] == es[i]);
        }
        lemma_entries_bytes_len(init);
        lemma_entry_bytes_len(es.last());
    }
}

/// The records of a prefix of the entries are a prefix of the records.
pub proof fn lemma_entries_bytes_prefix(es: Seq<EntryView>, k: int)
    requires
        0 <= k <= es.len(),
    ensures
        entries_bytes(es).subrange(0, entries_bytes(es.take(k)).len() as int) == entries_bytes(
            es.take(k),
        ),
        entries_bytes(es.take(k)).len() <= entries_bytes(es).len(),
    decreases es.len(),
{
    if k == es.len() {
        assert(es.take(k) == es);
    } else {
        let init = es.drop_last();
        assert(init.take(k) == es.take(k));
        lemma_entries_bytes_prefix(init, k);
        assert(entries_bytes(es) == entries_bytes(init) + entry_bytes(es.last()));
    }
}

/// A record standing at `pos`, inside the record region, reads back as its entry.
pub proof fn lemma_parse_entry_at(b: Seq<u8>, pos: int, end: int, e: EntryView)
    requires
        0 <= pos,
        pos + entry_bytes(e).len() <= end,
        end <= b.len(),
        e.sha256.len() == 32,
        path_bytes(e).len() <= u32::MAX,
        b.subrange(pos, pos + entry_bytes(e).len()) == entry_bytes(e),
    ensures
        parse_entry(b, pos, end) == Ok::<(EntryView, int), ErrorView>(
            (e, pos + entry_bytes(e).len()),
        ),
{
    lemma_auto_spec_u32_to_from_le_bytes();
    lemma_auto_spec_u64_to_from_le_bytes();
    lemma_entry_bytes_len(e);
    let rec = entry_bytes(e);
    let pb = path_bytes(e);
    let n = pb.len() as int;
    assert(b[pos] == rec[0]);
    assert(b.subrange(pos + 1, pos + 5) == rec.subrange(1, 5));
    assert(rec.subrange(1, 5) == spec_u32_to_le_bytes(n as u32));
    assert(u32_at(b, pos + 1) == n);
    assert(b.subrange(pos + 5, pos + 5 + n) == rec.subrange(5, 5 + n));
    assert(rec.subrange(5, 5 + n) == pb);
    assert(b.subrange(pos + 5 + n, pos + 13 + n) == rec.subrange(5 + n, 13 + n));
    assert(rec.subrange(5 + n, 13 + n) == spec_u64_to_le_bytes(e.size));
    assert(b.subrange(pos + 13 + n, pos + 45 + n) == rec.subrange(13 + n, 45 + n));
    assert(rec.subrange(13 + n, 45 + n) == e.sha256);
    encode_utf8_valid_utf8(e.path);
    encode_utf8_decode_utf8(e.path);
    let parsed = EntryView {
        kind: kind_of_byte(b[pos]),
        path: decode_utf8(b.subrange(pos + 5, pos + 5 + n)),
        size: u64_at(b, pos + 5 + n),
        sha256: b.subrange(pos + 13 + n, pos + 45 + n),
    };
    assert(parsed == e);
}

/// Reading the first `k` records of an encoded manifest gives the first `k` entries.
pub proof fn lemma_parse_entries_of_encode(es: Seq<EntryView>, k: nat)
    requires
        k <= es.len(),
        encodable(es),
    ensures
        parse_entries(spec_encode(es), manifest_body(es).len() as int, k) == Ok::<
            (Seq<EntryView>, int),
            ErrorView,
        >((es.take(k as int), 12 + entries_bytes(es.take(k as int)).len() as int)),
    decreases k,
{
    lemma_auto_spec_u32_to_from_le_bytes();
    let b = spec_encode(es);
    let end = manifest_body(es).len() as int;
    if k == 0 {
        assert(es.take(0) == Seq::<EntryView>::empty());
    } else {
        let j = (k - 1) as int;
        lemma_parse_entries_of_encode(es, (k - 1) as nat);
        let pos = 12 + entries_bytes(es.take(j)).len() as int;
        let e = es[j];
        let elen = entry_bytes(e).len() as int;
        assert(es.take(k as int).drop_last() == es.take(j));
        assert(es.take(k as int).last() == e);
        let eb_k = entries_bytes(es.take(k as int));
        assert(eb_k == entries_bytes(es.take(j)) + entry_bytes(e));
        lemma_entries_bytes_prefix(es, k as int);
        let all = entries_bytes(es);
        assert(b == MANIFEST_MAGIC@ + spec_u32_to_le_bytes(es.len() as u32) + all
            + spec_u32_to_le_bytes(crc32(manifest_body(es))));
        assert(b.subrange(12, 12 + all.len() as int) == all);
        assert(all.subrange(0, eb_k.len() as int) == eb_k);
        assert(b.subrange(pos, pos + elen) == entry_bytes(e)) by {
            assert(b.subrange(pos, pos + elen) == all.subrange(pos - 12, pos - 12 + elen));
            assert(all.subrange(pos - 12, pos - 12 + elen) == eb_k.subrange(
                pos - 12,
                eb_k.len() as int,
            ));
        }
        assert(path_bytes(es[j]).len() <= u32::MAX);
        assert(es[j].sha256.len() == 32);
        lemma_parse_entry_at(b, pos, end, e);
        assert(es.take(j).push(e) == es.take(k as int));
        assert(pos + elen == 12 + eb_k.len());
    }
}

/// Decoding an encoded manifest gives back exactly its entries.
pub proof fn lemma_decode_encode(es: Seq<EntryView>)
    requires
        encodable(es),
    ensures
        spec_decode(spec_encode(es)) == Ok::<Seq<EntryView>, ErrorView>(es),
{
    lemma_auto_spec_u32_to_from_le_bytes();
    let b = spec_encode(es);
    let body = manifest_body(es);
    let end = body.len() as int;
    let all = entries_bytes(es);
    lemma_entries_bytes_len(es);
    assert(b.subrange(0, 8) == MANIFEST_MAGIC@);
    assert(b.subrange(8, 12) == spec_u32_to_le_bytes(es.len() as u32));
    assert(u32_at(b, 8) == es.len());
    assert(b.subrange(0, end) == body);
    assert(b.subrange(end, end + 4) == spec_u32_to_le_bytes(crc32(body)));
    assert(end - 12 == all.len());
    assert((end - 12) / (ENTRY_FIXED as int) >= es.len()) by (nonlinear_arith)
        requires
            end - 12 >= ENTRY_FIXED * es.len(),
    ;
    lemma_parse_entries_of_encode(es, es.len());
    assert(es.take(es.len() as int) == es);
}

/// The encoded manifest is exactly `spec_encoded_len` bytes long.
pub proof fn lemma_encode_len(es: Seq<EntryView>)
    requires
        forall|i: int| 0 <= i < es.len() ==> #[trigger] es[i].sha256.len() == 32,
    ensures
        spec_encode(es).len() == spec_encoded_len(es),
{
    lemma_auto_spec_u32_to_from_le_bytes();
    lemma_entries_bytes_len(es);
}

/// Where the manifest of an archive of `file_len` bytes sits, read from the
/// archive's last 16 bytes: its offset and its length, or the error.
pub open spec fn spec_manifest_range(file_len: int, trailer: Seq<u8>) -> Result<(int, int), ErrorView> {
    if file_len < 8 + TRAILER_LEN {
        Err(bad_format("file too short to be an fa10 archive"@))
    } else if trailer.subrange(0, 8) != END_MAGIC@ {
        Err(bad_format("missing end magic"@))
    } else {
        let manifest_len = u64_at(trailer, 8) as int;
        if manifest_len < MANIFEST_FIXED || manifest_len > file_len - TRAILER_LEN - 8 {
            Err(bad_format("implausible manifest length"@))
        } else {
            Ok((file_len - TRAILER_LEN - manifest_len, manifest_len))
        }
    }
}

/// The last 16 bytes of `b` (or nothing, when it is shorter than a header and a trailer).
pub open spec fn trailer_of(b: Seq<u8>) -> Seq<u8> {
    if b.len() >= 8 + TRAILER_LEN {
        b.subrange(b.len() - TRAILER_LEN, b.len() as int)
    } else {
        seq![]
    }
}

/// What reverse-reading the manifest of the archive bytes `b` gives.
pub open spec fn spec_read_from(b: Seq<u8>) -> Result<Seq<EntryView>, ErrorView> {
    match spec_manifest_range(b.len() as int, trailer_of(b)) {
        Err(e) => Err(e),
        Ok((start, len)) => spec_decode(b.subrange(start, start + len)),
    }
}

/// What checking the header magic of `b` gives.
pub open spec fn spec_check_header(b: Seq<u8>) -> Result<(), ErrorView> {
    if b.len() < 8 {
        Err(ErrorView::Io("failed to fill whole buffer"@))
    } else if b.subrange(0, 8) != HEADER_MAGIC@ {
        Err(bad_format("missing FA10ARC header magic"@))
    } else {
        Ok(())
    }
}

/// Locate the manifest of an archive of `file_len` bytes from its trailer
/// (the archive's last 16 bytes, which are only read when the archive is
/// long enough to hold a header and a trailer).
pub fn manifest_range(file_len: u64, trailer: &[u8]) -> (r: Result<(u64, u64), Fa10Error>)
    requires
        file_len >= 8 + TRAILER_LEN ==> trailer@.len() == TRAILER_LEN,
    ensures
        match (r, spec_manifest_range(file_len as int, trailer@)) {
            (Ok((start, len)), Ok((s, l))) => start == s && len == l,
            (Err(e), Err(ev)) => e@ == ev,
            _ => false,
        },
{
    if file_len < HEADER_MAGIC.len() as u64 + TRAILER_LEN {
        return Err(Fa10Error::BadFormat(owned("file too short to be an fa10 archive")));
    }
    if !bytes_equal(&trailer[0..8], &END_MAGIC) {
        return Err(Fa10Error::BadFormat(owned("missing end magic")));
    }
    let manifest_len = u64_from_le_bytes(&trailer[8..16]);
    // `file_len >= HEADER + TRAILER` is checked above, so this subtraction
    // cannot underflow and the comparison cannot overflow.
    let max_manifest = file_len - TRAILER_LEN - HEADER_MAGIC.len() as u64;
    if manifest_len < MANIFEST_FIXED || manifest_len > max_manifest {
        return Err(Fa10Error::BadFormat(owned("implausible manifest length")));
    }
    Ok((file_len - TRAILER_LEN - manifest_len, manifest_len))
}

impl Manifest {
    /// Reverse-read the manifest of an archive held in memory: find it through
    /// the trailer, then decode it.
    pub fn read_from(archive: &[u8]) -> (r: Result<Manifest, Fa10Error>)
        ensures
            manifest_result_view(r) == spec_read_from(archive@),
    {
        let file_len = archive.len();
        let trailer = if file_len >= 8 + TRAILER_LEN as usize {
            &archive[file_len - TRAILER_LEN as usize..file_len]
        } else {
            &archive[0..0]
        };
        proof {
            assert(trailer@ == trailer_of(archive@));
        }
        let (start, len) = match manifest_range(file_len as u64, trailer) {
            Ok(range) => range,
            Err(e) => {
                return Err(e);
            },
        };
        Manifest::decode(&archive[start as usize..(start + len) as usize])
    }
}

/// Verify the 8-byte header magic at the start of `bytes`.
pub fn check_header(bytes: &[u8]) -> (r: Result<(), Fa10Error>)
    ensures
        err_view(r) == spec_check_header(bytes@),
{
    if bytes.len() < 8 {
        return Err(Fa10Error::Io(owned("failed to fill whole buffer")));
    }
    if !bytes_equal(&bytes[0..8], &HEADER_MAGIC) {
        return Err(Fa10Error::BadFormat(owned("missing FA10ARC header magic")));
    }
    Ok(())
}

/// Every entry of a manifest carries a 32-byte digest.
pub proof fn lemma_manifest_digests(m: &Manifest)
    ensures
        forall|i: int| 0 <= i < m@.len() ==> #[trigger] m@[i].sha256.len() == 32,
{
    assert forall|i: int| 0 <= i < m@.len() implies #[trigger] m@[i].sha256.len() == 32 by {
        assert(m@[i] == m.entries@[i]@);
    }
}

/// The manifest's entry count and path lengths fit the format's 32-bit fields.
pub open spec fn fits_format(m: &Manifest) -> bool {
    &&& m@.len() <= u32::MAX
    &&& forall|i: int| 0 <= i < m@.len() ==> #[trigger] path_bytes(m@[i]).len() <= u32::MAX
}

/// Law: decoding the bytes that `encode` produces gives back the manifest,
/// and those bytes are exactly `encoded_len` long.
pub proof fn law_manifest_roundtrip(m: &Manifest)
    requires
        fits_format(m),
    ensures
        spec_decode(spec_encode(m@)) == Ok::<Seq<EntryView>, ErrorView>(m@),
        spec_encode(m@).len() == spec_encoded_len(m@),
{
    lemma_manifest_digests(m);
    lemma_decode_encode(m@);
    lemma_encode_len(m@);
}

/// Law: whatever stands before it (at least a header's worth of bytes), a
/// manifest written with `write_to` is found through the trailer and read back whole.
pub proof fn law_read_back(prefix: Seq<u8>, m: &Manifest)
    requires
        prefix.len() >= 8,
        fits_format(m),
        spec_encoded_len(m@) <= u64::MAX,
    ensures
        spec_read_from(prefix + spec_manifest_with_trailer(m@)) == Ok::<Seq<EntryView>, ErrorView>(
            m@,
        ),
{
    lemma_manifest_digests(m);
    lemma_read_back(prefix, m@);
}

/// Entries written after at least a header's worth of bytes, as `write_to`
/// writes them, are found through the trailer and read back whole.
pub proof fn lemma_read_back(prefix: Seq<u8>, es: Seq<EntryView>)
    requires
        prefix.len() >= 8,
        encodable(es),
        spec_encoded_len(es) <= u64::MAX,
    ensures
        spec_read_from(prefix + spec_manifest_with_trailer(es)) == Ok::<Seq<EntryView>, ErrorView>(
            es,
        ),
{
    lemma_auto_spec_u64_to_from_le_bytes();
    lemma_decode_encode(es);
    lemma_encode_len(es);
    let enc = spec_encode(es);
    let b = prefix + spec_manifest_with_trailer(es);
    let n = b.len() as int;
    assert(n == prefix.len() + enc.len() + 16);
    let t = trailer_of(b);
    assert(t == END_MAGIC@ + spec_u64_to_le_bytes(enc.len() as u64));
    assert(t.subrange(0, 8) == END_MAGIC@);
    assert(t.subrange(8, 16) == spec_u64_to_le_bytes(enc.len() as u64));
    assert(u64_at(t, 8) == enc.len());
    let start = n - 16 - enc.len();
    assert(b.subrange(start, start + enc.len()) == enc);
}

/// Sizes summed over a prefix never exceed the sum over the whole sequence.
pub proof fn lemma_payload_prefix_monotone(es: Seq<EntryView>, k: int)
    requires
        0 <= k <= es.len(),
    ensures
        spec_payload_size(es.take(k)) <= spec_payload_size(es),
    decreases es.len(),
{
    if k < es.len() {
        assert(es.drop_last().take(k) == es.take(k));
        lemma_payload_prefix_monotone(es.drop_last(), k);
    } else {
        assert(es.take(k) == es);
    }
}

/// Record lengths summed over a prefix never exceed the sum over the whole sequence.
pub proof fn lemma_records_prefix_monotone(es: Seq<EntryView>, k: int)
    requires
        0 <= k <= es.len(),
    ensures
        records_len(es.take(k)) <= records_len(es),
    decreases es.len(),
{
    if k < es.len() {
        assert(es.drop_last().take(k) == es.take(k));
        lemma_records_prefix_monotone(es.drop_last(), k);
    } else {
        assert(es.take(k) == es);
    }
}


/// A record that reads back is exactly the encoding of the entry it gives.
pub proof fn lemma_parse_entry_canonical(b: Seq<u8>, pos: int, end: int)
    requires
        0 <= pos,
        end <= b.len(),
        parse_entry(b, pos, end) is Ok,
    ensures
        ({
            let (e, next) = parse_entry(b, pos, end)->Ok_0;
            &&& pos < next <= end
            &&& b.subrange(pos, next) == entry_bytes(e)
            &&& e.sha256.len() == 32
            &&& path_bytes(e).len() <= u32::MAX
        }),
{
    lemma_auto_spec_u32_to_from_le_bytes();
    lemma_auto_spec_u64_to_from_le_bytes();
    let (e, next) = parse_entry(b, pos, end)->Ok_0;
    let n = u32_at(b, pos + 1) as int;
    let start = pos + 5;
    let after = start + n;
    let name = b.subrange(start, after);
    decode_utf8_encode_utf8(name);
    assert(path_bytes(e) == name);
    assert(kind_byte(e.kind) == b[pos]);
    assert(spec_u32_to_le_bytes(n as u32) == b.subrange(pos + 1, pos + 5));
    assert(spec_u64_to_le_bytes(e.size) == b.subrange(after, after + 8));
    assert(b.subrange(pos, next) =~= seq![b[pos]] + b.subrange(pos + 1, pos + 5) + name
        + b.subrange(after, after + 8) + b.subrange(after + 8, after + 40));
}

/// The records that read back are exactly the encoding of the entries they give.
pub proof fn lemma_parse_entries_canonical(b: Seq<u8>, end: int, n: nat)
    requires
        12 <= end <= b.len(),
        parse_entries(b, end, n) is Ok,
    ensures
        ({
            let (es, pos) = parse_entries(b, end, n)->Ok_0;
            &&& es.len() == n
            &&& 12 <= pos <= end
            &&& b.subrange(12, pos) == entries_bytes(es)
            &&& forall|i: int| 0 <= i < es.len() ==> #[trigger] es[i].sha256.len() == 32
            &&& forall|i: int| 0 <= i < es.len() ==> #[trigger] path_bytes(es[i]).len() <= u32::MAX
        }),
    decreases n,
{
    if n == 0 {
        assert(b.subrange(12, 12) =~= Seq::<u8>::empty());
    } else {
        lemma_parse_entries_canonical(b, end, (n - 1) as nat);
        let (prev, p) = parse_entries(b, end, (n - 1) as nat)->Ok_0;
        lemma_parse_entry_canonical(b, p, end);
        let (e, next) = parse_entry(b, p, end)->Ok_0;
        let es = prev.push(e);
        assert(es.drop_last() == prev);
        assert(es.last() == e);
        assert(b.subrange(12, next) =~= b.subrange(12, p) + b.subrange(p, next));
        assert forall|i: int| 0 <= i < es.len() implies #[trigger] es[i].sha256.len() == 32 by {
            if i < prev.len() {
                assert(es[i] == prev[i]);
            }
        }
        assert forall|i: int| 0 <= i < es.len() implies #[trigger] path_bytes(es[i]).len()
            <= u32::MAX by {
            if i < prev.len() {
                assert(es[i] == prev[i]);
            }
        }
    }
}

/// Law: decoding accepts only the canonical encoding. Whatever bytes
/// decode to a manifest are exactly the bytes that encoding it gives, so
/// encoding undoes decoding (and distinct manifests never share bytes).
pub proof fn law_decode_canonical(b: Seq<u8>)
    requires
        spec_decode(b) is Ok,
    ensures
        spec_encode(spec_decode(b)->Ok_0) == b,
{
    lemma_auto_spec_u32_to_from_le_bytes();
    let end = b.len() - 4;
    let count = u32_at(b, 8);
    lemma_parse_entries_canonical(b, end, count as nat);
    let es = spec_decode(b)->Ok_0;
    assert(spec_u32_to_le_bytes(es.len() as u32) == b.subrange(8, 12));
    let body = manifest_body(es);
    assert(body =~= b.subrange(0, end)) by {
        assert(b.subrange(0, end) =~= b.subrange(0, 8) + b.subrange(8, 12) + b.subrange(12, end));
    }
    assert(spec_u32_to_le_bytes(crc32(body)) == b.subrange(end, end + 4));
    assert(spec_encode(es) =~= b.subrange(0, end) + b.subrange(end, end + 4));
    assert(b.subrange(0, end) + b.subrange(end, end + 4) =~= b);
}

} // verus!
