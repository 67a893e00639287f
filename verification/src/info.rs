//! The `info` operation: inspect a `.fa10` archive's manifest without extracting.
//!
//! Reading the header, the trailer and the manifest is the caller's part
//! (see [`crate::format`]); this module sums up what they hold.
use vstd::prelude::*;

use crate::format::{spec_encoded_len, spec_payload_size, Entry, EntryView, Manifest, TRAILER_LEN};
use crate::text::{owned, string_of_chars};

verus! {

/// Metadata describing a `.fa10` archive. (The size multiplier, a ratio of
/// two of these sizes, is left to the caller.)
#[derive(Debug, Clone)]
pub struct Fa10Info {
    pub path: String,
    pub total_size: u64,
    pub payload_size: u64,
    pub padding_size: u64,
    pub manifest_size: u64,
    pub entry_count: usize,
    pub entries: Vec<Entry>,
}

/// The padding of an archive of `total_size` bytes with these entries: what
/// is left once header, contents, manifest and trailer are taken out, or
/// nothing when they do not fit.
pub open spec fn spec_padding_size(es: Seq<EntryView>, total_size: int) -> int {
    let used = 8 + spec_encoded_len(es) + TRAILER_LEN + spec_payload_size(es);
    if total_size >= used {
        total_size - used
    } else {
        0
    }
}

/// Sum up an archive of `total_size` bytes at `path` from its manifest.
pub fn summarize(path: &str, manifest: Manifest, total_size: u64) -> (info: Fa10Info)
    requires
        spec_payload_size(manifest@) <= u64::MAX,
        spec_encoded_len(manifest@) + TRAILER_LEN <= u64::MAX,
    ensures
        info.path@ == path@,
        info.total_size == total_size,
        info.payload_size == spec_payload_size(manifest@),
        info.padding_size == spec_padding_size(manifest@, total_size as int),
        info.manifest_size == spec_encoded_len(manifest@) + TRAILER_LEN,
        info.entry_count == manifest@.len(),
        info.entries@.map_values(|e: Entry| e@) == manifest@,
{
    let payload_size = manifest.payload_size();
    let manifest_len = manifest.encoded_len();
    // overhead + payload may exceed a u64; then nothing is left for padding.
    let padding_size = if manifest_len > total_size || total_size - manifest_len < 24
        || total_size - manifest_len - 24 < payload_size {
        0
    } else {
        total_size - manifest_len - 24 - payload_size
    };
    let entry_count = manifest.entries.len();
    Fa10Info {
        path: owned(path),
        total_size,
        payload_size,
        padding_size,
        manifest_size: manifest_len + TRAILER_LEN,
        entry_count,
        entries: manifest.entries,
    }
}


/// The lower-case hexadecimal digit for `d`, which is below sixteen.
pub open spec fn hex_digit(d: nat) -> char {
    if d < 10 {
        (d + 48) as char
    } else {
        (d + 87) as char
    }
}

/// Two lower-case hexadecimal digits per byte, most significant first.
pub open spec fn hex_chars(b: Seq<u8>) -> Seq<char>
    decreases b.len(),
{
    if b.len() == 0 {
        seq![]
    } else {
        hex_chars(b.drop_last()) + seq![hex_digit((b.last() / 16) as nat), hex_digit((b.last() % 16) as nat)]
    }
}

fn hex_digit_char(d: u8) -> (c: char)
    requires
        d < 16,
    ensures
        c == hex_digit(d as nat),
{
    if d < 10 {
        (d + 48) as char
    } else {
        (d + 87) as char
    }
}

/// The bytes (a digest, say) in lower-case hexadecimal.
pub fn to_hex(bytes: &[u8]) -> (s: String)
    ensures
        s@ == hex_chars(bytes@),
{
    let mut chars: Vec<char> = Vec::new();
    let mut i: usize = 0;
    while i < bytes.len()
        invariant
            i <= bytes@.len(),
            chars@ == hex_chars(bytes@.take(i as int)),
        decreases bytes@.len() - i,
    {
        let b = bytes[i];
        let ghost before = chars@;
        chars.push(hex_digit_char(b / 16));
        chars.push(hex_digit_char(b % 16));
        assert(bytes@.take(i + 1).drop_last() == bytes@.take(i as int));
        assert(bytes@.take(i + 1).last() == b);
        assert(chars@ == before + seq![hex_digit((b / 16) as nat), hex_digit((b % 16) as nat)]);
        i += 1;
    }
    assert(bytes@.take(bytes@.len() as int) == bytes@);
    string_of_chars(&chars)
}

} // verus!
