//! Turn the entries found under the inputs (files and directories) into a
//! sorted, de-duplicated list of archive entries.
//!
//! Walking the file system is the caller's part: it hands over every entry it
//! found, in the order it found them, and this module checks and orders them.
use vstd::prelude::*;
use vstd::utf8::*;

use crate::error::{ErrorView, Fa10Error};
use crate::format::EntryKind;
use crate::paths::{chars_equal, components, components_of, is_named};
use crate::text::{owned, str_is, string_of_chars};

verus! {

broadcast use group_utf8_lib;

/// One entry to be packed: where to read it from and how to record it.
#[derive(Debug, Clone)]
pub struct PendingEntry {
    pub kind: EntryKind,
    /// Relative, `/`-separated archive path.
    pub stored_path: String,
    /// Source path on disk (unused for `EmptyDir`).
    pub fs_path: String,
    pub size: u64,
}

/// The mathematical value of a [`PendingEntry`].
pub struct PendingView {
    pub kind: EntryKind,
    pub stored_path: Seq<char>,
    pub fs_path: Seq<char>,
    pub size: u64,
}

impl View for PendingEntry {
    type V = PendingView;

    open spec fn view(&self) -> PendingView {
        PendingView {
            kind: self.kind,
            stored_path: self.stored_path@,
            fs_path: self.fs_path@,
            size: self.size,
        }
    }
}

/// The archive name of a top-level input: its final component when that is a
/// plain name, as `Path::file_name` returns it, or empty (for `.`, `..`, or a
/// root).
pub open spec fn spec_base_name(path: Seq<char>) -> Seq<char> {
    let cs = components(path);
    if cs.len() > 0 && is_named(cs.last()) && cs.last() != seq!['/'] && cs.last() != seq!['.', '.'] {
        cs.last()
    } else {
        seq![]
    }
}

/// The archive path component for a top-level input: its final path
/// component, or empty when there is none (e.g. `.` or a filesystem root).
pub fn base_name(path: &str) -> (name: String)
    ensures
        name@ == spec_base_name(path@),
{
    let cs = components_of(path);
    let n = cs.len();
    if n == 0 {
        return String::new();
    }
    let last = &cs[n - 1];
    assert(last@ == components(path@).last());
    let named = last.len() > 0 && !(last.len() == 1 && last[0] == '.');
    let is_root = last.len() == 1 && last[0] == '/';
    let is_parent = last.len() == 2 && last[0] == '.' && last[1] == '.';
    proof {
        if last@.len() == 1 {
            assert(last@ == seq!['.'] <==> last@[0] == '.') by {
                if last@[0] == '.' {
                    assert(last@ =~= seq!['.']);
                }
            }
            assert(last@ == seq!['/'] <==> last@[0] == '/') by {
                if last@[0] == '/' {
                    assert(last@ =~= seq!['/']);
                }
            }
        }
        if last@.len() == 2 {
            assert(last@ == seq!['.', '.'] <==> (last@[0] == '.' && last@[1] == '.')) by {
                if last@[0] == '.' && last@[1] == '.' {
                    assert(last@ =~= seq!['.', '.']);
                }
            }
        }
        assert(named == is_named(last@));
        assert(is_root == (last@ == seq!['/']));
        assert(is_parent == (last@ == seq!['.', '.']));
    }
    if named && !is_root && !is_parent {
        string_of_chars(last)
    } else {
        String::new()
    }
}

/// The archive path of `name` inside the directory stored as `prefix`.
pub open spec fn spec_join_stored(prefix: Seq<char>, name: Seq<char>) -> Seq<char> {
    if prefix.len() == 0 {
        name
    } else {
        prefix + seq!['/'] + name
    }
}

/// The archive path of `name` inside the directory stored as `prefix`.
pub fn join_stored(prefix: &str, name: &str) -> (r: String)
    ensures
        r@ == spec_join_stored(prefix@, name@),
{
    if prefix.unicode_len() == 0 {
        owned(name)
    } else {
        let mut s = owned(prefix);
        s.append("/");
        proof {
            reveal_strlit("/");
        }
        s.append(name);
        s
    }
}

/// Byte-wise lexicographic order, the order of `String`'s `Ord`.
pub open spec fn lex_lt(a: Seq<u8>, b: Seq<u8>) -> bool
    decreases a.len(),
{
    if a.len() == 0 {
        b.len() > 0
    } else if b.len() == 0 {
        false
    } else if a[0] != b[0] {
        a[0] < b[0]
    } else {
        lex_lt(a.drop_first(), b.drop_first())
    }
}

/// Nothing is lexicographically below itself.
pub proof fn lemma_lex_irreflexive(a: Seq<u8>)
    ensures
        !lex_lt(a, a),
    decreases a.len(),
{
    if a.len() > 0 {
        lemma_lex_irreflexive(a.drop_first());
    }
}

/// The lexicographic order is asymmetric.
pub proof fn lemma_lex_asymmetric(a: Seq<u8>, b: Seq<u8>)
    requires
        lex_lt(a, b),
    ensures
        !lex_lt(b, a),
    decreases a.len(),
{
    if a.len() > 0 && b.len() > 0 && a[0] == b[0] {
        lemma_lex_asymmetric(a.drop_first(), b.drop_first());
    }
}

/// The lexicographic order is transitive.
pub proof fn lemma_lex_transitive(a: Seq<u8>, b: Seq<u8>, c: Seq<u8>)
    requires
        lex_lt(a, b),
        lex_lt(b, c),
    ensures
        lex_lt(a, c),
    decreases a.len(),
{
    if a.len() > 0 && b.len() > 0 && c.len() > 0 && a[0] == b[0] && b[0] == c[0] {
        lemma_lex_transitive(a.drop_first(), b.drop_first(), c.drop_first());
    }
}

/// Two different sequences are ordered one way or the other.
pub proof fn lemma_lex_total(a: Seq<u8>, b: Seq<u8>)
    requires
        a != b,
    ensures
        lex_lt(a, b) || lex_lt(b, a),
    decreases a.len(),
{
    if a.len() > 0 && b.len() > 0 && a[0] == b[0] {
        if a.drop_first() == b.drop_first() {
            assert(a.drop_first().len() == b.drop_first().len());
            assert(a.len() == b.len());
            assert(a =~= b) by {
                assert forall|i: int| 0 <= i < a.len() implies a[i] == b[i] by {
                    if i > 0 {
                        assert(a[i] == a.drop_first()[i - 1]);
                        assert(b[i] == b.drop_first()[i - 1]);
                    }
                }
            }
        }
        lemma_lex_total(a.drop_first(), b.drop_first());
    } else if a.len() == 0 && b.len() == 0 {
        assert(a =~= b);
    }
}

/// Whether `a` comes before `b` byte-wise.
pub fn bytes_lt(a: &[u8], b: &[u8]) -> (r: bool)
    ensures
        r == lex_lt(a@, b@),
{
    let mut i: usize = 0;
    assert(a@.skip(0) == a@ && b@.skip(0) == b@);
    while i < a.len() && i < b.len() && a[i] == b[i]
        invariant
            i <= a@.len(),
            i <= b@.len(),
            lex_lt(a@, b@) == lex_lt(a@.skip(i as int), b@.skip(i as int)),
        decreases a@.len() - i,
    {
        assert(a@.skip(i as int).drop_first() == a@.skip(i + 1));
        assert(b@.skip(i as int).drop_first() == b@.skip(i + 1));
        i += 1;
    }
    if i == a.len() {
        i < b.len()
    } else if i == b.len() {
        false
    } else {
        assert(a@.skip(i as int)[0] == a@[i as int]);
        assert(b@.skip(i as int)[0] == b@[i as int]);
        a[i] < b[i]
    }
}

/// Index `i` comes no later than index `j` when ordering by key, then by index.
pub open spec fn idx_le(keys: Seq<Seq<u8>>, i: usize, j: usize) -> bool {
    lex_lt(keys[i as int], keys[j as int]) || (keys[i as int] == keys[j as int] && i <= j)
}

/// The indices are ordered by key, then by index.
pub open spec fn idx_sorted(keys: Seq<Seq<u8>>, s: Seq<usize>) -> bool {
    forall|a: int, b: int| 0 <= a < b < s.len() ==> idx_le(keys, #[trigger] s[a], #[trigger] s[b])
}

/// Every index is in range for `keys`.
pub open spec fn idx_in_range(keys: Seq<Seq<u8>>, s: Seq<usize>) -> bool {
    forall|a: int| 0 <= a < s.len() ==> #[trigger] s[a] < keys.len()
}

/// The keys of byte slices, as sequences.
pub open spec fn key_seqs(keys: Seq<&[u8]>) -> Seq<Seq<u8>> {
    keys.map_values(|k: &[u8]| k@)
}

/// The index order is transitive.
pub proof fn lemma_idx_le_transitive(keys: Seq<Seq<u8>>, i: usize, j: usize, k: usize)
    requires
        idx_le(keys, i, j),
        idx_le(keys, j, k),
    ensures
        idx_le(keys, i, k),
{
    if lex_lt(keys[i as int], keys[j as int]) && lex_lt(keys[j as int], keys[k as int]) {
        lemma_lex_transitive(keys[i as int], keys[j as int], keys[k as int]);
    }
}

/// Any two indices are ordered one way or the other.
pub proof fn lemma_idx_le_total(keys: Seq<Seq<u8>>, i: usize, j: usize)
    ensures
        idx_le(keys, i, j) || idx_le(keys, j, i),
{
    if keys[i as int] != keys[j as int] {
        lemma_lex_total(keys[i as int], keys[j as int]);
    }
}

/// Whether index `i` comes no later than index `j`.
fn idx_le_exec(keys: &Vec<&[u8]>, i: usize, j: usize) -> (r: bool)
    requires
        i < keys@.len(),
        j < keys@.len(),
    ensures
        r == idx_le(key_seqs(keys@), i, j),
{
    let a = keys[i];
    let b = keys[j];
    assert(key_seqs(keys@)[i as int] == a@);
    assert(key_seqs(keys@)[j as int] == b@);
    bytes_lt(a, b) || (crate::text::bytes_equal(a, b) && i <= j)
}

/// Merge two ordered index lists into one.
fn merge(a: Vec<usize>, b: Vec<usize>, keys: &Vec<&[u8]>) -> (r: Vec<usize>)
    requires
        idx_sorted(key_seqs(keys@), a@),
        idx_sorted(key_seqs(keys@), b@),
        idx_in_range(key_seqs(keys@), a@),
        idx_in_range(key_seqs(keys@), b@),
    ensures
        idx_sorted(key_seqs(keys@), r@),
        idx_in_range(key_seqs(keys@), r@),
        r@.to_multiset() == a@.to_multiset().add(b@.to_multiset()),
{
    broadcast use {vstd::seq_lib::group_to_multiset_ensures, vstd::multiset::group_multiset_axioms};

    let ghost ks = key_seqs(keys@);
    let mut out: Vec<usize> = Vec::new();
    let mut i: usize = 0;
    let mut j: usize = 0;
    assert(a@.take(0) == Seq::<usize>::empty());
    assert(b@.take(0) == Seq::<usize>::empty());
    while i < a.len() || j < b.len()
        invariant
            ks == key_seqs(keys@),
            ks.len() == keys@.len(),
            i <= a@.len(),
            j <= b@.len(),
            idx_sorted(ks, a@),
            idx_sorted(ks, b@),
            idx_in_range(ks, a@),
            idx_in_range(ks, b@),
            idx_sorted(ks, out@),
            idx_in_range(ks, out@),
            out@.to_multiset() == a@.take(i as int).to_multiset().add(b@.take(j as int).to_multiset()),
            out@.len() > 0 && i < a@.len() ==> idx_le(ks, out@.last(), a@[i as int]),
            out@.len() > 0 && j < b@.len() ==> idx_le(ks, out@.last(), b@[j as int]),
        decreases a@.len() + b@.len() - i - j,
    {
        let take_a = if j == b.len() {
            true
        } else if i == a.len() {
            false
        } else {
            idx_le_exec(keys, a[i], b[j])
        };
        let ghost before = out@;
        let x = if take_a {
            a[i]
        } else {
            b[j]
        };
        proof {
            if !take_a && i < a@.len() {
                lemma_idx_le_total(ks, a@[i as int], b@[j as int]);
            }
            assert forall|p: int, q: int| 0 <= p < q < before.len() + 1 implies idx_le(
                ks,
                #[trigger] before.push(x)[p],
                #[trigger] before.push(x)[q],
            ) by {
                if q == before.len() {
                    if p < before.len() - 1 {
                        assert(idx_le(ks, before[p], before[before.len() - 1]));
                        lemma_idx_le_transitive(ks, before[p], before.last(), x);
                    }
                } else {
                    assert(before.push(x)[p] == before[p]);
                    assert(before.push(x)[q] == before[q]);
                }
            }
        }
        out.push(x);
        proof {
            vstd::seq_lib::to_multiset_build(before, x);
        }
        if take_a {
            assert(a@.take(i + 1) == a@.take(i as int).push(a@[i as int]));
            proof {
                vstd::seq_lib::to_multiset_build(a@.take(i as int), x);
                assert(out@.to_multiset() =~= a@.take(i + 1).to_multiset().add(
                    b@.take(j as int).to_multiset(),
                ));
            }
            proof {
                if i + 1 < a@.len() {
                    assert(idx_le(ks, a@[i as int], a@[i + 1]));
                }
            }
            i += 1;
        } else {
            assert(b@.take(j + 1) == b@.take(j as int).push(b@[j as int]));
            proof {
                vstd::seq_lib::to_multiset_build(b@.take(j as int), x);
                assert(out@.to_multiset() =~= a@.take(i as int).to_multiset().add(
                    b@.take(j + 1).to_multiset(),
                ));
            }
            proof {
                if j + 1 < b@.len() {
                    assert(idx_le(ks, b@[j as int], b@[j + 1]));
                }
            }
            j += 1;
        }
    }
    assert(a@.take(i as int) == a@);
    assert(b@.take(j as int) == b@);
    out
}

/// Order indices by key, then by index.
fn sort_indices(v: Vec<usize>, keys: &Vec<&[u8]>) -> (r: Vec<usize>)
    requires
        idx_in_range(key_seqs(keys@), v@),
    ensures
        idx_sorted(key_seqs(keys@), r@),
        idx_in_range(key_seqs(keys@), r@),
        r@.to_multiset() == v@.to_multiset(),
    decreases v@.len(),
{
    broadcast use {vstd::seq_lib::group_to_multiset_ensures, vstd::multiset::group_multiset_axioms};

    if v.len() <= 1 {
        return v;
    }
    let mid = v.len() / 2;
    let mut left = v;
    let ghost whole = left@;
    let right = left.split_off(mid);
    assert(whole == left@ + right@);
    proof {
        vstd::seq_lib::lemma_multiset_commutative(left@, right@);
    }
    let l = sort_indices(left, keys);
    let r = sort_indices(right, keys);
    merge(l, r, keys)
}

/// The archive paths of the pending entries.
pub open spec fn stored_paths(es: Seq<PendingView>) -> Seq<Seq<char>> {
    es.map_values(|e: PendingView| e.stored_path)
}

/// The views of pending entries.
pub open spec fn pending_views(es: Seq<PendingEntry>) -> Seq<PendingView> {
    es.map_values(|e: PendingEntry| e@)
}

/// The path at `j` repeats one found before it.
pub open spec fn repeats_earlier(paths: Seq<Seq<char>>, j: int) -> bool {
    exists|i: int| 0 <= i < j && paths[i] == paths[j]
}

/// `j` is the first position whose path repeats an earlier one.
pub open spec fn is_first_repeat(paths: Seq<Seq<char>>, j: int) -> bool {
    &&& 0 <= j < paths.len()
    &&& repeats_earlier(paths, j)
    &&& forall|k: int| 0 <= k < j ==> !repeats_earlier(paths, k)
}

/// No path repeats an earlier one.
pub open spec fn all_distinct(paths: Seq<Seq<char>>) -> bool {
    forall|j: int| 0 <= j < paths.len() ==> !repeats_earlier(paths, j)
}

/// The entries are in strictly increasing order of their archive paths, as
/// `String`'s order compares them (byte-wise over UTF-8).
pub open spec fn sorted_by_path(es: Seq<PendingView>) -> bool {
    forall|a: int, b: int|
        0 <= a < b < es.len() ==> lex_lt(
            encode_utf8(#[trigger] es[a].stored_path),
            encode_utf8(#[trigger] es[b].stored_path),
        )
}

/// `a` and `b` hold the same entries, each once.
pub open spec fn same_entries(a: Seq<PendingView>, b: Seq<PendingView>) -> bool {
    &&& a.len() == b.len()
    &&& forall|k: int| 0 <= k < a.len() ==> b.contains(#[trigger] a[k])
    &&& forall|i: int| 0 <= i < b.len() ==> a.contains(#[trigger] b[i])
}

/// The index at `q` in the ordered list has the same key as the one before it.
pub open spec fn follows_same_key(ks: Seq<Seq<u8>>, s: Seq<usize>, q: int) -> bool {
    ks[s[q - 1] as int] == ks[s[q] as int]
}

/// `x` occurs in `s`.
pub open spec fn occurs(s: Seq<usize>, x: int) -> bool {
    exists|k: int| 0 <= k < s.len() && #[trigger] s[k] == x
}

/// Equal UTF-8 encodings come from equal strings.
pub proof fn lemma_encode_injective(a: Seq<char>, b: Seq<char>)
    requires
        encode_utf8(a) == encode_utf8(b),
    ensures
        a == b,
{
    encode_utf8_decode_utf8(a);
    encode_utf8_decode_utf8(b);
}

/// In an index list ordered by key then index, an index `j` whose key repeats
/// that of a smaller index sits right after an index with the same key.
pub proof fn lemma_repeat_adjacent(
    ks: Seq<Seq<u8>>,
    sorted: Seq<usize>,
    ki: int,
    kj: int,
)
    requires
        idx_sorted(ks, sorted),
        idx_in_range(ks, sorted),
        sorted.no_duplicates(),
        0 <= ki < sorted.len(),
        0 <= kj < sorted.len(),
        sorted[ki] < sorted[kj],
        ks[sorted[ki] as int] == ks[sorted[kj] as int],
    ensures
        kj >= 1,
        ks[sorted[kj - 1] as int] == ks[sorted[kj] as int],
        sorted[kj - 1] < sorted[kj],
{
    let i = sorted[ki];
    let j = sorted[kj];
    if ki > kj {
        assert(idx_le(ks, sorted[kj], sorted[ki]));
        lemma_lex_irreflexive(ks[i as int]);
    }
    assert(ki < kj);
    let m = sorted[kj - 1];
    if ki < kj - 1 {
        assert(idx_le(ks, sorted[ki], sorted[kj - 1]));
    }
    assert(idx_le(ks, i, m));
    assert(idx_le(ks, m, j));
    if ks[m as int] != ks[j as int] {
        if lex_lt(ks[i as int], ks[m as int]) && lex_lt(ks[m as int], ks[j as int]) {
            lemma_lex_transitive(ks[i as int], ks[m as int], ks[j as int]);
        }
        lemma_lex_irreflexive(ks[i as int]);
    }
    assert(sorted[kj - 1] != sorted[kj]);
    lemma_lex_irreflexive(ks[j as int]);
}

/// Check the entries found under the inputs, and order them by archive path
/// for a deterministic archive layout: no inputs, or two entries with the
/// same archive path, are refused.
pub fn collect_entries(inputs: &Vec<String>, found: Vec<PendingEntry>) -> (r: Result<
    Vec<PendingEntry>,
    Fa10Error,
>)
    ensures
        inputs@.len() == 0 ==> (r matches Err(e) && e@ == ErrorView::NoInputs),
        inputs@.len() > 0 ==> (r is Ok <==> all_distinct(stored_paths(pending_views(found@)))),
        inputs@.len() > 0 ==> (r matches Err(e) ==> exists|j: int|
            is_first_repeat(stored_paths(pending_views(found@)), j) && e@
                == ErrorView::DuplicateEntry(stored_paths(pending_views(found@))[j])),
        r matches Ok(v) ==> sorted_by_path(pending_views(v@)) && same_entries(
            pending_views(v@),
            pending_views(found@),
        ),
{
    if inputs.len() == 0 {
        return Err(Fa10Error::NoInputs);
    }
    let ghost views = pending_views(found@);
    let ghost paths = stored_paths(views);
    let n = found.len();
    let mut keys: Vec<&[u8]> = Vec::new();
    let mut idx: Vec<usize> = Vec::new();
    let mut i: usize = 0;
    while i < n
        invariant
            i <= n,
            n == found@.len(),
            views == pending_views(found@),
            paths == stored_paths(views),
            keys@.len() == i,
            idx@.len() == i,
            forall|k: int| 0 <= k < i ==> #[trigger] key_seqs(keys@)[k] == encode_utf8(paths[k]),
            forall|k: int| 0 <= k < i ==> #[trigger] idx@[k] == k,
        decreases n - i,
    {
        let ghost before = keys@;
        let bytes = found[i].stored_path.as_str().as_bytes();
        assert(bytes@ == encode_utf8(found@[i as int].stored_path@));
        keys.push(bytes);
        idx.push(i);
        proof {
            assert(keys@ == before.push(bytes));
            assert forall|k: int| 0 <= k < i + 1 implies #[trigger] key_seqs(keys@)[k] == encode_utf8(
                paths[k],
            ) by {
                assert(key_seqs(keys@)[k] == keys@[k]@);
                assert(views[k] == found@[k]@);
                assert(paths[k] == views[k].stored_path);
                if k < i {
                    assert(keys@[k] == before[k]);
                    assert(key_seqs(before)[k] == before[k]@);
                } else {
                    assert(keys@[k] == bytes);
                }
            }
        }
        i += 1;
    }
    let ghost ks = key_seqs(keys@);
    assert(idx_in_range(ks, idx@));
    if n == 0 {
        let out: Vec<PendingEntry> = Vec::new();
        assert(all_distinct(paths));
        assert(pending_views(out@) =~= Seq::<PendingView>::empty());
        return Ok(out);
    }
    proof {
        assert(idx@.no_duplicates());
        idx@.lemma_multiset_has_no_duplicates();
    }
    let sorted = sort_indices(idx, &keys);
    proof {
        sorted@.lemma_multiset_has_no_duplicates_conv();
    }
    assert(sorted@.no_duplicates());
    // Every index occurs in the ordered list.
    assert forall|x: int| 0 <= x < n implies #[trigger] occurs(sorted@, x) by {
        broadcast use {vstd::seq_lib::group_to_multiset_ensures, vstd::multiset::group_multiset_axioms};

        assert(idx@[x] == x);
        assert(idx@.contains(x as usize));
        assert(sorted@.to_multiset().count(x as usize) > 0);
        assert(sorted@.contains(x as usize));
    }
    proof {
        vstd::seq_lib::to_multiset_len(sorted@);
        vstd::seq_lib::to_multiset_len(idx@);
    }
    assert(sorted@.len() == n);

    // The first repeated path (in the order found) is the smallest index that
    // follows an index with the same key in the ordered list.
    let mut best: Option<usize> = None;
    let mut k: usize = 1;
    while k < n
        invariant
            1 <= k <= n,
            n == sorted@.len(),
            ks == key_seqs(keys@),
            idx_in_range(ks, sorted@),
            best matches None ==> forall|q: int|
                1 <= q < k ==> !#[trigger] follows_same_key(ks, sorted@, q),
            best matches Some(b) ==> (exists|q: int|
                1 <= q < k && #[trigger] follows_same_key(ks, sorted@, q) && sorted@[q] == b)
                && forall|q: int| 1 <= q < k && #[trigger] follows_same_key(ks, sorted@, q) ==> b
                <= sorted@[q],
        decreases n - k,
    {
        let same = crate::text::bytes_equal(keys[sorted[k - 1]], keys[sorted[k]]);
        assert(ks[sorted@[k - 1] as int] == keys@[sorted@[k - 1] as int]@);
        assert(ks[sorted@[k as int] as int] == keys@[sorted@[k as int] as int]@);
        assert(same == follows_same_key(ks, sorted@, k as int));
        if same {
            match best {
                None => {
                    best = Some(sorted[k]);
                },
                Some(b) => {
                    if sorted[k] < b {
                        best = Some(sorted[k]);
                    }
                },
            }
        }
        k += 1;
    }
    match best {
        Some(b) => {
            proof {
                let q = choose|q: int|
                    1 <= q < n && #[trigger] follows_same_key(ks, sorted@, q) && sorted@[q] == b;
                let ki = q - 1;
                assert(idx_le(ks, sorted@[ki], sorted@[q]));
                assert(sorted@[ki] != sorted@[q]);
                lemma_lex_irreflexive(ks[b as int]);
                assert(sorted@[ki] < b);
                lemma_encode_injective(paths[sorted@[ki] as int], paths[b as int]);
                assert(repeats_earlier(paths, b as int));
                assert(views[b as int] == found@[b as int]@);
                assert(paths[b as int] == found@[b as int].stored_path@);
                assert forall|j: int| 0 <= j < b implies !repeats_earlier(paths, j) by {
                    if repeats_earlier(paths, j) {
                        let i0 = choose|i0: int| 0 <= i0 < j && paths[i0] == paths[j];
                        assert(occurs(sorted@, j) && occurs(sorted@, i0));
                        let kj = choose|kk: int| 0 <= kk < sorted@.len() && #[trigger] sorted@[kk] == j;
                        let ki0 = choose|kk: int| 0 <= kk < sorted@.len() && #[trigger] sorted@[kk] == i0;
                        lemma_repeat_adjacent(ks, sorted@, ki0, kj);
                        assert(follows_same_key(ks, sorted@, kj));
                    }
                }
                assert(is_first_repeat(paths, b as int));
            }
            Err(Fa10Error::DuplicateEntry(found[b].stored_path.clone()))
        },
        None => {
            proof {
                assert forall|j: int| 0 <= j < paths.len() implies !repeats_earlier(paths, j) by {
                    if repeats_earlier(paths, j) {
                        let i0 = choose|i0: int| 0 <= i0 < j && paths[i0] == paths[j];
                        assert(occurs(sorted@, j) && occurs(sorted@, i0));
                        let kj = choose|kk: int| 0 <= kk < sorted@.len() && #[trigger] sorted@[kk] == j;
                        let ki0 = choose|kk: int| 0 <= kk < sorted@.len() && #[trigger] sorted@[kk] == i0;
                        lemma_repeat_adjacent(ks, sorted@, ki0, kj);
                        assert(follows_same_key(ks, sorted@, kj));
                        assert(1 <= kj < n);
                    }
                }
            }
            let mut out: Vec<PendingEntry> = Vec::new();
            let mut m: usize = 0;
            while m < n
                invariant
                    m <= n,
                    n == sorted@.len(),
                    n == found@.len(),
                    views == pending_views(found@),
                    idx_in_range(ks, sorted@),
                    ks.len() == n,
                    out@.len() == m,
                    forall|t: int| 0 <= t < m ==> #[trigger] out@[t]@ == views[sorted@[t] as int],
                decreases n - m,
            {
                let e = &found[sorted[m]];
                let copy = PendingEntry {
                    kind: e.kind,
                    stored_path: e.stored_path.clone(),
                    fs_path: e.fs_path.clone(),
                    size: e.size,
                };
                let ghost before = out@;
                out.push(copy);
                assert forall|t: int| 0 <= t < m + 1 implies #[trigger] out@[t]@ == views[sorted@[t] as int] by {
                    if t < m {
                        assert(out@[t] == before[t]);
                    }
                }
                m += 1;
            }
            proof {
                let ov = pending_views(out@);
                assert forall|a: int, b: int| 0 <= a < b < ov.len() implies lex_lt(
                    encode_utf8(#[trigger] ov[a].stored_path),
                    encode_utf8(#[trigger] ov[b].stored_path),
                ) by {
                    let sa = sorted@[a];
                    let sb = sorted@[b];
                    assert(idx_le(ks, sa, sb));
                    assert(sa != sb);
                    assert(ov[a] == views[sa as int]);
                    assert(ov[b] == views[sb as int]);
                    if ks[sa as int] == ks[sb as int] {
                        lemma_encode_injective(paths[sa as int], paths[sb as int]);
                        if sa < sb {
                            assert(repeats_earlier(paths, sb as int));
                        } else {
                            assert(repeats_earlier(paths, sa as int));
                        }
                    }
                }
                assert forall|t: int| 0 <= t < ov.len() implies views.contains(#[trigger] ov[t]) by {
                    assert(ov[t] == views[sorted@[t] as int]);
                }
                assert forall|i1: int| 0 <= i1 < views.len() implies ov.contains(#[trigger] views[i1]) by {
                    assert(occurs(sorted@, i1));
                    let t = choose|kk: int| 0 <= kk < sorted@.len() && #[trigger] sorted@[kk] == i1;
                    assert(ov[t] == views[i1]);
                }
                assert(sorted_by_path(ov));
                assert(same_entries(ov, views));
            }
            Ok(out)
        },
    }
}


/// Backstop against pathological nesting or symlink loops that escape the
/// set of visited directories.
pub const MAX_DEPTH: usize = 256;

/// Refuse to walk deeper than [`MAX_DEPTH`] directories below an input.
pub fn check_walk_depth(dir: &str, depth: usize) -> (r: Result<(), Fa10Error>)
    ensures
        r is Ok <==> depth <= MAX_DEPTH,
        r matches Err(e) ==> e@ == ErrorView::SymlinkCycle(dir@),
{
    if depth > MAX_DEPTH {
        return Err(Fa10Error::SymlinkCycle(owned(dir)));
    }
    Ok(())
}

/// The error for an input that is neither a file nor a directory.
pub fn neither_file_nor_dir(input: &str) -> (e: Fa10Error)
    ensures
        e@ == ErrorView::BadFormat(input@ + " is neither a file nor a directory"@),
{
    let mut msg = owned(input);
    msg.append(" is neither a file nor a directory");
    Fa10Error::BadFormat(msg)
}

/// The entry recorded for a walked directory: an `EmptyDir` entry when it
/// contributed nothing, so that it round-trips, unless its archive path is
/// empty (a bare `.` input).
pub fn empty_dir_entry(prefix: &str, dir: &str, children: usize) -> (r: Option<PendingEntry>)
    ensures
        r is Some <==> children == 0 && prefix@.len() > 0,
        r matches Some(e) ==> e@ == (PendingView {
            kind: EntryKind::EmptyDir,
            stored_path: prefix@,
            fs_path: dir@,
            size: 0,
        }),
{
    if children == 0 && prefix.unicode_len() > 0 {
        Some(PendingEntry { kind: EntryKind::EmptyDir, stored_path: owned(prefix), fs_path: owned(dir), size: 0 })
    } else {
        None
    }
}

/// The directories already entered during a walk, by their resolved path.
#[derive(Debug, Clone)]
pub struct Visited {
    seen: Vec<String>,
}

impl View for Visited {
    type V = Set<Seq<char>>;

    closed spec fn view(&self) -> Set<Seq<char>> {
        self.seen@.map_values(|p: String| p@).to_set()
    }
}

impl Visited {
    /// No directory entered yet.
    pub fn new() -> (v: Visited)
        ensures
            v@ == Set::<Seq<char>>::empty(),
    {
        let v = Visited { seen: Vec::new() };
        assert(v.seen@.map_values(|p: String| p@) =~= Seq::<Seq<char>>::empty());
        v
    }

    /// Record `dir` as entered; false when it already was, which breaks a
    /// symlink cycle.
    pub fn insert(&mut self, dir: &str) -> (fresh: bool)
        ensures
            fresh == !old(self)@.contains(dir@),
            final(self)@ == old(self)@.insert(dir@),
    {
        let ghost paths = self.seen@.map_values(|p: String| p@);
        let mut i: usize = 0;
        while i < self.seen.len()
            invariant
                i <= self.seen@.len(),
                paths == self.seen@.map_values(|p: String| p@),
                forall|j: int| 0 <= j < i ==> paths[j] != dir@,
            decreases self.seen@.len() - i,
        {
            if str_is(self.seen[i].as_str(), dir) {
                assert(paths[i as int] == dir@);
                assert(paths.to_set().contains(dir@));
                assert(paths.to_set().insert(dir@) =~= paths.to_set());
                return false;
            }
            i += 1;
        }
        assert(!paths.contains(dir@));
        self.seen.push(owned(dir));
        assert(self.seen@.map_values(|p: String| p@) == paths.push(dir@));
        assert(paths.push(dir@).to_set() =~= paths.to_set().insert(dir@)) by {
            vstd::seq_lib::lemma_seq_contains_after_push(paths, dir@, dir@);
            assert forall|x: Seq<char>| paths.push(dir@).contains(x) <==> paths.contains(x) || x
                == dir@ by {
                if paths.push(dir@).contains(x) {
                    let k = choose|k: int| 0 <= k < paths.push(dir@).len() && paths.push(dir@)[k] == x;
                    if k < paths.len() {
                        assert(paths[k] == x);
                    }
                }
                if paths.contains(x) {
                    let k = choose|k: int| 0 <= k < paths.len() && paths[k] == x;
                    assert(paths.push(dir@)[k] == x);
                }
                if x == dir@ {
                    assert(paths.push(dir@)[paths.len() as int] == x);
                }
            }
        }
        true
    }
}

/// Law: entries sorted by path are determined by which entries there are.
/// Since `collect_entries` returns exactly the entries it was handed, sorted,
/// the same tree gives the same entry list whatever order a walk found them
/// in, and so the same archive bytes.
pub proof fn law_sorted_entries_unique(a: Seq<PendingView>, b: Seq<PendingView>)
    requires
        sorted_by_path(a),
        sorted_by_path(b),
        same_entries(a, b),
    ensures
        a == b,
    decreases a.len(),
{
    if a.len() > 0 {
        // The first entries are the least of the same entries.
        let i = choose|i: int| 0 <= i < a.len() && a[i] == b[0];
        let j = choose|j: int| 0 <= j < b.len() && b[j] == a[0];
        if i > 0 && j > 0 {
            let ka = encode_utf8(a[0].stored_path);
            let kb = encode_utf8(b[0].stored_path);
            assert(lex_lt(ka, encode_utf8(a[i].stored_path)));
            assert(lex_lt(kb, encode_utf8(b[j].stored_path)));
            lemma_lex_asymmetric(ka, kb);
        } else if i > 0 {
            assert(lex_lt(encode_utf8(a[0].stored_path), encode_utf8(a[i].stored_path)));
            assert(b[j] == a[0] && j == 0);
            lemma_lex_irreflexive(encode_utf8(a[0].stored_path));
        } else if j > 0 {
            assert(lex_lt(encode_utf8(b[0].stored_path), encode_utf8(b[j].stored_path)));
            lemma_lex_irreflexive(encode_utf8(b[0].stored_path));
        }
        assert(a[0] == b[0]);
        let ta = a.drop_first();
        let tb = b.drop_first();
        assert(sorted_by_path(ta)) by {
            assert forall|x: int, y: int| 0 <= x < y < ta.len() implies lex_lt(
                encode_utf8(#[trigger] ta[x].stored_path),
                encode_utf8(#[trigger] ta[y].stored_path),
            ) by {
                assert(ta[x] == a[x + 1] && ta[y] == a[y + 1]);
            }
        }
        assert(sorted_by_path(tb)) by {
            assert forall|x: int, y: int| 0 <= x < y < tb.len() implies lex_lt(
                encode_utf8(#[trigger] tb[x].stored_path),
                encode_utf8(#[trigger] tb[y].stored_path),
            ) by {
                assert(tb[x] == b[x + 1] && tb[y] == b[y + 1]);
            }
        }
        assert(same_entries(ta, tb)) by {
            assert forall|k: int| 0 <= k < ta.len() implies tb.contains(#[trigger] ta[k]) by {
                let x = ta[k];
                assert(x == a[k + 1]);
                assert(lex_lt(encode_utf8(a[0].stored_path), encode_utf8(x.stored_path)));
                let m = choose|m: int| 0 <= m < b.len() && b[m] == x;
                if m == 0 {
                    lemma_lex_irreflexive(encode_utf8(x.stored_path));
                }
                assert(tb[m - 1] == x);
            }
            assert forall|k: int| 0 <= k < tb.len() implies ta.contains(#[trigger] tb[k]) by {
                let x = tb[k];
                assert(x == b[k + 1]);
                assert(lex_lt(encode_utf8(b[0].stored_path), encode_utf8(x.stored_path)));
                let m = choose|m: int| 0 <= m < a.len() && a[m] == x;
                if m == 0 {
                    lemma_lex_irreflexive(encode_utf8(x.stored_path));
                }
                assert(ta[m - 1] == x);
            }
        }
        law_sorted_entries_unique(ta, tb);
        assert(a =~= b) by {
            assert forall|k: int| 0 <= k < a.len() implies a[k] == b[k] by {
                if k > 0 {
                    assert(a[k] == ta[k - 1]);
                    assert(b[k] == tb[k - 1]);
                }
            }
        }
    } else {
        assert(a =~= b);
    }
}


/// Law: the same tree gives the same entry list. Two walks that found the
/// same entries, in whatever order, are ordered by `collect_entries` (whose
/// results are sorted and hold exactly the entries found) into one list.
pub proof fn law_same_tree_same_entries(
    found_a: Seq<PendingView>,
    found_b: Seq<PendingView>,
    out_a: Seq<PendingView>,
    out_b: Seq<PendingView>,
)
    requires
        same_entries(found_a, found_b),
        sorted_by_path(out_a) && same_entries(out_a, found_a),
        sorted_by_path(out_b) && same_entries(out_b, found_b),
    ensures
        out_a == out_b,
{
    assert forall|k: int| 0 <= k < out_a.len() implies out_b.contains(#[trigger] out_a[k]) by {
        assert(found_a.contains(out_a[k]));
        let i = choose|i: int| 0 <= i < found_a.len() && found_a[i] == out_a[k];
        assert(found_b.contains(found_a[i]));
        let j = choose|j: int| 0 <= j < found_b.len() && found_b[j] == found_a[i];
        assert(out_b.contains(found_b[j]));
    }
    assert forall|k: int| 0 <= k < out_b.len() implies out_a.contains(#[trigger] out_b[k]) by {
        assert(found_b.contains(out_b[k]));
        let j = choose|j: int| 0 <= j < found_b.len() && found_b[j] == out_b[k];
        assert(found_a.contains(found_b[j]));
        let i = choose|i: int| 0 <= i < found_a.len() && found_a[i] == found_b[j];
        assert(out_a.contains(found_a[i]));
    }
    law_sorted_entries_unique(out_a, out_b);
}

} // verus!
