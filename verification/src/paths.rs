//! A model of Unix path strings: how `std::path` splits a path into
//! components, and how pushing a relative name extends it.
use vstd::prelude::*;

verus! {

/// The pieces of `s` between its `/` separators (always at least one, possibly empty).
pub open spec fn pieces(s: Seq<char>) -> Seq<Seq<char>>
    decreases s.len(),
{
    if s.len() == 0 {
        seq![seq![]]
    } else {
        let ps = pieces(s.drop_last());
        if s.last() == '/' {
            ps.push(seq![])
        } else {
            ps.update(ps.len() - 1, ps.last().push(s.last()))
        }
    }
}

/// A piece that stands for a component of its own: not empty and not `.`.
pub open spec fn is_named(p: Seq<char>) -> bool {
    p.len() > 0 && p != seq!['.']
}

/// The pieces that name components, in order.
pub open spec fn named(ps: Seq<Seq<char>>) -> Seq<Seq<char>>
    decreases ps.len(),
{
    if ps.len() == 0 {
        seq![]
    } else if is_named(ps.last()) {
        named(ps.drop_last()).push(ps.last())
    } else {
        named(ps.drop_last())
    }
}

/// The components of a path, as `Path::components` yields them on Unix: a
/// root `/` for an absolute path, a leading `.` for a path that starts with
/// `./` (or is `.`), then every named piece (`..` included).
pub open spec fn components(s: Seq<char>) -> Seq<Seq<char>> {
    let head = if s.len() > 0 && s[0] == '/' {
        seq![seq!['/']]
    } else if pieces(s)[0] == seq!['.'] {
        seq![seq!['.']]
    } else {
        seq![]
    };
    head + named(pieces(s))
}

/// `base` is a component-wise prefix of `p`, as `Path::starts_with` decides.
pub open spec fn path_starts_with(p: Seq<char>, base: Seq<char>) -> bool {
    let cp = components(p);
    let cb = components(base);
    cb.len() <= cp.len() && cp.take(cb.len() as int) == cb
}

/// A single relative component: non-empty, not `.` and without separator.
pub open spec fn is_plain_name(c: Seq<char>) -> bool {
    c.len() > 0 && c != seq!['.'] && !c.contains('/')
}

/// `p` with the relative name `c` pushed, as `PathBuf::push` does on Unix:
/// a separator is added unless `p` is empty or already ends with one.
pub open spec fn push_name(p: Seq<char>, c: Seq<char>) -> Seq<char> {
    if p.len() == 0 || p.last() == '/' {
        p + c
    } else {
        p + seq!['/'] + c
    }
}

/// `p` with each name of `cs` pushed in turn.
pub open spec fn push_names(p: Seq<char>, cs: Seq<Seq<char>>) -> Seq<char>
    decreases cs.len(),
{
    if cs.len() == 0 {
        p
    } else {
        push_name(push_names(p, cs.drop_last()), cs.last())
    }
}

/// A path always has at least one piece.
pub proof fn lemma_pieces_nonempty(s: Seq<char>)
    ensures
        pieces(s).len() >= 1,
    decreases s.len(),
{
    if s.len() > 0 {
        lemma_pieces_nonempty(s.drop_last());
    }
}

/// Appending characters other than `/` extends the last piece.
pub proof fn lemma_pieces_append(p: Seq<char>, c: Seq<char>)
    requires
        !c.contains('/'),
    ensures
        pieces(p + c) == pieces(p).update(pieces(p).len() - 1, pieces(p).last() + c),
        pieces(p + c).len() == pieces(p).len(),
    decreases c.len(),
{
    lemma_pieces_nonempty(p);
    if c.len() == 0 {
        assert(p + c == p);
        assert(pieces(p).last() + c == pieces(p).last());
        assert(pieces(p).update(pieces(p).len() - 1, pieces(p).last()) == pieces(p));
    } else {
        let c0 = c.drop_last();
        assert(!c0.contains('/')) by {
            if c0.contains('/') {
                let i = choose|i: int| 0 <= i < c0.len() && c0[i] == '/';
                assert(c[i] == '/');
            }
        }
        lemma_pieces_append(p, c0);
        assert((p + c).drop_last() == p + c0);
        assert((p + c).last() == c.last());
        assert(c.last() != '/') by {
            assert(c[c.len() - 1] == c.last());
        }
        assert(pieces(p).last() + c == (pieces(p).last() + c0).push(c.last()));
    }
}

/// Pushing a plain name adds exactly that component.
pub proof fn lemma_components_push_name(p: Seq<char>, c: Seq<char>)
    requires
        is_plain_name(c),
    ensures
        components(push_name(p, c)) == components(p).push(c),
{
    lemma_pieces_nonempty(p);
    let q = push_name(p, c);
    if p.len() == 0 {
        assert(q == c);
        lemma_pieces_append(p, c);
        assert(pieces(p) == seq![Seq::<char>::empty()]);
        assert(pieces(c) == seq![c]) by {
            assert(seq![Seq::<char>::empty()].last() + c == c);
        }
        assert(c[0] != '/') by {
            assert(!c.contains('/'));
        }
        assert(named(pieces(c)) == seq![c]) by {
            assert(seq![c].drop_last() == Seq::<Seq<char>>::empty());
            assert(seq![c].last() == c);
            assert(is_named(c));
            assert(named(Seq::<Seq<char>>::empty()) == Seq::<Seq<char>>::empty());
            assert(Seq::<Seq<char>>::empty().push(c) == seq![c]);
        }
        assert(named(pieces(p)) == Seq::<Seq<char>>::empty()) by {
            let ps = pieces(p);
            assert(ps.len() == 1);
            assert(ps.last() == Seq::<char>::empty());
            assert(!is_named(ps.last()));
            assert(ps.drop_last() == Seq::<Seq<char>>::empty());
            assert(named(ps) == named(ps.drop_last()));
        }
    } else {
        let base = if p.last() == '/' {
            p
        } else {
            p.push('/')
        };
        assert(q == base + c);
        assert(base.drop_last() == p || base == p);
        // The pieces of `base` end with an empty piece.
        let bp = pieces(base);
        if p.last() == '/' {
            assert(base.drop_last() + seq!['/'] == p);
        } else {
            assert(base.drop_last() == p);
        }
        assert(bp == pieces(base.drop_last()).push(Seq::<char>::empty())) by {
            assert(base.last() == '/');
        }
        lemma_pieces_nonempty(base.drop_last());
        lemma_pieces_append(base, c);
        let pre = pieces(base.drop_last());
        assert(bp.last() + c == c);
        assert(pieces(q) == pre.push(c)) by {
            assert(bp.update(bp.len() - 1, c) == pre.push(c));
        }
        assert(named(pieces(q)) == named(pre).push(c)) by {
            assert(pre.push(c).drop_last() == pre);
        }
        assert(named(bp) == named(pre)) by {
            assert(bp.drop_last() == pre);
        }
        assert(pieces(q)[0] == pre[0]);
        assert(bp[0] == pre[0]);
        assert(q[0] == p[0]);
        if p.last() == '/' {
            assert(components(p) == components(base));
        } else {
            // Pushing a `/` onto a non-empty path leaves its components as they are.
            assert(pieces(p.push('/')) == pieces(p).push(Seq::<char>::empty())) by {
                assert(p.push('/').drop_last() == p);
            }
            assert(named(pieces(p).push(Seq::<char>::empty())) == named(pieces(p))) by {
                assert(pieces(p).push(Seq::<char>::empty()).drop_last() == pieces(p));
            }
            assert(p.push('/')[0] == p[0]);
            assert(pieces(p).push(Seq::<char>::empty())[0] == pieces(p)[0]);
            assert(components(p) == components(base));
        }
    }
}

/// Pushing plain names adds exactly those components.
pub proof fn lemma_components_push_names(p: Seq<char>, cs: Seq<Seq<char>>)
    requires
        forall|i: int| 0 <= i < cs.len() ==> is_plain_name(#[trigger] cs[i]),
    ensures
        components(push_names(p, cs)) == components(p) + cs,
    decreases cs.len(),
{
    if cs.len() == 0 {
        assert(components(p) + cs == components(p));
    } else {
        let init = cs.drop_last();
        assert forall|i: int| 0 <= i < init.len() implies is_plain_name(#[trigger] init[i]) by {
            assert(init[i] == cs[i]);
        }
        lemma_components_push_names(p, init);
        assert(is_plain_name(cs[cs.len() - 1]));
        lemma_components_push_name(push_names(p, init), cs.last());
        assert(components(p) + cs == (components(p) + init).push(cs.last()));
    }
}

/// The characters held by each vector.
pub open spec fn char_seqs(v: Seq<Vec<char>>) -> Seq<Seq<char>> {
    v.map_values(|x: Vec<char>| x@)
}

/// Pieces that are complete stay as they are when more characters follow.
pub proof fn lemma_pieces_prefix(s: Seq<char>, i: int, j: int)
    requires
        0 <= i <= j <= s.len(),
    ensures
        pieces(s.take(i)).len() <= pieces(s.take(j)).len(),
        forall|k: int|
            0 <= k < pieces(s.take(i)).len() - 1 ==> #[trigger] pieces(s.take(j))[k] == pieces(
                s.take(i),
            )[k],
    decreases j - i,
{
    lemma_pieces_nonempty(s.take(i));
    if i < j {
        lemma_pieces_prefix(s, i, j - 1);
        assert(s.take(j).drop_last() == s.take(j - 1));
        lemma_pieces_nonempty(s.take(j - 1));
    }
}

/// The components of `s`, computed in one pass over its characters.
pub fn components_of(s: &str) -> (r: Vec<Vec<char>>)
    ensures
        char_seqs(r@) == components(s@),
{
    let n = s.unicode_len();
    let mut named_done: Vec<Vec<char>> = Vec::new();
    let mut cur: Vec<char> = Vec::new();
    let ghost mut all: Seq<Seq<char>> = seq![];
    let mut first_is_dot = false;
    let mut seen_sep = false;
    let mut i: usize = 0;
    assert(s@.take(0) == Seq::<char>::empty());
    assert(seq![Seq::<char>::empty()] == Seq::<Seq<char>>::empty().push(cur@));
    while i < n
        invariant
            i <= n,
            n == s@.len(),
            pieces(s@.take(i as int)) == all.push(cur@),
            char_seqs(named_done@) == named(all),
            seen_sep == (all.len() > 0),
            seen_sep ==> first_is_dot == (all[0] == seq!['.']),
        decreases n - i,
    {
        let c = s.get_char(i);
        assert(s@.take(i + 1).drop_last() == s@.take(i as int));
        assert(s@.take(i + 1).last() == c);
        if c == '/' {
            let named_piece = cur.len() > 0 && !(cur.len() == 1 && cur[0] == '.');
            assert(named_piece == is_named(cur@)) by {
                if cur@.len() == 1 {
                    lemma_is_dot(cur@);
                }
            }
            if !seen_sep {
                first_is_dot = cur.len() == 1 && cur[0] == '.';
                assert(first_is_dot == (cur@ == seq!['.'])) by {
                    if cur@.len() == 1 {
                        lemma_is_dot(cur@);
                    }
                }
            }
            proof {
                assert(all.push(cur@).drop_last() == all);
                assert(all.push(cur@).last() == cur@);
                assert(all.push(cur@)[0] == if all.len() > 0 { all[0] } else { cur@ });
                all = all.push(cur@);
            }
            if named_piece {
                let ghost before = named_done@;
                named_done.push(cur);
                assert(char_seqs(named_done@) == char_seqs(before).push(named_done@.last()@));
            } else {
            }
            seen_sep = true;
            cur = Vec::new();
        } else {
            let ghost before = cur@;
            cur.push(c);
            assert(all.push(before).update(all.len() as int, before.push(c)) == all.push(cur@));
        }
        i += 1;
    }
    assert(s@.take(n as int) == s@);
    // Close the last piece.
    let last_named = cur.len() > 0 && !(cur.len() == 1 && cur[0] == '.');
    assert(last_named == is_named(cur@)) by {
        if cur@.len() == 1 {
            lemma_is_dot(cur@);
        }
    }
    if !seen_sep {
        first_is_dot = cur.len() == 1 && cur[0] == '.';
        assert(first_is_dot == (cur@ == seq!['.'])) by {
            if cur@.len() == 1 {
                lemma_is_dot(cur@);
            }
        }
    }
    let ghost ps = all.push(cur@);
    assert(ps.drop_last() == all);
    assert(ps.last() == cur@);
    assert(ps[0] == if all.len() > 0 { all[0] } else { cur@ });
    if last_named {
        let ghost before = named_done@;
        named_done.push(cur);
        assert(char_seqs(named_done@) == char_seqs(before).push(named_done@.last()@));
    }
    assert(char_seqs(named_done@) == named(pieces(s@)));
    let mut r: Vec<Vec<char>> = Vec::new();
    if n > 0 && s.get_char(0) == '/' {
        let mut root: Vec<char> = Vec::new();
        root.push('/');
        r.push(root);
        assert(char_seqs(r@) == seq![seq!['/']]);
    } else if first_is_dot {
        let mut dot: Vec<char> = Vec::new();
        dot.push('.');
        r.push(dot);
        assert(char_seqs(r@) == seq![seq!['.']]);
    } else {
        assert(char_seqs(r@) == Seq::<Seq<char>>::empty());
    }
    let ghost head = char_seqs(r@);
    let ghost rest = char_seqs(named_done@);
    let mut k: usize = 0;
    while k < named_done.len()
        invariant
            k <= named_done@.len(),
            rest == char_seqs(named_done@),
            char_seqs(r@) == head + rest.take(k as int),
        decreases named_done@.len() - k,
    {
        let piece = named_done[k].clone();
        let ghost before = r@;
        r.push(piece);
        assert(char_seqs(r@) == char_seqs(before).push(piece@));
        assert(rest.take(k + 1) == rest.take(k as int).push(rest[k as int]));
        k += 1;
    }
    assert(rest.take(k as int) == rest);
    r
}

/// Whether `base` is a component-wise prefix of `p`.
pub fn starts_with_path(p: &str, base: &str) -> (r: bool)
    ensures
        r == path_starts_with(p@, base@),
{
    let cp = components_of(p);
    let cb = components_of(base);
    if cb.len() > cp.len() {
        return false;
    }
    let mut k: usize = 0;
    while k < cb.len()
        invariant
            k <= cb@.len() <= cp@.len(),
            char_seqs(cp@) == components(p@),
            char_seqs(cb@) == components(base@),
            forall|j: int| 0 <= j < k ==> char_seqs(cp@)[j] == char_seqs(cb@)[j],
        decreases cb@.len() - k,
    {
        if !chars_equal(&cp[k], &cb[k]) {
            assert(char_seqs(cp@)[k as int] != char_seqs(cb@)[k as int]);
            assert(char_seqs(cp@).take(cb@.len() as int)[k as int] == char_seqs(cp@)[k as int]);
            assert(char_seqs(cp@).take(cb@.len() as int) != char_seqs(cb@));
            return false;
        }
        k += 1;
    }
    assert(char_seqs(cp@).take(cb@.len() as int) =~= char_seqs(cb@));
    true
}

/// A sequence is `.` exactly when it holds one character, a dot.
pub proof fn lemma_is_dot(v: Seq<char>)
    ensures
        (v == seq!['.']) <==> (v.len() == 1 && v[0] == '.'),
{
    if v.len() == 1 && v[0] == '.' {
        assert(v =~= seq!['.']);
    }
}

/// Whether two vectors hold the same characters.
pub fn chars_equal(a: &Vec<char>, b: &Vec<char>) -> (r: bool)
    ensures
        r == (a@ == b@),
{
    if a.len() != b.len() {
        return false;
    }
    let mut i: usize = 0;
    while i < a.len()
        invariant
            i <= a@.len(),
            a@.len() == b@.len(),
            forall|j: int| 0 <= j < i ==> a@[j] == b@[j],
        decreases a@.len() - i,
    {
        if a[i] != b[i] {
            return false;
        }
        i += 1;
    }
    assert(a@ =~= b@);
    true
}

} // verus!
