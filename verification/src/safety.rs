//! Good-citizen guardrails: protected-path blocklist, free-space floor,
//! output-size cap, batch limit, and the extraction-path guard. These prevent
//! footguns; they are not a security sandbox.
//!
//! Paths are strings here. Resolving them against the file system (making
//! them absolute, following links, asking for free space) is the caller's
//! part; the decisions are made in this module.
use vstd::prelude::*;

use crate::error::{err_view, ErrorView, Fa10Error};
use crate::paths::{
    components, is_named, is_plain_name, lemma_components_push_names, lemma_pieces_nonempty,
    lemma_pieces_prefix, named, char_seqs, path_starts_with, pieces, push_name, push_names, starts_with_path,
};
use crate::text::{owned, string_of_chars};

verus! {

/// Minimum free space that must remain after an operation (2 GiB).
pub const MIN_FREE_BYTES: u64 = 2 * 1024 * 1024 * 1024;

/// Largest output an unconfirmed operation may produce (10 GiB).
pub const MAX_UNCONFIRMED_OUTPUT: u64 = 10 * 1024 * 1024 * 1024;

/// Largest batch (file count) allowed without `--batch`.
pub const MAX_UNCONFIRMED_BATCH: usize = 100;

/// Absolute protected path prefixes (Unix + Windows).
pub open spec fn absolute_blocklist() -> Seq<Seq<char>> {
    seq![
        "/System"@,
        "/usr"@,
        "/bin"@,
        "/sbin"@,
        "/boot"@,
        "/etc"@,
        "/dev"@,
        "/proc"@,
        "/sys"@,
        "/lib"@,
        "/Library"@,
        "C:\\Windows"@,
        "C:\\Program Files"@,
        "C:\\Program Files (x86)"@,
    ]
}

/// The protected prefixes for a user whose home directory is `home`: the
/// absolute list, then `Library` under the home directory.
pub open spec fn spec_protected_prefixes(home: Option<Seq<char>>) -> Seq<Seq<char>> {
    match home {
        Some(h) => absolute_blocklist().push(push_name(h, "Library"@)),
        None => absolute_blocklist(),
    }
}

/// The characters of each string.
pub open spec fn string_seqs(v: Seq<String>) -> Seq<Seq<char>> {
    v.map_values(|s: String| s@)
}

/// Push the relative name `name` onto the path `base`, as `PathBuf::push` does.
pub fn join_name(base: &str, name: &str) -> (r: String)
    ensures
        r@ == push_name(base@, name@),
{
    let n = base.unicode_len();
    let mut r = owned(base);
    if n > 0 && base.get_char(n - 1) != '/' {
        r.append("/");
        proof {
            reveal_strlit("/");
        }
    }
    r.append(name);
    r
}

fn push_owned(v: &mut Vec<String>, s: &str)
    ensures
        string_seqs(final(v)@) == string_seqs(old(v)@).push(s@),
{
    let ghost before = v@;
    v.push(owned(s));
    assert(string_seqs(v@) == string_seqs(before).push(s@)) by {
        assert(v@ == before.push(v@.last()));
    }
}

/// Build the full list of protected path prefixes, given the user's home
/// directory when there is one.
pub fn protected_prefixes(home: Option<&str>) -> (r: Vec<String>)
    ensures
        string_seqs(r@) == spec_protected_prefixes(
            match home {
                Some(h) => Some(h@),
                None => None,
            },
        ),
{
    let mut v: Vec<String> = Vec::new();
    assert(string_seqs(v@) == Seq::<Seq<char>>::empty());
    push_owned(&mut v, "/System");
    push_owned(&mut v, "/usr");
    push_owned(&mut v, "/bin");
    push_owned(&mut v, "/sbin");
    push_owned(&mut v, "/boot");
    push_owned(&mut v, "/etc");
    push_owned(&mut v, "/dev");
    push_owned(&mut v, "/proc");
    push_owned(&mut v, "/sys");
    push_owned(&mut v, "/lib");
    push_owned(&mut v, "/Library");
    push_owned(&mut v, "C:\\Windows");
    push_owned(&mut v, "C:\\Program Files");
    push_owned(&mut v, "C:\\Program Files (x86)");
    assert(string_seqs(v@) == absolute_blocklist());
    match home {
        Some(h) => {
            let ghost before = v@;
            v.push(join_name(h, "Library"));
            assert(string_seqs(v@) == string_seqs(before).push(v@.last()@)) by {
                assert(v@ == before.push(v@.last()));
            }
        },
        None => {},
    }
    v
}

/// `normalized` lies at or under one of the `prefixes`.
pub open spec fn under_any(normalized: Seq<char>, prefixes: Seq<Seq<char>>) -> bool {
    exists|i: int| 0 <= i < prefixes.len() && path_starts_with(normalized, #[trigger] prefixes[i])
}

/// Refuse to operate on protected system locations. `normalized` is `path`
/// made absolute and resolved (its existing leading part by the file system,
/// the rest by [`rebuild_normalized`], so it holds no `..`), and `prefixes`
/// are the protected prefixes resolved the same way.
pub fn check_path_allowed(path: &str, normalized: &str, prefixes: &Vec<String>) -> (r: Result<
    (),
    Fa10Error,
>)
    ensures
        r is Err <==> under_any(normalized@, string_seqs(prefixes@)),
        r matches Err(e) ==> e@ == ErrorView::ProtectedPath(path@),
{
    let mut i: usize = 0;
    while i < prefixes.len()
        invariant
            i <= prefixes@.len(),
            forall|j: int|
                0 <= j < i ==> !path_starts_with(normalized@, #[trigger] string_seqs(prefixes@)[j]),
        decreases prefixes@.len() - i,
    {
        if starts_with_path(normalized, prefixes[i].as_str()) {
            assert(string_seqs(prefixes@)[i as int] == prefixes@[i as int]@);
            return Err(Fa10Error::ProtectedPath(owned(path)));
        }
        i += 1;
    }
    Ok(())
}

/// What checking the free space gives: an error when writing `needed` bytes
/// would leave less than the floor out of `available` (the sum of the two
/// saturates at `u64::MAX`).
pub open spec fn spec_check_free_space(needed: u64, available: u64) -> Result<(), ErrorView> {
    let required = if needed + MIN_FREE_BYTES > u64::MAX {
        u64::MAX as int
    } else {
        needed + MIN_FREE_BYTES
    };
    if available < required {
        Err(ErrorView::InsufficientSpace { needed, available, min_free: MIN_FREE_BYTES })
    } else {
        Ok(())
    }
}

/// Ensure writing `needed` bytes leaves at least `MIN_FREE_BYTES` of the
/// `available` space on the target file system.
pub fn check_free_space(needed: u64, available: u64) -> (r: Result<(), Fa10Error>)
    ensures
        err_view(r) == spec_check_free_space(needed, available),
{
    if available < needed.saturating_add(MIN_FREE_BYTES) {
        return Err(Fa10Error::InsufficientSpace { needed, available, min_free: MIN_FREE_BYTES });
    }
    Ok(())
}

/// Enforce the unconfirmed output-size cap.
pub fn check_size_cap(output_size: u64, confirmed: bool) -> (r: Result<(), Fa10Error>)
    ensures
        r is Err <==> !confirmed && output_size > MAX_UNCONFIRMED_OUTPUT,
        r matches Err(e) ==> e@ == (ErrorView::SizeCapExceeded {
            size: output_size,
            cap: MAX_UNCONFIRMED_OUTPUT,
        }),
{
    if !confirmed && output_size > MAX_UNCONFIRMED_OUTPUT {
        return Err(Fa10Error::SizeCapExceeded { size: output_size, cap: MAX_UNCONFIRMED_OUTPUT });
    }
    Ok(())
}

/// Enforce the unconfirmed batch limit.
pub fn check_batch_limit(count: usize, batch_ok: bool) -> (r: Result<(), Fa10Error>)
    ensures
        r is Err <==> !batch_ok && count > MAX_UNCONFIRMED_BATCH,
        r matches Err(e) ==> e@ == (ErrorView::BatchLimitExceeded {
            count,
            limit: MAX_UNCONFIRMED_BATCH,
        }),
{
    if !batch_ok && count > MAX_UNCONFIRMED_BATCH {
        return Err(Fa10Error::BatchLimitExceeded { count, limit: MAX_UNCONFIRMED_BATCH });
    }
    Ok(())
}

/// An archive path piece that could leave the extraction root: `..`, or one
/// that names a drive or scheme (holds a `:`).
pub open spec fn bad_piece(p: Seq<char>) -> bool {
    p == seq!['.', '.'] || p.contains(':')
}

/// A stored archive path that extraction refuses: empty, absolute, holding a
/// back-slash or a NUL, or with a piece that could leave the root.
pub open spec fn unsafe_stored(stored: Seq<char>) -> bool {
    ||| stored.len() == 0
    ||| stored[0] == '/'
    ||| stored.contains('\\')
    ||| stored.contains('\0')
    ||| exists|k: int| 0 <= k < pieces(stored).len() && bad_piece(#[trigger] pieces(stored)[k])
}

/// Where extraction puts the stored path `stored` under `root`: the root with
/// each named piece of the stored path pushed, or the error.
pub open spec fn spec_safe_extract_path(root: Seq<char>, stored: Seq<char>) -> Result<
    Seq<char>,
    ErrorView,
> {
    if unsafe_stored(stored) {
        Err(ErrorView::UnsafeEntryPath(stored))
    } else {
        Ok(push_names(root, named(pieces(stored))))
    }
}

/// The view of a path result.
pub open spec fn path_result_view(r: Result<String, Fa10Error>) -> Result<Seq<char>, ErrorView> {
    match r {
        Ok(p) => Ok(p@),
        Err(e) => Err(e@),
    }
}

/// The named pieces of pieces without separators are plain names.
pub proof fn lemma_named_plain(ps: Seq<Seq<char>>)
    requires
        forall|k: int| 0 <= k < ps.len() ==> !(#[trigger] ps[k]).contains('/'),
    ensures
        forall|i: int| 0 <= i < named(ps).len() ==> is_plain_name(#[trigger] named(ps)[i]),
        forall|i: int|
            0 <= i < named(ps).len() ==> exists|k: int| 0 <= k < ps.len() && #[trigger] named(ps)[i]
                == ps[k],
    decreases ps.len(),
{
    if ps.len() > 0 {
        let init = ps.drop_last();
        assert forall|k: int| 0 <= k < init.len() implies !(#[trigger] init[k]).contains('/') by {
            assert(init[k] == ps[k]);
        }
        lemma_named_plain(init);
        assert(!ps[ps.len() - 1].contains('/'));
        assert forall|i: int| 0 <= i < named(ps).len() implies exists|k: int|
            0 <= k < ps.len() && #[trigger] named(ps)[i] == ps[k] by {
            if i < named(init).len() {
                let k = choose|k: int| 0 <= k < init.len() && named(init)[i] == init[k];
                assert(ps[k] == init[k]);
            } else {
                assert(named(ps)[i] == ps[ps.len() - 1]);
            }
        }
    }
}

/// Every piece of `s` is made of characters of `s`.
pub proof fn lemma_piece_chars(s: Seq<char>, k: int, c: char)
    requires
        0 <= k < pieces(s).len(),
        pieces(s)[k].contains(c),
    ensures
        s.contains(c),
    decreases s.len(),
{
    if s.len() > 0 {
        let init = s.drop_last();
        let ps = pieces(init);
        lemma_pieces_nonempty(init);
        if s.last() == '/' {
            if k < ps.len() {
                lemma_piece_chars(init, k, c);
                let j = choose|j: int| 0 <= j < init.len() && init[j] == c;
                assert(s[j] == c);
            } else {
                assert(pieces(s)[k] == Seq::<char>::empty());
            }
        } else {
            if k < ps.len() - 1 {
                assert(pieces(s)[k] == ps[k]);
                lemma_piece_chars(init, k, c);
                let j = choose|j: int| 0 <= j < init.len() && init[j] == c;
                assert(s[j] == c);
            } else {
                let last = ps.last();
                assert(pieces(s)[k] == last.push(s.last()));
                let i = choose|i: int| 0 <= i < last.len() + 1 && last.push(s.last())[i] == c;
                if i < last.len() {
                    assert(last[i] == c);
                    assert(ps[ps.len() - 1] == last);
                    lemma_piece_chars(init, ps.len() - 1, c);
                    let j = choose|j: int| 0 <= j < init.len() && init[j] == c;
                    assert(s[j] == c);
                } else {
                    assert(s[s.len() - 1] == c);
                }
            }
        }
    } else {
        assert(pieces(s)[k] == Seq::<char>::empty());
    }
}

/// Law (Zip-Slip guard): an archive path that extraction accepts resolves to
/// the extraction root followed only by plain names. None of them is `..`, a
/// root, a drive, or holds a separator, so the result stays under the root.
pub proof fn law_extract_path_stays_under_root(root: Seq<char>, stored: Seq<char>)
    requires
        !unsafe_stored(stored),
    ensures
        components(push_names(root, named(pieces(stored)))) == components(root) + named(
            pieces(stored),
        ),
        path_starts_with(push_names(root, named(pieces(stored))), root),
        forall|i: int|
            #![trigger named(pieces(stored))[i]]
            0 <= i < named(pieces(stored)).len() ==> {
                let c = named(pieces(stored))[i];
                &&& is_plain_name(c)
                &&& c != seq!['.', '.']
                &&& !c.contains(':')
                &&& !c.contains('\\')
                &&& !c.contains('\0')
            },
{
    let ps = pieces(stored);
    assert forall|k: int| 0 <= k < ps.len() implies !(#[trigger] ps[k]).contains('/') by {
        if ps[k].contains('/') {
            lemma_no_separator_in_pieces(stored, k);
        }
    }
    lemma_named_plain(ps);
    lemma_components_push_names(root, named(ps));
    let full = components(push_names(root, named(ps)));
    assert(full.take(components(root).len() as int) == components(root));
    assert forall|i: int| #![trigger named(ps)[i]] 0 <= i < named(ps).len() implies {
        let c = named(ps)[i];
        &&& is_plain_name(c)
        &&& c != seq!['.', '.']
        &&& !c.contains(':')
        &&& !c.contains('\\')
        &&& !c.contains('\0')
    } by {
        let k = choose|k: int| 0 <= k < ps.len() && named(ps)[i] == ps[k];
        assert(!bad_piece(ps[k]));
        if ps[k].contains('\\') {
            lemma_piece_chars(stored, k, '\\');
        }
        if ps[k].contains('\0') {
            lemma_piece_chars(stored, k, '\0');
        }
    }
}

/// No piece holds a separator.
pub proof fn lemma_no_separator_in_pieces(s: Seq<char>, k: int)
    requires
        0 <= k < pieces(s).len(),
    ensures
        !pieces(s)[k].contains('/'),
    decreases s.len(),
{
    if s.len() > 0 {
        let init = s.drop_last();
        let ps = pieces(init);
        lemma_pieces_nonempty(init);
        if s.last() == '/' {
            if k < ps.len() {
                lemma_no_separator_in_pieces(init, k);
            } else {
                assert(pieces(s)[k] == Seq::<char>::empty());
            }
        } else if k < ps.len() - 1 {
            assert(pieces(s)[k] == ps[k]);
            lemma_no_separator_in_pieces(init, k);
        } else {
            let last = ps.last();
            lemma_no_separator_in_pieces(init, ps.len() - 1);
            assert(pieces(s)[k] == last.push(s.last()));
            if last.push(s.last()).contains('/') {
                let i = choose|i: int| 0 <= i < last.len() + 1 && last.push(s.last())[i] == '/';
                if i < last.len() {
                    assert(last[i] == '/');
                }
            }
        }
    } else {
        assert(pieces(s)[k] == Seq::<char>::empty());
    }
}

/// How an archive path piece is treated on extraction.
enum PieceClass {
    Skip,
    Refuse,
    Name,
}

fn classify_piece(p: &str) -> (c: PieceClass)
    ensures
        c is Refuse <==> bad_piece(p@),
        c is Skip <==> !bad_piece(p@) && !is_named(p@),
        c is Name <==> !bad_piece(p@) && is_named(p@),
{
    let n = p.unicode_len();
    if n == 0 {
        return PieceClass::Skip;
    }
    if n == 1 && p.get_char(0) == '.' {
        assert(p@ =~= seq!['.']);
        return PieceClass::Skip;
    }
    if n == 2 && p.get_char(0) == '.' && p.get_char(1) == '.' {
        assert(p@ =~= seq!['.', '.']);
        return PieceClass::Refuse;
    }
    let mut i: usize = 0;
    while i < n
        invariant
            i <= n,
            n == p@.len(),
            forall|j: int| 0 <= j < i ==> p@[j] != ':',
        decreases n - i,
    {
        if p.get_char(i) == ':' {
            return PieceClass::Refuse;
        }
        i += 1;
    }
    if n == 1 {
        assert(p@ != seq!['.']) by {
            if p@ == seq!['.'] {
                assert(p@[0] == '.');
            }
        }
    }
    if n == 2 {
        assert(p@ != seq!['.', '.']) by {
            if p@ == seq!['.', '.'] {
                assert(p@[0] == '.' && p@[1] == '.');
            }
        }
    }
    PieceClass::Name
}

/// Resolve a stored archive path against an extraction `root`, refusing any
/// path that could escape it (absolute, parent-relative, or drive-qualified).
/// This is the Zip-Slip guard.
pub fn safe_extract_path(root: &str, stored: &str) -> (r: Result<String, Fa10Error>)
    ensures
        path_result_view(r) == spec_safe_extract_path(root@, stored@),
{
    let n = stored.unicode_len();
    if n == 0 || stored.get_char(0) == '/' {
        return Err(Fa10Error::UnsafeEntryPath(owned(stored)));
    }
    // `/`-separated by format contract; reject any back-slashes outright.
    let mut i: usize = 0;
    while i < n
        invariant
            i <= n,
            n == stored@.len(),
            forall|j: int| 0 <= j < i ==> stored@[j] != '\\' && stored@[j] != '\0',
        decreases n - i,
    {
        let c = stored.get_char(i);
        if c == '\\' || c == '\0' {
            return Err(Fa10Error::UnsafeEntryPath(owned(stored)));
        }
        i += 1;
    }
    assert(!stored@.contains('\\') && !stored@.contains('\0'));
    let mut path = owned(root);
    let mut start: usize = 0;
    let ghost mut done: Seq<Seq<char>> = seq![];
    let mut j: usize = 0;
    assert(stored@.take(0) == Seq::<char>::empty());
    assert(stored@.subrange(0, 0) == Seq::<char>::empty());
    while j < n
        invariant
            start <= j <= n,
            n == stored@.len(),
            stored@.len() > 0,
            stored@[0] != '/',
            !stored@.contains('\\') && !stored@.contains('\0'),
            pieces(stored@.take(j as int)) == done.push(stored@.subrange(start as int, j as int)),
            forall|k: int| 0 <= k < done.len() ==> !bad_piece(#[trigger] done[k]),
            path@ == push_names(root@, named(done)),
        decreases n - j,
    {
        let c = stored.get_char(j);
        let ghost cur = stored@.subrange(start as int, j as int);
        assert(stored@.take(j + 1).drop_last() == stored@.take(j as int));
        assert(stored@.take(j + 1).last() == c);
        if c == '/' {
            let piece = stored.substring_char(start, j);
            assert(pieces(stored@.take(j + 1)) == done.push(cur).push(Seq::<char>::empty()));
            match classify_piece(piece) {
                PieceClass::Refuse => {
                    proof {
                        lemma_pieces_prefix(stored@, j + 1, n as int);
                        assert(stored@.take(n as int) == stored@);
                        assert(pieces(stored@)[done.len() as int] == cur);
                    }
                    return Err(Fa10Error::UnsafeEntryPath(owned(stored)));
                },
                PieceClass::Skip => {
                    assert(named(done.push(cur)) == named(done)) by {
                        assert(done.push(cur).drop_last() == done);
                    }
                },
                PieceClass::Name => {
                    let ghost before = path@;
                    path = join_name(path.as_str(), piece);
                    assert(named(done.push(cur)) == named(done).push(cur)) by {
                        assert(done.push(cur).drop_last() == done);
                    }
                    assert(named(done).push(cur).drop_last() == named(done));
                    assert(path@ == push_names(root@, named(done).push(cur)));
                },
            }
            proof {
                done = done.push(cur);
            }
            start = j + 1;
            assert(stored@.subrange(start as int, j + 1) == Seq::<char>::empty());
        } else {
            assert(stored@.subrange(start as int, j + 1) == cur.push(c));
        }
        j += 1;
    }
    assert(stored@.take(n as int) == stored@);
    let ghost cur = stored@.subrange(start as int, n as int);
    let piece = stored.substring_char(start, n);
    match classify_piece(piece) {
        PieceClass::Refuse => {
            assert(pieces(stored@)[done.len() as int] == cur);
            return Err(Fa10Error::UnsafeEntryPath(owned(stored)));
        },
        PieceClass::Skip => {
            assert(named(done.push(cur)) == named(done)) by {
                assert(done.push(cur).drop_last() == done);
            }
        },
        PieceClass::Name => {
            path = join_name(path.as_str(), piece);
            assert(named(done.push(cur)) == named(done).push(cur)) by {
                assert(done.push(cur).drop_last() == done);
            }
            assert(named(done).push(cur).drop_last() == named(done));
            assert(path@ == push_names(root@, named(done).push(cur)));
        },
    }
    proof {
        let all = done.push(cur);
        assert(all == pieces(stored@));
        assert forall|k: int| 0 <= k < all.len() implies !bad_piece(#[trigger] all[k]) by {
            if k < done.len() {
                assert(all[k] == done[k]);
            }
        }
        assert(!unsafe_stored(stored@));
        law_extract_path_stays_under_root(root@, stored@);
    }
    // Defense in depth: the lexical join must stay under the root.
    if !starts_with_path(path.as_str(), root) {
        return Err(Fa10Error::UnsafeEntryPath(owned(stored)));
    }
    Ok(path)
}


/// `base` followed by each name of `tail`, joined by `/`.
pub open spec fn join_tail(base: Seq<char>, tail: Seq<Seq<char>>) -> Seq<char>
    decreases tail.len(),
{
    if tail.len() == 0 {
        base
    } else {
        join_tail(base, tail.drop_last()) + seq!['/'] + tail.last()
    }
}

/// One step of lexical resolution: `..` leaves the last name (at the root
/// there is nothing to leave), any other name is entered.
pub open spec fn resolve_step(stack: Seq<Seq<char>>, name: Seq<char>) -> Seq<Seq<char>> {
    if name == seq!['.', '.'] {
        if stack.len() > 0 {
            stack.drop_last()
        } else {
            stack
        }
    } else {
        stack.push(name)
    }
}

/// The names left once every `..` has removed the name before it.
pub open spec fn resolve_dots(names: Seq<Seq<char>>) -> Seq<Seq<char>>
    decreases names.len(),
{
    if names.len() == 0 {
        seq![]
    } else {
        resolve_step(resolve_dots(names.drop_last()), names.last())
    }
}

/// The root a path starts from: `/` for an absolute path, nothing otherwise.
pub open spec fn root_of(p: Seq<char>) -> Seq<char> {
    if p.len() > 0 && p[0] == '/' {
        seq!['/']
    } else {
        seq![]
    }
}

/// The lexical resolution of `base` followed by `tail`: `.` and empty
/// pieces dropped, each `..` taking away the name before it.
pub open spec fn spec_rebuild(base: Seq<char>, tail: Seq<Seq<char>>) -> Seq<char> {
    let full = join_tail(base, tail);
    push_names(root_of(full), resolve_dots(named(pieces(full))))
}

/// Lexical resolution keeps only names it was given, and never a `..`.
pub proof fn lemma_resolve_dots(names: Seq<Seq<char>>)
    requires
        forall|i: int| 0 <= i < names.len() ==> is_plain_name(#[trigger] names[i]),
    ensures
        forall|i: int|
            0 <= i < resolve_dots(names).len() ==> is_plain_name(#[trigger] resolve_dots(names)[i])
                && resolve_dots(names)[i] != seq!['.', '.'],
    decreases names.len(),
{
    if names.len() > 0 {
        let init = names.drop_last();
        assert forall|i: int| 0 <= i < init.len() implies is_plain_name(#[trigger] init[i]) by {
            assert(init[i] == names[i]);
        }
        lemma_resolve_dots(init);
        let st = resolve_dots(init);
        let r = resolve_dots(names);
        assert forall|i: int| 0 <= i < r.len() implies is_plain_name(#[trigger] r[i]) && r[i]
            != seq!['.', '.'] by {
            if names.last() == seq!['.', '.'] {
                if st.len() > 0 {
                    assert(r[i] == st[i]);
                }
            } else if i < st.len() {
                assert(r[i] == st[i]);
            }
        }
    }
}

/// The named pieces of a path are plain names.
pub proof fn lemma_named_pieces_plain(s: Seq<char>)
    ensures
        forall|i: int| 0 <= i < named(pieces(s)).len() ==> is_plain_name(#[trigger] named(pieces(s))[i]),
{
    let ps = pieces(s);
    assert forall|k: int| 0 <= k < ps.len() implies !(#[trigger] ps[k]).contains('/') by {
        lemma_no_separator_in_pieces(s, k);
    }
    lemma_named_plain(ps);
}

/// Resolving the named pieces of a sequence of pieces, one piece at a time.
pub proof fn lemma_resolve_named_step(ps: Seq<Seq<char>>)
    requires
        ps.len() >= 1,
    ensures
        resolve_dots(named(ps)) == if is_named(ps.last()) {
            resolve_step(resolve_dots(named(ps.drop_last())), ps.last())
        } else {
            resolve_dots(named(ps.drop_last()))
        },
{
    if is_named(ps.last()) {
        let ns = named(ps.drop_last()).push(ps.last());
        assert(ns.drop_last() == named(ps.drop_last()));
        assert(ns.last() == ps.last());
    }
}

/// Whether the characters are exactly `..`.
fn is_parent(v: &Vec<char>) -> (r: bool)
    ensures
        r == (v@ == seq!['.', '.']),
{
    let r = v.len() == 2 && v[0] == '.' && v[1] == '.';
    proof {
        if v@.len() == 2 && v@[0] == '.' && v@[1] == '.' {
            assert(v@ =~= seq!['.', '.']);
        }
    }
    r
}

/// Whether the characters name a component: not empty, and not `.`.
fn is_named_piece(v: &Vec<char>) -> (r: bool)
    ensures
        r == is_named(v@),
{
    proof {
        crate::paths::lemma_is_dot(v@);
    }
    v.len() > 0 && !(v.len() == 1 && v[0] == '.')
}

/// Resolve a path whose leading part `canonical_base` the file system
/// resolved and whose remaining names `tail` do not exist yet: lexically,
/// so that `.` is dropped and each `..` takes away the name before it. The
/// result never holds a `..` component, so a blocklist matched against it
/// cannot be bypassed with `..` (as in `/nonexistent/../etc/passwd`).
pub fn rebuild_normalized(canonical_base: &str, tail: &Vec<String>) -> (r: String)
    ensures
        r@ == spec_rebuild(canonical_base@, string_seqs(tail@)),
        components(r@) == components(root_of(join_tail(canonical_base@, string_seqs(tail@))))
            + resolve_dots(named(pieces(join_tail(canonical_base@, string_seqs(tail@))))),
        !components(r@).contains(seq!['.', '.']),
{
    let ghost ts = string_seqs(tail@);
    let mut full = owned(canonical_base);
    let mut t: usize = 0;
    while t < tail.len()
        invariant
            t <= tail@.len(),
            ts == string_seqs(tail@),
            full@ == join_tail(canonical_base@, ts.take(t as int)),
        decreases tail@.len() - t,
    {
        assert(ts.take(t + 1).drop_last() == ts.take(t as int));
        assert(ts.take(t + 1).last() == tail@[t as int]@);
        full.append("/");
        proof {
            reveal_strlit("/");
        }
        full.append(tail[t].as_str());
        t += 1;
    }
    assert(ts.take(tail@.len() as int) == ts);
    let ghost s = full@;
    let n = full.unicode_len();
    let mut stack: Vec<Vec<char>> = Vec::new();
    let mut cur: Vec<char> = Vec::new();
    let mut i: usize = 0;
    assert(s.take(0) =~= Seq::<char>::empty());
    assert(pieces(s.take(0)) == seq![Seq::<char>::empty()]);
    assert(pieces(s.take(0)).drop_last() =~= Seq::<Seq<char>>::empty());
    assert(char_seqs(stack@) =~= Seq::<Seq<char>>::empty());
    while i < n
        invariant
            i <= n,
            n == s.len(),
            s == full@,
            pieces(s.take(i as int)).len() >= 1,
            cur@ == pieces(s.take(i as int)).last(),
            char_seqs(stack@) == resolve_dots(named(pieces(s.take(i as int)).drop_last())),
        decreases n - i,
    {
        let c = full.as_str().get_char(i);
        let ghost ps = pieces(s.take(i as int));
        assert(s.take(i + 1).drop_last() == s.take(i as int));
        assert(s.take(i + 1).last() == c);
        if c == '/' {
            assert(pieces(s.take(i + 1)) == ps.push(Seq::<char>::empty()));
            assert(pieces(s.take(i + 1)).drop_last() == ps);
            assert(ps == ps.drop_last().push(ps.last()));
            proof {
                lemma_resolve_named_step(ps);
            }
            if is_named_piece(&cur) {
                if is_parent(&cur) {
                    if stack.len() > 0 {
                        let ghost before = char_seqs(stack@);
                        stack.pop();
                        assert(char_seqs(stack@) == before.drop_last());
                    }
                } else {
                    let ghost before = char_seqs(stack@);
                    stack.push(cur.clone());
                    assert(char_seqs(stack@) == before.push(cur@));
                }
            }
            cur = Vec::new();
        } else {
            assert(pieces(s.take(i + 1)) == ps.update(ps.len() - 1, ps.last().push(c)));
            assert(pieces(s.take(i + 1)).drop_last() == ps.drop_last());
            cur.push(c);
        }
        i += 1;
    }
    assert(s.take(n as int) == s);
    let ghost ps = pieces(s);
    assert(ps == ps.drop_last().push(ps.last()));
    proof {
        lemma_resolve_named_step(ps);
    }
    if is_named_piece(&cur) {
        if is_parent(&cur) {
            if stack.len() > 0 {
                let ghost before = char_seqs(stack@);
                stack.pop();
                assert(char_seqs(stack@) == before.drop_last());
            }
        } else {
            let ghost before = char_seqs(stack@);
            stack.push(cur.clone());
            assert(char_seqs(stack@) == before.push(cur@));
        }
    }
    assert(char_seqs(stack@) == resolve_dots(named(ps)));
    let absolute = n > 0 && full.as_str().get_char(0) == '/';
    let mut r = if absolute {
        proof {
            reveal_strlit("/");
        }
        owned("/")
    } else {
        String::new()
    };
    assert(r@ == root_of(s));
    let mut k: usize = 0;
    while k < stack.len()
        invariant
            k <= stack@.len(),
            r@ == push_names(root_of(s), char_seqs(stack@).take(k as int)),
        decreases stack@.len() - k,
    {
        assert(char_seqs(stack@).take(k + 1).drop_last() == char_seqs(stack@).take(k as int));
        assert(char_seqs(stack@).take(k + 1).last() == stack@[k as int]@);
        let name = string_of_chars(&stack[k]);
        r = join_name(r.as_str(), name.as_str());
        k += 1;
    }
    assert(char_seqs(stack@).take(stack@.len() as int) == char_seqs(stack@));
    proof {
        lemma_named_pieces_plain(s);
        lemma_resolve_dots(named(ps));
        let st = resolve_dots(named(ps));
        lemma_components_push_names(root_of(s), st);
        if root_of(s).len() > 0 {
            assert(pieces(root_of(s)) == seq![Seq::<char>::empty(), Seq::<char>::empty()]) by {
                assert(root_of(s).drop_last() =~= Seq::<char>::empty());
            }
            assert(named(pieces(root_of(s))) =~= Seq::<Seq<char>>::empty()) by {
                let rp = pieces(root_of(s));
                let one = rp.drop_last();
                assert(one =~= seq![Seq::<char>::empty()]);
                assert(!is_named(rp.last()));
                assert(named(rp) == named(one));
                assert(one.drop_last() =~= Seq::<Seq<char>>::empty());
                assert(!is_named(one.last()));
                assert(named(one) == named(one.drop_last()));
            }
            assert(components(root_of(s)) =~= seq![seq!['/']]);
        } else {
            assert(components(root_of(s)) =~= Seq::<Seq<char>>::empty()) by {
                let rp = pieces(root_of(s));
                assert(rp == seq![Seq::<char>::empty()]);
                assert(rp[0].len() == 0);
                assert(rp[0] != seq!['.']);
                assert(!is_named(rp.last()));
                assert(rp.drop_last() =~= Seq::<Seq<char>>::empty());
                assert(named(rp) == named(rp.drop_last()));
            }
        }
        let comps = components(r@);
        if comps.contains(seq!['.', '.']) {
            let j = choose|j: int| 0 <= j < comps.len() && comps[j] == seq!['.', '.'];
            if root_of(s).len() > 0 {
                if j == 0 {
                    assert(comps[0] == seq!['/']);
                    assert(seq!['/'][0] != seq!['.', '.'][0]);
                } else {
                    assert(comps[j] == st[j - 1]);
                }
            } else {
                assert(comps[j] == st[j]);
            }
        }
    }
    r
}


/// Law (what extraction refuses): a stored path is refused exactly when it
/// is empty, starts with `/`, holds a back-slash or a NUL, or has a piece
/// (between `/` separators) that is `..` or holds a `:`. Any other stored
/// path, hidden names such as `proj/.gitignore` included, lands at the root
/// followed by its named pieces (empty and `.` pieces dropped).
pub proof fn law_extract_path_refusals(root: Seq<char>, stored: Seq<char>)
    ensures
        spec_safe_extract_path(root, stored) is Err <==> {
            ||| stored.len() == 0
            ||| stored[0] == '/'
            ||| stored.contains('\\')
            ||| stored.contains('\0')
            ||| exists|k: int|
                0 <= k < pieces(stored).len() && (pieces(stored)[k] == seq!['.', '.']
                    || pieces(stored)[k].contains(':'))
        },
        spec_safe_extract_path(root, stored) is Err ==> spec_safe_extract_path(root, stored)
            == Err::<Seq<char>, ErrorView>(ErrorView::UnsafeEntryPath(stored)),
        spec_safe_extract_path(root, stored) is Ok ==> spec_safe_extract_path(root, stored)
            == Ok::<Seq<char>, ErrorView>(push_names(root, named(pieces(stored)))),
{
    let ps = pieces(stored);
    let piece_refused = exists|k: int|
        0 <= k < ps.len() && (ps[k] == seq!['.', '.'] || ps[k].contains(':'));
    if piece_refused {
        let k = choose|k: int|
            0 <= k < ps.len() && (ps[k] == seq!['.', '.'] || ps[k].contains(':'));
        assert(bad_piece(ps[k]));
    }
    if exists|k: int| 0 <= k < ps.len() && bad_piece(#[trigger] ps[k]) {
        let k = choose|k: int| 0 <= k < ps.len() && bad_piece(#[trigger] ps[k]);
        assert(ps[k] == seq!['.', '.'] || ps[k].contains(':'));
    }
}

} // verus!
