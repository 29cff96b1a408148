//! Path splitting with the standard library's observable semantics:
//! trailing separators are dropped, the name is the final component
//! (absent for the root, the empty path, and a `.` or `..` component),
//! and the parent is everything before it with its own trailing
//! separators dropped — `""` for a bare name, `"/"` above a first-level
//! absolute path, absent for the root and the empty path.

use vstd::prelude::*;

use crate::text::find_last;
use crate::text::lemma_find_last_props;

verus! {

/// Trailing `/` separators removed.
pub open spec fn strip_slashes(p: Seq<char>) -> Seq<char>
    decreases p.len(),
{
    if p.len() > 0 && p.last() == '/' {
        strip_slashes(p.drop_last())
    } else {
        p
    }
}

/// Stripping keeps a prefix and leaves no trailing separator.
pub proof fn lemma_strip_props(p: Seq<char>)
    ensures
        strip_slashes(p).len() <= p.len(),
        strip_slashes(p) == p.take(strip_slashes(p).len() as int),
        strip_slashes(p).len() > 0 ==> strip_slashes(p).last() != '/',
    decreases p.len(),
{
    if p.len() > 0 && p.last() == '/' {
        lemma_strip_props(p.drop_last());
        assert(p.drop_last() =~= p.take(p.len() - 1));
        assert(p.drop_last().take(strip_slashes(p).len() as int) =~= p.take(
            strip_slashes(p).len() as int,
        ));
    } else {
        assert(p.take(p.len() as int) =~= p);
    }
}

/// Stripping removes exactly the trailing separators.
pub proof fn lemma_strip_bounds(s: Seq<char>, e: int)
    requires
        0 <= e <= s.len(),
        forall|j: int| e <= j < s.len() ==> s[j] == '/',
        e == 0 || s[e - 1] != '/',
    ensures
        strip_slashes(s) == s.take(e),
    decreases s.len(),
{
    if e == s.len() {
        if s.len() == 0 || s.last() != '/' {
            assert(s.take(s.len() as int) =~= s);
        }
    } else {
        lemma_strip_bounds(s.drop_last(), e);
        assert(s.drop_last().take(e) =~= s.take(e));
    }
}

/// A text that strips to nothing consists of separators only.
pub proof fn lemma_strip_empty(s: Seq<char>)
    requires
        strip_slashes(s).len() == 0,
    ensures
        forall|j: int| 0 <= j < s.len() ==> s[j] == '/',
    decreases s.len(),
{
    if s.len() > 0 {
        assert(s.last() == '/');
        lemma_strip_empty(s.drop_last());
        assert(forall|j: int| 0 <= j < s.len() - 1 ==> s.drop_last()[j] == s[j]);
    }
}

/// A `.` or `..` component, which names no file.
pub open spec fn is_dot_name(s: Seq<char>) -> bool {
    (s.len() == 1 && s[0] == '.') || (s.len() == 2 && s[0] == '.' && s[1] == '.')
}

/// The parent of a path: everything before the final component, its
/// trailing separators dropped; `""` for a bare name, `"/"` above a
/// first-level absolute path; absent for the root and the empty path.
pub open spec fn parent_of(p: Seq<char>) -> Option<Seq<char>> {
    let t = strip_slashes(p);
    if t.len() == 0 {
        None
    } else {
        match find_last(t, '/') {
            Some(i) => {
                let raw = strip_slashes(t.take(i));
                if raw.len() == 0 {
                    Some(seq!['/'])
                } else {
                    Some(raw)
                }
            },
            None => Some(Seq::<char>::empty()),
        }
    }
}

/// The final component of a path, trailing separators dropped; absent
/// for the root, the empty path, and a `.` or `..` component.
pub open spec fn name_of(p: Seq<char>) -> Option<Seq<char>> {
    let t = strip_slashes(p);
    if t.len() == 0 {
        None
    } else {
        let name = match find_last(t, '/') {
            Some(i) => t.skip(i + 1),
            None => t,
        };
        if is_dot_name(name) {
            None
        } else {
            Some(name)
        }
    }
}

/// The parent directory and final name of a path, where both exist.
pub open spec fn split_path(p: Seq<char>) -> Option<(Seq<char>, Seq<char>)> {
    match (parent_of(p), name_of(p)) {
        (Some(d), Some(nm)) => Some((d, nm)),
        _ => None,
    }
}

/// A parent is strictly shorter than its path.
pub proof fn lemma_parent_shrinks(p: Seq<char>)
    ensures
        parent_of(p) matches Some(d) ==> d.len() < p.len(),
{
    lemma_strip_props(p);
    let t = strip_slashes(p);
    if t.len() > 0 {
        lemma_find_last_props(t, '/');
        match find_last(t, '/') {
            Some(i) => {
                lemma_strip_props(t.take(i));
                if strip_slashes(t.take(i)).len() == 0 {
                    assert(t.last() != '/');
                    assert(i < t.len() - 1);
                }
            },
            None => {},
        }
    }
}

/// Strips the trailing `/` separators of `s[..upto]`, returning the new
/// end position.
fn strip_end(s: &str, upto: usize) -> (e: usize)
    requires
        upto <= s@.len(),
    ensures
        e <= upto,
        strip_slashes(s@.subrange(0, upto as int)) == s@.subrange(0, e as int),
{
    let mut e = upto;
    while e > 0 && s.get_char(e - 1) == '/'
        invariant
            upto <= s@.len(),
            0 <= e <= upto,
            forall|j: int| e <= j < upto ==> s@[j] == '/',
        decreases e,
    {
        e = e - 1;
    }
    proof {
        let t = s@.subrange(0, upto as int);
        assert(forall|j: int| 0 <= j < upto ==> t[j] == s@[j]);
        lemma_strip_bounds(t, e as int);
        assert(t.take(e as int) =~= s@.subrange(0, e as int));
    }
    e
}

/// Finds the last `/` before position `e`, if any.
fn last_slash_before(s: &str, e: usize) -> (r: Option<usize>)
    requires
        e <= s@.len(),
    ensures
        match r {
            Some(i) => find_last(s@.subrange(0, e as int), '/') == Some(i as int),
            None => find_last(s@.subrange(0, e as int), '/') is None,
        },
{
    let ghost t = s@.subrange(0, e as int);
    proof {
        assert(forall|j: int| 0 <= j < e ==> t[j] == s@[j]);
    }
    let mut i: usize = e;
    while i > 0
        invariant
            e <= s@.len(),
            0 <= i <= e,
            t == s@.subrange(0, e as int),
            forall|j: int| i <= j < e ==> s@[j] != '/',
        decreases i,
    {
        i = i - 1;
        if s.get_char(i) == '/' {
            proof {
                assert(forall|j: int| 0 <= j < e ==> t[j] == s@[j]);
                assert(t[i as int] == '/');
                lemma_find_last_props(t, '/');
            }
            return Some(i);
        }
    }
    proof {
        assert(forall|j: int| 0 <= j < e ==> t[j] == s@[j]);
        lemma_find_last_props(t, '/');
    }
    None
}

/// The parent directory of a path, as `std::path::Path::parent` shows
/// it.
pub fn path_parent<'a>(file_path: &'a str) -> (r: Option<&'a str>)
    ensures
        match r {
            Some(d) => parent_of(file_path@) == Some(d@),
            None => parent_of(file_path@) is None,
        },
{
    let n = file_path.unicode_len();
    proof {
        assert(file_path@.subrange(0, n as int) =~= file_path@);
    }
    let e = strip_end(file_path, n);
    if e == 0 {
        return None;
    }
    let ghost t = strip_slashes(file_path@);
    proof {
        assert(t == file_path@.subrange(0, e as int));
    }
    match last_slash_before(file_path, e) {
        Some(i) => {
            proof {
                lemma_find_last_props(t, '/');
                assert(t.take(i as int) =~= file_path@.subrange(0, i as int));
            }
            let j = strip_end(file_path, i);
            if j == 0 {
                proof {
                    assert(strip_slashes(t.take(i as int)).len() == 0);
                    lemma_strip_empty(t.take(i as int));
                    if i > 0 {
                        assert(t.take(i as int)[0] == t[0]);
                        assert(t[0] == '/');
                    } else {
                        assert(t[0] == '/');
                    }
                    assert(file_path@.subrange(0, 1)[0] == file_path@[0]);
                    assert(file_path@[0] == t[0]);
                    assert(file_path@.subrange(0, 1) =~= seq!['/']);
                }
                Some(file_path.substring_char(0, 1))
            } else {
                Some(file_path.substring_char(0, j))
            }
        },
        None => {
            proof {
                assert(file_path@.subrange(0, 0) =~= Seq::<char>::empty());
            }
            Some(file_path.substring_char(0, 0))
        },
    }
}

/// The final name of a path, as `std::path::Path::file_name` shows it.
pub fn path_name(file_path: &str) -> (r: Option<String>)
    ensures
        match r {
            Some(nm) => name_of(file_path@) == Some(nm@),
            None => name_of(file_path@) is None,
        },
{
    let n = file_path.unicode_len();
    proof {
        assert(file_path@.subrange(0, n as int) =~= file_path@);
    }
    let e = strip_end(file_path, n);
    if e == 0 {
        return None;
    }
    let ghost t = strip_slashes(file_path@);
    proof {
        assert(t == file_path@.subrange(0, e as int));
    }
    let start: usize = match last_slash_before(file_path, e) {
        Some(i) => {
            proof {
                lemma_find_last_props(t, '/');
                assert(t.skip(i + 1) =~= file_path@.subrange(i + 1, e as int));
            }
            i + 1
        },
        None => 0,
    };
    let ghost name = file_path@.subrange(start as int, e as int);
    proof {
        assert(name_of(file_path@) == (if is_dot_name(name) {
            None
        } else {
            Some(name)
        }));
    }
    let len = e - start;
    if len == 1 && file_path.get_char(start) == '.' {
        return None;
    }
    if len == 2 && file_path.get_char(start) == '.' && file_path.get_char(start + 1) == '.' {
        return None;
    }
    Some(String::from_str(file_path.substring_char(start, e)))
}

/// Splits a file path into its directory and file name, where both
/// exist.
pub fn split_dir_and_file<'a>(file_path: &'a str) -> (r: Option<(&'a str, String)>)
    ensures
        match r {
            Some(df) => split_path(file_path@) matches Some(kv) && df.0@ == kv.0 && df.1@ == kv.1,
            None => split_path(file_path@) is None,
        },
{
    let d = path_parent(file_path);
    let nm = path_name(file_path);
    match (d, nm) {
        (Some(d), Some(nm)) => Some((d, nm)),
        _ => None,
    }
}

/// Whether a discovered file's base name passes the allow-list: an
/// empty list allows every name, otherwise the name must be listed.
pub fn name_allowed(allowed: &Vec<String>, name: &str) -> (r: bool)
    ensures
        r == (allowed@.len() == 0 || exists|i: int|
            0 <= i < allowed@.len() && allowed@[i]@ == name@),
{
    if allowed.len() == 0 {
        return true;
    }
    let name_s = String::from_str(name);
    let n = allowed.len();
    let mut i: usize = 0;
    while i < n
        invariant
            n == allowed@.len(),
            0 <= i <= n,
            name_s@ == name@,
            forall|j: int| 0 <= j < i ==> allowed@[j]@ != name@,
        decreases n - i,
    {
        if allowed[i].eq(&name_s) {
            return true;
        }
        i = i + 1;
    }
    false
}

/// Appends `name` to the child list of `d`, creating the list when `d`
/// is not yet present.
pub open spec fn add_child(
    m: Map<Seq<char>, Seq<Seq<char>>>,
    d: Seq<char>,
    name: Seq<char>,
) -> Map<Seq<char>, Seq<Seq<char>>> {
    m.insert(
        d,
        (if m.contains_key(d) {
            m[d]
        } else {
            Seq::<Seq<char>>::empty()
        }).push(name),
    )
}

/// Links `p` into the directory index: its name into its parent's child
/// list, then the parent itself into the grandparent's, and so on up to
/// the root.
pub open spec fn chain_insert(m: Map<Seq<char>, Seq<Seq<char>>>, p: Seq<char>) -> Map<
    Seq<char>,
    Seq<Seq<char>>,
>
    decreases p.len()
        via chain_insert_decreases
{
    match split_path(p) {
        Some(kv) => chain_insert(add_child(m, kv.0, kv.1), kv.0),
        None => m,
    }
}

#[via_fn]
proof fn chain_insert_decreases(m: Map<Seq<char>, Seq<Seq<char>>>, p: Seq<char>) {
    lemma_parent_shrinks(p);
}

/// The (directory, child) links that one path contributes.
pub open spec fn chain_pairs(p: Seq<char>) -> Seq<(Seq<char>, Seq<char>)>
    decreases p.len()
        via chain_pairs_decreases
{
    match split_path(p) {
        Some(kv) => chain_pairs(kv.0).push((kv.0, kv.1)),
        None => Seq::<(Seq<char>, Seq<char>)>::empty(),
    }
}

#[via_fn]
proof fn chain_pairs_decreases(p: Seq<char>) {
    lemma_parent_shrinks(p);
}

/// What the child list of `d` holds of `n`, counted; an absent key
/// holds nothing.
pub open spec fn list_count(m: Map<Seq<char>, Seq<Seq<char>>>, d: Seq<char>, n: Seq<char>) -> nat {
    if m.contains_key(d) {
        m[d].to_multiset().count(n)
    } else {
        0
    }
}

/// Linking `p` adds to each child list exactly the links of `p`'s
/// chain.
pub proof fn lemma_chain_insert_count(
    m: Map<Seq<char>, Seq<Seq<char>>>,
    p: Seq<char>,
    d: Seq<char>,
    n: Seq<char>,
)
    ensures
        list_count(chain_insert(m, p), d, n) == list_count(m, d, n) + chain_pairs(
            p,
        ).to_multiset().count((d, n)),
    decreases p.len(),
{
    broadcast use vstd::multiset::group_multiset_properties;

    lemma_parent_shrinks(p);
    match split_path(p) {
        Some(kv) => {
            let m2 = add_child(m, kv.0, kv.1);
            lemma_chain_insert_count(m2, kv.0, d, n);
            chain_pairs(kv.0).to_multiset_ensures();
            assert(chain_pairs(p).to_multiset() =~= chain_pairs(kv.0).to_multiset().insert(
                (kv.0, kv.1),
            ));
            if d == kv.0 {
                let base = if m.contains_key(d) {
                    m[d]
                } else {
                    Seq::<Seq<char>>::empty()
                };
                base.to_multiset_ensures();
                assert(base.push(kv.1).to_multiset() =~= base.to_multiset().insert(kv.1));
                if !m.contains_key(d) {
                    assert(!base.contains(n));
                    assert(base.to_multiset().count(n) == 0);
                }
            }
        },
        None => {
            let emp = Seq::<(Seq<char>, Seq<char>)>::empty();
            emp.to_multiset_ensures();
            assert(!emp.contains((d, n)));
            assert(chain_pairs(p).to_multiset().count((d, n)) == 0);
        },
    }
}

/// Linking keeps every child list non-empty.
pub proof fn lemma_chain_insert_keeps_nonempty(m: Map<Seq<char>, Seq<Seq<char>>>, p: Seq<char>)
    requires
        forall|d: Seq<char>| #[trigger] m.contains_key(d) ==> m[d].len() > 0,
    ensures
        forall|d: Seq<char>| #[trigger]
            chain_insert(m, p).contains_key(d) ==> chain_insert(m, p)[d].len() > 0,
    decreases p.len(),
{
    lemma_parent_shrinks(p);
    match split_path(p) {
        Some(kv) => {
            let m2 = add_child(m, kv.0, kv.1);
            assert(forall|d: Seq<char>| #[trigger] m2.contains_key(d) ==> m2[d].len() > 0);
            lemma_chain_insert_keeps_nonempty(m2, kv.0);
            assert(chain_insert(m, p) == chain_insert(m2, kv.0));
            assert forall|d: Seq<char>| #[trigger] chain_insert(m, p).contains_key(d) implies
                chain_insert(m, p)[d].len() > 0 by {
                assert(chain_insert(m2, kv.0).contains_key(d));
                assert(chain_insert(m2, kv.0)[d].len() > 0);
            }
        },
        None => {},
    }
}

/// Linking never removes a recorded child.
pub proof fn lemma_chain_insert_monotone(
    m: Map<Seq<char>, Seq<Seq<char>>>,
    p: Seq<char>,
    d: Seq<char>,
    name: Seq<char>,
)
    requires
        m.contains_key(d),
        m[d].contains(name),
    ensures
        chain_insert(m, p).contains_key(d),
        chain_insert(m, p)[d].contains(name),
    decreases p.len(),
{
    lemma_parent_shrinks(p);
    match split_path(p) {
        Some(kv) => {
            let m2 = add_child(m, kv.0, kv.1);
            if d == kv.0 {
                let idx = choose|idx: int| 0 <= idx < m[d].len() && m[d][idx] == name;
                assert(m2[d][idx] == name);
            }
            assert(m2.contains_key(d) && m2[d].contains(name));
            lemma_chain_insert_monotone(m2, kv.0, d, name);
        },
        None => {},
    }
}

/// Linking `p` records `p`'s own name under its parent, and the parent
/// under the grandparent.
pub proof fn lemma_chain_insert_links(m: Map<Seq<char>, Seq<Seq<char>>>, p: Seq<char>)
    ensures
        split_path(p) matches Some(kv) ==> chain_insert(m, p).contains_key(kv.0) && chain_insert(
            m,
            p,
        )[kv.0].contains(kv.1),
    decreases p.len(),
{
    lemma_parent_shrinks(p);
    match split_path(p) {
        Some(kv) => {
            let m2 = add_child(m, kv.0, kv.1);
            let list = m2[kv.0];
            assert(list[list.len() - 1] == kv.1);
            assert(list.contains(kv.1));
            lemma_chain_insert_monotone(m2, kv.0, kv.0, kv.1);
        },
        None => {},
    }
}

} // verus!
