//! Delimiter-based key-value extraction of a file's text.
//!
//! The text is split on the literal delimiter line `"----\n"` into
//! segments.  A segment with a `:` contributes one binding: the key is
//! the part before the first `:`, trimmed and lowercased; the value is
//! the part after it, trimmed.  Later segments overwrite
//! earlier bindings of the same key; segments without a `:` contribute
//! nothing.  Malformed text never fails: at worst the mapping is empty.

use vstd::prelude::*;

use crate::kvmap::KvMap;
use crate::text::find_char;
use crate::text::find_first;
use crate::text::lemma_find_first_at;
use crate::text::lemma_find_first_none;
use crate::text::lemma_find_first_props;
use crate::text::lemma_occurs_single;
use crate::text::lemma_occurs_skip;
use crate::text::lower_of;
use crate::text::lowercase;
use crate::text::occurs_at;
use crate::text::trim_of;
use crate::text::trim_str;

verus! {

/// The segment delimiter.
pub open spec fn delim() -> Seq<char> {
    seq!['-', '-', '-', '-', '\n']
}

/// What one segment contributes: the binding of its first-`:` split, or
/// nothing when it holds no `:`.
pub open spec fn parse_segment(seg: Seq<char>) -> Option<(Seq<char>, Seq<char>)> {
    match find_first(seg, seq![':']) {
        Some(i) => Some(
            (lower_of(trim_of(seg.take(i))), trim_of(seg.skip(i + 1))),
        ),
        None => None,
    }
}

/// Folds one segment's contribution into `m`.
pub open spec fn apply_segment(
    m: Map<Seq<char>, Seq<char>>,
    seg: Seq<char>,
) -> Map<Seq<char>, Seq<char>> {
    match parse_segment(seg) {
        Some(kv) => m.insert(kv.0, kv.1),
        None => m,
    }
}

/// Folds the segments of `text`, split on the delimiter, into `m`, left
/// to right.
pub open spec fn parse_from(m: Map<Seq<char>, Seq<char>>, text: Seq<char>) -> Map<
    Seq<char>,
    Seq<char>,
>
    decreases text.len()
        via parse_from_decreases
{
    match find_first(text, delim()) {
        Some(i) => parse_from(apply_segment(m, text.take(i)), text.skip(i + 5)),
        None => apply_segment(m, text),
    }
}

#[via_fn]
proof fn parse_from_decreases(m: Map<Seq<char>, Seq<char>>, text: Seq<char>) {
    lemma_find_first_props(text, delim());
}

/// The key-value mapping parsed from a file's full text.
pub open spec fn parse_content(text: Seq<char>) -> Map<Seq<char>, Seq<char>> {
    parse_from(Map::empty(), text)
}

/// Whether the delimiter starts at position `i` of `s`.
fn is_delim_at(s: &str, i: usize, n: usize) -> (r: bool)
    requires
        n == s@.len(),
        i + 5 <= n,
    ensures
        r == occurs_at(s@, delim(), i as int),
{
    let r = s.get_char(i) == '-' && s.get_char(i + 1) == '-' && s.get_char(i + 2) == '-'
        && s.get_char(i + 3) == '-' && s.get_char(i + 4) == '\n';
    proof {
        if r {
            assert(s@.subrange(i as int, i + 5) =~= delim());
        } else {
            assert(s@.subrange(i as int, i + 5)[0] == s@[i as int]);
            assert(s@.subrange(i as int, i + 5)[1] == s@[i + 1]);
            assert(s@.subrange(i as int, i + 5)[2] == s@[i + 2]);
            assert(s@.subrange(i as int, i + 5)[3] == s@[i + 3]);
            assert(s@.subrange(i as int, i + 5)[4] == s@[i + 4]);
        }
    }
    r
}

/// Applies one segment's contribution to the map under construction.
fn add_segment(m: &mut KvMap<String>, seg: &str)
    requires
        old(m).wf(),
    ensures
        final(m).wf(),
        final(m)@ == apply_segment(old(m)@, seg@),
{
    match find_char(seg, ':') {
        Some(ci) => {
            proof {
                lemma_find_first_props(seg@, seq![':']);
            }
            let raw_key = seg.substring_char(0, ci);
            let key = lowercase(trim_str(raw_key));
            let n = seg.unicode_len();
            let raw_val = seg.substring_char(ci + 1, n);
            let val = String::from_str(trim_str(raw_val));
            proof {
                assert(seg@.subrange(0, ci as int) =~= seg@.take(ci as int));
                assert(seg@.subrange(ci + 1, n as int) =~= seg@.skip(ci + 1));
            }
            m.insert(key, val);
        },
        None => {},
    }
}

/// Parses a file's full text into its key-value mapping.
pub fn content_from_string(text: &str) -> (r: KvMap<String>)
    ensures
        r.wf(),
        r@ == parse_content(text@),
{
    let n = text.unicode_len();
    let mut m = KvMap::<String>::new();
    let mut start: usize = 0;
    let mut i: usize = 0;
    proof {
        assert(text@.skip(0) =~= text@);
    }
    while i < n
        invariant
            n == text@.len(),
            0 <= start <= i <= n,
            m.wf(),
            parse_content(text@) == parse_from(m@, text@.skip(start as int)),
            forall|j: int| start <= j < i ==> !occurs_at(text@, delim(), j),
        decreases n - i,
    {
        if n - i >= 5 && is_delim_at(text, i, n) {
            proof {
                assert forall|j: int| 0 <= j < i - start implies !occurs_at(
                    text@.skip(start as int),
                    delim(),
                    j,
                ) by {
                    lemma_occurs_skip(text@, delim(), start as int, j);
                }
                lemma_occurs_skip(text@, delim(), start as int, i - start);
                lemma_find_first_at(text@.skip(start as int), delim(), i - start);
                assert(text@.skip(start as int).take(i - start) =~= text@.subrange(
                    start as int,
                    i as int,
                ));
                assert(text@.skip(start as int).skip(i - start + 5) =~= text@.skip(i + 5));
            }
            let seg = text.substring_char(start, i);
            add_segment(&mut m, seg);
            start = i + 5;
            i = i + 5;
        } else {
            proof {
                if i + 5 <= n {
                    assert(!occurs_at(text@, delim(), i as int));
                }
            }
            i = i + 1;
        }
    }
    proof {
        assert forall|j: int| !occurs_at(text@.skip(start as int), delim(), j) by {
            if 0 <= j {
                lemma_occurs_skip(text@, delim(), start as int, j);
            }
        }
        lemma_find_first_none(text@.skip(start as int), delim());
        assert(text@.skip(start as int).subrange(0, n - start) =~= text@.skip(start as int));
    }
    let seg = text.substring_char(start, n);
    proof {
        assert(seg@ =~= text@.skip(start as int));
    }
    add_segment(&mut m, seg);
    m
}

/// Text without a `:` parses to an empty mapping: no segment of it can
/// contribute a binding.
pub proof fn lemma_no_colon_parses_empty(m: Map<Seq<char>, Seq<char>>, text: Seq<char>)
    requires
        forall|j: int| 0 <= j < text.len() ==> text[j] != ':',
    ensures
        parse_from(m, text) == m,
    decreases text.len(),
{
    lemma_find_first_props(text, delim());
    match find_first(text, delim()) {
        Some(i) => {
            assert forall|j: int| !occurs_at(text.take(i), seq![':'], j) by {
                if 0 <= j < i {
                    lemma_occurs_single(text.take(i), ':', j);
                    assert(text.take(i)[j] == text[j]);
                }
            }
            lemma_find_first_none(text.take(i), seq![':']);
            assert(parse_segment(text.take(i)) is None);
            assert(forall|j: int|
                0 <= j < text.skip(i + 5).len() ==> #[trigger] text.skip(i + 5)[j] == text[i + 5
                    + j]);
            lemma_no_colon_parses_empty(apply_segment(m, text.take(i)), text.skip(i + 5));
        },
        None => {
            assert forall|j: int| !occurs_at(text, seq![':'], j) by {
                if 0 <= j < text.len() {
                    lemma_occurs_single(text, ':', j);
                }
            }
            lemma_find_first_none(text, seq![':']);
            assert(parse_segment(text) is None);
        },
    }
}

} // verus!
