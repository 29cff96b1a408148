//! Root-path anonymization: a textual substitution that overwrites
//! every occurrence of the configured root string with the placeholder
//! `@`, scanning left to right without overlap.  The emitted text then
//! holds no occurrence of the root string at all, which is proved
//! below.

use vstd::prelude::*;

use crate::text::occurs;
use crate::text::occurs_at;

verus! {

/// `text` with every occurrence of `pat` overwritten by `@`, scanning
/// left to right without overlap.
pub open spec fn replaced(text: Seq<char>, pat: Seq<char>) -> Seq<char>
    decreases text.len(),
{
    if pat.len() == 0 || text.len() == 0 {
        text
    } else if text.len() >= pat.len() && text.take(pat.len() as int) == pat {
        seq!['@'] + replaced(text.skip(pat.len() as int), pat)
    } else {
        seq![text[0]] + replaced(text.drop_first(), pat)
    }
}

/// Whether `pat` matches `text` at position `i`.
fn matches_at(text: &str, pat: &str, i: usize, n: usize, m: usize) -> (r: bool)
    requires
        n == text@.len(),
        m == pat@.len(),
        i + m <= n,
    ensures
        r == occurs_at(text@, pat@, i as int),
{
    let mut k: usize = 0;
    while k < m
        invariant
            n == text@.len(),
            m == pat@.len(),
            i + m <= n,
            0 <= k <= m,
            forall|j: int| 0 <= j < k ==> text@[i + j] == pat@[j],
        decreases m - k,
    {
        if text.get_char(i + k) != pat.get_char(k) {
            proof {
                assert(text@.subrange(i as int, i + m)[k as int] == text@[i + k]);
            }
            return false;
        }
        k = k + 1;
    }
    proof {
        assert(text@.subrange(i as int, i + m) =~= pat@);
    }
    true
}

/// Overwrites every occurrence of `pat` in `text` with `@`.
pub fn replace_all(text: &str, pat: &str) -> (r: String)
    ensures
        r@ == replaced(text@, pat@),
{
    let n = text.unicode_len();
    let m = pat.unicode_len();
    if m == 0 {
        return String::from_str(text);
    }
    let mut out = String::new();
    let mut i: usize = 0;
    proof {
        assert(text@.skip(0) =~= text@);
    }
    while i < n
        invariant
            n == text@.len(),
            m == pat@.len(),
            m >= 1,
            0 <= i <= n,
            replaced(text@, pat@) == out@ + replaced(text@.skip(i as int), pat@),
        decreases n - i,
    {
        let ghost rest = text@.skip(i as int);
        if n - i >= m && matches_at(text, pat, i, n, m) {
            proof {
                reveal_strlit("@");
                assert("@"@ =~= seq!['@']);
                assert(rest.take(m as int) =~= text@.subrange(i as int, i + m));
                assert(rest.skip(m as int) =~= text@.skip(i + m));
                assert(replaced(rest, pat@) == seq!['@'] + replaced(text@.skip(i + m), pat@));
                assert((out@ + replaced(rest, pat@)) =~= (out@ + seq!['@']) + replaced(
                    text@.skip(i + m),
                    pat@,
                ));
            }
            out.append("@");
            i = i + m;
        } else {
            proof {
                if i + m <= n {
                    assert(rest.take(m as int) =~= text@.subrange(i as int, i + m));
                    assert(rest.take(m as int) != pat@);
                }
                assert(rest[0] == text@[i as int]);
                assert(rest.drop_first() =~= text@.skip(i + 1));
                assert(replaced(rest, pat@) == seq![text@[i as int]] + replaced(
                    text@.skip(i + 1),
                    pat@,
                ));
                assert(text@.subrange(i as int, i + 1) =~= seq![text@[i as int]]);
                assert((out@ + replaced(rest, pat@)) =~= (out@ + seq![text@[i as int]])
                    + replaced(text@.skip(i + 1), pat@));
            }
            let piece = text.substring_char(i, i + 1);
            out.append(piece);
            i = i + 1;
        }
    }
    proof {
        assert(text@.skip(n as int).len() == 0);
        assert(out@ + replaced(text@.skip(n as int), pat@) =~= out@);
    }
    out
}

/// When a suffix of the pattern starts the replaced text, it also
/// starts the original text: placeholders never stand in for pattern
/// characters.
proof fn lemma_replaced_prefix(text: Seq<char>, pat: Seq<char>, j: int)
    requires
        pat.len() > 0,
        !pat.contains('@'),
        0 <= j < pat.len(),
        pat.skip(j).is_prefix_of(replaced(text, pat)),
    ensures
        pat.skip(j).is_prefix_of(text),
    decreases text.len(),
{
    let r = replaced(text, pat);
    let tail = pat.skip(j);
    assert(tail.len() == pat.len() - j >= 1);
    assert(tail[0] == pat[j]);
    if text.len() == 0 {
        assert(r.len() == 0);
        assert(false);
    } else if text.len() >= pat.len() && text.take(pat.len() as int) == pat {
        assert(r[0] == '@');
        assert(tail[0] == '@');
        assert(pat.contains('@'));
        assert(false);
    } else {
        assert(r == seq![text[0]] + replaced(text.drop_first(), pat));
        assert(tail[0] == r[0]);
        assert(r[0] == text[0]);
        if j + 1 == pat.len() {
            assert(tail =~= seq![pat[j]]);
            assert(text.take(1) =~= seq![text[0]]);
            assert(tail.is_prefix_of(text));
        } else {
            let r2 = replaced(text.drop_first(), pat);
            assert(pat.skip(j + 1) =~= tail.skip(1));
            assert forall|x: int| 0 <= x < pat.len() - j - 1 implies pat.skip(j + 1)[x] == r2[x] by {
                assert(tail[x + 1] == r[x + 1]);
                assert(r[x + 1] == r2[x]);
            }
            assert(pat.skip(j + 1) =~= r2.take(pat.len() - j - 1));
            assert(pat.skip(j + 1).is_prefix_of(r2));
            lemma_replaced_prefix(text.drop_first(), pat, j + 1);
            assert forall|x: int| 0 <= x < tail.len() implies tail[x] == text[x] by {
                if x > 0 {
                    assert(pat.skip(j + 1)[x - 1] == text.drop_first().take(pat.len() - j - 1)[x
                        - 1]);
                }
            }
            assert(tail =~= text.take(pat.len() - j));
            assert(tail.is_prefix_of(text));
        }
    }
}

/// Root anonymization: when the pattern does not itself contain the
/// placeholder, the replaced text holds no occurrence of the pattern.
pub proof fn lemma_replaced_no_occurrence(text: Seq<char>, pat: Seq<char>)
    requires
        pat.len() > 0,
        !pat.contains('@'),
    ensures
        !occurs(replaced(text, pat), pat),
    decreases text.len(),
{
    let r = replaced(text, pat);
    if occurs(r, pat) {
        let i = choose|i: int| occurs_at(r, pat, i);
        assert(occurs_at(r, pat, i));
        if text.len() == 0 {
            assert(r.len() == 0);
            assert(false);
        } else if text.len() >= pat.len() && text.take(pat.len() as int) == pat {
            let r2 = replaced(text.skip(pat.len() as int), pat);
            assert(r == seq!['@'] + r2);
            if i == 0 {
                assert(pat[0] == r.subrange(0, pat.len() as int)[0]);
                assert(pat[0] == '@');
                assert(pat.contains('@'));
                assert(false);
            } else {
                assert(r.subrange(i, i + pat.len() as int) =~= r2.subrange(
                    i - 1,
                    i - 1 + pat.len() as int,
                ));
                assert(occurs_at(r2, pat, i - 1));
                lemma_replaced_no_occurrence(text.skip(pat.len() as int), pat);
                assert(false);
            }
        } else {
            let r2 = replaced(text.drop_first(), pat);
            assert(r == seq![text[0]] + r2);
            if i == 0 {
                assert(pat =~= r.take(pat.len() as int));
                assert(pat.is_prefix_of(r));
                assert(pat[0] == r[0]);
                assert(r[0] == text[0]);
                if pat.len() == 1 {
                    assert(text.take(1) =~= seq![text[0]]);
                    assert(text.take(1) == pat);
                    assert(false);
                } else {
                    assert forall|x: int| 0 <= x < pat.len() - 1 implies pat.skip(1)[x]
                        == r2.take(pat.len() - 1)[x] by {
                        assert(pat[x + 1] == r[x + 1]);
                        assert(r[x + 1] == r2[x]);
                    }
                    assert(pat.skip(1) =~= r2.take(pat.len() - 1));
                    assert(pat.skip(1).is_prefix_of(r2));
                    lemma_replaced_prefix(text.drop_first(), pat, 1);
                    assert forall|x: int| 0 <= x < pat.len() implies pat[x] == text[x] by {
                        if x > 0 {
                            assert(pat.skip(1)[x - 1] == text.drop_first().take(pat.len() - 1)[x
                                - 1]);
                        }
                    }
                    assert(pat =~= text.take(pat.len() as int));
                    assert(false);
                }
            } else {
                assert(r.subrange(i, i + pat.len() as int) =~= r2.subrange(
                    i - 1,
                    i - 1 + pat.len() as int,
                ));
                assert(occurs_at(r2, pat, i - 1));
                lemma_replaced_no_occurrence(text.drop_first(), pat);
                assert(false);
            }
        }
    }
}

} // verus!
