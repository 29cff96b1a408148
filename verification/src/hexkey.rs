//! Lower-case hexadecimal rendering of 64-bit digests, used to key the
//! files index.  The numeral has no leading zeros, and distinct numbers
//! render to distinct numerals.

use vstd::prelude::*;

verus! {

/// The sixteen lower-case hex digits.
pub open spec fn hex_digits() -> Seq<char> {
    seq!['0', '1', '2', '3', '4', '5', '6', '7', '8', '9', 'a', 'b', 'c', 'd', 'e', 'f']
}

/// The lower-case hex numeral of `n`, without leading zeros.
pub open spec fn hex_of(n: u64) -> Seq<char>
    decreases n,
{
    if n < 16 {
        seq![hex_digits()[n as int]]
    } else {
        hex_of(n / 16) + seq![hex_digits()[(n % 16) as int]]
    }
}

/// One hex digit as a string slice.
fn hex_digit_str(d: u64) -> (r: &'static str)
    requires
        d < 16,
    ensures
        r@ =~= seq![hex_digits()[d as int]],
{
    match d {
        0 => {
            proof {
                reveal_strlit("0");
                assert("0"@ =~= seq!['0']);
            }
            "0"
        },
        1 => {
            proof {
                reveal_strlit("1");
                assert("1"@ =~= seq!['1']);
            }
            "1"
        },
        2 => {
            proof {
                reveal_strlit("2");
                assert("2"@ =~= seq!['2']);
            }
            "2"
        },
        3 => {
            proof {
                reveal_strlit("3");
                assert("3"@ =~= seq!['3']);
            }
            "3"
        },
        4 => {
            proof {
                reveal_strlit("4");
                assert("4"@ =~= seq!['4']);
            }
            "4"
        },
        5 => {
            proof {
                reveal_strlit("5");
                assert("5"@ =~= seq!['5']);
            }
            "5"
        },
        6 => {
            proof {
                reveal_strlit("6");
                assert("6"@ =~= seq!['6']);
            }
            "6"
        },
        7 => {
            proof {
                reveal_strlit("7");
                assert("7"@ =~= seq!['7']);
            }
            "7"
        },
        8 => {
            proof {
                reveal_strlit("8");
                assert("8"@ =~= seq!['8']);
            }
            "8"
        },
        9 => {
            proof {
                reveal_strlit("9");
                assert("9"@ =~= seq!['9']);
            }
            "9"
        },
        10 => {
            proof {
                reveal_strlit("a");
                assert("a"@ =~= seq!['a']);
            }
            "a"
        },
        11 => {
            proof {
                reveal_strlit("b");
                assert("b"@ =~= seq!['b']);
            }
            "b"
        },
        12 => {
            proof {
                reveal_strlit("c");
                assert("c"@ =~= seq!['c']);
            }
            "c"
        },
        13 => {
            proof {
                reveal_strlit("d");
                assert("d"@ =~= seq!['d']);
            }
            "d"
        },
        14 => {
            proof {
                reveal_strlit("e");
                assert("e"@ =~= seq!['e']);
            }
            "e"
        },
        _ => {
            proof {
                reveal_strlit("f");
                assert("f"@ =~= seq!['f']);
            }
            "f"
        },
    }
}

/// Renders `n` as its lower-case hex numeral.
pub fn hex_key(n: u64) -> (r: String)
    ensures
        r@ == hex_of(n),
    decreases n,
{
    if n < 16 {
        String::from_str(hex_digit_str(n))
    } else {
        let mut s = hex_key(n / 16);
        s.append(hex_digit_str(n % 16));
        s
    }
}

/// Hex digits are pairwise distinct.
proof fn lemma_hex_digit_injective(a: int, b: int)
    requires
        0 <= a < 16,
        0 <= b < 16,
        hex_digits()[a] == hex_digits()[b],
    ensures
        a == b,
{
}

/// A numeral of a number below 16 has one digit; larger numbers have
/// more.
proof fn lemma_hex_of_len(n: u64)
    ensures
        hex_of(n).len() >= 1,
        n >= 16 ==> hex_of(n).len() >= 2,
    decreases n,
{
    if n >= 16 {
        lemma_hex_of_len(n / 16);
    }
}

/// Distinct numbers have distinct hex numerals.
pub proof fn lemma_hex_of_injective(a: u64, b: u64)
    requires
        hex_of(a) == hex_of(b),
    ensures
        a == b,
    decreases a,
{
    lemma_hex_of_len(a);
    lemma_hex_of_len(b);
    if a < 16 && b < 16 {
        assert(hex_of(a)[0] == hex_digits()[a as int]);
        assert(hex_of(b)[0] == hex_digits()[b as int]);
        lemma_hex_digit_injective(a as int, b as int);
    } else if a < 16 || b < 16 {
        assert(hex_of(a).len() == hex_of(b).len());
        assert(false);
    } else {
        assert(hex_of(a).last() == hex_digits()[(a % 16) as int]);
        assert(hex_of(b).last() == hex_digits()[(b % 16) as int]);
        lemma_hex_digit_injective((a % 16) as int, (b % 16) as int);
        assert(hex_of(a).drop_last() =~= hex_of(a / 16));
        assert(hex_of(b).drop_last() =~= hex_of(b / 16));
        lemma_hex_of_injective(a / 16, b / 16);
    }
}

} // verus!
