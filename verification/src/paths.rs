//! Naming conventions of the on-disk layout.
//!
//! The live data directory is `<root>/current`, the staging directory
//! used during compaction is `<root>/next`.  A segment of generation
//! `g` is the file named by five zero-padded decimal digits of `g`
//! followed by the segment extension, so that the lexicographic order
//! of the names is the generation order.

use vstd::prelude::*;
use vstd::string::{StrSliceExecFns, StringExecFns};

verus! {

/// The segment file extension, dot included.
pub open spec fn cask_ext() -> Seq<char> {
    seq!['.', 'c', 'a', 's', 'k']
}

/// The decimal digit `d` as a character.
pub open spec fn digit_char(d: int) -> char {
    if d == 0 {
        '0'
    } else if d == 1 {
        '1'
    } else if d == 2 {
        '2'
    } else if d == 3 {
        '3'
    } else if d == 4 {
        '4'
    } else if d == 5 {
        '5'
    } else if d == 6 {
        '6'
    } else if d == 7 {
        '7'
    } else if d == 8 {
        '8'
    } else {
        '9'
    }
}

/// The file name of segment generation `g`: five zero-padded decimal
/// digits, then the extension.
pub open spec fn cask_name(g: int) -> Seq<char> {
    seq![
        digit_char(g / 10000 % 10),
        digit_char(g / 1000 % 10),
        digit_char(g / 100 % 10),
        digit_char(g / 10 % 10),
        digit_char(g % 10),
    ] + cask_ext()
}

/// Whether a file name ends in the segment extension.
pub open spec fn is_cask_name(s: Seq<char>) -> bool {
    &&& s.len() >= 6
    &&& s[s.len() - 5] == '.'
    &&& s[s.len() - 4] == 'c'
    &&& s[s.len() - 3] == 'a'
    &&& s[s.len() - 2] == 's'
    &&& s[s.len() - 1] == 'k'
}

fn digit_str(d: usize) -> (r: &'static str)
    requires
        d < 10,
    ensures
        r@ == seq![digit_char(d as int)],
{
    match d {
        0 => {
            proof {
                reveal_strlit("0");
                assert("0"@ =~= seq![digit_char(0)]);
            }
            "0"
        },
        1 => {
            proof {
                reveal_strlit("1");
                assert("1"@ =~= seq![digit_char(1)]);
            }
            "1"
        },
        2 => {
            proof {
                reveal_strlit("2");
                assert("2"@ =~= seq![digit_char(2)]);
            }
            "2"
        },
        3 => {
            proof {
                reveal_strlit("3");
                assert("3"@ =~= seq![digit_char(3)]);
            }
            "3"
        },
        4 => {
            proof {
                reveal_strlit("4");
                assert("4"@ =~= seq![digit_char(4)]);
            }
            "4"
        },
        5 => {
            proof {
                reveal_strlit("5");
                assert("5"@ =~= seq![digit_char(5)]);
            }
            "5"
        },
        6 => {
            proof {
                reveal_strlit("6");
                assert("6"@ =~= seq![digit_char(6)]);
            }
            "6"
        },
        7 => {
            proof {
                reveal_strlit("7");
                assert("7"@ =~= seq![digit_char(7)]);
            }
            "7"
        },
        8 => {
            proof {
                reveal_strlit("8");
                assert("8"@ =~= seq![digit_char(8)]);
            }
            "8"
        },
        _ => {
            proof {
                reveal_strlit("9");
                assert("9"@ =~= seq![digit_char(9)]);
            }
            "9"
        },
    }
}

/// The full path of the segment file for generation `generation`
/// inside `cask_dir`.  Generations are bounded by the five-digit
/// naming convention of the layout.
pub fn cask_path(cask_dir: &str, generation: usize) -> (r: String)
    requires
        generation <= 99999,
    ensures
        r@ == cask_dir@ + seq!['/'] + cask_name(generation as int),
{
    proof {
        vstd::arithmetic::div_mod::lemma_div_is_ordered(generation as int, 99999, 10000);
        assert(99999int / 10000 == 9);
        vstd::arithmetic::div_mod::lemma_small_mod((generation as int / 10000) as nat, 10);
    }
    let d4 = generation / 10000;
    let d3 = (generation / 1000) % 10;
    let d2 = (generation / 100) % 10;
    let d1 = (generation / 10) % 10;
    let d0 = generation % 10;
    let mut name = cask_dir.to_owned();
    name.append("/");
    name.append(digit_str(d4));
    name.append(digit_str(d3));
    name.append(digit_str(d2));
    name.append(digit_str(d1));
    name.append(digit_str(d0));
    name.append(".cask");
    proof {
        reveal_strlit("/");
        reveal_strlit(".cask");
        assert(".cask"@ =~= cask_ext());
        assert("/"@ =~= seq!['/']);
        assert(name@ =~= cask_dir@ + seq!['/'] + cask_name(generation as int));
    }
    name
}

/// Whether `name` follows the segment naming convention.  Whether the
/// named entry is a regular file is for the caller to check alongside.
pub fn is_cask(name: &str) -> (r: bool)
    ensures
        r == is_cask_name(name@),
{
    let n = name.unicode_len();
    if n < 6 {
        return false;
    }
    name.get_char(n - 5) == '.' && name.get_char(n - 4) == 'c' && name.get_char(n - 3) == 'a'
        && name.get_char(n - 2) == 's' && name.get_char(n - 1) == 'k'
}

/// A generated segment name always follows the naming convention.
pub proof fn lemma_cask_name_is_cask(g: int)
    ensures
        is_cask_name(cask_name(g)),
{
}

/// Lexicographic order on character sequences, by code point: the
/// order in which file names sort.
pub open spec fn lex_less(a: Seq<char>, b: Seq<char>) -> bool
    decreases a.len(),
{
    if b.len() == 0 {
        false
    } else if a.len() == 0 {
        true
    } else if a[0] != b[0] {
        (a[0] as int) < (b[0] as int)
    } else {
        lex_less(a.drop_first(), b.drop_first())
    }
}

proof fn lemma_digit_char_order(x: int, y: int)
    requires
        0 <= x < y <= 9,
    ensures
        (digit_char(x) as int) < (digit_char(y) as int),
        digit_char(x) != digit_char(y),
{
}

/// Each decimal place of `g` relates to the quotient one place up.
proof fn lemma_digit_chain(g: int)
    requires
        0 <= g,
    ensures
        g / 1000 == 10 * (g / 10000) + (g / 1000) % 10,
        g / 100 == 10 * (g / 1000) + (g / 100) % 10,
        g / 10 == 10 * (g / 100) + (g / 10) % 10,
        g == 10 * (g / 10) + g % 10,
        0 <= g / 10000,
{
    vstd::arithmetic::div_mod::lemma_div_denominator(g, 1000, 10);
    vstd::arithmetic::div_mod::lemma_div_denominator(g, 100, 10);
    vstd::arithmetic::div_mod::lemma_div_denominator(g, 10, 10);
    vstd::arithmetic::div_mod::lemma_fundamental_div_mod(g / 1000, 10);
    vstd::arithmetic::div_mod::lemma_fundamental_div_mod(g / 100, 10);
    vstd::arithmetic::div_mod::lemma_fundamental_div_mod(g / 10, 10);
    vstd::arithmetic::div_mod::lemma_fundamental_div_mod(g, 10);
    vstd::arithmetic::div_mod::lemma_div_is_ordered(0, g, 10000);
}

/// Zero-padding is what the naming convention is for: within the
/// convention's range, segment file names sort lexicographically in
/// exactly the generation order, so a name-sorted directory listing
/// is a generation-sorted one.
pub proof fn lemma_cask_names_sorted(g1: int, g2: int)
    requires
        0 <= g1 < g2 <= 99999,
    ensures
        lex_less(cask_name(g1), cask_name(g2)),
{
    let a = cask_name(g1);
    let b = cask_name(g2);
    lemma_digit_chain(g1);
    lemma_digit_chain(g2);
    vstd::arithmetic::div_mod::lemma_div_is_ordered(g1, g2, 10000);
    vstd::arithmetic::div_mod::lemma_div_is_ordered(g1, g2, 1000);
    vstd::arithmetic::div_mod::lemma_div_is_ordered(g1, g2, 100);
    vstd::arithmetic::div_mod::lemma_div_is_ordered(g1, g2, 10);
    vstd::arithmetic::div_mod::lemma_div_is_ordered(g1, 99999, 10000);
    vstd::arithmetic::div_mod::lemma_div_is_ordered(g2, 99999, 10000);
    assert(99999int / 10000 == 9);
    vstd::arithmetic::div_mod::lemma_small_mod((g1 / 10000) as nat, 10);
    vstd::arithmetic::div_mod::lemma_small_mod((g2 / 10000) as nat, 10);

    let x4 = g1 / 10000 % 10;
    let x3 = g1 / 1000 % 10;
    let x2 = g1 / 100 % 10;
    let x1 = g1 / 10 % 10;
    let x0 = g1 % 10;
    let y4 = g2 / 10000 % 10;
    let y3 = g2 / 1000 % 10;
    let y2 = g2 / 100 % 10;
    let y1 = g2 / 10 % 10;
    let y0 = g2 % 10;

    let a1 = a.drop_first();
    let b1 = b.drop_first();
    let a2 = a1.drop_first();
    let b2 = b1.drop_first();
    let a3 = a2.drop_first();
    let b3 = b2.drop_first();
    let a4 = a3.drop_first();
    let b4 = b3.drop_first();
    assert(a1 =~= seq![digit_char(x3), digit_char(x2), digit_char(x1), digit_char(x0)]
        + cask_ext());
    assert(b1 =~= seq![digit_char(y3), digit_char(y2), digit_char(y1), digit_char(y0)]
        + cask_ext());
    assert(a2 =~= seq![digit_char(x2), digit_char(x1), digit_char(x0)] + cask_ext());
    assert(b2 =~= seq![digit_char(y2), digit_char(y1), digit_char(y0)] + cask_ext());
    assert(a3 =~= seq![digit_char(x1), digit_char(x0)] + cask_ext());
    assert(b3 =~= seq![digit_char(y1), digit_char(y0)] + cask_ext());
    assert(a4 =~= seq![digit_char(x0)] + cask_ext());
    assert(b4 =~= seq![digit_char(y0)] + cask_ext());

    if x4 != y4 {
        assert(x4 < y4);
        lemma_digit_char_order(x4, y4);
        assert(a[0] != b[0]);
        assert(lex_less(a, b));
    } else {
        assert(g1 / 10000 == g2 / 10000);
        if x3 != y3 {
            assert(x3 < y3);
            lemma_digit_char_order(x3, y3);
            assert(a1[0] != b1[0]);
            assert(lex_less(a1, b1));
            assert(lex_less(a, b));
        } else {
            assert(g1 / 1000 == g2 / 1000);
            if x2 != y2 {
                assert(x2 < y2);
                lemma_digit_char_order(x2, y2);
                assert(a2[0] != b2[0]);
                assert(lex_less(a2, b2));
                assert(lex_less(a1, b1));
                assert(lex_less(a, b));
            } else {
                assert(g1 / 100 == g2 / 100);
                if x1 != y1 {
                    assert(x1 < y1);
                    lemma_digit_char_order(x1, y1);
                    assert(a3[0] != b3[0]);
                    assert(lex_less(a3, b3));
                    assert(lex_less(a2, b2));
                    assert(lex_less(a1, b1));
                    assert(lex_less(a, b));
                } else {
                    assert(g1 / 10 == g2 / 10);
                    assert(x0 < y0);
                    lemma_digit_char_order(x0, y0);
                    assert(a4[0] != b4[0]);
                    assert(lex_less(a4, b4));
                    assert(lex_less(a3, b3));
                    assert(lex_less(a2, b2));
                    assert(lex_less(a1, b1));
                    assert(lex_less(a, b));
                }
            }
        }
    }
}

/// The live data directory under `path`.
pub fn current_dir(path: &str) -> (r: String)
    ensures
        r@ == path@ + seq!['/', 'c', 'u', 'r', 'r', 'e', 'n', 't'],
{
    let mut r = path.to_owned();
    r.append("/current");
    proof {
        reveal_strlit("/current");
        assert("/current"@ =~= seq!['/', 'c', 'u', 'r', 'r', 'e', 'n', 't']);
        assert(r@ =~= path@ + seq!['/', 'c', 'u', 'r', 'r', 'e', 'n', 't']);
    }
    r
}

/// The staging directory under `path`, used only during compaction.
pub fn next_dir(path: &str) -> (r: String)
    ensures
        r@ == path@ + seq!['/', 'n', 'e', 'x', 't'],
{
    let mut r = path.to_owned();
    r.append("/next");
    proof {
        reveal_strlit("/next");
        assert("/next"@ =~= seq!['/', 'n', 'e', 'x', 't']);
        assert(r@ =~= path@ + seq!['/', 'n', 'e', 'x', 't']);
    }
    r
}

} // verus!
