//! Fixed-width decimal rendering of small numbers, and its inverse. Bucket
//! keys and stored timestamps are built from zero-padded decimal fields, so
//! both directions are verified: a number renders to exactly one digit string
//! and that string reads back to the same number.

use vstd::prelude::*;

verus! {

use vstd::arithmetic::div_mod::{lemma_fundamental_div_mod, lemma_fundamental_div_mod_converse};

/// The digit character for `n` in `[0, 9]`.
pub open spec fn digit(n: int) -> char {
    (48 + n) as char
}

/// Whether `c` is a decimal digit character.
pub open spec fn is_digit(c: char) -> bool {
    48 <= c as int <= 57
}

/// Ten to the power `w`.
pub open spec fn pow10(w: nat) -> int
    decreases w,
{
    if w == 0 {
        1
    } else {
        10 * pow10((w - 1) as nat)
    }
}

/// Small powers of ten, unfolded for use at literal widths.
pub proof fn lemma_pow10_small()
    ensures
        pow10(0) == 1,
        pow10(1) == 10,
        pow10(2) == 100,
        pow10(3) == 1000,
        pow10(4) == 10000,
{
    reveal_with_fuel(pow10, 5);
}

/// `n` rendered as exactly `w` decimal digits, most significant first,
/// zero-padded on the left.
pub open spec fn dec(n: int, w: nat) -> Seq<char>
    decreases w,
{
    if w == 0 {
        Seq::empty()
    } else {
        dec(n / 10, (w - 1) as nat).push(digit(n % 10))
    }
}

/// The number a digit string denotes, most significant digit first.
pub open spec fn dec_val(s: Seq<char>) -> int
    decreases s.len(),
{
    if s.len() == 0 {
        0
    } else {
        dec_val(s.drop_last()) * 10 + (s.last() as int - 48)
    }
}

/// A number below `pow10(w)` renders to `w` digit characters that denote it.
pub proof fn lemma_dec_props(n: int, w: nat)
    requires
        0 <= n < pow10(w),
    ensures
        dec(n, w).len() == w,
        forall|i: int| 0 <= i < w ==> is_digit(#[trigger] dec(n, w)[i]),
        dec_val(dec(n, w)) == n,
    decreases w,
{
    if w == 0 {
    } else {
        lemma_fundamental_div_mod(n, 10);
        assert(n / 10 < pow10((w - 1) as nat));
        lemma_dec_props(n / 10, (w - 1) as nat);
        let s = dec(n, w);
        assert(s.drop_last() =~= dec(n / 10, (w - 1) as nat));
        assert(s.last() == digit(n % 10));
        assert(digit(n % 10) as int == 48 + n % 10);
    }
}

/// A string of digit characters denotes a number below `pow10(len)` and is
/// the rendering of that number: reading digits back is injective.
pub proof fn lemma_dec_of_digits(s: Seq<char>)
    requires
        forall|i: int| 0 <= i < s.len() ==> is_digit(#[trigger] s[i]),
    ensures
        0 <= dec_val(s) < pow10(s.len()),
        dec(dec_val(s), s.len()) == s,
    decreases s.len(),
{
    if s.len() == 0 {
        assert(dec(0, 0) =~= s);
    } else {
        let dl = s.drop_last();
        assert(forall|i: int| 0 <= i < dl.len() ==> is_digit(#[trigger] dl[i]));
        lemma_dec_of_digits(dl);
        let v = dec_val(s);
        let r = s.last() as int - 48;
        assert(is_digit(s[s.len() - 1]));
        lemma_fundamental_div_mod_converse(v, 10, dec_val(dl), r);
        assert(digit(v % 10) == s.last());
        assert(dec(v, s.len()) =~= s);
    }
}

/// Appends the digit character for `d` to `s`.
fn push_digit(s: &mut String, d: u64)
    requires
        d < 10,
    ensures
        final(s)@ == old(s)@.push(digit(d as int)),
{
    match d {
        0 => {
            proof {
                reveal_strlit("0");
            }
            s.append("0");
        },
        1 => {
            proof {
                reveal_strlit("1");
            }
            s.append("1");
        },
        2 => {
            proof {
                reveal_strlit("2");
            }
            s.append("2");
        },
        3 => {
            proof {
                reveal_strlit("3");
            }
            s.append("3");
        },
        4 => {
            proof {
                reveal_strlit("4");
            }
            s.append("4");
        },
        5 => {
            proof {
                reveal_strlit("5");
            }
            s.append("5");
        },
        6 => {
            proof {
                reveal_strlit("6");
            }
            s.append("6");
        },
        7 => {
            proof {
                reveal_strlit("7");
            }
            s.append("7");
        },
        8 => {
            proof {
                reveal_strlit("8");
            }
            s.append("8");
        },
        _ => {
            proof {
                reveal_strlit("9");
            }
            s.append("9");
        },
    }
    assert(s@ =~= old(s)@.push(digit(d as int)));
}

/// Appends `n` to `s` as exactly `w` decimal digits, zero-padded.
pub fn push_dec(s: &mut String, n: u64, w: u64)
    requires
        w <= 4,
    ensures
        final(s)@ == old(s)@ + dec(n as int, w as nat),
    decreases w,
{
    if w == 0 {
        assert(s@ =~= old(s)@ + dec(n as int, 0));
    } else {
        push_dec(s, n / 10, w - 1);
        push_digit(s, n % 10);
        assert(s@ =~= old(s)@ + dec(n as int, w as nat));
    }
}

/// Reads the `w` characters of `s` starting at `start` as a zero-padded
/// decimal number. Returns the number exactly when that window is the
/// rendering of one; no number below `pow10(w)` renders to a rejected window.
pub fn read_number(s: &str, start: usize, w: usize) -> (r: Option<u64>)
    requires
        start + w <= s@.len(),
        start + w <= usize::MAX,
        w <= 4,
    ensures
        match r {
            Some(v) => v < pow10(w as nat) && s@.subrange(start as int, start + w) == dec(
                v as int,
                w as nat,
            ),
            None => forall|v: int|
                0 <= v < pow10(w as nat) ==> s@.subrange(start as int, start + w) != dec(
                    v,
                    w as nat,
                ),
        },
{
    proof {
        lemma_pow10_small();
    }
    let ghost window = s@.subrange(start as int, start + w);
    let mut acc: u64 = 0;
    let mut i: usize = 0;
    while i < w
        invariant
            i <= w <= 4,
            start + w <= s@.len(),
            start + w <= usize::MAX,
            window == s@.subrange(start as int, start + w),
            acc < pow10(i as nat),
            acc == dec_val(window.subrange(0, i as int)),
            forall|j: int| 0 <= j < i ==> is_digit(#[trigger] window[j]),
            pow10(4nat) == 10000,
        decreases w - i,
    {
        let c = s.get_char(start + i);
        let cv = c as u32;
        if cv < 48 || cv > 57 {
            proof {
                assert(!is_digit(window[i as int]));
                assert forall|v: int| 0 <= v < pow10(w as nat) implies window != dec(
                    v,
                    w as nat,
                ) by {
                    lemma_dec_props(v, w as nat);
                    if window == dec(v, w as nat) {
                        assert(is_digit(dec(v, w as nat)[i as int]));
                    }
                }
            }
            return None;
        }
        proof {
            lemma_pow10_small();
            assert(acc <= 999);
            assert(is_digit(window[i as int]));
            assert(window.subrange(0, i + 1) =~= window.subrange(0, i as int).push(
                window[i as int],
            ));
            let prefix = window.subrange(0, i as int);
            assert(prefix.push(window[i as int]).drop_last() =~= prefix);
            assert(dec_val(prefix.push(window[i as int])) == dec_val(prefix) * 10 + (
            window[i as int] as int - 48));
            assert(window[i as int] == c);
            assert(pow10((i + 1) as nat) == 10 * pow10(i as nat));
        }
        acc = acc * 10 + (cv - 48) as u64;
        i = i + 1;
    }
    proof {
        assert(window.subrange(0, w as int) =~= window);
        lemma_dec_of_digits(window);
    }
    Some(acc)
}

} // verus!
