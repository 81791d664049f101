//! Deterministic decimal rendering of scaled similarities.
//!
//! A scaled similarity s (0 ≤ s ≤ 10¹⁰) denotes the rational s / 10¹⁰.
//! It is rendered as "0." followed by its ten fraction digits with the
//! trailing zeros dropped; a full score renders as "1" and an empty one
//! as "0".  Rendering is a pure function of the scaled value, so equal
//! similarities always serialize identically.

use vstd::prelude::*;

use crate::jaccard::SIM_SCALE;

verus! {

/// The decimal digit character for `d` (0 ≤ d ≤ 9).
pub open spec fn digit_char(d: int) -> char {
    if d == 0 {
        '0'
    } else if d == 1 {
        '1'
    } else if d == 2 {
        '2'
    } else if d == 3 {
        '3'
    } else if d == 4 {
        '4'
    } else if d == 5 {
        '5'
    } else if d == 6 {
        '6'
    } else if d == 7 {
        '7'
    } else if d == 8 {
        '8'
    } else {
        '9'
    }
}

/// The last `w` decimal digits of `v`, most significant first,
/// zero-padded to width `w`.
pub open spec fn digits_of(v: int, w: int) -> Seq<char>
    decreases w,
{
    if w <= 0 {
        Seq::empty()
    } else {
        digits_of(v / 10, w - 1).push(digit_char(v % 10))
    }
}

/// The width-`w` digits of `v` with trailing zeros dropped.
pub open spec fn trimmed_digits(v: int, w: int) -> Seq<char>
    decreases w,
{
    if w <= 0 {
        Seq::empty()
    } else if v % 10 == 0 {
        trimmed_digits(v / 10, w - 1)
    } else {
        digits_of(v, w)
    }
}

/// The decimal rendering of a scaled similarity.
pub open spec fn decimal_seq(s10: int) -> Seq<char> {
    if s10 >= SIM_SCALE {
        seq!['1']
    } else if s10 <= 0 {
        seq!['0']
    } else {
        seq!['0', '.'] + trimmed_digits(s10, 10)
    }
}

/// Numeric value of a decimal digit character; anything else reads as
/// zero.
pub open spec fn digit_of(c: char) -> int {
    if c == '1' {
        1
    } else if c == '2' {
        2
    } else if c == '3' {
        3
    } else if c == '4' {
        4
    } else if c == '5' {
        5
    } else if c == '6' {
        6
    } else if c == '7' {
        7
    } else if c == '8' {
        8
    } else if c == '9' {
        9
    } else {
        0
    }
}

/// The integer a digit sequence denotes, most significant first.
pub open spec fn digits_value(ds: Seq<char>) -> int
    decreases ds.len(),
{
    if ds.len() == 0 {
        0
    } else {
        digits_value(ds.drop_last()) * 10 + digit_of(ds.last())
    }
}

/// Ten to the `n`.
pub open spec fn pow10(n: int) -> int
    decreases n,
{
    if n <= 0 {
        1
    } else {
        10 * pow10(n - 1)
    }
}

/// The scaled value a rendering denotes: "1" is the full scale, "0" is
/// zero, and "0." followed by digits is their value shifted up to ten
/// fraction places.
pub open spec fn decimal_denotes(cs: Seq<char>) -> int {
    if cs == seq!['1'] {
        SIM_SCALE as int
    } else if cs == seq!['0'] {
        0
    } else {
        digits_value(cs.subrange(2, cs.len() as int)) * pow10(10 - (cs.len() - 2))
    }
}

proof fn lemma_digits_of_value(v: int, w: int)
    requires
        0 <= v < pow10(w),
        0 <= w,
    ensures
        digits_value(digits_of(v, w)) == v,
        digits_of(v, w).len() == w,
    decreases w,
{
    if w > 0 {
        assert(pow10(w) == 10 * pow10(w - 1));
        assert(v / 10 < pow10(w - 1)) by (nonlinear_arith)
            requires
                0 <= v < 10 * pow10(w - 1),
                0 < pow10(w - 1),
        {}
        assert(v / 10 >= 0 && 0 <= v % 10 < 10 && v == (v / 10) * 10 + v % 10) by (
        nonlinear_arith)
            requires
                0 <= v,
        {}
        lemma_digits_of_value(v / 10, w - 1);
        lemma_pow10_pos(w - 1);
        let ds = digits_of(v, w);
        assert(ds.drop_last() =~= digits_of(v / 10, w - 1));
        assert(digit_of(digit_char(v % 10)) == v % 10);
    } else {
        assert(digits_of(v, w) =~= Seq::<char>::empty());
    }
}

proof fn lemma_pow10_pos(n: int)
    ensures
        pow10(n) >= 1,
    decreases n,
{
    if n > 0 {
        lemma_pow10_pos(n - 1);
    }
}

proof fn lemma_trimmed_value(v: int, w: int)
    requires
        1 <= v < pow10(w),
        0 <= w,
    ensures
        1 <= trimmed_digits(v, w).len() <= w,
        digits_value(trimmed_digits(v, w)) * pow10(w - trimmed_digits(v, w).len()) == v,
    decreases w,
{
    lemma_pow10_pos(w);
    if w == 0 {
        assert(pow10(0) == 1);
        assert(false);
    } else if v % 10 == 0 {
        assert(v == (v / 10) * 10 && v / 10 >= 1 && v / 10 < pow10(w - 1)) by (nonlinear_arith)
            requires
                1 <= v < 10 * pow10(w - 1),
                v % 10 == 0,
                0 < pow10(w - 1),
                pow10(w) == 10 * pow10(w - 1),
        {}
        lemma_trimmed_value(v / 10, w - 1);
        let ds = trimmed_digits(v, w);
        assert(ds == trimmed_digits(v / 10, w - 1));
        assert(pow10(w - ds.len()) == 10 * pow10(w - 1 - ds.len()));
        assert(digits_value(ds) * (10 * pow10(w - 1 - ds.len())) == (digits_value(ds) * pow10(
            w - 1 - ds.len(),
        )) * 10) by (nonlinear_arith);
    } else {
        lemma_digits_of_value(v, w);
        assert(trimmed_digits(v, w) == digits_of(v, w));
        assert(pow10(0) == 1);
    }
}

/// The rendering is faithful: the decimal string of a scaled similarity
/// denotes exactly that value, so a client parsing the wire value reads
/// the same rational the engine computed.
pub proof fn lemma_decimal_faithful(s10: int)
    requires
        0 <= s10 <= SIM_SCALE,
    ensures
        decimal_denotes(decimal_seq(s10)) == s10,
{
    if s10 >= SIM_SCALE {
    } else if s10 <= 0 {
        assert(decimal_seq(s10) == seq!['0']);
        assert(seq!['0'] != seq!['1']) by {
            assert(seq!['0'][0] == '0' && seq!['1'][0] == '1');
        }
    } else {
        assert(pow10(10) == 10000000000) by {
            reveal_with_fuel(pow10, 11);
        }
        lemma_trimmed_value(s10, 10);
        let ds = trimmed_digits(s10, 10);
        let cs = decimal_seq(s10);
        assert(cs == seq!['0', '.'] + ds);
        assert(cs.len() >= 3);
        assert(cs != seq!['1'] && cs != seq!['0']) by {
            assert(cs.len() != 1);
        }
        assert(cs.subrange(2, cs.len() as int) =~= ds);
    }
}

/// The one-character string of a decimal digit.
fn digit_string(d: u64) -> (r: String)
    requires
        d < 10,
    ensures
        r@ == seq![digit_char(d as int)],
{
    if d == 0 {
        proof {
            reveal_strlit("0");
        }
        let r = String::from_str("0");
        assert(r@ =~= seq![digit_char(0)]);
        r
    } else if d == 1 {
        proof {
            reveal_strlit("1");
        }
        let r = String::from_str("1");
        assert(r@ =~= seq![digit_char(1)]);
        r
    } else if d == 2 {
        proof {
            reveal_strlit("2");
        }
        let r = String::from_str("2");
        assert(r@ =~= seq![digit_char(2)]);
        r
    } else if d == 3 {
        proof {
            reveal_strlit("3");
        }
        let r = String::from_str("3");
        assert(r@ =~= seq![digit_char(3)]);
        r
    } else if d == 4 {
        proof {
            reveal_strlit("4");
        }
        let r = String::from_str("4");
        assert(r@ =~= seq![digit_char(4)]);
        r
    } else if d == 5 {
        proof {
            reveal_strlit("5");
        }
        let r = String::from_str("5");
        assert(r@ =~= seq![digit_char(5)]);
        r
    } else if d == 6 {
        proof {
            reveal_strlit("6");
        }
        let r = String::from_str("6");
        assert(r@ =~= seq![digit_char(6)]);
        r
    } else if d == 7 {
        proof {
            reveal_strlit("7");
        }
        let r = String::from_str("7");
        assert(r@ =~= seq![digit_char(7)]);
        r
    } else if d == 8 {
        proof {
            reveal_strlit("8");
        }
        let r = String::from_str("8");
        assert(r@ =~= seq![digit_char(8)]);
        r
    } else {
        proof {
            reveal_strlit("9");
        }
        let r = String::from_str("9");
        assert(r@ =~= seq![digit_char(9)]);
        r
    }
}

/// Renders a scaled similarity as its decimal string.
pub fn render_similarity(s10: i64) -> (r: String)
    requires
        0 <= s10 <= SIM_SCALE,
    ensures
        r@ == decimal_seq(s10 as int),
{
    if s10 >= SIM_SCALE {
        proof {
            reveal_strlit("1");
        }
        let r = String::from_str("1");
        assert(r@ =~= seq!['1']);
        return r;
    }
    if s10 <= 0 {
        proof {
            reveal_strlit("0");
        }
        let r = String::from_str("0");
        assert(r@ =~= seq!['0']);
        return r;
    }
    let mut v: i64 = s10;
    let mut w: u64 = 10;
    while w > 0 && v % 10 == 0
        invariant
            0 <= v <= SIM_SCALE,
            0 <= w <= 10,
            trimmed_digits(v as int, w as int) == trimmed_digits(s10 as int, 10),
        decreases w,
    {
        v = v / 10;
        w = w - 1;
    }
    let ghost tv = v as int;
    let ghost tw = w as int;
    assert(digits_of(tv, tw) == trimmed_digits(s10 as int, 10));
    let mut digits = String::new();
    let mut ww = w;
    while ww > 0
        invariant
            0 <= v,
            0 <= ww <= tw,
            digits_of(v as int, ww as int) + digits@ == digits_of(tv, tw),
        decreases ww,
    {
        let d = (v % 10) as u64;
        let ds = digit_string(d);
        let ghost dprev = digits@;
        digits = ds.concat(digits.as_str());
        proof {
            assert(digits@ =~= seq![digit_char((v % 10) as int)] + dprev);
            assert(digits_of(v as int, ww as int) == digits_of((v / 10) as int, ww as int - 1).push(
                digit_char((v % 10) as int),
            ));
            assert(digits_of((v / 10) as int, ww as int - 1) + digits@ =~= digits_of(
                v as int,
                ww as int,
            ) + dprev);
        }
        v = v / 10;
        ww = ww - 1;
    }
    proof {
        assert(digits@ =~= digits_of(tv, tw));
    }
    proof {
        reveal_strlit("0.");
    }
    let mut out = String::from_str("0.");
    assert(out@ =~= seq!['0', '.']);
    out.append(digits.as_str());
    proof {
        assert(out@ =~= decimal_seq(s10 as int));
    }
    out
}

} // verus!
