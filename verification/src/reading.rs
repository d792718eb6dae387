//! Reading texts back: what the numbers in them stand for. The laws on texts are
//! stated by what a reader takes from them.
use crate::double::{
    infinite, law_rounded_part, lemma_whole_value, one, rounded_part, sign_text, tenths_text, units_text, whole,
    Num,
};
use crate::rounding::{apart, half_even, law_half_even, lemma_pow2_ordered, within};
use crate::text::{digits, two_digits};
use vstd::arithmetic::mul::lemma_mul_strictly_positive;
use vstd::arithmetic::power2::{lemma2_to64, lemma_pow2_adds, lemma_pow2_pos, pow2};
use vstd::prelude::*;

verus! {

/// Whether a text consists of decimal digits, at least one.
pub open spec fn is_number(s: Seq<char>) -> bool {
    s.len() > 0 && forall|i: int| 0 <= i < s.len() ==> '0' <= #[trigger] s[i] <= '9'
}

/// The number that decimal digits stand for.
pub open spec fn number_in(s: Seq<char>) -> nat
    decreases s.len(),
{
    if s.len() == 0 {
        0
    } else {
        10 * number_in(s.drop_last()) + (s.last() as nat - '0' as nat) as nat
    }
}

/// The parts of a text between the marks.
pub open spec fn fields(s: Seq<char>, mark: char) -> Seq<Seq<char>>
    decreases s.len(),
{
    if s.len() == 0 {
        seq![Seq::empty()]
    } else {
        let before = fields(s.drop_last(), mark);
        if s.last() == mark {
            before.push(Seq::empty())
        } else {
            before.drop_last().push(before.last().push(s.last()))
        }
    }
}

/// A text without the mark is one part.
pub proof fn lemma_one_field(s: Seq<char>, mark: char)
    requires
        forall|i: int| 0 <= i < s.len() ==> #[trigger] s[i] != mark,
    ensures
        fields(s, mark) == seq![s],
    decreases s.len(),
{
    if s.len() > 0 {
        lemma_one_field(s.drop_last(), mark);
        assert(s.last() == s[s.len() - 1]);
        assert(s.drop_last().push(s.last()) =~= s);
        assert(fields(s, mark) =~= seq![s]);
    } else {
        assert(s =~= Seq::empty());
        assert(fields(s, mark) =~= seq![s]);
    }
}

/// What follows a mark and holds none is the last part.
pub proof fn lemma_last_field(s: Seq<char>, mark: char, rest: Seq<char>)
    requires
        forall|i: int| 0 <= i < rest.len() ==> #[trigger] rest[i] != mark,
    ensures
        fields(s + seq![mark] + rest, mark) == fields(s, mark).push(rest),
    decreases rest.len(),
{
    let text = s + seq![mark] + rest;
    if rest.len() == 0 {
        assert(text.last() == mark);
        assert(text.drop_last() =~= s);
        assert(rest =~= Seq::empty());
    } else {
        let shorter = rest.drop_last();
        lemma_last_field(s, mark, shorter);
        assert(text.drop_last() =~= s + seq![mark] + shorter);
        assert(text.last() == rest[rest.len() - 1]);
        let before = fields(s, mark).push(shorter);
        assert(before.drop_last() =~= fields(s, mark));
        assert(shorter.push(rest.last()) =~= rest);
    }
}

/// The decimal text of a number reads back as that number, and starts with a zero
/// only for zero itself.
pub proof fn law_digits_read_back(n: nat)
    ensures
        is_number(digits(n)),
        number_in(digits(n)) == n,
        digits(n)[0] == '0' ==> n == 0 && digits(n).len() == 1,
    decreases n,
{
    let d = digits(n);
    if n < 10 {
        assert(d.drop_last() =~= Seq::empty());
        assert(number_in(d.drop_last()) == 0);
    } else {
        law_digits_read_back(n / 10);
        let init = digits(n / 10);
        assert(d.drop_last() =~= init);
        assert(d[0] == init[0]);
    }
}

/// Different numbers have different texts.
pub proof fn law_digits_differ(a: nat, b: nat)
    ensures
        digits(a) == digits(b) ==> a == b,
{
    law_digits_read_back(a);
    law_digits_read_back(b);
}

/// A zero in front changes nothing.
pub proof fn lemma_leading_zero(s: Seq<char>)
    ensures
        number_in(seq!['0'] + s) == number_in(s),
    decreases s.len(),
{
    let t = seq!['0'] + s;
    if s.len() == 0 {
        assert(t.drop_last() =~= Seq::empty());
        assert(number_in(t.drop_last()) == 0);
    } else {
        lemma_leading_zero(s.drop_last());
        assert(t.drop_last() =~= seq!['0'] + s.drop_last());
    }
}

/// A number below a hundred is written with two digits that read back as it.
pub proof fn law_two_digits_read_back(n: nat)
    ensures
        is_number(two_digits(n)),
        number_in(two_digits(n)) == n,
        n < 100 ==> two_digits(n).len() == 2,
{
    reveal_strlit("0");
    assert("0"@ =~= seq!['0']);
    law_digits_read_back(n);
    lemma_leading_zero(digits(n));
    if 10 <= n < 100 {
        assert(digits(n / 10).len() == 1);
    }
}

/// Whether a text is a number with one decimal.
pub open spec fn is_decimal(s: Seq<char>) -> bool {
    let f = fields(s, '.');
    f.len() == 2 && is_number(f[0]) && is_number(f[1]) && f[1].len() == 1
}

/// The tenths that a number with one decimal stands for.
pub open spec fn tenths_in(s: Seq<char>) -> nat {
    10 * number_in(fields(s, '.')[0]) + number_in(fields(s, '.')[1])
}

proof fn lemma_decimal(t: nat)
    ensures
        ({
            let s = digits(t / 10) + "."@ + digits(t % 10);
            is_decimal(s) && tenths_in(s) == t
        }),
{
    reveal_strlit(".");
    assert("."@ =~= seq!['.']);
    let (a, b) = (digits(t / 10), digits(t % 10));
    law_digits_read_back(t / 10);
    law_digits_read_back(t % 10);
    assert forall|i: int| 0 <= i < a.len() implies #[trigger] a[i] != '.' by {
        assert('0' <= a[i] <= '9');
    }
    assert forall|i: int| 0 <= i < b.len() implies #[trigger] b[i] != '.' by {
        assert('0' <= b[i] <= '9');
    }
    lemma_one_field(a, '.');
    lemma_last_field(a, '.', b);
    let f = fields(a + seq!['.'] + b, '.');
    assert(f[0] == a && f[1] == b);
    assert(b.len() == 1);
}

/// A finite number that is not negative, written with one decimal, reads back as
/// a number of tenths that is at most half a tenth away from it.
pub proof fn law_tenths_read_back(x: Num)
    requires
        !x.nan,
        !x.neg,
        !x.is_infinite(),
    ensures
        is_decimal(tenths_text(x)),
        2 * apart((tenths_in(tenths_text(x)) * one()) as int, (10 * x.mag) as int) <= one(),
{
    lemma_pow2_pos(1074);
    let t = half_even(x.mag * 10, one());
    law_half_even(x.mag * 10, one());
    lemma_decimal(t);
    reveal_strlit("");
    assert(sign_text(x) + digits(t / 10) =~= digits(t / 10));
}

/// A finite number that is not negative, written without decimals, reads back as
/// a number that is at most one half away from it.
pub proof fn law_units_read_back(x: Num)
    requires
        !x.nan,
        !x.neg,
        !x.is_infinite(),
    ensures
        is_number(units_text(x)),
        2 * apart((number_in(units_text(x)) * one()) as int, x.mag as int) <= one(),
{
    lemma_pow2_pos(1074);
    let u = half_even(x.mag, one());
    law_half_even(x.mag, one());
    law_digits_read_back(u);
    reveal_strlit("");
    assert(sign_text(x) + digits(u) =~= digits(u));
}

/// A finite number below zero is written as the number above zero, after a minus.
pub proof fn law_minus_sign(x: Num)
    requires
        !x.nan,
        x.neg,
        !x.is_infinite(),
    ensures
        tenths_text(x) == "-"@ + tenths_text(Num { neg: false, ..x }),
        units_text(x) == "-"@ + units_text(Num { neg: false, ..x }),
{
    let y = Num { neg: false, ..x };
    reveal_strlit("");
    let t = half_even(x.mag * 10, one());
    assert(tenths_text(x) =~= "-"@ + tenths_text(y));
    assert(units_text(x) =~= "-"@ + units_text(y));
}

/// A text less its end.
pub open spec fn without_end(s: Seq<char>, end: Seq<char>) -> Seq<char> {
    s.take(s.len() - end.len())
}

/// Whether a text ends so.
pub open spec fn ends_with(s: Seq<char>, end: Seq<char>) -> bool {
    s.len() >= end.len() && s.skip(s.len() - end.len()) == end
}

/// A text with an end ends with it, and without it is what was there before.
pub proof fn lemma_end(s: Seq<char>, end: Seq<char>)
    ensures
        ends_with(s + end, end),
        without_end(s + end, end) == s,
{
    assert((s + end).skip(s.len() as int) =~= end);
    assert((s + end).take(s.len() as int) =~= s);
}

proof fn lemma_powers()
    ensures
        pow2(53) == 32 * pow2(48),
        pow2(52) == 16 * pow2(48),
        pow2(48) > 0,
        10 * pow2(48) <= one(),
        infinite() >= 16 * one(),
        one() > 0,
{
    lemma_pow2_pos(48);
    lemma_pow2_pos(1074);
    lemma2_to64();
    lemma_pow2_adds(5, 48);
    lemma_pow2_adds(4, 48);
    lemma_pow2_adds(4, 1074);
    lemma_pow2_ordered(52, 1074);
    lemma_pow2_ordered(1078, 2098);
}

/// Rounding a share, and then some multiple of it to a count.
proof fn lemma_share_count(t: nat, f: nat, y: nat, c: nat, a: nat)
    requires
        f <= 10,
        2 * apart((t * one()) as int, (f * y) as int) <= one(),
        pow2(53) * apart((y * c) as int, a as int) <= a + pow2(52) * c,
    ensures
        within(t, c * one(), f * a),
{
    lemma_powers();
    let (m, o) = (pow2(48) as int, one() as int);
    let g1 = apart((t * one()) as int, (f * y) as int);
    let g2 = apart((y * c) as int, a as int);
    let g = apart((t * (c * one())) as int, (f * a) as int);
    let (ti, fi, yi, ci, ai) = (t as int, f as int, y as int, c as int, a as int);
    assert(ti * (ci * o) - fi * ai == ci * (ti * o - fi * yi) + fi * (yi * ci - ai)) by (nonlinear_arith);
    assert(-(ci * g1) <= ci * (ti * o - fi * yi) <= ci * g1) by (nonlinear_arith)
        requires
            -g1 <= ti * o - fi * yi <= g1,
            ci >= 0,
    ;
    assert(-(fi * g2) <= fi * (yi * ci - ai) <= fi * g2) by (nonlinear_arith)
        requires
            -g2 <= yi * ci - ai <= g2,
            fi >= 0,
    ;
    assert(g <= ci * g1 + fi * g2);
    assert(2 * (ci * g1) <= ci * o) by (nonlinear_arith)
        requires
            2 * g1 <= o,
            ci >= 0,
    ;
    let over = 2 * g - ci * o;
    assert(over <= 2 * (fi * g2));
    assert(m * over <= m * (2 * (fi * g2))) by (nonlinear_arith)
        requires
            over <= 2 * (fi * g2),
            m > 0,
    ;
    assert(16 * (m * (2 * (fi * g2))) <= fi * ai + 16 * (m * (fi * ci))) by (nonlinear_arith)
        requires
            (32 * m) * g2 <= ai + (16 * m) * ci,
            fi >= 0,
    ;
    assert(m * (fi * ci) <= ci * o) by (nonlinear_arith)
        requires
            10 * m <= o,
            0 <= fi <= 10,
            ci >= 0,
            m > 0,
    ;
    assert(0 <= fi * ai) by (nonlinear_arith)
        requires
            fi >= 0,
            ai >= 0,
    ;
}

/// A share of a finite number that is not negative.
pub proof fn lemma_share(x: Num, c: nat)
    requires
        !x.nan,
        !x.neg,
        !x.is_infinite(),
        2 <= c < pow2(53),
    ensures
        ({
            let y = x.over(whole(c));
            &&& !y.nan && !y.neg && !y.is_infinite()
            &&& pow2(53) * apart((y.mag * c) as int, x.mag as int) <= x.mag + pow2(52) * c
            &&& y.mag * c <= 2 * x.mag + c
        }),
{
    lemma_powers();
    lemma_whole_value(c);
    lemma_mul_strictly_positive(c as int, one() as int);
    let o = one() as int;
    let v = crate::rounding::nearest(x.mag * one(), c * one());
    crate::rounding::law_nearest(x.mag * one(), c * one());
    let (vi, ci, ai) = (v as int, c as int, x.mag as int);
    let gap = apart(vi * ci, ai);
    assert(apart(vi * (ci * o), ai * o) == gap * o) by (nonlinear_arith)
        requires
            gap == apart(vi * ci, ai),
            o > 0,
    ;
    let (m53, m52) = (pow2(53) as int, pow2(52) as int);
    assert(m53 * gap <= ai + m52 * ci) by (nonlinear_arith)
        requires
            m53 * (gap * o) <= ai * o + m52 * (ci * o),
            o > 0,
    ;
    assert(2 * gap <= ai + ci) by (nonlinear_arith)
        requires
            m53 * gap <= ai + m52 * ci,
            m53 == 2 * m52,
            m52 >= 1,
            gap >= 0,
            ai >= 0,
            ci >= 0,
    ;
    assert(2 * vi <= vi * ci) by (nonlinear_arith)
        requires
            ci >= 2,
            vi >= 0,
    ;
    if v >= infinite() {
        assert(false) by (nonlinear_arith)
            requires
                vi * ci <= ai + gap,
                m53 * gap <= ai + m52 * ci,
                m53 == 2 * m52,
                m52 >= 16,
                ci >= 2,
                vi > ai,
                ai >= 0,
                vi >= 16,
        ;
    }
}

/// A share of a finite number that is not negative, written with one decimal,
/// reads back as that share.
pub proof fn law_share_tenths(x: Num, c: nat)
    requires
        !x.nan,
        !x.neg,
        !x.is_infinite(),
        2 <= c < pow2(53),
    ensures
        is_decimal(tenths_text(x.over(whole(c)))),
        within(tenths_in(tenths_text(x.over(whole(c)))), c * one(), 10 * x.mag),
{
    let y = x.over(whole(c));
    lemma_share(x, c);
    law_tenths_read_back(y);
    lemma_share_count(tenths_in(tenths_text(y)), 10, y.mag, c, x.mag);
}

/// A share of a finite number that is not negative, rounded, is that share.
pub proof fn law_share_rounded(x: Num, c: nat)
    requires
        !x.nan,
        !x.neg,
        !x.is_infinite(),
        2 <= c < pow2(53),
        x.mag < 0x1000_0000_0000_0000 * one(),
    ensures
        within(rounded_part(x.over(whole(c))), c * one(), x.mag),
{
    let y = x.over(whole(c));
    lemma_share(x, c);
    lemma_powers();
    let (yi, ci, ai, o) = (y.mag as int, c as int, x.mag as int, one() as int);
    assert(yi < 0x8000_0000_0000_0000 * o) by (nonlinear_arith)
        requires
            yi * ci <= 2 * ai + ci,
            ci >= 2,
            ai < 0x1000_0000_0000_0000 * o,
            o > 1,
            yi >= 0,
    ;
    law_rounded_part(y);
    lemma_share_count(rounded_part(y), 1, y.mag, c, x.mag);
}

/// Whether a text is a time as a clock shows it: minutes and two digits of
/// seconds, or hours, two digits of minutes and two digits of seconds.
pub open spec fn is_clock(s: Seq<char>) -> bool {
    let f = fields(s, ':');
    &&& f.len() == 2 || f.len() == 3
    &&& forall|i: int| 0 <= i < f.len() ==> is_number(#[trigger] f[i])
    &&& forall|i: int| 0 < i < f.len() ==> (#[trigger] f[i]).len() == 2 && number_in(f[i]) < 60
}

/// The seconds that a time stands for.
pub open spec fn seconds_in(s: Seq<char>) -> nat {
    let f = fields(s, ':');
    if f.len() == 3 {
        3600 * number_in(f[0]) + 60 * number_in(f[1]) + number_in(f[2])
    } else {
        60 * number_in(f[0]) + number_in(f[1])
    }
}

/// No digit is another character.
pub proof fn lemma_no_mark(s: Seq<char>, mark: char)
    requires
        is_number(s),
        mark < '0' || mark > '9',
    ensures
        forall|i: int| 0 <= i < s.len() ==> #[trigger] s[i] != mark,
{
    assert forall|i: int| 0 <= i < s.len() implies #[trigger] s[i] != mark by {
        assert('0' <= s[i] <= '9');
    }
}

} // verus!
