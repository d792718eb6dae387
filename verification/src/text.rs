//! Text primitives: decimal numbers, trimming, substring search.
use vstd::arithmetic::power2::{lemma2_to64, lemma_pow2_unfold, pow2};
use vstd::prelude::*;

verus! {

/// `String::push` appends one character to the end of the text.
pub assume_specification[ String::push ](s: &mut String, ch: char)
    ensures
        final(s)@ == old(s)@.push(ch),
;

/// The character of a decimal digit.
pub open spec fn digit_char(d: nat) -> char {
    (('0' as nat) + d) as char
}

/// The decimal text of a number, without leading zeros.
pub open spec fn digits(n: nat) -> Seq<char>
    decreases n,
{
    if n < 10 {
        seq![digit_char(n)]
    } else {
        digits(n / 10).push(digit_char(n % 10))
    }
}

fn digit(d: u64) -> (c: char)
    requires
        d < 10,
    ensures
        c == digit_char(d as nat),
{
    (48u8 + d as u8) as char
}

/// The decimal text of `n`.
pub fn decimal(n: u64) -> (s: String)
    ensures
        s@ == digits(n as nat),
    decreases n,
{
    if n < 10 {
        let mut s = String::new();
        s.push(digit(n));
        s
    } else {
        let mut s = decimal(n / 10);
        s.push(digit(n % 10));
        s
    }
}

/// The value of decimal digits, least significant first.
pub open spec fn digits_value(d: Seq<u8>) -> nat
    decreases d.len(),
{
    if d.len() == 0 {
        0
    } else {
        d[0] as nat + 10 * digits_value(d.skip(1))
    }
}

/// Decimal digits, least significant first, without a leading zero.
pub open spec fn proper_digits(d: Seq<u8>) -> bool {
    &&& d.len() > 0
    &&& d[d.len() - 1] > 0
    &&& forall|i: int| 0 <= i < d.len() ==> d[i] < 10
}

/// Written most significant first, proper digits are the text of their value.
proof fn lemma_digits_text(d: Seq<u8>)
    requires
        proper_digits(d),
    ensures
        digits(digits_value(d)) == Seq::new(d.len(), |i: int| digit_char(d[d.len() - 1 - i] as nat)),
        digits_value(d) > 0,
        d.len() > 1 ==> digits_value(d) >= 10,
    decreases d.len(),
{
    let rest = d.skip(1);
    let v = digits_value(d);
    let text = Seq::new(d.len(), |i: int| digit_char(d[d.len() - 1 - i] as nat));
    if d.len() == 1 {
        assert(rest.len() == 0);
        assert(digits_value(rest) == 0);
        assert(digits(v) =~= text);
    } else {
        assert(rest[rest.len() - 1] == d[d.len() - 1]);
        lemma_digits_text(rest);
        assert(v / 10 == digits_value(rest) && v % 10 == d[0] as nat);
        let head = Seq::new(rest.len(), |i: int| digit_char(rest[rest.len() - 1 - i] as nat));
        assert(text =~= head.push(digit_char(d[0] as nat)));
    }
}

/// `10^n`.
pub open spec fn pow10(n: nat) -> nat
    decreases n,
{
    if n == 0 {
        1
    } else {
        10 * pow10((n - 1) as nat)
    }
}

/// A further digit counts by its place.
proof fn lemma_digits_push(d: Seq<u8>, x: u8)
    ensures
        digits_value(d.push(x)) == digits_value(d) + x as nat * pow10(d.len()),
    decreases d.len(),
{
    let e = d.push(x);
    if d.len() == 0 {
        assert(e.skip(1).len() == 0);
        assert(digits_value(e.skip(1)) == 0);
        assert(digits_value(e) == x as nat);
        assert(x as nat * 1 == x as nat);
    } else {
        assert(e.skip(1) =~= d.skip(1).push(x));
        lemma_digits_push(d.skip(1), x);
        let p = pow10(d.skip(1).len());
        assert(x as nat * (10 * p) == 10 * (x as nat * p)) by (nonlinear_arith);
    }
}

/// The digits of `n`, least significant first.
fn low_digits(n: u64) -> (d: Vec<u8>)
    requires
        n > 0,
    ensures
        proper_digits(d@),
        digits_value(d@) == n,
{
    let mut d: Vec<u8> = Vec::new();
    let mut x: u64 = n;
    assert(pow10(0) == 1);
    assert(1 * x as nat == x as nat);
    while x > 0
        invariant
            n > 0,
            digits_value(d@) + pow10(d.len() as nat) * x as nat == n,
            d.len() == 0 ==> x == n,
            forall|i: int| 0 <= i < d.len() ==> d[i] < 10,
            x == 0 ==> d.len() > 0 && d[d.len() - 1] > 0,
        decreases x,
    {
        let low: u8 = (x % 10) as u8;
        proof {
            lemma_digits_push(d@, low);
            let p = pow10(d.len() as nat);
            let (h, l) = ((x / 10) as nat, low as nat);
            assert(pow10(d.len() as nat + 1) == 10 * p);
            assert(l * p + (10 * p) * h == p * (10 * h + l)) by (nonlinear_arith);
            assert(x as nat == 10 * h + l);
        }
        d.push(low);
        x = x / 10;
    }
    proof {
        assert(pow10(d.len() as nat) * 0 == 0);
    }
    d
}

/// The digits of twice the number.
fn doubled(d: &Vec<u8>) -> (r: Vec<u8>)
    requires
        proper_digits(d@),
    ensures
        proper_digits(r@),
        digits_value(r@) == 2 * digits_value(d@),
{
    let mut r: Vec<u8> = Vec::new();
    let mut carry: u8 = 0;
    let mut i: usize = 0;
    assert(d@.skip(0) =~= d@);
    assert(pow10(0) == 1);
    assert(1 * (2 * digits_value(d@)) == 2 * digits_value(d@));
    while i < d.len()
        invariant
            proper_digits(d@),
            i <= d.len(),
            r.len() == i,
            carry <= 1,
            digits_value(r@) + pow10(i as nat) * (2 * digits_value(d@.skip(i as int)) + carry as nat) == 2
                * digits_value(d@),
            forall|j: int| 0 <= j < r.len() ==> r[j] < 10,
            i == d.len() && carry == 0 ==> r[r.len() - 1] > 0,
        decreases d.len() - i,
    {
        let t: u8 = 2 * d[i] + carry;
        let low: u8 = t % 10;
        proof {
            lemma_digits_push(r@, low);
            let p = pow10(i as nat);
            let rest = digits_value(d@.skip(i as int).skip(1));
            assert(d@.skip(i as int).skip(1) =~= d@.skip(i + 1));
            assert(pow10((i + 1) as nat) == 10 * p);
            let (h, l, x, c) = ((t / 10) as nat, low as nat, d[i as int] as nat, carry as nat);
            assert(l * p + (10 * p) * (2 * rest + h) == p * (2 * (x + 10 * rest) + c)) by (nonlinear_arith)
                requires
                    10 * h + l == 2 * x + c,
            ;
        }
        r.push(low);
        carry = t / 10;
        i = i + 1;
    }
    proof {
        assert(d@.skip(i as int).len() == 0);
        assert(digits_value(d@.skip(i as int)) == 0);
        assert(pow10(i as nat) * (2 * 0 + carry as nat) == carry as nat * pow10(i as nat)) by (nonlinear_arith);
        lemma_digits_push(r@, carry);
    }
    if carry > 0 {
        r.push(carry);
    }
    r
}

/// The decimal text of `n * 2^shift`.
pub fn shifted_decimal(n: u64, shift: u32) -> (s: String)
    requires
        n > 0,
    ensures
        s@ == digits((n * pow2(shift as nat)) as nat),
{
    let mut d: Vec<u8> = low_digits(n);
    let mut i: u32 = 0;
    proof {
        lemma2_to64();
    }
    while i < shift
        invariant
            i <= shift,
            proper_digits(d@),
            digits_value(d@) == n * pow2(i as nat),
        decreases shift - i,
    {
        proof {
            lemma_pow2_unfold((i + 1) as nat);
            assert(n * (2 * pow2(i as nat)) == 2 * (n * pow2(i as nat))) by (nonlinear_arith);
        }
        d = doubled(&d);
        i = i + 1;
    }
    proof {
        lemma_digits_text(d@);
    }
    let mut s = String::new();
    let mut j: usize = d.len();
    while j > 0
        invariant
            j <= d.len(),
            proper_digits(d@),
            s@ == Seq::new((d.len() - j) as nat, |k: int| digit_char(d[d.len() - 1 - k] as nat)),
        decreases j,
    {
        j = j - 1;
        let ghost before = s@;
        s.push(digit(d[j] as u64));
        assert(s@ =~= Seq::new((d.len() - j) as nat, |k: int| digit_char(d[d.len() - 1 - k] as nat)));
    }
    s
}

/// The characters of a text.
pub fn chars_of(s: &str) -> (v: Vec<char>)
    ensures
        v@ == s@,
{
    let mut v: Vec<char> = Vec::new();
    for c in it: s.chars()
        invariant
            v@ == s@.take(it.index()),
            it.seq() == s@,
    {
        v.push(c);
        assert(v@ =~= s@.take(it.index() + 1));
    }
    assert(s@.take(s@.len() as int) =~= s@);
    v
}

/// The text of a range of characters.
pub fn text_of(v: &Vec<char>, from: usize, to: usize) -> (s: String)
    requires
        from <= to <= v.len(),
    ensures
        s@ == v@.subrange(from as int, to as int),
{
    let mut s = String::new();
    let mut i: usize = from;
    while i < to
        invariant
            from <= i <= to <= v.len(),
            s@ == v@.subrange(from as int, i as int),
        decreases to - i,
    {
        s.push(v[i]);
        i = i + 1;
        assert(s@ =~= v@.subrange(from as int, i as int));
    }
    s
}

/// The Unicode property White_Space.
pub open spec fn is_space(c: char) -> bool {
    ||| 0x9 <= c as u32 <= 0xd
    ||| c as u32 == 0x20
    ||| c as u32 == 0x85
    ||| c as u32 == 0xa0
    ||| c as u32 == 0x1680
    ||| 0x2000 <= c as u32 <= 0x200a
    ||| c as u32 == 0x2028
    ||| c as u32 == 0x2029
    ||| c as u32 == 0x202f
    ||| c as u32 == 0x205f
    ||| c as u32 == 0x3000
}

fn space(c: char) -> (r: bool)
    ensures
        r == is_space(c),
{
    let n: u32 = c as u32;
    (9 <= n && n <= 0xd) || n == 0x20 || n == 0x85 || n == 0xa0 || n == 0x1680 || (0x2000 <= n && n <= 0x200a) || n
        == 0x2028 || n == 0x2029 || n == 0x202f || n == 0x205f || n == 0x3000
}

/// The text without the whitespace at its start.
pub open spec fn trimmed_start(s: Seq<char>) -> Seq<char>
    decreases s.len(),
{
    if s.len() > 0 && is_space(s[0]) {
        trimmed_start(s.skip(1))
    } else {
        s
    }
}

/// The text without the whitespace at its end.
pub open spec fn trimmed_end(s: Seq<char>) -> Seq<char>
    decreases s.len(),
{
    if s.len() > 0 && is_space(s.last()) {
        trimmed_end(s.drop_last())
    } else {
        s
    }
}

/// The text without the whitespace around it.
pub open spec fn trimmed(s: Seq<char>) -> Seq<char> {
    trimmed_end(trimmed_start(s))
}

/// The text without the whitespace around it.
pub fn trim(s: &str) -> (r: String)
    ensures
        r@ == trimmed(s@),
{
    let v = chars_of(s);
    let mut from: usize = 0;
    assert(v@.skip(0) =~= v@);
    while from < v.len() && space(v[from])
        invariant
            from <= v.len(),
            trimmed_start(v@.skip(from as int)) == trimmed_start(v@),
        decreases v.len() - from,
    {
        assert(v@.skip(from as int).skip(1) =~= v@.skip(from + 1));
        from = from + 1;
    }
    let mut to: usize = v.len();
    assert(v@.subrange(from as int, to as int) =~= v@.skip(from as int));
    while to > from && space(v[to - 1])
        invariant
            from <= to <= v.len(),
            trimmed_end(v@.subrange(from as int, to as int)) == trimmed(v@),
        decreases to,
    {
        assert(v@.subrange(from as int, to as int).drop_last() =~= v@.subrange(from as int, to - 1));
        to = to - 1;
    }
    text_of(&v, from, to)
}

/// What is left of trimming has no whitespace at either end.
pub proof fn lemma_trimmed_ends(s: Seq<char>)
    ensures
        trimmed(s).len() > 0 ==> !is_space(trimmed(s)[0]) && !is_space(trimmed(s).last()),
        trimmed(trimmed(s)) == trimmed(s),
{
    lemma_trimmed_start(s);
    lemma_trimmed_end(trimmed_start(s));
}

proof fn lemma_trimmed_start(s: Seq<char>)
    ensures
        trimmed_start(s).len() > 0 ==> !is_space(trimmed_start(s)[0]),
    decreases s.len(),
{
    if s.len() > 0 && is_space(s[0]) {
        lemma_trimmed_start(s.skip(1));
    }
}

proof fn lemma_trimmed_end(s: Seq<char>)
    ensures
        trimmed_end(s).len() > 0 ==> !is_space(trimmed_end(s).last()) && trimmed_end(s)[0] == s[0],
    decreases s.len(),
{
    if s.len() > 0 && is_space(s.last()) {
        lemma_trimmed_end(s.drop_last());
    }
}

/// Whether `needle` occurs in `hay`.
pub open spec fn occurs(hay: Seq<char>, needle: Seq<char>) -> bool {
    exists|i: int| occurs_at(hay, needle, i)
}

/// Whether `needle` stands in `hay` at position `i`.
pub open spec fn occurs_at(hay: Seq<char>, needle: Seq<char>, i: int) -> bool {
    0 <= i && i + needle.len() <= hay.len() && hay.subrange(i, i + needle.len()) == needle
}

fn stands_at(hay: &Vec<char>, needle: &Vec<char>, i: usize) -> (r: bool)
    requires
        i + needle.len() <= hay.len(),
    ensures
        r == occurs_at(hay@, needle@, i as int),
{
    let mut j: usize = 0;
    while j < needle.len()
        invariant
            j <= needle.len(),
            i + needle.len() <= hay.len(),
            forall|k: int| 0 <= k < j ==> hay[i + k] == needle[k],
        decreases needle.len() - j,
    {
        if hay[i + j] != needle[j] {
            assert(hay@.subrange(i as int, i + needle.len())[j as int] != needle[j as int]);
            return false;
        }
        j = j + 1;
    }
    assert(hay@.subrange(i as int, i + needle.len()) =~= needle@);
    true
}

/// Whether `needle` occurs in `hay`.
pub fn contains(hay: &str, needle: &str) -> (r: bool)
    ensures
        r == occurs(hay@, needle@),
{
    let h = chars_of(hay);
    let n = chars_of(needle);
    if n.len() > h.len() {
        return false;
    }
    let last: usize = h.len() - n.len();
    let mut i: usize = 0;
    while i < last
        invariant
            i <= last,
            last + n.len() == h.len(),
            h@ == hay@,
            n@ == needle@,
            forall|k: int| 0 <= k < i ==> !occurs_at(h@, n@, k),
        decreases last - i,
    {
        if stands_at(&h, &n, i) {
            return true;
        }
        i = i + 1;
    }
    stands_at(&h, &n, last)
}

/// The decimal text of `n`, padded with zeros to two digits.
pub open spec fn two_digits(n: nat) -> Seq<char> {
    if n < 10 {
        "0"@ + digits(n)
    } else {
        digits(n)
    }
}

/// The decimal text of `n`, padded with zeros to two digits.
pub fn padded(n: u64) -> (s: String)
    ensures
        s@ == two_digits(n as nat),
{
    let d = decimal(n);
    if n < 10 {
        String::from_str("0").concat(d.as_str())
    } else {
        d
    }
}

/// What is left of trimming is a part of the text, between nothing but whitespace.
proof fn lemma_trim_bounds(s: Seq<char>)
    ensures
        exists|i: int| #[trigger] starts_after_space(s, i) && trimmed_start(s) == s.skip(i),
        exists|j: int| #[trigger] ends_before_space(s, j) && trimmed_end(s) == s.take(j),
    decreases s.len(),
{
    if s.len() > 0 && is_space(s[0]) {
        let rest = s.skip(1);
        lemma_trim_bounds(rest);
        let i = choose|i: int| #[trigger] starts_after_space(rest, i) && trimmed_start(rest) == rest.skip(i);
        assert forall|k: int| 0 <= k < i + 1 implies is_space(#[trigger] s[k]) by {
            if k > 0 {
                assert(is_space(rest[k - 1]));
            }
        }
        assert(rest.skip(i) =~= s.skip(i + 1));
        assert(starts_after_space(s, i + 1));
    } else {
        assert(s.skip(0) =~= s);
        assert(starts_after_space(s, 0));
    }
    if s.len() > 0 && is_space(s.last()) {
        let rest = s.drop_last();
        lemma_trim_bounds(rest);
        let j = choose|j: int| #[trigger] ends_before_space(rest, j) && trimmed_end(rest) == rest.take(j);
        assert forall|k: int| j <= k < s.len() implies is_space(#[trigger] s[k]) by {
            if k < rest.len() {
                assert(is_space(rest[k]));
            }
        }
        assert(rest.take(j) =~= s.take(j));
        assert(ends_before_space(s, j));
    } else {
        assert(s.take(s.len() as int) =~= s);
        assert(ends_before_space(s, s.len() as int));
    }
}

/// Whether there is nothing but whitespace before a place.
pub open spec fn starts_after_space(s: Seq<char>, i: int) -> bool {
    0 <= i <= s.len() && forall|k: int| 0 <= k < i ==> is_space(#[trigger] s[k])
}

/// Whether there is nothing but whitespace from a place on.
pub open spec fn ends_before_space(s: Seq<char>, j: int) -> bool {
    0 <= j <= s.len() && forall|k: int| j <= k < s.len() ==> is_space(#[trigger] s[k])
}

/// Trimming takes the whitespace off both ends and nothing else: a text that has
/// none at its ends comes out of any whitespace around it.
pub proof fn law_trimmed(before: Seq<char>, text: Seq<char>, after: Seq<char>)
    requires
        forall|k: int| 0 <= k < before.len() ==> is_space(#[trigger] before[k]),
        forall|k: int| 0 <= k < after.len() ==> is_space(#[trigger] after[k]),
        text.len() > 0 ==> !is_space(text[0]) && !is_space(text.last()),
    ensures
        trimmed(before + text + after) == text,
{
    let s = before + text + after;
    lemma_trim_bounds(s);
    let i = choose|i: int| #[trigger] starts_after_space(s, i) && trimmed_start(s) == s.skip(i);
    let mid = s.skip(i);
    lemma_trim_bounds(mid);
    let j = choose|j: int| #[trigger] ends_before_space(mid, j) && trimmed_end(mid) == mid.take(j);
    lemma_trimmed_start(s);
    lemma_trimmed_end(mid);
    if text.len() > 0 {
        let b = before.len() as int;
        assert(s[b] == text[0]);
        assert(i <= b) by {
            if i > b {
                assert(is_space(s[b]));
            }
        }
        if i < b {
            assert(mid[0] == before[i]);
        }
        let e = b + text.len() - 1 - i;
        assert(mid[e] == text.last());
        assert(j > e) by {
            if j <= e {
                assert(is_space(mid[e]));
            }
        }
        if j > e + 1 {
            assert(mid.take(j).last() == after[j - e - 2]);
        }
        assert(trimmed(s) =~= text);
    } else {
        if trimmed(s).len() > 0 {
            let k = i;
            assert(trimmed(s)[0] == s[k]);
            if k < before.len() {
                assert(is_space(before[k]));
            } else {
                assert(is_space(after[k - before.len()]));
            }
        }
        assert(trimmed(s) =~= text);
    }
}

/// Blanks and line ends are whitespace; what prints of ASCII is not.
pub proof fn law_spaces()
    ensures
        is_space(' ') && is_space('\t') && is_space('\n') && is_space('\r'),
        forall|c: char| 0x21 <= #[trigger] (c as u32) <= 0x7e ==> !is_space(c),
{
}


} // verus!
