//! Decimal integer text and small character-level helpers.
use vstd::prelude::*;
use vstd::string::*;

verus! {

/// The character for a decimal digit.
pub open spec fn digit_char(d: int) -> char {
    if d == 0 { '0' }
    else if d == 1 { '1' }
    else if d == 2 { '2' }
    else if d == 3 { '3' }
    else if d == 4 { '4' }
    else if d == 5 { '5' }
    else if d == 6 { '6' }
    else if d == 7 { '7' }
    else if d == 8 { '8' }
    else { '9' }
}

/// The decimal spelling of a natural number, without leading zeros.
pub open spec fn nat_text(n: nat) -> Seq<char>
    decreases n,
{
    if n < 10 {
        seq![digit_char(n as int)]
    } else {
        nat_text(n / 10).push(digit_char((n % 10) as int))
    }
}

/// The decimal spelling of an integer: a minus sign before negative values.
pub open spec fn int_text(i: int) -> Seq<char> {
    if i < 0 {
        seq!['-'] + nat_text((-i) as nat)
    } else {
        nat_text(i as nat)
    }
}

pub open spec fn is_digit(c: char) -> bool {
    '0' <= c && c <= '9'
}

pub open spec fn all_digits(s: Seq<char>) -> bool {
    forall|i: int| 0 <= i < s.len() ==> is_digit(#[trigger] s[i])
}

/// The value of a string of decimal digits.
pub open spec fn digits_value(s: Seq<char>) -> nat
    decreases s.len(),
{
    if s.len() == 0 {
        0
    } else {
        (digits_value(s.drop_last()) * 10 + (s.last() as nat - '0' as nat)) as nat
    }
}

/// The integer that a text spells: an optional sign, then one or more
/// decimal digits.
pub open spec fn int_of_text(s: Seq<char>) -> Option<int> {
    if s.len() > 0 && (s[0] == '-' || s[0] == '+') {
        let rest = s.drop_first();
        if rest.len() > 0 && all_digits(rest) {
            if s[0] == '-' {
                Some(-(digits_value(rest) as int))
            } else {
                Some(digits_value(rest) as int)
            }
        } else {
            None
        }
    } else if s.len() > 0 && all_digits(s) {
        Some(digits_value(s) as int)
    } else {
        None
    }
}

/// The 64-bit signed integer that a text spells, if it is in range.
pub open spec fn i64_of_text(s: Seq<char>) -> Option<i64> {
    match int_of_text(s) {
        Some(v) => if i64::MIN <= v <= i64::MAX {
            Some(v as i64)
        } else {
            None
        },
        None => None,
    }
}

pub proof fn lemma_nat_text_digits(n: nat)
    ensures
        nat_text(n).len() > 0,
        all_digits(nat_text(n)),
        digits_value(nat_text(n)) == n,
    decreases n,
{
    lemma_digit_char((n % 10) as int);
    if n >= 10 {
        lemma_nat_text_digits(n / 10);
        let t = nat_text(n);
        assert(t.drop_last() =~= nat_text(n / 10));
        assert(t.last() == digit_char((n % 10) as int));
        assert(digits_value(t) == digits_value(t.drop_last()) * 10 + (t.last() as nat - '0' as nat));
        assert(n == (n / 10) * 10 + n % 10) by (nonlinear_arith);
    } else {
        let t = nat_text(n);
        assert(t.drop_last() =~= Seq::<char>::empty());
        assert(digits_value(t.drop_last()) == 0);
        assert(digits_value(t) == digits_value(t.drop_last()) * 10 + (t.last() as nat - '0' as nat));
    }
}

proof fn lemma_digit_char(d: int)
    requires
        0 <= d < 10,
    ensures
        is_digit(digit_char(d)),
        digit_char(d) as nat - '0' as nat == d,
{
}

/// Reading back the decimal spelling of an integer gives the integer.
pub proof fn lemma_int_text_round_trip(i: int)
    ensures
        int_of_text(int_text(i)) == Some(i),
{
    if i < 0 {
        lemma_nat_text_digits((-i) as nat);
        let t = int_text(i);
        assert(t.drop_first() =~= nat_text((-i) as nat));
    } else {
        lemma_nat_text_digits(i as nat);
    }
}

proof fn lemma_digits_value_prefix(s: Seq<char>, k: int)
    requires
        0 <= k <= s.len(),
        all_digits(s),
    ensures
        digits_value(s.subrange(0, k)) <= digits_value(s),
    decreases s.len() - k,
{
    if k < s.len() {
        lemma_digits_value_prefix(s, k + 1);
        let t = s.subrange(0, k + 1);
        assert(t.drop_last() =~= s.subrange(0, k));
        assert(is_digit(s[k]));
    } else {
        assert(s.subrange(0, k) =~= s);
    }
}

/// Reads a 64-bit signed integer: an optional sign, then decimal digits.
pub fn parse_i64(s: &str) -> (r: Option<i64>)
    ensures
        r == i64_of_text(s@),
{
    let n = s.unicode_len();
    if n == 0 {
        return None;
    }
    let first = s.get_char(0);
    let negative = first == '-';
    let start: usize = if first == '-' || first == '+' { 1 } else { 0 };
    if start == n {
        return None;
    }
    let ghost digits = s@.subrange(start as int, n as int);
    assert(start == 1 ==> digits =~= s@.drop_first());
    assert(start == 0 ==> digits =~= s@);
    let limit: u128 = 0x8000_0000_0000_0000;
    let mut acc: u128 = 0;
    let mut i: usize = start;
    while i < n
        invariant
            n == s@.len(),
            start <= i <= n,
            digits == s@.subrange(start as int, n as int),
            all_digits(digits.subrange(0, i - start)),
            acc == digits_value(digits.subrange(0, i - start)),
            acc <= limit,
            limit == 0x8000_0000_0000_0000,
            start == 1 ==> digits == s@.drop_first(),
            start == 0 ==> digits == s@,
            (start == 1) == (s@[0] == '-' || s@[0] == '+'),
            start == 0 || start == 1,
            negative == (s@[0] == '-'),
        decreases n - i,
    {
        let c = s.get_char(i);
        if c < '0' || c > '9' {
            assert(!is_digit(digits[i - start]));
            assert(!all_digits(digits));
            return None;
        }
        let ghost prev = digits.subrange(0, i - start);
        let d = (c as u32 - '0' as u32) as u128;
        assert(acc * 10 + d <= 0x8000_0000_0000_0000 * 10 + 9) by (nonlinear_arith)
            requires
                acc <= 0x8000_0000_0000_0000,
                d <= 9,
        ;
        acc = acc * 10 + d;
        i = i + 1;
        let ghost cur = digits.subrange(0, i - start);
        assert(cur.drop_last() =~= prev);
        assert(all_digits(cur));
        if acc > limit {
            proof {
                if all_digits(digits) {
                    lemma_digits_value_prefix(digits, i - start);
                }
            }
            return None;
        }
    }
    assert(digits.subrange(0, n - start) =~= digits);
    if negative {
        Some((0i128 - acc as i128) as i64)
    } else if acc == limit {
        None
    } else {
        Some(acc as i64)
    }
}

/// The unsigned 64-bit integer that a text of decimal digits spells, if it
/// is in range.
pub open spec fn u64_of_text(s: Seq<char>) -> Option<u64> {
    if s.len() > 0 && all_digits(s) && digits_value(s) <= u64::MAX {
        Some(digits_value(s) as u64)
    } else {
        None
    }
}

/// Reading back the decimal spelling of a natural number gives it.
pub proof fn lemma_nat_text_round_trip(k: u64)
    ensures
        u64_of_text(nat_text(k as nat)) == Some(k),
{
    lemma_nat_text_digits(k as nat);
}

/// Reads an unsigned 64-bit integer written in decimal digits.
pub fn parse_u64(s: &str) -> (r: Option<u64>)
    ensures
        r == u64_of_text(s@),
{
    let n = s.unicode_len();
    if n == 0 {
        return None;
    }
    let limit: u128 = 0xFFFF_FFFF_FFFF_FFFF;
    let mut acc: u128 = 0;
    let mut i: usize = 0;
    while i < n
        invariant
            n == s@.len(),
            i <= n,
            all_digits(s@.subrange(0, i as int)),
            acc == digits_value(s@.subrange(0, i as int)),
            acc <= limit,
            limit == 0xFFFF_FFFF_FFFF_FFFF,
        decreases n - i,
    {
        let c = s.get_char(i);
        if c < '0' || c > '9' {
            assert(!is_digit(s@[i as int]));
            assert(!all_digits(s@));
            return None;
        }
        let ghost prev = s@.subrange(0, i as int);
        let d = (c as u32 - '0' as u32) as u128;
        assert(acc * 10 + d <= 0xFFFF_FFFF_FFFF_FFFF * 10 + 9) by (nonlinear_arith)
            requires
                acc <= 0xFFFF_FFFF_FFFF_FFFF,
                d <= 9,
        ;
        acc = acc * 10 + d;
        i = i + 1;
        let ghost cur = s@.subrange(0, i as int);
        assert(cur.drop_last() =~= prev);
        assert(all_digits(cur));
        if acc > limit {
            proof {
                if all_digits(s@) {
                    lemma_digits_value_prefix(s@, i as int);
                    assert(s@.subrange(0, n as int) =~= s@);
                }
            }
            return None;
        }
    }
    assert(s@.subrange(0, n as int) =~= s@);
    Some(acc as u64)
}

/// Whether two texts are the same characters.
pub fn text_eq(a: &str, b: &str) -> (r: bool)
    ensures
        r == (a@ == b@),
{
    let n = a.unicode_len();
    if n != b.unicode_len() {
        return false;
    }
    let mut i: usize = 0;
    while i < n
        invariant
            n == a@.len(),
            n == b@.len(),
            i <= n,
            forall|j: int| 0 <= j < i ==> a@[j] == b@[j],
        decreases n - i,
    {
        if a.get_char(i) != b.get_char(i) {
            return false;
        }
        i = i + 1;
    }
    assert(a@ =~= b@);
    true
}

fn digit_text(d: u64) -> (r: &'static str)
    requires
        d < 10,
    ensures
        r@ == seq![digit_char(d as int)],
{
    proof {
        reveal_strlit("0");
        reveal_strlit("1");
        reveal_strlit("2");
        reveal_strlit("3");
        reveal_strlit("4");
        reveal_strlit("5");
        reveal_strlit("6");
        reveal_strlit("7");
        reveal_strlit("8");
        reveal_strlit("9");
    }
    if d == 0 { "0" }
    else if d == 1 { "1" }
    else if d == 2 { "2" }
    else if d == 3 { "3" }
    else if d == 4 { "4" }
    else if d == 5 { "5" }
    else if d == 6 { "6" }
    else if d == 7 { "7" }
    else if d == 8 { "8" }
    else { "9" }
}

/// Appends the decimal spelling of `n` to `out`.
pub fn push_nat_text(out: &mut String, n: u64)
    ensures
        final(out)@ == old(out)@ + nat_text(n as nat),
{
    let mut rev: Vec<u64> = Vec::new();
    let mut m: u64 = n;
    while m >= 10
        invariant
            forall|j: int| 0 <= j < rev@.len() ==> rev@[j] < 10,
            nat_text(n as nat) == nat_text(m as nat) + Seq::new(
                rev@.len(),
                |j: int| digit_char(rev@[rev@.len() - 1 - j] as int),
            ),
        decreases m,
    {
        let ghost old_rev = rev@;
        assert(nat_text(m as nat) == nat_text((m / 10) as nat).push(digit_char((m % 10) as int)));
        rev.push(m % 10);
        m = m / 10;
        assert(Seq::new(rev@.len(), |j: int| digit_char(rev@[rev@.len() - 1 - j] as int)) =~= seq![
            digit_char(rev@[rev@.len() - 1] as int),
        ] + Seq::new(old_rev.len(), |j: int| digit_char(old_rev[old_rev.len() - 1 - j] as int)));
    }
    rev.push(m);
    let ghost all = Seq::new(rev@.len(), |j: int| digit_char(rev@[rev@.len() - 1 - j] as int));
    assert(nat_text(n as nat) =~= all);
    let ghost start = out@;
    let mut k: usize = rev.len();
    while k > 0
        invariant
            k <= rev@.len(),
            forall|j: int| 0 <= j < rev@.len() ==> rev@[j] < 10,
            all == Seq::new(rev@.len(), |j: int| digit_char(rev@[rev@.len() - 1 - j] as int)),
            out@ == start + all.subrange(0, (rev@.len() - k) as int),
        decreases k,
    {
        k = k - 1;
        let d = digit_text(rev[k]);
        out.append(d);
        assert(all.subrange(0, (rev@.len() - k) as int) =~= all.subrange(
            0,
            (rev@.len() - k - 1) as int,
        ).push(digit_char(rev@[k as int] as int)));
    }
    assert(all.subrange(0, rev@.len() as int) =~= all);
}

/// Appends the decimal spelling of `i` to `out`.
pub fn push_int_text(out: &mut String, i: i64)
    ensures
        final(out)@ == old(out)@ + int_text(i as int),
{
    if i < 0 {
        proof {
            reveal_strlit("-");
        }
        out.append("-");
        let mag: u64 = (0i128 - i as i128) as u64;
        push_nat_text(out, mag);
        assert(final(out)@ =~= old(out)@ + int_text(i as int));
    } else {
        push_nat_text(out, i as u64);
    }
}

} // verus!
