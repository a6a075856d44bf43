//! Decimal rendering and parsing of the integers that appear in entry
//! lines and in partition keys.

use vstd::prelude::*;

verus! {

/// The value of a decimal digit, or 10 for any other character.
pub open spec fn digit_val(c: char) -> nat {
    if c == '0' {
        0
    } else if c == '1' {
        1
    } else if c == '2' {
        2
    } else if c == '3' {
        3
    } else if c == '4' {
        4
    } else if c == '5' {
        5
    } else if c == '6' {
        6
    } else if c == '7' {
        7
    } else if c == '8' {
        8
    } else if c == '9' {
        9
    } else {
        10
    }
}

/// The digit character for a value below ten.
pub open spec fn digit_char(d: nat) -> char {
    if d == 0 {
        '0'
    } else if d == 1 {
        '1'
    } else if d == 2 {
        '2'
    } else if d == 3 {
        '3'
    } else if d == 4 {
        '4'
    } else if d == 5 {
        '5'
    } else if d == 6 {
        '6'
    } else if d == 7 {
        '7'
    } else if d == 8 {
        '8'
    } else {
        '9'
    }
}

/// The usual decimal rendering of a natural number, without leading
/// zeros (except for zero itself).
pub open spec fn dec_rep(n: nat) -> Seq<char>
    decreases n,
{
    if n < 10 {
        seq![digit_char(n)]
    } else {
        dec_rep(n / 10).push(digit_char(n % 10))
    }
}

/// Decimal rendering of an integer: a minus sign before the magnitude
/// when negative.
pub open spec fn int_rep(n: int) -> Seq<char> {
    if n < 0 {
        seq!['-'] + dec_rep((-n) as nat)
    } else {
        dec_rep(n as nat)
    }
}

/// The value of a string of decimal digits, most significant first.
pub open spec fn digits_val(s: Seq<char>) -> nat
    decreases s.len(),
{
    if s.len() == 0 {
        0
    } else {
        10 * digits_val(s.drop_last()) + digit_val(s.last())
    }
}

/// A non-empty, bounded-length string of decimal digits; the bound keeps
/// every parsed value well under the machine's integer limits.
pub open spec fn num_ok(s: Seq<char>) -> bool {
    &&& s.len() > 0
    &&& s.len() <= 18
    &&& forall|i: int| 0 <= i < s.len() ==> digit_val(s[i]) < 10
}

pub open spec fn pow10(k: nat) -> nat
    decreases k,
{
    if k == 0 {
        1
    } else {
        10 * pow10((k - 1) as nat)
    }
}

pub proof fn lemma_digits_val_bound(s: Seq<char>)
    requires
        forall|i: int| 0 <= i < s.len() ==> digit_val(s[i]) < 10,
    ensures
        digits_val(s) < pow10(s.len()),
    decreases s.len(),
{
    if s.len() > 0 {
        assert forall|i: int| 0 <= i < s.drop_last().len() implies digit_val(
            s.drop_last()[i],
        ) < 10 by {
            assert(s.drop_last()[i] == s[i]);
        }
        lemma_digits_val_bound(s.drop_last());
        assert(digit_val(s.last()) < 10);
    }
}

pub proof fn lemma_pow10_mono(a: nat, b: nat)
    requires
        a <= b,
    ensures
        pow10(a) <= pow10(b),
    decreases b,
{
    if a < b {
        lemma_pow10_mono(a, (b - 1) as nat);
    }
}

pub proof fn lemma_pow10_18()
    ensures
        pow10(17) == 100000000000000000nat,
        pow10(18) == 1000000000000000000nat,
{
    assert(pow10(0) == 1);
    assert(pow10(1) == 10);
    assert(pow10(2) == 100);
    assert(pow10(3) == 1000);
    assert(pow10(4) == 10000);
    assert(pow10(5) == 100000);
    assert(pow10(6) == 1000000);
    assert(pow10(7) == 10000000);
    assert(pow10(8) == 100000000);
    assert(pow10(9) == 1000000000);
    assert(pow10(10) == 10000000000);
    assert(pow10(11) == 100000000000);
    assert(pow10(12) == 1000000000000);
    assert(pow10(13) == 10000000000000);
    assert(pow10(14) == 100000000000000);
    assert(pow10(15) == 1000000000000000);
    assert(pow10(16) == 10000000000000000);
    assert(pow10(17) == 100000000000000000);
    assert(pow10(18) == 1000000000000000000);
}

/// The digit character for `d`, matching `digit_char`.
pub fn to_digit_char(d: u64) -> (c: char)
    requires
        d < 10,
    ensures
        c == digit_char(d as nat),
{
    if d == 0 {
        '0'
    } else if d == 1 {
        '1'
    } else if d == 2 {
        '2'
    } else if d == 3 {
        '3'
    } else if d == 4 {
        '4'
    } else if d == 5 {
        '5'
    } else if d == 6 {
        '6'
    } else if d == 7 {
        '7'
    } else if d == 8 {
        '8'
    } else {
        '9'
    }
}

/// The value of a digit character, matching `digit_val`.
pub fn to_digit_val(c: char) -> (d: u64)
    ensures
        d == digit_val(c),
{
    if c == '0' {
        0
    } else if c == '1' {
        1
    } else if c == '2' {
        2
    } else if c == '3' {
        3
    } else if c == '4' {
        4
    } else if c == '5' {
        5
    } else if c == '6' {
        6
    } else if c == '7' {
        7
    } else if c == '8' {
        8
    } else if c == '9' {
        9
    } else {
        10
    }
}

/// Appends the decimal rendering of `n` to `out`.
pub fn push_dec_u64(out: &mut Vec<char>, n: u64)
    ensures
        final(out)@ == old(out)@ + dec_rep(n as nat),
    decreases n,
{
    if n >= 10 {
        push_dec_u64(out, n / 10);
    }
    out.push(to_digit_char(n % 10));
    proof {
        if n < 10 {
            assert(out@ =~= old(out)@ + seq![digit_char(n as nat)]);
        } else {
            assert(out@ =~= old(out)@ + dec_rep((n / 10) as nat).push(
                digit_char((n % 10) as nat),
            ));
        }
    }
}

/// The decimal rendering of `n`, as `dec_rep` describes.
pub fn u64_chars(n: u64) -> (v: Vec<char>)
    ensures
        v@ == dec_rep(n as nat),
{
    let mut v: Vec<char> = Vec::new();
    push_dec_u64(&mut v, n);
    proof {
        assert(v@ =~= dec_rep(n as nat));
    }
    v
}

/// The decimal rendering of `n`, as `int_rep` describes.
pub fn i64_chars(n: i64) -> (v: Vec<char>)
    ensures
        v@ == int_rep(n as int),
{
    let mut v: Vec<char> = Vec::new();
    if n < 0 {
        v.push('-');
        let m: u64 = ((-(n + 1)) as u64) + 1;
        assert(m == -(n as int));
        push_dec_u64(&mut v, m);
        assert(v@ =~= seq!['-'] + dec_rep(m as nat));
    } else {
        push_dec_u64(&mut v, n as u64);
        assert(v@ =~= dec_rep(n as nat));
    }
    v
}

/// Parses `v[from..to]` as an unsigned decimal number; `None` unless that
/// range is a well-formed digit string as `num_ok` describes.
pub fn parse_digits(v: &Vec<char>, from: usize, to: usize) -> (r: Option<u64>)
    requires
        from <= to <= v@.len(),
    ensures
        ({
            let s = v@.subrange(from as int, to as int);
            match r {
                Some(n) => num_ok(s) && n == digits_val(s) && n < 1000000000000000000,
                None => !num_ok(s),
            }
        }),
{
    let ghost s = v@.subrange(from as int, to as int);
    if to == from || to - from > 18 {
        return None;
    }
    let mut acc: u64 = 0;
    let mut i: usize = from;
    while i < to
        invariant
            from <= i <= to <= v@.len(),
            to - from <= 18,
            s == v@.subrange(from as int, to as int),
            forall|j: int| from <= j < i ==> digit_val(v@[j]) < 10,
            acc == digits_val(v@.subrange(from as int, i as int)),
        decreases to - i,
    {
        let d = to_digit_val(v[i]);
        if d >= 10 {
            proof {
                assert(digit_val(s[i - from]) >= 10);
            }
            return None;
        }
        proof {
            let pre = v@.subrange(from as int, i as int);
            assert forall|j: int| 0 <= j < pre.len() implies digit_val(pre[j]) < 10 by {
                assert(pre[j] == v@[from + j]);
            }
            lemma_digits_val_bound(pre);
            lemma_pow10_mono(pre.len(), 17);
            lemma_pow10_18();
            assert(acc < 100000000000000000);
        }
        acc = acc * 10 + d;
        proof {
            let pre2 = v@.subrange(from as int, i + 1);
            assert(pre2.drop_last() =~= v@.subrange(from as int, i as int));
            assert(pre2.last() == v@[i as int]);
        }
        i = i + 1;
    }
    proof {
        assert(s =~= v@.subrange(from as int, to as int));
        assert forall|j: int| 0 <= j < s.len() implies digit_val(s[j]) < 10 by {
            assert(s[j] == v@[from + j]);
        }
        assert(num_ok(s));
        lemma_digits_val_bound(s);
        lemma_pow10_mono(s.len(), 18);
        lemma_pow10_18();
    }
    Some(acc)
}

} // verus!
