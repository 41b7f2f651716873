//! Unsigned integers written in text, as `str::parse` and
//! `from_str_radix` read them: an optional `+`, then one or more digits of
//! the radix, and a value that fits the target type.
use vstd::prelude::*;
use crate::netparse::{digit_val, is_digit};
use crate::text::{dec_digit_char, dec_str};

verus! {

/// Value of a run of digits in radix 10 or 16.
pub open spec fn digits_value(s: Seq<char>, hex: bool) -> nat
    decreases s.len(),
{
    if s.len() == 0 {
        0
    } else {
        if hex {
            digits_value(s.drop_last(), hex) * 16 + digit_val(s.last())
        } else {
            digits_value(s.drop_last(), hex) * 10 + digit_val(s.last())
        }
    }
}

pub open spec fn all_digits(s: Seq<char>, hex: bool) -> bool {
    forall|i: int| 0 <= i < s.len() ==> is_digit(#[trigger] s[i], hex)
}

/// The digits after an optional leading `+`.
pub open spec fn unsigned_body(t: Seq<char>) -> Seq<char> {
    if t.len() > 0 && t[0] == '+' { t.subrange(1, t.len() as int) } else { t }
}

/// An unsigned integer of at most `max`, or `None`.
pub open spec fn parse_unsigned(t: Seq<char>, hex: bool, max: nat) -> Option<nat> {
    let d = unsigned_body(t);
    if d.len() > 0 && all_digits(d, hex) && digits_value(d, hex) <= max {
        Some(digits_value(d, hex))
    } else {
        None
    }
}

fn is_digit_exec(c: char, hex: bool) -> (r: bool)
    ensures
        r == is_digit(c, hex),
{
    if hex {
        ('0' <= c && c <= '9') || ('a' <= c && c <= 'f') || ('A' <= c && c <= 'F')
    } else {
        '0' <= c && c <= '9'
    }
}

fn digit_val_exec(c: char) -> (r: u64)
    ensures
        r == digit_val(c),
        r < 16,
{
    if '0' <= c && c <= '9' {
        (c as u64) - ('0' as u64)
    } else if 'a' <= c && c <= 'f' {
        (c as u64) - ('a' as u64) + 10
    } else if 'A' <= c && c <= 'F' {
        (c as u64) - ('A' as u64) + 10
    } else {
        0
    }
}

/// Parse `t` as an unsigned integer of at most `max`.
pub fn parse_unsigned_exec(t: &[char], hex: bool, max: u64) -> (r: Option<u64>)
    ensures
        match parse_unsigned(t@, hex, max as nat) {
            Some(v) => r == Some(v as u64),
            None => r is None,
        },
{
    let start: usize = if t.len() > 0 && t[0] == '+' { 1 } else { 0 };
    let ghost d = unsigned_body(t@);
    assert(d =~= t@.subrange(start as int, t@.len() as int));
    if start >= t.len() {
        return None;
    }
    let base: u128 = if hex { 16 } else { 10 };
    let cap: u128 = max as u128 + 1;
    let mut v: u128 = 0;
    let mut i: usize = start;
    while i < t.len()
        invariant
            start <= i <= t.len(),
            d == t@.subrange(start as int, t@.len() as int),
            d == unsigned_body(t@),
            base == (if hex { 16nat } else { 10nat }),
            cap == max + 1,
            all_digits(t@.subrange(start as int, i as int), hex),
            v == (if digits_value(t@.subrange(start as int, i as int), hex) < cap {
                digits_value(t@.subrange(start as int, i as int), hex)
            } else {
                cap as nat
            }),
        decreases t.len() - i,
    {
        let c = t[i];
        if !is_digit_exec(c, hex) {
            assert(d[i - start] == c);
            assert(!is_digit(d[i - start], hex));
            return None;
        }
        let ghost pre = t@.subrange(start as int, i as int);
        let ghost nxt = t@.subrange(start as int, i + 1);
        assert(nxt.drop_last() =~= pre);
        assert(nxt.last() == c);
        let dv = digit_val_exec(c) as u128;
        assert(v * base <= (max + 1) * 16) by (nonlinear_arith)
            requires
                v <= max + 1,
                base <= 16;
        let w: u128 = v * base + dv;
        assert(w <= (max + 1) * 16 + 15) by (nonlinear_arith)
            requires
                v <= max + 1,
                base <= 16,
                dv < 16,
                w == v * base + dv;
        v = if w < cap { w } else { cap };
        proof {
            let x = digits_value(pre, hex);
            assert(digits_value(nxt, hex) == x * base + digit_val(c)) by {
                if hex {
                    assert(digits_value(nxt, hex) == x * 16 + digit_val(c));
                } else {
                    assert(digits_value(nxt, hex) == x * 10 + digit_val(c));
                }
            }
            if x >= cap {
                assert(x * base + digit_val(c) >= cap) by (nonlinear_arith)
                    requires
                        x >= cap,
                        base >= 10;
                assert(cap * base + dv >= cap) by (nonlinear_arith)
                    requires
                        base >= 10;
            }
        }
        assert forall|k: int| 0 <= k < nxt.len() implies is_digit(#[trigger] nxt[k], hex) by {
            if k < pre.len() {
                assert(nxt[k] == pre[k]);
            }
        }
        i = i + 1;
    }
    if v < cap {
        Some(v as u64)
    } else {
        None
    }
}

proof fn lemma_digit_char_value(d: nat)
    requires
        d < 10,
    ensures
        digit_val(dec_digit_char(d)) == d,
        is_digit(dec_digit_char(d), false),
        dec_digit_char(d) != '+',
{
}

/// The decimal rendering of a number reads back as that number.
pub proof fn lemma_dec_str_parses(n: nat)
    ensures
        all_digits(dec_str(n), false),
        digits_value(dec_str(n), false) == n,
        dec_str(n).len() > 0,
        dec_str(n)[0] != '+',
    decreases n,
{
    if n < 10 {
        lemma_digit_char_value(n);
        let s = dec_str(n);
        assert(s == seq![dec_digit_char(n)]);
        assert(s.drop_last() =~= Seq::<char>::empty());
        assert(s.last() == dec_digit_char(n));
        assert(digits_value(s.drop_last(), false) == 0);
        assert(digits_value(s, false) == digits_value(s.drop_last(), false) * 10 + digit_val(s.last()));
    } else {
        lemma_dec_str_parses(n / 10);
        lemma_digit_char_value(n % 10);
        let s = dec_str(n);
        assert(s.drop_last() =~= dec_str(n / 10));
        assert forall|i: int| 0 <= i < s.len() implies is_digit(#[trigger] s[i], false) by {
            if i < s.len() - 1 {
                assert(s[i] == dec_str(n / 10)[i]);
            }
        }
        assert(s[0] == dec_str(n / 10)[0]);
        assert(s.last() == dec_digit_char(n % 10));
        assert(digits_value(s, false) == digits_value(dec_str(n / 10), false) * 10 + digit_val(s.last()));
        assert(digits_value(dec_str(n / 10), false) == n / 10);
        assert(digit_val(s.last()) == n % 10);
        assert(n == (n / 10) * 10 + n % 10);
    }
}

} // verus!
