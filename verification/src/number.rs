//! Numbers as they are written down in source text.

use crate::text;
use crate::text::enumerate_chars;
use crate::text::split_chars;
use crate::text::EnumeratedChars;
use vstd::prelude::*;

verus! {

/// The value of `c` as a digit: `0` to `9`, and then the letters, of either case, from 10 on. A
/// character that is a digit in no radix has the value 36.
pub open spec fn digit_value(c: char) -> nat {
    if '0' <= c && c <= '9' {
        (c as nat - '0' as nat) as nat
    } else if 'a' <= c && c <= 'z' {
        (c as nat - 'a' as nat + 10) as nat
    } else if 'A' <= c && c <= 'Z' {
        (c as nat - 'A' as nat + 10) as nat
    } else {
        36
    }
}

/// Whether `c` is a digit in `radix`.
pub open spec fn is_digit(c: char, radix: nat) -> bool {
    digit_value(c) < radix
}

pub open spec fn all_digits(s: Seq<char>, radix: nat) -> bool {
    forall|i: int| 0 <= i < s.len() ==> is_digit(#[trigger] s[i], radix)
}

/// The number that the digits `s` denote in `radix`.
pub open spec fn radix_value(s: Seq<char>, radix: nat) -> nat
    decreases s.len(),
{
    if s.len() == 0 {
        0
    } else {
        radix_value(s.drop_last(), radix) * radix + digit_value(s.last())
    }
}

/// The `i32` that the digits `s` denote in `radix`: there must be a digit, and the number must fit.
pub open spec fn digits_to_i32(s: Seq<char>, radix: nat) -> Option<i32> {
    if s.len() > 0 && radix_value(s, radix) <= i32::MAX {
        Some(radix_value(s, radix) as i32)
    } else {
        None
    }
}

/// How many of the first characters of `s` are digits in `radix`.
pub open spec fn digit_run(s: Seq<char>, radix: nat) -> nat
    decreases s.len(),
{
    if s.len() > 0 && is_digit(s[0], radix) {
        1 + digit_run(s.drop_first(), radix)
    } else {
        0
    }
}

pub proof fn lemma_digit_run(s: Seq<char>, radix: nat)
    ensures
        digit_run(s, radix) <= s.len(),
        all_digits(s.take(digit_run(s, radix) as int), radix),
    decreases s.len(),
{
    if s.len() > 0 && is_digit(s[0], radix) {
        let t = s.drop_first();
        lemma_digit_run(t, radix);
        let n = digit_run(s, radix) as int;
        assert forall|i: int| 0 <= i < n implies is_digit(#[trigger] s.take(n)[i], radix) by {
            if i > 0 {
                assert(t.take(n - 1)[i - 1] == s[i]);
            }
        }
    }
}

/// More digits never make a smaller number.
proof fn lemma_radix_value_grows(s: Seq<char>, n: int, radix: nat)
    requires
        0 <= n <= s.len(),
        radix >= 1,
    ensures
        radix_value(s.take(n), radix) <= radix_value(s, radix),
    decreases s.len(),
{
    if n == s.len() {
        assert(s.take(n) =~= s);
    } else {
        lemma_radix_value_grows(s.drop_last(), n, radix);
        assert(s.drop_last().take(n) =~= s.take(n));
        let v = radix_value(s.drop_last(), radix);
        assert(v * radix >= v) by (nonlinear_arith)
            requires
                radix >= 1,
        ;
    }
}

/// The value of `c` as a digit.
pub fn to_digit(c: char) -> (d: u32)
    ensures
        d == digit_value(c),
        d <= 36,
{
    if '0' <= c && c <= '9' {
        c as u32 - '0' as u32
    } else if 'a' <= c && c <= 'z' {
        c as u32 - 'a' as u32 + 10
    } else if 'A' <= c && c <= 'Z' {
        c as u32 - 'A' as u32 + 10
    } else {
        36
    }
}

/// Reads the digits `s`.
pub fn parse_i32(s: &str, radix: u32) -> (r: Option<i32>)
    requires
        2 <= radix <= 36,
        all_digits(s@, radix as nat),
    ensures
        r == digits_to_i32(s@, radix as nat),
{
    if s.is_empty() {
        return None;
    }
    let mut it = enumerate_chars(s);
    let mut value: u64 = 0;
    let ghost mut n: int = 0;
    assert(s@.take(0) =~= Seq::<char>::empty());
    assert(s@.skip(0) =~= s@);
    loop
        invariant
            it.wf(),
            2 <= radix <= 36,
            all_digits(s@, radix as nat),
            0 <= n <= s@.len(),
            it.rest() == s@.skip(n),
            value == radix_value(s@.take(n), radix as nat),
            value <= i32::MAX,
        ensures
            n == s@.len(),
        decreases s@.len() - n,
    {
        match it.next() {
            None => break,
            Some((_, c)) => {
                proof {
                    assert(s@.take(n + 1).drop_last() =~= s@.take(n));
                    assert(c == s@[n]);
                    assert(s@.skip(n).drop_first() =~= s@.skip(n + 1));
                    assert(value * radix <= 0x7fff_ffff * 36) by (nonlinear_arith)
                        requires
                            value <= 0x7fff_ffff,
                            radix <= 36,
                    ;
                    n = n + 1;
                }
                value = value * (radix as u64) + to_digit(c) as u64;
                if value > i32::MAX as u64 {
                    proof {
                        lemma_radix_value_grows(s@, n, radix as nat);
                    }
                    return None;
                }
            },
        }
    }
    assert(s@.take(n) =~= s@);
    Some(value as i32)
}

/// Takes the digits that come next off `it`, and reads them.
pub fn consume_int_r(it: &mut EnumeratedChars<'_>, radix: u32) -> (r: Result<i32, ()>)
    requires
        old(it).wf(),
        2 <= radix <= 36,
    ensures
        final(it).wf(),
        ({
            let n = digit_run(old(it).rest(), radix as nat) as int;
            let number = old(it).rest().take(n);
            &&& final(it).rest() == old(it).rest().skip(n)
            &&& final(it).offset() == old(it).offset() + text::utf8_len(number)
            &&& r == (match digits_to_i32(number, radix as nat) {
                Some(v) => Ok(v),
                None => Err(()),
            })
        }),
{
    let from = it.as_str();
    let start: usize = it.pos();
    let ghost all = it.rest();
    let ghost run = digit_run(all, radix as nat) as int;
    let ghost mut n: int = 0;
    proof {
        lemma_digit_run(all, radix as nat);
        assert(all.skip(0) =~= all);
        assert(all.take(0) =~= Seq::<char>::empty());
    }
    let mut more: bool = match it.peek() {
        Some(c) => to_digit(c) < radix,
        None => false,
    };
    while more
        invariant
            it.wf(),
            2 <= radix <= 36,
            from@ == all,
            0 <= n <= run <= all.len(),
            it.rest() == all.skip(n),
            run == n + digit_run(all.skip(n), radix as nat),
            it.offset() == start + text::utf8_len(all.take(n)),
            more == (all.skip(n).len() > 0 && is_digit(all.skip(n)[0], radix as nat)),
        decreases run - n,
    {
        let step = it.next();
        proof {
            assert(all.skip(n).drop_first() =~= all.skip(n + 1));
            assert(all.take(n + 1) =~= all.take(n).push(all[n]));
            text::lemma_utf8_len_push(all.take(n), all[n]);
            n = n + 1;
        }
        more = match it.peek() {
            Some(c) => to_digit(c) < radix,
            None => false,
        };
    }
    assert(n == run);
    let size: usize = it.pos() - start;
    let (number, _) = split_chars(from, size, Ghost(n));
    match parse_i32(number, radix) {
        Some(v) => Ok(v),
        None => Err(()),
    }
}

/// Digits are the decimal digits, worth what they are, and then the letters, of either case, worth 10
/// and more. In a radix those that are worth less than the radix are digits. One digit more, worth
/// `k`, makes the number of the digits `radix` times as large, and adds `k`.
pub proof fn law_digits(d: Seq<char>, c: char, k: int, radix: nat)
    requires
        ({
            ||| '0' <= c && c <= '9' && k == (c as int) - ('0' as int)
            ||| 'a' <= c && c <= 'z' && k == (c as int) - ('a' as int) + 10
            ||| 'A' <= c && c <= 'Z' && k == (c as int) - ('A' as int) + 10
        }),
    ensures
        is_digit(c, radix) <==> k < radix,
        radix_value(d.push(c), radix) == radix * radix_value(d, radix) + k,
        radix_value(seq![], radix) == 0,
{
    assert(d.push(c).drop_last() =~= d);
    let v = radix_value(d, radix);
    assert(v * radix == radix * v) by (nonlinear_arith);
}

/// Nothing else is a digit, in a radix of up to 36.
pub proof fn law_other_characters_are_no_digits(c: char, radix: nat)
    requires
        radix <= 36,
        !('0' <= c && c <= '9'),
        !('a' <= c && c <= 'z'),
        !('A' <= c && c <= 'Z'),
    ensures
        !is_digit(c, radix),
{
}

/// Digits are read as their number, where there are any and it fits 32 bits with a sign.
pub proof fn law_numbers_that_fit(d: Seq<char>, radix: nat)
    ensures
        match digits_to_i32(d, radix) {
            Some(v) => d.len() > 0 && v == radix_value(d, radix),
            None => d.len() == 0 || radix_value(d, radix) > 0x7fff_ffff,
        },
{
}

/// Digits are taken off as long as there are any.
pub proof fn law_digits_are_taken(d: Seq<char>, s: Seq<char>, radix: nat)
    requires
        all_digits(d, radix),
        s.len() == 0 || !is_digit(s[0], radix),
    ensures
        digit_run(d + s, radix) == d.len(),
    decreases d.len(),
{
    let all = d + s;
    if d.len() == 0 {
        assert(all =~= s);
    } else {
        assert(all[0] == d[0]);
        let rest = d.drop_first();
        assert(all.drop_first() =~= rest + s);
        assert forall|i: int| 0 <= i < rest.len() implies is_digit(#[trigger] rest[i], radix) by {
            assert(rest[i] == d[i + 1]);
        }
        law_digits_are_taken(rest, s, radix);
    }
}

} // verus!
