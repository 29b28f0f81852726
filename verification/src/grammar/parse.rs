//! The grammar text format.
//!
//! ```text
//! root  -> "hello " name ;
//! name  -> re("[a-z]+" size_limit=8) | bytes(1,4) | 0xdeadbeef ;
//! ```
//!
//! A file is a run of option flags (`key = value`) followed by one or
//! more productions.  Alternatives are separated by `|`, productions end
//! with `;`.  Tokens are `Nothing` (the empty string), string literals
//! with `\"` escapes, hex literals (`0x` plus an even number of digits),
//! identifiers, `re("pattern" [size_limit=N] [unicode=0|1])` and
//! `bytes(N)` or `bytes(A,B)` with `A <= B`.

use crate::flags::{parse_u32_decimal, FlagValue, Flags};
use crate::grammar::{Grammar, Production, ProductionRhs, SpecToken, Token};
use vstd::prelude::*;

verus! {

pub open spec fn is_ws(c: u8) -> bool {
    c == 32 || c == 13 || c == 10 || c == 9
}

pub open spec fn is_ident_start(c: u8) -> bool {
    (97 <= c <= 122) || (65 <= c <= 90) || c == 95
}

pub open spec fn is_ident_char(c: u8) -> bool {
    is_ident_start(c) || (48 <= c <= 57)
}

pub open spec fn is_hex_digit(c: u8) -> bool {
    (48 <= c <= 57) || (97 <= c <= 102) || (65 <= c <= 70)
}

/// The value of one hex digit.
pub open spec fn hex_val(c: u8) -> u8 {
    if 48 <= c <= 57 {
        (c - 48) as u8
    } else if 97 <= c <= 102 {
        (c - 87) as u8
    } else if 65 <= c <= 70 {
        (c - 55) as u8
    } else {
        0
    }
}

/// The bytes a run of hex digits denotes, two digits per byte.
pub open spec fn hex_bytes(digits: Seq<u8>) -> Seq<u8> {
    Seq::new(digits.len() / 2, |i: int| (hex_val(digits[2 * i]) * 16 + hex_val(digits[2 * i + 1])) as u8)
}


/// The position after the whitespace run at `pos`.
pub open spec fn spec_skip_ws(s: Seq<u8>, pos: int) -> int
    decreases s.len() - pos,
{
    if 0 <= pos < s.len() && is_ws(s[pos]) {
        spec_skip_ws(s, pos + 1)
    } else {
        pos
    }
}

/// The position after the identifier-character run at `pos`.
pub open spec fn spec_ident_end(s: Seq<u8>, pos: int) -> int
    decreases s.len() - pos,
{
    if 0 <= pos < s.len() && is_ident_char(s[pos]) {
        spec_ident_end(s, pos + 1)
    } else {
        pos
    }
}

/// What reading an identifier at `pos` yields.
pub open spec fn spec_ident(s: Seq<u8>, pos: int) -> Option<(Seq<u8>, int)> {
    if 0 <= pos < s.len() && is_ident_start(s[pos]) {
        Option::Some((s.subrange(pos, spec_ident_end(s, pos)), spec_ident_end(s, pos)))
    } else {
        Option::None
    }
}

/// The position after the hex-digit run at `pos`.
pub open spec fn spec_hex_end(s: Seq<u8>, pos: int) -> int
    decreases s.len() - pos,
{
    if 0 <= pos < s.len() && is_hex_digit(s[pos]) {
        spec_hex_end(s, pos + 1)
    } else {
        pos
    }
}

/// What reading a hex literal at `pos` yields: `0x`, then an even and
/// positive number of hex digits denoting the bytes.
pub open spec fn spec_hex_lit(s: Seq<u8>, pos: int) -> Option<(Seq<u8>, int)> {
    if 0 <= pos && pos + 2 <= s.len() && s[pos] == 48 && s[pos + 1] == 120 {
        let e = spec_hex_end(s, pos + 2);
        if e == pos + 2 || (e - (pos + 2)) % 2 != 0 {
            Option::None
        } else {
            Option::Some((hex_bytes(s.subrange(pos + 2, e)), e))
        }
    } else {
        Option::None
    }
}

/// The position after the decimal-digit run at `pos`.
pub open spec fn spec_digits_end(s: Seq<u8>, pos: int) -> int
    decreases s.len() - pos,
{
    if 0 <= pos < s.len() && 48 <= s[pos] <= 57 {
        spec_digits_end(s, pos + 1)
    } else {
        pos
    }
}

/// What reading a number at `pos` yields: a nonempty digit run whose
/// value fits a `u32`.
pub open spec fn spec_number(s: Seq<u8>, pos: int) -> Option<(nat, int)> {
    if 0 <= pos {
        let e = spec_digits_end(s, pos);
        if e == pos || crate::flags::dec_value(s.subrange(pos, e)) > u32::MAX {
            Option::None
        } else {
            Option::Some((crate::flags::dec_value(s.subrange(pos, e)), e))
        }
    } else {
        Option::None
    }
}

/// A maximal character run pins the end position down: if everything in
/// `[pos, e)` satisfies the scanned class and `e` does not, the scanner
/// stops exactly at `e`.
proof fn lemma_run_end(s: Seq<u8>, pos: int, e: int, ws: bool, ident: bool, hex: bool, dec: bool)
    requires
        0 <= pos <= e <= s.len(),
        ws ==> (forall|i: int| pos <= i < e ==> is_ws(#[trigger] s[i])) && (e == s.len()
            || !is_ws(s[e])),
        ident ==> (forall|i: int| pos <= i < e ==> is_ident_char(#[trigger] s[i])) && (e == s.len()
            || !is_ident_char(s[e])),
        hex ==> (forall|i: int| pos <= i < e ==> is_hex_digit(#[trigger] s[i])) && (e == s.len()
            || !is_hex_digit(s[e])),
        dec ==> (forall|i: int| pos <= i < e ==> 48 <= #[trigger] s[i] <= 57) && (e == s.len()
            || !(48 <= s[e] <= 57)),
    ensures
        ws ==> spec_skip_ws(s, pos) == e,
        ident ==> spec_ident_end(s, pos) == e,
        hex ==> spec_hex_end(s, pos) == e,
        dec ==> spec_digits_end(s, pos) == e,
    decreases e - pos,
{
    if pos < e {
        lemma_run_end(s, pos + 1, e, ws, ident, hex, dec);
    }
}

/// Skips whitespace.
#[verifier::loop_isolation(false)]
fn skip_ws(s: &[u8], pos: usize) -> (r: usize)
    requires
        pos <= s@.len(),
    ensures
        pos <= r <= s@.len(),
        forall|i: int| pos <= i < r ==> is_ws(#[trigger] s@[i]),
        r < s@.len() ==> !is_ws(s@[r as int]),
        r == spec_skip_ws(s@, pos as int),
{
    let mut p = pos;
    while p < s.len() && (s[p] == 32 || s[p] == 13 || s[p] == 10 || s[p] == 9)
        invariant
            pos <= p <= s@.len(),
            forall|i: int| pos <= i < p ==> is_ws(#[trigger] s@[i]),
        decreases s@.len() - p,
    {
        p += 1;
    }
    proof {
        lemma_run_end(s@, pos as int, p as int, true, false, false, false);
    }
    p
}

/// Reads an identifier: a letter or underscore, then letters, digits and
/// underscores.
#[verifier::loop_isolation(false)]
fn parse_identifier(s: &[u8], pos: usize) -> (r: Option<(Vec<u8>, usize)>)
    requires
        pos <= s@.len(),
    ensures
        match r {
            Some((name, p)) => {
                &&& pos < p <= s@.len()
                &&& name@ == s@.subrange(pos as int, p as int)
                &&& name@.len() > 0
                &&& forall|i: int| 0 <= i < name@.len() ==> is_ident_char(#[trigger] name@[i])
                &&& is_ident_start(name@[0])
                &&& (p == s@.len() || !is_ident_char(s@[p as int]))
                &&& spec_ident(s@, pos as int) == Option::Some((name@, p as int))
            },
            None => spec_ident(s@, pos as int) is None,
        },
{
    if pos >= s.len() {
        return None;
    }
    let c = s[pos];
    if !((97 <= c && c <= 122) || (65 <= c && c <= 90) || c == 95) {
        return None;
    }
    let mut p = pos + 1;
    while p < s.len() && ((97 <= s[p] && s[p] <= 122) || (65 <= s[p] && s[p] <= 90) || s[p] == 95
        || (48 <= s[p] && s[p] <= 57))
        invariant
            pos < p <= s@.len(),
            forall|i: int| pos <= i < p ==> is_ident_char(#[trigger] s@[i]),
        decreases s@.len() - p,
    {
        p += 1;
    }
    let mut name: Vec<u8> = Vec::new();
    let mut i = pos;
    while i < p
        invariant
            pos <= i <= p <= s@.len(),
            name@ =~= s@.subrange(pos as int, i as int),
        decreases p - i,
    {
        name.push(s[i]);
        proof {
            assert(name@ =~= s@.subrange(pos as int, i + 1));
        }
        i += 1;
    }
    proof {
        lemma_run_end(s@, pos as int, p as int, false, true, false, false);
    }
    Some((name, p))
}

/// What reading a string body from `p` with `acc` already unescaped
/// yields: the content and the position after the closing quote.
pub open spec fn spec_string_body(s: Seq<u8>, p: int, acc: Seq<u8>) -> Option<(Seq<u8>, int)>
    decreases s.len() - p,
{
    if p < 0 || p >= s.len() {
        Option::None
    } else if s[p] == 34 {
        if acc.len() == 0 {
            Option::None
        } else {
            Option::Some((acc, p + 1))
        }
    } else if s[p] == 92 && p + 1 < s.len() && s[p + 1] == 34 {
        spec_string_body(s, p + 2, acc.push(34))
    } else {
        spec_string_body(s, p + 1, acc.push(s[p]))
    }
}

/// What reading a string literal at `pos` yields: `"`, one or more
/// characters with `\"` standing for a double quote, then `"`.
pub open spec fn spec_string_lit(s: Seq<u8>, pos: int) -> Option<(Seq<u8>, int)> {
    if 0 <= pos < s.len() && s[pos] == 34 {
        spec_string_body(s, pos + 1, Seq::empty())
    } else {
        Option::None
    }
}

/// Reads a string literal, returning exactly what `spec_string_lit`
/// denotes.
#[verifier::loop_isolation(false)]
fn parse_string_lit(s: &[u8], pos: usize) -> (r: Option<(Vec<u8>, usize)>)
    requires
        pos <= s@.len(),
    ensures
        match r {
            Some((text, p)) => {
                &&& pos < p <= s@.len()
                &&& text@.len() > 0
                &&& spec_string_lit(s@, pos as int) == Option::Some((text@, p as int))
            },
            None => spec_string_lit(s@, pos as int) is None,
        },
{
    if pos >= s.len() || s[pos] != 34 {
        return None;
    }
    let mut p = pos + 1;
    let mut text: Vec<u8> = Vec::new();
    loop
        invariant
            pos < p <= s@.len(),
            spec_string_lit(s@, pos as int) == spec_string_body(s@, p as int, text@),
        decreases s@.len() - p,
    {
        if p >= s.len() {
            return None;
        }
        if s[p] == 34 {
            if text.len() == 0 {
                return None;
            }
            return Some((text, p + 1));
        }
        if s[p] == 92 && p + 1 < s.len() && s[p + 1] == 34 {
            proof {
                assert(spec_string_body(s@, p as int, text@) == spec_string_body(
                    s@,
                    p + 2,
                    text@.push(34),
                ));
            }
            text.push(34);
            p += 2;
        } else {
            proof {
                assert(spec_string_body(s@, p as int, text@) == spec_string_body(
                    s@,
                    p + 1,
                    text@.push(s@[p as int]),
                ));
            }
            text.push(s[p]);
            p += 1;
        }
    }
}

/// Reads a hex literal: `0x` then an even, positive number of hex
/// digits; the bytes are the digit pairs.
#[verifier::loop_isolation(false)]
fn parse_hex_lit(s: &[u8], pos: usize) -> (r: Option<(Vec<u8>, usize)>)
    requires
        pos <= s@.len(),
    ensures
        match r {
            Some((bytes, p)) => {
                &&& pos < p <= s@.len()
                &&& p - pos >= 4
                &&& bytes@ == hex_bytes(s@.subrange(pos + 2, p as int))
                &&& bytes@.len() > 0
                &&& spec_hex_lit(s@, pos as int) == Option::Some((bytes@, p as int))
            },
            None => spec_hex_lit(s@, pos as int) is None,
        },
{
    if pos >= s.len() || s.len() - pos < 2 || s[pos] != 48 || s[pos + 1] != 120 {
        return None;
    }
    let digits_start = pos + 2;
    let mut p = digits_start;
    while p < s.len() && ((48 <= s[p] && s[p] <= 57) || (97 <= s[p] && s[p] <= 102) || (65 <= s[p]
        && s[p] <= 70))
        invariant
            digits_start <= p <= s@.len(),
            forall|i: int| digits_start <= i < p ==> is_hex_digit(#[trigger] s@[i]),
        decreases s@.len() - p,
    {
        p += 1;
    }
    proof {
        lemma_run_end(s@, digits_start as int, p as int, false, false, true, false);
    }
    let count = p - digits_start;
    if count == 0 || count % 2 != 0 {
        return None;
    }
    let mut bytes: Vec<u8> = Vec::new();
    let mut i = digits_start;
    while i < p
        invariant
            digits_start <= i <= p <= s@.len(),
            (i - digits_start) % 2 == 0,
            (p - digits_start) % 2 == 0,
            forall|k: int| digits_start <= k < p ==> is_hex_digit(#[trigger] s@[k]),
            bytes@ =~= hex_bytes(s@.subrange(digits_start as int, i as int)),
        decreases p - i,
    {
        let hi = hex_digit_value(s[i]);
        let lo = hex_digit_value(s[i + 1]);
        bytes.push(hi * 16 + lo);
        proof {
            let old_digits = s@.subrange(digits_start as int, i as int);
            let new_digits = s@.subrange(digits_start as int, i + 2);
            assert(new_digits.len() == old_digits.len() + 2);
            assert forall|k: int| 0 <= k < new_digits.len() / 2 implies hex_bytes(new_digits)[k]
                == bytes@[k] by {
                assert(new_digits[2 * k] == s@[digits_start + 2 * k]);
                assert(new_digits[2 * k + 1] == s@[digits_start + 2 * k + 1]);
                if k < old_digits.len() / 2 {
                    assert(old_digits[2 * k] == s@[digits_start + 2 * k]);
                    assert(old_digits[2 * k + 1] == s@[digits_start + 2 * k + 1]);
                    assert(hex_bytes(old_digits)[k] == bytes@[k]);
                }
            }
            assert(bytes@ =~= hex_bytes(new_digits));
        }
        i += 2;
    }
    Some((bytes, p))
}

/// The value of one hex digit character.
fn hex_digit_value(c: u8) -> (r: u8)
    requires
        is_hex_digit(c),
    ensures
        r == hex_val(c),
        r < 16,
{
    if 48 <= c && c <= 57 {
        c - 48
    } else if 97 <= c && c <= 102 {
        c - 87
    } else {
        c - 55
    }
}

/// Reads a run of decimal digits as a number.
#[verifier::loop_isolation(false)]
fn parse_number(s: &[u8], pos: usize) -> (r: Option<(u32, usize)>)
    requires
        pos <= s@.len(),
    ensures
        match r {
            Some((v, p)) => {
                &&& pos < p <= s@.len()
                &&& v == crate::flags::dec_value(s@.subrange(pos as int, p as int))
                &&& forall|i: int| pos <= i < p ==> 48 <= #[trigger] s@[i] <= 57
                &&& (p == s@.len() || !(48 <= s@[p as int] <= 57))
                &&& spec_number(s@, pos as int) == Option::Some((v as nat, p as int))
            },
            None => spec_number(s@, pos as int) is None,
        },
{
    let mut p = pos;
    while p < s.len() && 48 <= s[p] && s[p] <= 57
        invariant
            pos <= p <= s@.len(),
            forall|i: int| pos <= i < p ==> 48 <= #[trigger] s@[i] <= 57,
        decreases s@.len() - p,
    {
        p += 1;
    }
    proof {
        lemma_run_end(s@, pos as int, p as int, false, false, false, true);
    }
    if p == pos {
        return None;
    }
    let mut digits: Vec<u8> = Vec::new();
    let mut i = pos;
    while i < p
        invariant
            pos <= i <= p <= s@.len(),
            digits@ =~= s@.subrange(pos as int, i as int),
        decreases p - i,
    {
        digits.push(s[i]);
        proof {
            assert(digits@ =~= s@.subrange(pos as int, i + 1));
        }
        i += 1;
    }
    proof {
        assert(digits@ == s@.subrange(pos as int, p as int));
    }
    match parse_u32_decimal(digits.as_slice()) {
        Some(v) => Some((v, p)),
        None => {
            proof {
                assert(crate::flags::is_dec_digits(digits@));
                assert(digits@.len() > 0);
            }
            None
        },
    }
}


/// Spec-level shape of a flag value.
pub enum SpecFlagValue {
    Text(Seq<u8>),
    Int(u32),
}

pub open spec fn flag_val_view(v: FlagValue) -> SpecFlagValue {
    match v {
        FlagValue::Text(t) => SpecFlagValue::Text(t@),
        FlagValue::Int(n) => SpecFlagValue::Int(n),
    }
}

/// What reading one flag (`identifier = value`) at `pos` yields.
pub open spec fn spec_flag(s: Seq<u8>, pos: int) -> Option<((Seq<u8>, SpecFlagValue), int)> {
    match spec_ident(s, pos) {
        Option::None => Option::None,
        Option::Some((key, p1)) => {
            let p2 = spec_skip_ws(s, p1);
            if !(p2 < s.len() && s[p2] == 61) {
                Option::None
            } else {
                let p3 = spec_skip_ws(s, p2 + 1);
                match spec_string_lit(s, p3) {
                    Option::Some((text, p4)) => Option::Some(
                        ((key, SpecFlagValue::Text(text)), p4),
                    ),
                    Option::None => match spec_number(s, p3) {
                        Option::Some((v, p4)) => Option::Some(
                            ((key, SpecFlagValue::Int(v as u32)), p4),
                        ),
                        Option::None => Option::None,
                    },
                }
            }
        },
    }
}

/// What reading a whitespace-separated flag run yields, continuing from
/// `p` with `acc` already read: the flag list and the end position.
pub open spec fn spec_flags_from(
    s: Seq<u8>,
    p: int,
    acc: Seq<(Seq<u8>, SpecFlagValue)>,
) -> (Seq<(Seq<u8>, SpecFlagValue)>, int)
    decreases s.len() - p,
{
    let next = if acc.len() == 0 {
        p
    } else {
        spec_skip_ws(s, p)
    };
    match spec_flag(s, next) {
        Option::Some((kv, p2)) => if p < p2 <= s.len() {
            spec_flags_from(s, p2, acc.push(kv))
        } else {
            (acc, p)
        },
        Option::None => (acc, p),
    }
}

/// The value under the last occurrence of a key in a flag list.
pub open spec fn list_lookup(items: Seq<(Seq<u8>, SpecFlagValue)>, key: Seq<u8>) -> Option<
    SpecFlagValue,
>
    decreases items.len(),
{
    if items.len() == 0 {
        Option::None
    } else if items.last().0 == key {
        Option::Some(items.last().1)
    } else {
        list_lookup(items.drop_last(), key)
    }
}

/// A key is in the list exactly when the lookup finds it, and the found
/// value is the one at the last index bearing the key.
#[verifier::rlimit(60)]
proof fn lemma_list_lookup(items: Seq<(Seq<u8>, SpecFlagValue)>, key: Seq<u8>)
    ensures
        (list_lookup(items, key) is Some) <==> exists|i: int|
            0 <= i < items.len() && (#[trigger] items[i]).0 == key,
        forall|i: int|
            0 <= i < items.len() && (#[trigger] items[i]).0 == key && (forall|j: int|
                i < j < items.len() ==> (#[trigger] items[j]).0 != key) ==> list_lookup(items, key)
                == Option::Some(items[i].1),
    decreases items.len(),
{
    if items.len() > 0 {
        lemma_list_lookup(items.drop_last(), key);
        if items.last().0 == key {
            assert(items[items.len() - 1].0 == key);
        } else {
            assert forall|i: int|
                0 <= i < items.len() && (#[trigger] items[i]).0 == key implies i < items.len()
                - 1 by {}
            assert(forall|i: int|
                0 <= i < items.len() - 1 ==> (#[trigger] items[i]) == items.drop_last()[i]);
        }
    }
}

/// Every key that occurs in a list occurs a last time.
proof fn lemma_last_index(list: Seq<(Seq<u8>, SpecFlagValue)>, k: Seq<u8>)
    requires
        exists|i: int| 0 <= i < list.len() && (#[trigger] list[i]).0 == k,
    ensures
        exists|i: int|
            0 <= i < list.len() && (#[trigger] list[i]).0 == k && (forall|j: int|
                i < j < list.len() ==> (#[trigger] list[j]).0 != k),
    decreases list.len(),
{
    if list.last().0 == k {
        let w = list.len() - 1;
        assert(list[w].0 == k && (forall|j: int| w < j < list.len() ==> (#[trigger] list[j]).0
            != k));
    } else {
        let i0 = choose|i: int| 0 <= i < list.len() && (#[trigger] list[i]).0 == k;
        assert(i0 < list.len() - 1);
        assert(list.drop_last()[i0].0 == k);
        lemma_last_index(list.drop_last(), k);
        let w = choose|i: int|
            0 <= i < list.drop_last().len() && (#[trigger] list.drop_last()[i]).0 == k && (forall|
                j: int,
            |
                i < j < list.drop_last().len() ==> (#[trigger] list.drop_last()[j]).0 != k);
        assert(list[w].0 == k);
        assert forall|j: int| w < j < list.len() implies (#[trigger] list[j]).0 != k by {
            if j < list.len() - 1 {
                assert(list.drop_last()[j].0 != k);
            }
        }
    }
}

/// Reads one flag: `identifier = value` where the value is a string
/// literal or a number.
fn parse_flag(s: &[u8], pos: usize) -> (r: Option<((Vec<u8>, FlagValue), usize)>)
    requires
        pos <= s@.len(),
    ensures
        match r {
            Some((kv, p)) => pos < p <= s@.len() && spec_flag(s@, pos as int) == Option::Some(
                ((kv.0@, flag_val_view(kv.1)), p as int),
            ),
            None => spec_flag(s@, pos as int) is None,
        },
{
    let (key, p1) = match parse_identifier(s, pos) {
        Some(x) => x,
        None => {
            return None;
        },
    };
    let p2 = skip_ws(s, p1);
    if p2 >= s.len() || s[p2] != 61 {
        return None;
    }
    let p3 = skip_ws(s, p2 + 1);
    if let Some((text, p4)) = parse_string_lit(s, p3) {
        return Some(((key, FlagValue::Text(text)), p4));
    }
    match parse_number(s, p3) {
        Some((v, p4)) => Some(((key, FlagValue::Int(v)), p4)),
        None => None,
    }
}

/// Reads a whitespace-separated run of flags, possibly empty.
#[verifier::loop_isolation(false)]
fn parse_flags(s: &[u8], pos: usize) -> (r: (Flags, usize))
    requires
        pos <= s@.len(),
    ensures
        pos <= r.1 <= s@.len(),
        ({
            let (list, end) = spec_flags_from(s@, pos as int, Seq::empty());
            &&& r.1 == end
            &&& forall|k: Seq<u8>| r.0.spec_contains(k) <==> (#[trigger] list_lookup(list, k))
                is Some
            &&& forall|k: Seq<u8>|
                (#[trigger] list_lookup(list, k)) matches Option::Some(v) ==> flag_val_view(
                    r.0.spec_value(k),
                ) == v
        }),
{
    let mut items: Vec<(Vec<u8>, FlagValue)> = Vec::new();
    let ghost view_of = |kv: (Vec<u8>, FlagValue)| (kv.0@, flag_val_view(kv.1));
    proof {
        assert(items@.map_values(view_of) =~= Seq::<(Seq<u8>, SpecFlagValue)>::empty());
    }
    let mut p = pos;
    loop
        invariant
            pos <= p <= s@.len(),
            spec_flags_from(s@, pos as int, Seq::empty()) == spec_flags_from(
                s@,
                p as int,
                items@.map_values(view_of),
            ),
        decreases s@.len() - p,
    {
        let next = if items.len() == 0 {
            p
        } else {
            skip_ws(s, p)
        };
        match parse_flag(s, next) {
            Some((kv, p2)) => {
                proof {
                    assert(items@.push(kv).map_values(view_of) =~= items@.map_values(
                        view_of,
                    ).push((kv.0@, flag_val_view(kv.1))));
                }
                items.push(kv);
                p = p2;
            },
            None => {
                break ;
            },
        }
    }
    let ghost list = items@.map_values(view_of);
    let ghost items_snapshot = items@;
    proof {
        assert(spec_flags_from(s@, pos as int, Seq::empty()) == (list, p as int));
    }
    let flags = Flags::new(items);
    proof {
        assert forall|k: Seq<u8>|
            flags.spec_contains(k) <==> (#[trigger] list_lookup(list, k)) is Some by {
            lemma_list_lookup(list, k);
            if flags.spec_contains(k) {
                let i = choose|i: int|
                    0 <= i < items_snapshot.len() && (#[trigger] items_snapshot[i]).0@ == k;
                assert(list[i].0 == k);
            }
            if list_lookup(list, k) is Some {
                let i = choose|i: int| 0 <= i < list.len() && (#[trigger] list[i]).0 == k;
                assert(items_snapshot[i].0@ == k);
                assert(flags.spec_contains(items_snapshot[i].0@));
            }
        }
        assert forall|k: Seq<u8>|
            (#[trigger] list_lookup(list, k)) is Some implies flag_val_view(flags.spec_value(k))
            == list_lookup(list, k)->0 by {
            lemma_list_lookup(list, k);
            lemma_last_index(list, k);
            let i = choose|i: int|
                0 <= i < list.len() && (#[trigger] list[i]).0 == k && (forall|j: int|
                    i < j < list.len() ==> (#[trigger] list[j]).0 != k);
            assert(list_lookup(list, k) == Option::Some(list[i].1));
            assert forall|j: int|
                i < j < items_snapshot.len() implies (#[trigger] items_snapshot[j]).0@
                != items_snapshot[i].0@ by {
                assert(list[j].0 != k);
            }
            assert(flags.spec_value(items_snapshot[i].0@) == items_snapshot[i].1);
            assert(items_snapshot[i].0@ == k);
            assert(flag_val_view(items_snapshot[i].1) == list[i].1);
        }
    }
    (flags, p)
}


pub open spec fn size_limit_key() -> Seq<u8> {
    seq![115u8, 105u8, 122u8, 101u8, 95u8, 108u8, 105u8, 109u8, 105u8, 116u8]
}

pub open spec fn unicode_key() -> Seq<u8> {
    seq![117u8, 110u8, 105u8, 99u8, 111u8, 100u8, 101u8]
}

/// What looking a key up in a flag list as a number yields, mirroring
/// `Flags::get_int` over the last occurrence of the key.
pub open spec fn spec_get_int(items: Seq<(Seq<u8>, SpecFlagValue)>, key: Seq<u8>) -> Option<
    Result<u32, ()>,
> {
    match list_lookup(items, key) {
        Option::None => Option::None,
        Option::Some(SpecFlagValue::Int(m)) => Option::Some(Result::Ok(m)),
        Option::Some(SpecFlagValue::Text(t)) => if crate::flags::is_dec_digits(t) && t.len() > 0
            && crate::flags::dec_value(t) <= u32::MAX {
            Option::Some(Result::Ok(crate::flags::dec_value(t) as u32))
        } else {
            Option::Some(Result::Err(()))
        },
    }
}

/// What reading a regular-expression token at `pos` yields: `re`, `(`, a
/// pattern string, optional `size_limit` and `unicode` flags, `)`; the
/// pattern must be accepted by the regex engine.
pub open spec fn spec_regex_token(s: Seq<u8>, pos: int) -> Option<(SpecToken, int)> {
    if !(0 <= pos && pos + 2 <= s.len() && s[pos] == 114 && s[pos + 1] == 101) {
        Option::None
    } else {
        let p1 = spec_skip_ws(s, pos + 2);
        if !(p1 < s.len() && s[p1] == 40) {
            Option::None
        } else {
            let p2 = spec_skip_ws(s, p1 + 1);
            match spec_string_lit(s, p2) {
                Option::None => Option::None,
                Option::Some((pattern, p3)) => {
                    let p4 = spec_skip_ws(s, p3);
                    let (list, p5) = spec_flags_from(s, p4, Seq::empty());
                    let p6 = spec_skip_ws(s, p5);
                    if !(p6 < s.len() && s[p6] == 41) {
                        Option::None
                    } else if spec_get_int(list, size_limit_key()) matches Option::Some(
                        Result::Err(_),
                    ) {
                        Option::None
                    } else if spec_get_int(list, unicode_key()) matches Option::Some(
                        Result::Err(_),
                    ) {
                        Option::None
                    } else {
                        let size_limit = match spec_get_int(list, size_limit_key()) {
                            Option::Some(Result::Ok(v)) => v,
                            _ => 100u32,
                        };
                        let unicode_flag = match spec_get_int(list, unicode_key()) {
                            Option::Some(Result::Ok(v)) => v,
                            _ => 0u32,
                        };
                        let unicode = unicode_flag != 0;
                        if crate::grammar::generation::regex_accepted(
                            pattern,
                            size_limit,
                            unicode,
                        ) {
                            Option::Some(
                                (SpecToken::Regex { pattern, size_limit, unicode }, p6 + 1),
                            )
                        } else {
                            Option::None
                        }
                    }
                },
            }
        }
    }
}

/// What reading a byte-range token at `pos` yields: `bytes(N)` or
/// `bytes(A,B)` with `A <= B`.
pub open spec fn spec_bytes_token(s: Seq<u8>, pos: int) -> Option<(SpecToken, int)> {
    if !(0 <= pos && pos + 5 <= s.len() && s[pos] == 98 && s[pos + 1] == 121 && s[pos + 2] == 116
        && s[pos + 3] == 101 && s[pos + 4] == 115) {
        Option::None
    } else {
        let p1 = spec_skip_ws(s, pos + 5);
        if !(p1 < s.len() && s[p1] == 40) {
            Option::None
        } else {
            let p2 = spec_skip_ws(s, p1 + 1);
            match spec_number(s, p2) {
                Option::None => Option::None,
                Option::Some((a, p3)) => {
                    let p4 = spec_skip_ws(s, p3);
                    if p4 < s.len() && s[p4] == 41 {
                        Option::Some((SpecToken::Bytes { min: a, max: a }, p4 + 1))
                    } else if !(p4 < s.len() && s[p4] == 44) {
                        Option::None
                    } else {
                        let p5 = spec_skip_ws(s, p4 + 1);
                        match spec_number(s, p5) {
                            Option::None => Option::None,
                            Option::Some((b, p6)) => {
                                let p7 = spec_skip_ws(s, p6);
                                if !(p7 < s.len() && s[p7] == 41) {
                                    Option::None
                                } else if a > b {
                                    Option::None
                                } else {
                                    Option::Some((SpecToken::Bytes { min: a, max: b }, p7 + 1))
                                }
                            },
                        }
                    }
                },
            }
        }
    }
}

/// The keyword `Nothing` stands at `pos`, not followed by an identifier
/// character.
pub open spec fn spec_nothing_at(s: Seq<u8>, pos: int) -> bool {
    &&& 0 <= pos && pos + 7 <= s.len()
    &&& s[pos] == 78 && s[pos + 1] == 111 && s[pos + 2] == 116 && s[pos + 3] == 104 && s[pos + 4]
        == 105 && s[pos + 5] == 110 && s[pos + 6] == 103
    &&& (pos + 7 == s.len() || !is_ident_char(s[pos + 7]))
}

/// What reading one token at `pos` yields, in the grammar's trial
/// order: `Nothing`, regular expression, byte range, identifier, string
/// literal, hex literal.
pub open spec fn spec_token(s: Seq<u8>, pos: int) -> Option<(SpecToken, int)> {
    if spec_nothing_at(s, pos) {
        Option::Some((SpecToken::Literal(Seq::empty()), pos + 7))
    } else {
        match spec_regex_token(s, pos) {
            Option::Some(x) => Option::Some(x),
            Option::None => match spec_bytes_token(s, pos) {
                Option::Some(x) => Option::Some(x),
                Option::None => match spec_ident(s, pos) {
                    Option::Some((name, p)) => Option::Some((SpecToken::Identifier(name), p)),
                    Option::None => match spec_string_lit(s, pos) {
                        Option::Some((text, p)) => Option::Some((SpecToken::Literal(text), p)),
                        Option::None => match spec_hex_lit(s, pos) {
                            Option::Some((bytes, p)) => Option::Some((SpecToken::Hex(bytes), p)),
                            Option::None => Option::None,
                        },
                    },
                },
            },
        }
    }
}

/// Reads a regular-expression token:
/// `re("pattern" [size_limit=N] [unicode=0|1])`.  The pattern must
/// compile; the repeat bound defaults to 100 and unicode to off.
fn parse_regex_token(s: &[u8], pos: usize) -> (r: Option<(Token, usize)>)
    requires
        pos <= s@.len(),
    ensures
        match r {
            Some((t, p)) => pos < p <= s@.len() && (t matches Token::Regex { .. })
                && spec_regex_token(s@, pos as int) == Option::Some(
                (crate::grammar::token_view(t), p as int),
            ),
            None => spec_regex_token(s@, pos as int) is None,
        },
{
    if pos >= s.len() || s.len() - pos < 2 || s[pos] != 114 || s[pos + 1] != 101 {
        return None;
    }
    let p1 = skip_ws(s, pos + 2);
    if p1 >= s.len() || s[p1] != 40 {
        return None;
    }
    let p2 = skip_ws(s, p1 + 1);
    let (pattern, p3) = match parse_string_lit(s, p2) {
        Some(x) => x,
        None => {
            return None;
        },
    };
    let p4 = skip_ws(s, p3);
    let (flags, p5) = parse_flags(s, p4);
    let p6 = skip_ws(s, p5);
    if p6 >= s.len() || s[p6] != 41 {
        return None;
    }
    let ghost list = spec_flags_from(s@, p4 as int, Seq::empty()).0;
    let sl_key: Vec<u8> = vec![115, 105, 122, 101, 95, 108, 105, 109, 105, 116];
    proof {
        assert(sl_key@ =~= size_limit_key());
    }
    let size_limit: u32 = match flags.get_int(sl_key.as_slice()) {
        Some(Ok(v)) => {
            proof {
                assert(spec_get_int(list, size_limit_key()) == Option::Some(
                    Result::<u32, ()>::Ok(v),
                ));
            }
            v
        },
        Some(Err(_)) => {
            proof {
                assert(spec_get_int(list, size_limit_key()) matches Option::Some(Result::Err(_)));
            }
            return None;
        },
        None => {
            proof {
                assert(spec_get_int(list, size_limit_key()) is None);
            }
            100
        },
    };
    let uc_key: Vec<u8> = vec![117, 110, 105, 99, 111, 100, 101];
    proof {
        assert(uc_key@ =~= unicode_key());
    }
    let unicode_flag: u32 = match flags.get_int(uc_key.as_slice()) {
        Some(Ok(v)) => {
            proof {
                assert(spec_get_int(list, unicode_key()) == Option::Some(
                    Result::<u32, ()>::Ok(v),
                ));
            }
            v
        },
        Some(Err(_)) => {
            proof {
                assert(spec_get_int(list, unicode_key()) matches Option::Some(Result::Err(_)));
            }
            return None;
        },
        None => {
            proof {
                assert(spec_get_int(list, unicode_key()) is None);
            }
            0
        },
    };
    let unicode = unicode_flag != 0;
    if crate::grammar::generation::compile_regex(pattern.as_slice(), size_limit, unicode).is_none()
    {
        return None;
    }
    Some((Token::Regex { pattern, size_limit, unicode }, p6 + 1))
}

/// Reads a byte-range token: `bytes(N)` or `bytes(A,B)` with `A <= B`.
fn parse_bytes_token(s: &[u8], pos: usize) -> (r: Option<(Token, usize)>)
    requires
        pos <= s@.len(),
    ensures
        match r {
            Some((t, p)) => {
                &&& pos < p <= s@.len()
                &&& match t {
                    Token::Bytes { min, max } => min <= max,
                    _ => false,
                }
                &&& spec_bytes_token(s@, pos as int) == Option::Some(
                    (crate::grammar::token_view(t), p as int),
                )
            },
            None => spec_bytes_token(s@, pos as int) is None,
        },
{
    if pos >= s.len() || s.len() - pos < 5 || s[pos] != 98 || s[pos + 1] != 121 || s[pos + 2]
        != 116 || s[pos + 3] != 101 || s[pos + 4] != 115 {
        return None;
    }
    let p1 = skip_ws(s, pos + 5);
    if p1 >= s.len() || s[p1] != 40 {
        return None;
    }
    let p2 = skip_ws(s, p1 + 1);
    let (a, p3) = match parse_number(s, p2) {
        Some(x) => x,
        None => {
            return None;
        },
    };
    let p4 = skip_ws(s, p3);
    if p4 < s.len() && s[p4] == 41 {
        return Some((Token::Bytes { min: a as usize, max: a as usize }, p4 + 1));
    }
    if p4 >= s.len() || s[p4] != 44 {
        return None;
    }
    let p5 = skip_ws(s, p4 + 1);
    let (b, p6) = match parse_number(s, p5) {
        Some(x) => x,
        None => {
            return None;
        },
    };
    let p7 = skip_ws(s, p6);
    if p7 >= s.len() || s[p7] != 41 {
        return None;
    }
    if a > b {
        return None;
    }
    Some((Token::Bytes { min: a as usize, max: b as usize }, p7 + 1))
}

/// Reads one token.  `Nothing` denotes the empty literal; `re(...)` and
/// `bytes(...)` are tried before a bare identifier.
fn parse_token(s: &[u8], pos: usize) -> (r: Option<(Token, usize)>)
    requires
        pos <= s@.len(),
    ensures
        match r {
            Some((t, p)) => pos < p <= s@.len() && crate::grammar::token_bounds_ok(t)
                && spec_token(s@, pos as int) == Option::Some(
                (crate::grammar::token_view(t), p as int),
            ),
            None => spec_token(s@, pos as int) is None,
        },
{
    if pos < s.len() && s.len() - pos >= 7 && s[pos] == 78 && s[pos + 1] == 111 && s[pos + 2]
        == 116 && s[pos + 3] == 104 && s[pos + 4] == 105 && s[pos + 5] == 110 && s[pos + 6] == 103 {
        let after_ok = pos + 7 >= s.len() || !((97 <= s[pos + 7] && s[pos + 7] <= 122) || (65 <= s[
            pos + 7] && s[pos + 7] <= 90) || s[pos + 7] == 95 || (48 <= s[pos + 7] && s[pos + 7]
            <= 57));
        if after_ok {
            let empty: Vec<u8> = Vec::new();
            proof {
                assert(empty@ =~= Seq::<u8>::empty());
                assert(spec_nothing_at(s@, pos as int));
            }
            return Some((Token::Literal(empty), pos + 7));
        }
    }
    proof {
        assert(!spec_nothing_at(s@, pos as int));
    }
    if let Some(x) = parse_regex_token(s, pos) {
        return Some(x);
    }
    if let Some(x) = parse_bytes_token(s, pos) {
        return Some(x);
    }
    if let Some((name, p)) = parse_identifier(s, pos) {
        return Some((Token::Identifier(name), p));
    }
    if let Some((text, p)) = parse_string_lit(s, pos) {
        return Some((Token::Literal(text), p));
    }
    match parse_hex_lit(s, pos) {
        Some((bytes, p)) => Some((Token::Hex(bytes), p)),
        None => None,
    }
}


/// What reading the rest of one alternative yields, continuing from `p`
/// with `acc` already read: tokens separated by optional whitespace, and
/// the alternative ends where no further token follows.
pub open spec fn spec_rhs_from(s: Seq<u8>, p: int, acc: Seq<SpecToken>) -> (Seq<SpecToken>, int)
    decreases s.len() - p,
{
    let next = spec_skip_ws(s, p);
    match spec_token(s, next) {
        Option::Some((t, p2)) => if p < p2 <= s.len() {
            spec_rhs_from(s, p2, acc.push(t))
        } else {
            (acc, p)
        },
        Option::None => (acc, p),
    }
}

/// What reading one alternative at `pos` yields: one or more tokens.
pub open spec fn spec_rhs(s: Seq<u8>, pos: int) -> Option<(Seq<SpecToken>, int)> {
    match spec_token(s, pos) {
        Option::None => Option::None,
        Option::Some((t, p1)) => Option::Some(spec_rhs_from(s, p1, seq![t])),
    }
}

/// What reading the remaining `| alternative` arms yields, continuing
/// from `p` with `acc` already read.
pub open spec fn spec_alts_from(s: Seq<u8>, p: int, acc: Seq<Seq<SpecToken>>) -> Option<
    (Seq<Seq<SpecToken>>, int),
>
    decreases s.len() - p,
{
    let next = spec_skip_ws(s, p);
    if !(next < s.len() && s[next] == 124) {
        Option::Some((acc, next))
    } else {
        let p5 = spec_skip_ws(s, next + 1);
        match spec_rhs(s, p5) {
            Option::None => Option::None,
            Option::Some((rhs, p6)) => if p < p6 <= s.len() {
                spec_alts_from(s, p6, acc.push(rhs))
            } else {
                Option::Some((acc, next))
            },
        }
    }
}

/// What reading one production at `pos` yields:
/// `name -> rhs (| rhs)* ;`.
pub open spec fn spec_production(s: Seq<u8>, pos: int) -> Option<
    ((Seq<u8>, Seq<Seq<SpecToken>>), int),
> {
    let p0 = spec_skip_ws(s, pos);
    match spec_ident(s, p0) {
        Option::None => Option::None,
        Option::Some((name, p1)) => {
            let p2 = spec_skip_ws(s, p1);
            if !(p2 + 2 <= s.len() && s[p2] == 45 && s[p2 + 1] == 62) {
                Option::None
            } else {
                let p3 = spec_skip_ws(s, p2 + 2);
                match spec_rhs(s, p3) {
                    Option::None => Option::None,
                    Option::Some((first, p4)) => match spec_alts_from(s, p4, seq![first]) {
                        Option::None => Option::None,
                        Option::Some((alts, p)) => if p < s.len() && s[p] == 59 {
                            Option::Some(((name, alts), p + 1))
                        } else {
                            Option::None
                        },
                    },
                }
            }
        },
    }
}

/// The view of one parsed production.
pub open spec fn production_view(p: Production) -> (Seq<u8>, Seq<Seq<SpecToken>>) {
    (p.lhs@, crate::grammar::alternatives_view(p.rhs@))
}

/// Replacing the first production of the same name, or appending.
pub open spec fn view_upsert(
    list: Seq<(Seq<u8>, Seq<Seq<SpecToken>>)>,
    p: (Seq<u8>, Seq<Seq<SpecToken>>),
) -> Seq<(Seq<u8>, Seq<Seq<SpecToken>>)>
    decreases list.len(),
{
    if list.len() == 0 {
        seq![p]
    } else if list.first().0 == p.0 {
        seq![p] + list.drop_first()
    } else {
        seq![list.first()] + view_upsert(list.drop_first(), p)
    }
}

/// The view of a parsed production list.
pub open spec fn productions_view(list: Seq<Production>) -> Seq<(Seq<u8>, Seq<Seq<SpecToken>>)> {
    list.map_values(|p: Production| production_view(p))
}

/// The upsert lands at the first index with the same name (or appends).
proof fn lemma_view_upsert_at(
    list: Seq<(Seq<u8>, Seq<Seq<SpecToken>>)>,
    p: (Seq<u8>, Seq<Seq<SpecToken>>),
    i: int,
)
    requires
        0 <= i <= list.len(),
        forall|j: int| 0 <= j < i ==> (#[trigger] list[j]).0 != p.0,
        i < list.len() ==> list[i].0 == p.0,
    ensures
        i < list.len() ==> view_upsert(list, p) == list.update(i, p),
        i == list.len() ==> view_upsert(list, p) == list.push(p),
    decreases list.len(),
{
    if list.len() == 0 {
        assert(view_upsert(list, p) =~= list.push(p));
    } else if i == 0 {
        assert(list.first().0 == list[0].0);
        if i < list.len() {
            assert(view_upsert(list, p) =~= list.update(0, p));
        }
    } else {
        assert(list.first().0 != p.0);
        lemma_view_upsert_at(list.drop_first(), p, i - 1);
        assert(forall|j: int|
            0 <= j < i - 1 ==> (#[trigger] list.drop_first()[j]).0 == list[j + 1].0);
        if i < list.len() {
            assert(view_upsert(list, p) =~= list.update(i, p));
        } else {
            assert(view_upsert(list, p) =~= list.push(p));
        }
    }
}

/// What reading the remaining productions yields, continuing from `p`
/// with `acc` already read; a later production under an already-used
/// name replaces the earlier one.
pub open spec fn spec_productions_from(
    s: Seq<u8>,
    p: int,
    acc: Seq<(Seq<u8>, Seq<Seq<SpecToken>>)>,
) -> Option<(Seq<(Seq<u8>, Seq<Seq<SpecToken>>)>, int)>
    decreases s.len() - p,
{
    match spec_production(s, p) {
        Option::None => Option::Some((acc, p)),
        Option::Some((pv, p2)) => if p < p2 <= s.len() {
            spec_productions_from(s, p2, view_upsert(acc, pv))
        } else {
            Option::None
        },
    }
}

/// What reading a whole grammar file yields: flags, one or more
/// productions, then only whitespace to the end.
pub open spec fn spec_grammar_text(s: Seq<u8>) -> Option<
    (Seq<(Seq<u8>, Seq<Seq<SpecToken>>)>, Seq<(Seq<u8>, SpecFlagValue)>),
> {
    let p0 = spec_skip_ws(s, 0);
    let (flist, p1) = spec_flags_from(s, p0, Seq::empty());
    match spec_production(s, p1) {
        Option::None => Option::None,
        Option::Some((first, p2)) => match spec_productions_from(s, p2, seq![first]) {
            Option::None => Option::None,
            Option::Some((list, p)) => if spec_skip_ws(s, p) == s.len() {
                Option::Some((list, flist))
            } else {
                Option::None
            },
        },
    }
}

/// Reads one alternative: one or more whitespace-separated tokens.
#[verifier::loop_isolation(false)]
fn parse_rhs(s: &[u8], pos: usize) -> (r: Option<(ProductionRhs, usize)>)
    requires
        pos <= s@.len(),
    ensures
        match r {
            Some((rhs, p)) => {
                &&& pos < p <= s@.len()
                &&& rhs@.len() > 0
                &&& forall|i: int| 0 <= i < rhs@.len() ==> crate::grammar::token_bounds_ok(#[trigger] rhs@[i])
                &&& spec_rhs(s@, pos as int) == Option::Some(
                    (crate::grammar::rhs_view(rhs@), p as int),
                )
            },
            None => spec_rhs(s@, pos as int) is None,
        },
{
    let (first, p1) = match parse_token(s, pos) {
        Some(x) => x,
        None => {
            return None;
        },
    };
    let mut rhs: Vec<Token> = Vec::new();
    rhs.push(first);
    proof {
        assert(crate::grammar::rhs_view(rhs@) =~= seq![crate::grammar::token_view(first)]);
    }
    let mut p = p1;
    loop
        invariant
            pos < p <= s@.len(),
            rhs@.len() > 0,
            forall|i: int| 0 <= i < rhs@.len() ==> crate::grammar::token_bounds_ok(#[trigger] rhs@[i]),
            spec_rhs(s@, pos as int) == Option::Some(
                spec_rhs_from(s@, p as int, crate::grammar::rhs_view(rhs@)),
            ),
        decreases s@.len() - p,
    {
        let next = skip_ws(s, p);
        match parse_token(s, next) {
            Some((t, p2)) => {
                proof {
                    assert(crate::grammar::rhs_view(rhs@.push(t)) =~= crate::grammar::rhs_view(
                        rhs@,
                    ).push(crate::grammar::token_view(t)));
                }
                rhs.push(t);
                p = p2;
            },
            None => {
                break ;
            },
        }
    }
    Some((rhs, p))
}

/// Reads one production: `name -> rhs (| rhs)* ;`.
#[verifier::loop_isolation(false)]
fn parse_production(s: &[u8], pos: usize) -> (r: Option<(Production, usize)>)
    requires
        pos <= s@.len(),
    ensures
        match r {
            Some((prod, p)) => {
                &&& pos <= p <= s@.len()
                &&& prod.rhs@.len() > 0
                &&& forall|i: int| 0 <= i < prod.rhs@.len() ==> (#[trigger] prod.rhs@[i])@.len() > 0
                &&& forall|i: int, j: int|
                    #![trigger prod.rhs@[i]@[j]]
                    0 <= i < prod.rhs@.len() && 0 <= j < prod.rhs@[i]@.len()
                        ==> crate::grammar::token_bounds_ok(prod.rhs@[i]@[j])
                &&& spec_production(s@, pos as int) == Option::Some(
                    (production_view(prod), p as int),
                )
            },
            None => spec_production(s@, pos as int) is None,
        },
{
    let p0 = skip_ws(s, pos);
    let (name, p1) = match parse_identifier(s, p0) {
        Some(x) => x,
        None => {
            return None;
        },
    };
    let p2 = skip_ws(s, p1);
    if p2 >= s.len() || s.len() - p2 < 2 || s[p2] != 45 || s[p2 + 1] != 62 {
        return None;
    }
    let p3 = skip_ws(s, p2 + 2);
    let (first, p4) = match parse_rhs(s, p3) {
        Some(x) => x,
        None => {
            return None;
        },
    };
    let mut alts: Vec<ProductionRhs> = Vec::new();
    alts.push(first);
    proof {
        assert(crate::grammar::alternatives_view(alts@) =~= seq![
            crate::grammar::rhs_view(first@),
        ]);
    }
    let mut p = p4;
    let mut closed = false;
    loop
        invariant
            pos <= p <= s@.len(),
            alts@.len() > 0,
            forall|i: int| 0 <= i < alts@.len() ==> (#[trigger] alts@[i])@.len() > 0,
            forall|i: int, j: int|
                #![trigger alts@[i]@[j]]
                0 <= i < alts@.len() && 0 <= j < alts@[i]@.len() ==> crate::grammar::token_bounds_ok(
                    alts@[i]@[j],
                ),
            !closed ==> spec_alts_from(s@, p4 as int, seq![crate::grammar::rhs_view(first@)])
                == spec_alts_from(s@, p as int, crate::grammar::alternatives_view(alts@)),
            closed ==> spec_alts_from(s@, p4 as int, seq![crate::grammar::rhs_view(first@)])
                == Option::Some((crate::grammar::alternatives_view(alts@), p as int)),
        decreases s@.len() - p, 1int - (if closed { 1int } else { 0int }),
    {
        if closed {
            break ;
        }
        let next = skip_ws(s, p);
        if next >= s.len() || s[next] != 124 {
            p = next;
            closed = true;
        } else {
            let p5 = skip_ws(s, next + 1);
            match parse_rhs(s, p5) {
                Some((rhs, p6)) => {
                    proof {
                        assert(p6 > p5 >= next + 1 > p);
                        assert(crate::grammar::alternatives_view(alts@.push(rhs))
                            =~= crate::grammar::alternatives_view(alts@).push(
                            crate::grammar::rhs_view(rhs@),
                        ));
                    }
                    alts.push(rhs);
                    p = p6;
                },
                None => {
                    return None;
                },
            }
        }
    }
    if p >= s.len() || s[p] != 59 {
        return None;
    }
    proof {
        assert(production_view(Production { lhs: name, rhs: alts }) == (
            name@,
            crate::grammar::alternatives_view(alts@),
        ));
    }
    Some((Production { lhs: name, rhs: alts }, p + 1))
}

/// Parses a whole grammar file: flags, then one or more productions,
/// then only whitespace.  A later production under an already-used name
/// replaces the earlier one.
#[verifier::loop_isolation(false)]
pub(crate) fn parse_grammar_text(s: &[u8]) -> (r: Option<Grammar>)
    ensures
        match r {
            Some(g) => {
                &&& g.wf()
                &&& spec_grammar_text(s@) matches Option::Some(pair)
                    && crate::grammar::grammar_view(g) == pair.0 && (forall|k: Seq<u8>|
                    g.options.spec_contains(k) <==> (#[trigger] list_lookup(pair.1, k)) is Some)
                    && (forall|k: Seq<u8>|
                    (#[trigger] list_lookup(pair.1, k)) is Some ==> flag_val_view(
                        g.options.spec_value(k),
                    ) == list_lookup(pair.1, k)->0)
            },
            None => spec_grammar_text(s@) is None,
        },
{
    let p0 = skip_ws(s, 0);
    let (options, p1) = parse_flags(s, p0);
    let ghost flist = spec_flags_from(s@, p0 as int, Seq::empty()).0;
    let mut productions: Vec<Production> = Vec::new();
    let (first, p2) = match parse_production(s, p1) {
        Some(x) => x,
        None => {
            return None;
        },
    };
    productions.push(first);
    proof {
        assert(productions_view(productions@) =~= seq![production_view(first)]);
    }
    let mut p = p2;
    loop
        invariant
            p <= s@.len(),
            productions@.len() > 0,
            forall|i: int, j: int|
                0 <= i < j < productions@.len() ==> (#[trigger] productions@[i]).lhs@ != (
                #[trigger] productions@[j]).lhs@,
            forall|i: int| 0 <= i < productions@.len() ==> (#[trigger] productions@[i]).rhs@.len() > 0,
            forall|i: int, j: int|
                #![trigger productions@[i].rhs@[j]]
                0 <= i < productions@.len() && 0 <= j < productions@[i].rhs@.len()
                    ==> productions@[i].rhs@[j]@.len() > 0,
            forall|i: int, j: int, k: int|
                #![trigger productions@[i].rhs@[j]@[k]]
                0 <= i < productions@.len() && 0 <= j < productions@[i].rhs@.len() && 0 <= k
                    < productions@[i].rhs@[j]@.len() ==> crate::grammar::token_bounds_ok(
                    productions@[i].rhs@[j]@[k],
                ),
            spec_productions_from(s@, p2 as int, seq![production_view(first)])
                == spec_productions_from(s@, p as int, productions_view(productions@)),
        decreases s@.len() - p,
    {
        match parse_production(s, p) {
            Some((prod, p2)) => {
                if p2 <= p {
                    return None;
                }
                upsert_production(&mut productions, prod);
                p = p2;
            },
            None => {
                break ;
            },
        }
    }
    let p_end = skip_ws(s, p);
    if p_end != s.len() {
        return None;
    }
    let g = Grammar { options, productions };
    proof {
        assert(spec_grammar_text(s@) == Option::Some((productions_view(g.productions@), flist)));
        assert(crate::grammar::grammar_view(g) =~= productions_view(g.productions@));
    }
    Some(g)
}

/// Replaces the production with the same name, or appends.
#[verifier::loop_isolation(false)]
fn upsert_production(productions: &mut Vec<Production>, prod: Production)
    requires
        forall|i: int, j: int|
            0 <= i < j < old(productions)@.len() ==> (#[trigger] old(productions)@[i]).lhs@ != (
            #[trigger] old(productions)@[j]).lhs@,
        forall|i: int| 0 <= i < old(productions)@.len() ==> (#[trigger] old(productions)@[i]).rhs@.len() > 0,
        forall|i: int, j: int|
            #![trigger old(productions)@[i].rhs@[j]]
            0 <= i < old(productions)@.len() && 0 <= j < old(productions)@[i].rhs@.len()
                ==> old(productions)@[i].rhs@[j]@.len() > 0,
        forall|i: int, j: int, k: int|
            #![trigger old(productions)@[i].rhs@[j]@[k]]
            0 <= i < old(productions)@.len() && 0 <= j < old(productions)@[i].rhs@.len() && 0 <= k
                < old(productions)@[i].rhs@[j]@.len() ==> crate::grammar::token_bounds_ok(
                old(productions)@[i].rhs@[j]@[k],
            ),
        prod.rhs@.len() > 0,
        forall|i: int| 0 <= i < prod.rhs@.len() ==> (#[trigger] prod.rhs@[i])@.len() > 0,
        forall|i: int, j: int|
            #![trigger prod.rhs@[i]@[j]]
            0 <= i < prod.rhs@.len() && 0 <= j < prod.rhs@[i]@.len()
                ==> crate::grammar::token_bounds_ok(prod.rhs@[i]@[j]),
    ensures
        forall|i: int, j: int|
            0 <= i < j < final(productions)@.len() ==> (#[trigger] final(productions)@[i]).lhs@ != (
            #[trigger] final(productions)@[j]).lhs@,
        forall|i: int| 0 <= i < final(productions)@.len() ==> (#[trigger] final(productions)@[i]).rhs@.len() > 0,
        forall|i: int, j: int|
            #![trigger final(productions)@[i].rhs@[j]]
            0 <= i < final(productions)@.len() && 0 <= j < final(productions)@[i].rhs@.len()
                ==> final(productions)@[i].rhs@[j]@.len() > 0,
        forall|i: int, j: int, k: int|
            #![trigger final(productions)@[i].rhs@[j]@[k]]
            0 <= i < final(productions)@.len() && 0 <= j < final(productions)@[i].rhs@.len() && 0
                <= k < final(productions)@[i].rhs@[j]@.len() ==> crate::grammar::token_bounds_ok(
                final(productions)@[i].rhs@[j]@[k],
            ),
        final(productions)@.len() >= old(productions)@.len(),
        productions_view(final(productions)@) == view_upsert(
            productions_view(old(productions)@),
            production_view(prod),
        ),
{
    let ghost pv = production_view(prod);
    let n = productions.len();
    let mut i: usize = 0;
    while i < n && !crate::grammar::compare_bytes(
        productions[i].lhs.as_slice(),
        prod.lhs.as_slice(),
    )
        invariant
            i <= n,
            forall|j: int| 0 <= j < i ==> (#[trigger] productions@[j]).lhs@ != prod.lhs@,
        decreases n - i,
    {
        i += 1;
    }
    proof {
        assert forall|j: int|
            0 <= j < i implies (#[trigger] productions_view(productions@)[j]).0 != pv.0 by {
            assert(productions_view(productions@)[j].0 == productions@[j].lhs@);
        }
        lemma_view_upsert_at(productions_view(productions@), pv, i as int);
    }
    if i < n {
        let removed = productions.remove(i);
        productions.insert(i, prod);
        proof {
            assert(final(productions)@ =~= old(productions)@.update(
                i as int,
                final(productions)@[i as int],
            ));
            assert(productions_view(final(productions)@) =~= productions_view(
                old(productions)@,
            ).update(i as int, pv));
        }
    } else {
        productions.push(prod);
        proof {
            assert(productions_view(final(productions)@) =~= productions_view(
                old(productions)@,
            ).push(pv));
        }
    }
}


/// The lowercase hex digit for a value below sixteen.
pub open spec fn hex_digit_char(v: u8) -> u8 {
    if v < 10 {
        (48 + v) as u8
    } else {
        (87 + v) as u8
    }
}

/// The canonical spelling of bytes as hex digits, two per byte.
pub open spec fn hex_digits_of(bytes: Seq<u8>) -> Seq<u8> {
    Seq::new(
        bytes.len() * 2,
        |i: int|
            if i % 2 == 0 {
                hex_digit_char(bytes[i / 2] / 16)
            } else {
                hex_digit_char(bytes[i / 2] % 16)
            },
    )
}

/// Reading back the canonical hex spelling of a byte string yields the
/// byte string: the hex-literal leg of the print-then-reparse round
/// trip.
pub proof fn lemma_hex_round_trip(bytes: Seq<u8>)
    ensures
        hex_bytes(hex_digits_of(bytes)) == bytes,
{
    let digits = hex_digits_of(bytes);
    assert forall|i: int| 0 <= i < bytes.len() implies hex_bytes(digits)[i] == bytes[i] by {
        assert(digits[2 * i] == hex_digit_char(bytes[i] / 16));
        assert(digits[2 * i + 1] == hex_digit_char(bytes[i] % 16));
        assert(hex_val(hex_digit_char(bytes[i] / 16)) == bytes[i] / 16);
        assert(hex_val(hex_digit_char(bytes[i] % 16)) == bytes[i] % 16);
        assert((bytes[i] / 16) * 16 + bytes[i] % 16 == bytes[i]) by (nonlinear_arith);
    }
    assert(hex_bytes(digits) =~= bytes);
}

} // verus!
