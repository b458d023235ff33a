//! Character-level helpers on strings: conversion to characters, the
//! lexicographic order that `String`'s `Ord` uses, and type-qualified ids.

use vstd::prelude::*;

verus! {

/// The characters of `s`, in order.
pub fn chars_of(s: &str) -> (r: Vec<char>)
    ensures
        r@ == s@,
{
    let mut r: Vec<char> = Vec::new();
    for c in it: s.chars()
        invariant
            r@ == it.seq().take(it.index() as int),
            it.seq() == s@,
    {
        r.push(c);
    }
    r
}

/// `"<ty>:<id>"`, the type-qualified identifier of an element.
pub fn qualified_id(ty: &String, id: &String) -> (r: String)
    ensures
        r@ == ty@ + seq![':'] + id@,
{
    let mut r = ty.clone();
    let sep = ":";
    proof { reveal_strlit(":"); }
    r.append(sep);
    r.append(id.as_str());
    r
}

/// The character of decimal digit `d`.
pub open spec fn digit_char(d: nat) -> char {
    if d == 0 { '0' } else if d == 1 { '1' } else if d == 2 { '2' } else if d == 3 { '3' } else if d == 4 { '4' }
    else if d == 5 { '5' } else if d == 6 { '6' } else if d == 7 { '7' } else if d == 8 { '8' } else { '9' }
}

/// The decimal rendering of `n`, without leading zeros.
pub open spec fn decimal(n: nat) -> Seq<char>
    decreases n,
{
    if n < 10 {
        seq![digit_char(n)]
    } else {
        decimal(n / 10) + seq![digit_char(n % 10)]
    }
}

pub(crate) fn digit_text(d: usize) -> (r: &'static str)
    requires
        d < 10,
    ensures
        r@ == seq![digit_char(d as nat)],
{
    proof {
        reveal_strlit("0"); reveal_strlit("1"); reveal_strlit("2"); reveal_strlit("3"); reveal_strlit("4");
        reveal_strlit("5"); reveal_strlit("6"); reveal_strlit("7"); reveal_strlit("8"); reveal_strlit("9");
    }
    if d == 0 { "0" } else if d == 1 { "1" } else if d == 2 { "2" } else if d == 3 { "3" } else if d == 4 { "4" }
    else if d == 5 { "5" } else if d == 6 { "6" } else if d == 7 { "7" } else if d == 8 { "8" } else { "9" }
}

/// The decimal rendering of `n`.
pub fn decimal_text(n: usize) -> (r: String)
    ensures
        r@ == decimal(n as nat),
    decreases n,
{
    if n < 10 {
        String::from_str(digit_text(n))
    } else {
        let mut r = decimal_text(n / 10);
        r.append(digit_text(n % 10));
        r
    }
}

/// The decimal rendering of a signed `n` (a leading `-` when negative).
pub open spec fn signed_decimal(n: int) -> Seq<char> {
    if n < 0 { seq!['-'] + decimal((-n) as nat) } else { decimal(n as nat) }
}

/// The decimal rendering of `n`.
pub fn signed_decimal_text(n: i64) -> (r: String)
    ensures
        r@ == signed_decimal(n as int),
{
    if n < 0 {
        let mut r = String::from_str("-");
        proof { reveal_strlit("-"); }
        let m: u64 = if n == i64::MIN { 9223372036854775808u64 } else { (-n) as u64 };
        let d = decimal_u64(m);
        r.append(d.as_str());
        r
    } else {
        decimal_u64(n as u64)
    }
}

/// The decimal rendering of `n`.
pub fn decimal_u64(n: u64) -> (r: String)
    ensures
        r@ == decimal(n as nat),
    decreases n,
{
    if n < 10 {
        String::from_str(digit_text(n as usize))
    } else {
        let mut r = decimal_u64(n / 10);
        r.append(digit_text((n % 10) as usize));
        r
    }
}

/// The character of hexadecimal digit `d` (lower case).
pub open spec fn hex_char(d: nat) -> char {
    if d < 10 { digit_char(d) } else if d == 10 { 'a' } else if d == 11 { 'b' } else if d == 12 { 'c' }
    else if d == 13 { 'd' } else if d == 14 { 'e' } else { 'f' }
}

/// The hexadecimal rendering of `n < 256`, without leading zeros.
pub open spec fn hex_byte(n: nat) -> Seq<char> {
    if n < 16 { seq![hex_char(n)] } else { seq![hex_char(n / 16), hex_char(n % 16)] }
}

/// `c` is an ASCII control character.
pub open spec fn is_control(c: char) -> bool {
    (c as int) < 32 || (c as int) == 127
}

/// How `c` is written inside a quoted debug rendering of a string: the
/// escapes `\t`, `\r`, `\n`, `\"`, `\\` and `\0`, other ASCII control
/// characters as `\u{..}` in hexadecimal, every other character as itself.
pub open spec fn escape_char(c: char) -> Seq<char> {
    if c == '\t' { seq!['\\', 't'] }
    else if c == '\r' { seq!['\\', 'r'] }
    else if c == '\n' { seq!['\\', 'n'] }
    else if c == '"' { seq!['\\', '"'] }
    else if c == '\\' { seq!['\\', '\\'] }
    else if c == '\0' { seq!['\\', '0'] }
    else if is_control(c) { seq!['\\', 'u', '{'] + hex_byte(c as nat) + seq!['}'] }
    else { seq![c] }
}

/// `s` with every character escaped.
pub open spec fn escaped(s: Seq<char>) -> Seq<char>
    decreases s.len(),
{
    if s.len() == 0 { Seq::empty() } else { escaped(s.drop_last()) + escape_char(s.last()) }
}

/// The debug rendering of a string: escaped, between double quotes.
pub open spec fn quoted(s: Seq<char>) -> Seq<char> {
    seq!['"'] + escaped(s) + seq!['"']
}

/// The quoted strings, separated by `", "`.
pub open spec fn quoted_list(s: Seq<Seq<char>>) -> Seq<char>
    decreases s.len(),
{
    if s.len() == 0 {
        Seq::empty()
    } else if s.len() == 1 {
        quoted(s[0])
    } else {
        quoted_list(s.drop_last()) + seq![',', ' '] + quoted(s.last())
    }
}

/// The debug rendering of a set of strings: `{"a", "b"}`.
pub open spec fn set_text(s: Seq<Seq<char>>) -> Seq<char> {
    seq!['{'] + quoted_list(s) + seq!['}']
}

fn hex_text(d: u32) -> (r: &'static str)
    requires
        d < 16,
    ensures
        r@ == seq![hex_char(d as nat)],
{
    proof {
        reveal_strlit("0"); reveal_strlit("1"); reveal_strlit("2"); reveal_strlit("3"); reveal_strlit("4");
        reveal_strlit("5"); reveal_strlit("6"); reveal_strlit("7"); reveal_strlit("8"); reveal_strlit("9");
        reveal_strlit("a"); reveal_strlit("b"); reveal_strlit("c"); reveal_strlit("d"); reveal_strlit("e");
        reveal_strlit("f");
    }
    if d == 0 { "0" } else if d == 1 { "1" } else if d == 2 { "2" } else if d == 3 { "3" } else if d == 4 { "4" }
    else if d == 5 { "5" } else if d == 6 { "6" } else if d == 7 { "7" } else if d == 8 { "8" } else if d == 9 { "9" }
    else if d == 10 { "a" } else if d == 11 { "b" } else if d == 12 { "c" } else if d == 13 { "d" } else if d == 14 { "e" }
    else { "f" }
}

/// Appends the escape of the character at position `i` of `s`.
fn append_escaped(r: &mut String, s: &str, i: usize)
    requires
        i < s@.len(),
        s@.len() <= usize::MAX,
    ensures
        final(r)@ == old(r)@ + escape_char(s@[i as int]),
{
    let c = s.get_char(i);
    proof {
        reveal_strlit("\\t"); reveal_strlit("\\r"); reveal_strlit("\\n"); reveal_strlit("\\\"");
        reveal_strlit("\\\\"); reveal_strlit("\\0"); reveal_strlit("\\u{"); reveal_strlit("}");
    }
    if c == '\t' {
        r.append("\\t");
    } else if c == '\r' {
        r.append("\\r");
    } else if c == '\n' {
        r.append("\\n");
    } else if c == '"' {
        r.append("\\\"");
    } else if c == '\\' {
        r.append("\\\\");
    } else if c == '\0' {
        r.append("\\0");
    } else if (c as u32) < 32 || (c as u32) == 127 {
        let n: u32 = c as u32;
        r.append("\\u{");
        if n < 16 {
            r.append(hex_text(n));
        } else {
            r.append(hex_text(n / 16));
            r.append(hex_text(n % 16));
        }
        r.append("}");
    } else {
        r.append(s.substring_char(i, i + 1));
    }
}

/// Appends the debug rendering of `s`: escaped, between double quotes.
fn append_quoted(r: &mut String, s: &String)
    ensures
        final(r)@ == old(r)@ + quoted(s@),
{
    let ghost start = r@;
    proof { reveal_strlit("\""); }
    r.append("\"");
    let n = s.as_str().unicode_len();
    let mut i: usize = 0;
    while i < n
        invariant
            n == s@.len(),
            i <= n,
            r@ == start + seq!['"'] + escaped(s@.take(i as int)),
        decreases n - i,
    {
        append_escaped(r, s.as_str(), i);
        assert(s@.take(i + 1).drop_last() =~= s@.take(i as int));
        assert(s@.take(i + 1).last() == s@[i as int]);
        i = i + 1;
    }
    assert(s@.take(n as int) =~= s@);
    r.append("\"");
}

/// The debug rendering of a set of strings, in the given order:
/// `{"a", "b"}`.
pub fn set_debug_text(v: &Vec<String>) -> (r: String)
    ensures
        r@ == set_text(v.deep_view()),
{
    proof { reveal_strlit("{"); reveal_strlit(", "); reveal_strlit("}"); }
    let mut r = String::from_str("{");
    let mut i: usize = 0;
    while i < v.len()
        invariant
            i <= v@.len(),
            r@ == seq!['{'] + quoted_list(v.deep_view().take(i as int)),
        decreases v.len() - i,
    {
        let ghost pre = v.deep_view().take(i as int);
        assert(v.deep_view().take(i + 1).drop_last() =~= pre);
        assert(v.deep_view().take(i + 1).last() == v@[i as int]@);
        let ghost before = r@;
        proof { reveal_strlit(", "); }
        if i > 0 {
            r.append(", ");
        }
        append_quoted(&mut r, &v[i]);
        proof {
            let cur = v.deep_view().take(i + 1);
            if i == 0 {
                assert(cur.len() == 1 && cur[0] == v@[0]@);
                assert(quoted_list(cur) == quoted(v@[0]@));
                assert(r@ =~= seq!['{'] + quoted_list(cur));
            } else {
                assert(quoted_list(cur) == quoted_list(pre) + seq![',', ' '] + quoted(v@[i as int]@));
                assert(r@ =~= seq!['{'] + quoted_list(cur));
            }
        }
        i = i + 1;
    }
    assert(v.deep_view().take(v@.len() as int) =~= v.deep_view());
    r.append("}");
    r
}

/// The remainder after `k` steps of long division of `r` by `d`, stopping
/// once it is 0.
pub open spec fn long_rem(r: nat, d: nat, k: nat) -> nat
    decreases k,
{
    if k == 0 {
        r
    } else {
        let p = long_rem(r, d, (k - 1) as nat);
        if p == 0 { 0 } else { (p * 10) % d }
    }
}

/// The decimal digits of `r / d` (for `r < d`) produced by `k` steps of long
/// division, stopping once the remainder is 0.
pub open spec fn long_digits(r: nat, d: nat, k: nat) -> Seq<char>
    decreases k,
{
    if k == 0 {
        Seq::empty()
    } else {
        let p = long_rem(r, d, (k - 1) as nat);
        let ds = long_digits(r, d, (k - 1) as nat);
        if p == 0 { ds } else { ds.push(digit_char((p * 10) / d)) }
    }
}

/// The first 64 fractional digits of `r / d` and what is left over.
pub fn fraction_digits(r: u64, d: u64) -> (res: (String, u64))
    requires
        r < d,
    ensures
        res.0@ == long_digits(r as nat, d as nat, 64),
        res.1 == long_rem(r as nat, d as nat, 64),
{
    let mut digs = String::new();
    let mut rr: u64 = r;
    let mut k: u64 = 0;
    while k < 64
        invariant
            r < d,
            k <= 64,
            rr < d,
            rr == long_rem(r as nat, d as nat, k as nat),
            digs@ == long_digits(r as nat, d as nat, k as nat),
        decreases 64 - k,
    {
        if rr != 0 {
            let x: u128 = rr as u128 * 10;
            assert(x / (d as u128) < 10) by (nonlinear_arith)
                requires x == rr * 10, rr < d, d > 0;
            let q = (x / (d as u128)) as usize;
            digs.append(digit_text(q));
            rr = (x % (d as u128)) as u64;
        }
        k = k + 1;
    }
    (digs, rr)
}

} // verus!
