//! Unsigned and signed integer tokens: parsing (`0x`-prefixed hexadecimal or
//! plain decimal) and formatting (fixed-width or minimal hexadecimal, minimal
//! decimal), with round-trip lemmas.

use vstd::prelude::*;
use vstd::arithmetic::div_mod::lemma_mod_breakdown;
use vstd::arithmetic::power::pow;

verus! {

// ---------------------------------------------------------------------------
// Digit character classes
// ---------------------------------------------------------------------------

pub open spec fn dec_digit(c: char) -> bool {
    48 <= c as u32 && c as u32 <= 57
}

pub open spec fn hex_letter_lower(c: char) -> bool {
    97 <= c as u32 && c as u32 <= 102
}

pub open spec fn hex_letter_upper(c: char) -> bool {
    65 <= c as u32 && c as u32 <= 70
}

pub open spec fn hex_digit(c: char) -> bool {
    dec_digit(c) || hex_letter_lower(c) || hex_letter_upper(c)
}

/// Numeric value of a digit character (base 16 covers base 10).
pub open spec fn digit_val(c: char) -> nat {
    if dec_digit(c) {
        (c as u32 - 48) as nat
    } else if hex_letter_lower(c) {
        (c as u32 - 87) as nat
    } else if hex_letter_upper(c) {
        (c as u32 - 55) as nat
    } else {
        0
    }
}

pub open spec fn all_dec(s: Seq<char>) -> bool {
    forall|i: int| 0 <= i < s.len() ==> dec_digit(#[trigger] s[i])
}

pub open spec fn all_hex(s: Seq<char>) -> bool {
    forall|i: int| 0 <= i < s.len() ==> hex_digit(#[trigger] s[i])
}

/// The number denoted by a digit string, most significant digit first.
pub open spec fn digits_val(s: Seq<char>, base: nat) -> nat
    decreases s.len(),
{
    if s.len() == 0 {
        0
    } else {
        digits_val(s.drop_last(), base) * base + digit_val(s.last())
    }
}

// ---------------------------------------------------------------------------
// Parsing: the meaning of a whole numeric token
// ---------------------------------------------------------------------------

/// The value of a numeric token: `0x`/`0X` followed by hex digits, or plain
/// decimal digits. Empty or malformed tokens have no value.
pub open spec fn parse_uint_spec(s: Seq<char>) -> Option<nat> {
    if s.len() >= 2 && s[0] == '0' && (s[1] == 'x' || s[1] == 'X') {
        if s.len() > 2 && all_hex(s.skip(2)) {
            Some(digits_val(s.skip(2), 16))
        } else {
            None
        }
    } else if s.len() > 0 && all_dec(s) {
        Some(digits_val(s, 10))
    } else {
        None
    }
}

pub open spec fn parse_u32_spec(s: Seq<char>) -> Option<u32> {
    match parse_uint_spec(s) {
        Some(v) => if v <= u32::MAX { Some(v as u32) } else { None },
        None => None,
    }
}

pub open spec fn parse_u16_spec(s: Seq<char>) -> Option<u16> {
    match parse_uint_spec(s) {
        Some(v) => if v <= u16::MAX { Some(v as u16) } else { None },
        None => None,
    }
}

/// A signed token is an optional leading `-` before an unsigned token.
pub open spec fn parse_i32_spec(s: Seq<char>) -> Option<i32> {
    if s.len() > 0 && s[0] == '-' {
        match parse_uint_spec(s.skip(1)) {
            Some(v) => if v <= 0x8000_0000 { Some((0 - v as int) as i32) } else { None },
            None => None,
        }
    } else {
        match parse_uint_spec(s) {
            Some(v) => if v <= i32::MAX { Some(v as i32) } else { None },
            None => None,
        }
    }
}

// ---------------------------------------------------------------------------
// Executable digit helpers
// ---------------------------------------------------------------------------

pub fn is_dec_digit(c: char) -> (r: bool)
    ensures
        r == dec_digit(c),
{
    let u = c as u32;
    48 <= u && u <= 57
}

pub fn is_hex_digit(c: char) -> (r: bool)
    ensures
        r == hex_digit(c),
{
    let u = c as u32;
    (48 <= u && u <= 57) || (97 <= u && u <= 102) || (65 <= u && u <= 70)
}

fn hex_digit_value(c: char) -> (r: u32)
    requires
        hex_digit(c),
    ensures
        r == digit_val(c),
{
    let u = c as u32;
    if u <= 57 {
        u - 48
    } else if u >= 97 {
        u - 87
    } else {
        u - 55
    }
}

// ---------------------------------------------------------------------------
// Executable parsing
// ---------------------------------------------------------------------------

/// A digit string only grows in value as digits are appended.
proof fn lemma_digits_val_prefix_le(s: Seq<char>, i: int, base: nat)
    requires
        0 <= i <= s.len(),
        base >= 1,
    ensures
        digits_val(s.take(i), base) <= digits_val(s, base),
    decreases s.len() - i,
{
    if i < s.len() {
        let t = s.take(i + 1);
        assert(t.drop_last() =~= s.take(i));
        let a = digits_val(s.take(i), base);
        assert(a * base >= a * 1) by (nonlinear_arith)
            requires base >= 1;
        lemma_digits_val_prefix_le(s, i + 1, base);
    } else {
        assert(s.take(i) =~= s);
    }
}

/// Reads a run of digits in the given base starting at `start`; the whole
/// tail must consist of digits and denote a value that fits in `u32`.
fn parse_digits(t: &Vec<char>, start: usize, hex: bool) -> (r: Option<u32>)
    requires
        start <= t@.len(),
    ensures
        ({
            let d = t@.skip(start as int);
            let base: nat = if hex { 16 } else { 10 };
            let ok = d.len() > 0 && (if hex { all_hex(d) } else { all_dec(d) });
            r == (if ok && digits_val(d, base) <= u32::MAX {
                Some(digits_val(d, base) as u32)
            } else {
                None::<u32>
            })
        }),
{
    let ghost d = t@.skip(start as int);
    let ghost base_s: nat = if hex { 16 } else { 10 };
    let n = t.len();
    if start == n {
        return None;
    }
    let mut acc: u64 = 0;
    let mut i = start;
    while i < n
        invariant
            start <= i <= n,
            n == t@.len(),
            d == t@.skip(start as int),
            base_s == (if hex { 16nat } else { 10nat }),
            acc <= u32::MAX,
            acc == digits_val(d.take(i - start), base_s),
            forall|j: int| 0 <= j < i - start ==> (if hex { hex_digit(#[trigger] d[j]) } else { dec_digit(#[trigger] d[j]) }),
        decreases n - i,
    {
        let c = t[i];
        assert(d[i - start] == t@[i as int]);
        let good = if hex { is_hex_digit(c) } else { is_dec_digit(c) };
        if !good {
            return None;
        }
        let dv = hex_digit_value(c);
        let base: u64 = if hex { 16 } else { 10 };
        let next: u64 = acc * base + dv as u64;
        proof {
            let k = i - start;
            assert(d.take(k + 1).drop_last() =~= d.take(k));
            assert(d.take(k + 1).last() == d[k]);
            assert(next == digits_val(d.take(k + 1), base_s));
        }
        if next > u32::MAX as u64 {
            proof {
                lemma_digits_val_prefix_le(d, i - start + 1, base_s);
            }
            return None;
        }
        acc = next;
        i += 1;
    }
    proof {
        assert(d.take(n - start) =~= d);
    }
    Some(acc as u32)
}

/// Reads an unsigned token (`0x` hex or decimal) starting at `start`,
/// capping the value at `u32::MAX`.
pub fn parse_uint_from(t: &Vec<char>, start: usize) -> (r: Option<u32>)
    requires
        start <= t@.len(),
    ensures
        r == (match parse_uint_spec(t@.skip(start as int)) {
            Some(v) => if v <= u32::MAX { Some(v as u32) } else { None::<u32> },
            None => None::<u32>,
        }),
{
    let ghost s = t@.skip(start as int);
    let n = t.len();
    if n - start >= 2 && t[start] == '0' && (t[start + 1] == 'x' || t[start + 1] == 'X') {
        assert(s[0] == t@[start as int]);
        assert(s[1] == t@[start as int + 1]);
        assert(s.skip(2) =~= t@.skip(start as int + 2));
        parse_digits(t, start + 2, true)
    } else {
        proof {
            if s.len() >= 2 {
                assert(s[0] == t@[start as int]);
                assert(s[1] == t@[start as int + 1]);
            }
        }
        parse_digits(t, start, false)
    }
}

/// Parses a `u32` token.
pub fn parse_u32_chars(t: &Vec<char>) -> (r: Option<u32>)
    ensures
        r == parse_u32_spec(t@),
{
    proof {
        assert(t@.skip(0) =~= t@);
    }
    parse_uint_from(t, 0)
}

/// Parses a `u16` token.
pub fn parse_u16_chars(t: &Vec<char>) -> (r: Option<u16>)
    ensures
        r == parse_u16_spec(t@),
{
    proof {
        assert(t@.skip(0) =~= t@);
    }
    match parse_uint_from(t, 0) {
        Some(v) => if v <= u16::MAX as u32 { Some(v as u16) } else { None },
        None => None,
    }
}

/// Parses an `i32` token with an optional leading `-`.
pub fn parse_i32_chars(t: &Vec<char>) -> (r: Option<i32>)
    ensures
        r == parse_i32_spec(t@),
{
    if t.len() > 0 && t[0] == '-' {
        match parse_uint_from(t, 1) {
            Some(v) => {
                if v <= 0x8000_0000 {
                    let m: i64 = v as i64;
                    Some((-m) as i32)
                } else {
                    None
                }
            },
            None => None,
        }
    } else {
        proof {
            assert(t@.skip(0) =~= t@);
        }
        match parse_uint_from(t, 0) {
            Some(v) => if v <= i32::MAX as u32 { Some(v as i32) } else { None },
            None => None,
        }
    }
}

// ---------------------------------------------------------------------------
// Formatting
// ---------------------------------------------------------------------------

/// The character for a digit value below 16, lower case.
pub open spec fn digit_char(n: nat) -> char {
    if n == 0 { '0' } else if n == 1 { '1' } else if n == 2 { '2' } else if n == 3 { '3' }
    else if n == 4 { '4' } else if n == 5 { '5' } else if n == 6 { '6' } else if n == 7 { '7' }
    else if n == 8 { '8' } else if n == 9 { '9' } else if n == 10 { 'a' } else if n == 11 { 'b' }
    else if n == 12 { 'c' } else if n == 13 { 'd' } else if n == 14 { 'e' } else if n == 15 { 'f' }
    else { '0' }
}

/// Fixed-width hexadecimal digits of `x`, most significant first.
pub open spec fn hex_w(x: nat, w: nat) -> Seq<char>
    decreases w,
{
    if w == 0 {
        Seq::empty()
    } else {
        hex_w(x / 16, (w - 1) as nat).push(digit_char(x % 16))
    }
}

/// Minimal hexadecimal digits of `x`, most significant first.
pub open spec fn uint_hex(x: nat) -> Seq<char>
    decreases x,
{
    if x < 16 {
        seq![digit_char(x)]
    } else {
        uint_hex(x / 16).push(digit_char(x % 16))
    }
}

/// Minimal decimal digits of `x`, most significant first.
pub open spec fn uint_dec(x: nat) -> Seq<char>
    decreases x,
{
    if x < 10 {
        seq![digit_char(x)]
    } else {
        uint_dec(x / 10).push(digit_char(x % 10))
    }
}

/// Minimal signed decimal digits of `x`.
pub open spec fn int_dec(x: int) -> Seq<char> {
    if x < 0 {
        seq!['-'] + uint_dec((-x) as nat)
    } else {
        uint_dec(x as nat)
    }
}

fn digit_char_exec(n: u32) -> (r: char)
    requires
        n < 16,
    ensures
        r == digit_char(n as nat),
{
    if n == 0 { '0' } else if n == 1 { '1' } else if n == 2 { '2' } else if n == 3 { '3' }
    else if n == 4 { '4' } else if n == 5 { '5' } else if n == 6 { '6' } else if n == 7 { '7' }
    else if n == 8 { '8' } else if n == 9 { '9' } else if n == 10 { 'a' } else if n == 11 { 'b' }
    else if n == 12 { 'c' } else if n == 13 { 'd' } else if n == 14 { 'e' } else { 'f' }
}

/// Formats `x` as exactly `w` hexadecimal digits.
pub fn hex_w_chars(x: u32, w: u8) -> (r: Vec<char>)
    ensures
        r@ == hex_w(x as nat, w as nat),
    decreases w,
{
    if w == 0 {
        Vec::new()
    } else {
        let mut r = hex_w_chars(x / 16, w - 1);
        r.push(digit_char_exec(x % 16));
        r
    }
}

/// Formats `x` as minimal hexadecimal digits.
pub fn uint_hex_chars(x: u32) -> (r: Vec<char>)
    ensures
        r@ == uint_hex(x as nat),
    decreases x,
{
    if x < 16 {
        let mut r: Vec<char> = Vec::new();
        r.push(digit_char_exec(x));
        r
    } else {
        let mut r = uint_hex_chars(x / 16);
        r.push(digit_char_exec(x % 16));
        r
    }
}

/// Formats `x` as minimal signed decimal digits.
pub fn i32_dec_chars(x: i32) -> (r: Vec<char>)
    ensures
        r@ == int_dec(x as int),
{
    if x >= 0 {
        uint_dec_chars(x as u32)
    } else {
        let m: i64 = x as i64;
        let mag: u32 = (-m) as u32;
        let mut r: Vec<char> = Vec::new();
        r.push('-');
        let mut d = uint_dec_chars(mag);
        r.append(&mut d);
        assert(r@ =~= int_dec(x as int));
        r
    }
}

/// Formats `x` as minimal decimal digits.
pub fn uint_dec_chars(x: u32) -> (r: Vec<char>)
    ensures
        r@ == uint_dec(x as nat),
    decreases x,
{
    if x < 10 {
        let mut r: Vec<char> = Vec::new();
        r.push(digit_char_exec(x));
        r
    } else {
        let mut r = uint_dec_chars(x / 10);
        r.push(digit_char_exec(x % 10));
        r
    }
}

// ---------------------------------------------------------------------------
// Round-trip lemmas
// ---------------------------------------------------------------------------

/// Digit characters are digits with the value they were formatted from.
pub proof fn lemma_digit_char(n: nat)
    requires
        n < 16,
    ensures
        hex_digit(digit_char(n)),
        digit_val(digit_char(n)) == n,
        n < 10 ==> dec_digit(digit_char(n)),
        dec_digit(digit_char(n)) || hex_letter_lower(digit_char(n)),
{
}

/// Fixed-width formatting denotes the value modulo `16^w`.
pub proof fn lemma_hex_w_val(x: nat, w: nat)
    ensures
        hex_w(x, w).len() == w,
        all_hex(hex_w(x, w)),
        digits_val(hex_w(x, w), 16) == (x as int) % pow(16, w),
    decreases w,
{
    reveal(pow);
    if w == 0 {
        assert(pow(16, 0) == 1);
        assert((x as int) % 1 == 0) by (nonlinear_arith);
    } else {
        lemma_hex_w_val(x / 16, (w - 1) as nat);
        let inner = hex_w(x / 16, (w - 1) as nat);
        let s = hex_w(x, w);
        assert(s == inner.push(digit_char(x % 16)));
        assert(s.drop_last() =~= inner);
        assert(s.last() == digit_char(x % 16));
        lemma_digit_char(x % 16);
        assert(all_hex(s)) by {
            assert(forall|i: int| 0 <= i < s.len() - 1 ==> #[trigger] s[i] == inner[i]);
        }
        let p1 = pow(16, (w - 1) as nat);
        assert(pow(16, w) == 16 * p1);
        vstd::arithmetic::power::lemma_pow_positive(16, (w - 1) as nat);
        lemma_mod_breakdown(x as int, 16, p1);
        assert(digits_val(s, 16) == ((x as int / 16) % p1) * 16 + (x as int) % 16);
    }
}

/// Minimal hexadecimal formatting denotes the value itself.
pub proof fn lemma_uint_hex_val(x: nat)
    ensures
        uint_hex(x).len() >= 1,
        all_hex(uint_hex(x)),
        digits_val(uint_hex(x), 16) == x,
    decreases x,
{
    if x < 16 {
        lemma_digit_char(x);
        let s = uint_hex(x);
        assert(s.drop_last() =~= Seq::<char>::empty());
        assert(digits_val(Seq::<char>::empty(), 16) == 0);
        assert(s.last() == digit_char(x));
        assert(digits_val(s, 16) == 0 * 16 + digit_val(digit_char(x)));
    } else {
        lemma_uint_hex_val(x / 16);
        let inner = uint_hex(x / 16);
        let s = uint_hex(x);
        assert(s.drop_last() =~= inner);
        assert(s.last() == digit_char(x % 16));
        lemma_digit_char(x % 16);
        assert(all_hex(s)) by {
            assert(forall|i: int| 0 <= i < s.len() - 1 ==> #[trigger] s[i] == inner[i]);
        }
        assert(digits_val(s, 16) == (x / 16) * 16 + x % 16);
        assert((x / 16) * 16 + x % 16 == x) by (nonlinear_arith)
            requires x >= 0;
    }
}

/// Minimal decimal formatting denotes the value itself.
pub proof fn lemma_uint_dec_val(x: nat)
    ensures
        uint_dec(x).len() >= 1,
        all_dec(uint_dec(x)),
        digits_val(uint_dec(x), 10) == x,
    decreases x,
{
    if x < 10 {
        lemma_digit_char(x);
        let s = uint_dec(x);
        assert(s.drop_last() =~= Seq::<char>::empty());
        assert(digits_val(Seq::<char>::empty(), 10) == 0);
        assert(s.last() == digit_char(x));
        assert(digits_val(s, 10) == 0 * 10 + digit_val(digit_char(x)));
    } else {
        lemma_uint_dec_val(x / 10);
        let inner = uint_dec(x / 10);
        let s = uint_dec(x);
        assert(s.drop_last() =~= inner);
        assert(s.last() == digit_char(x % 10));
        lemma_digit_char(x % 10);
        assert(all_dec(s)) by {
            assert(forall|i: int| 0 <= i < s.len() - 1 ==> #[trigger] s[i] == inner[i]);
        }
        assert(digits_val(s, 10) == (x / 10) * 10 + x % 10);
        assert((x / 10) * 10 + x % 10 == x) by (nonlinear_arith)
            requires x >= 0;
    }
}

/// `0x` followed by the fixed 8-digit form of a `u32` parses back to it.
pub proof fn lemma_parse_hex8(x: u32)
    ensures
        parse_u32_spec(seq!['0', 'x'] + hex_w(x as nat, 8)) == Some(x),
{
    let s = seq!['0', 'x'] + hex_w(x as nat, 8);
    lemma_hex_w_val(x as nat, 8);
    assert(s.skip(2) =~= hex_w(x as nat, 8));
    assert(pow(16, 8) == 0x1_0000_0000) by {
        reveal_with_fuel(pow, 9);
    }
    assert((x as int) % 0x1_0000_0000 == x as int) by (nonlinear_arith)
        requires x <= 0xffff_ffffu32;
}

/// `0x` followed by the minimal hex form of a `u32` parses back to it.
pub proof fn lemma_parse_hex_min(x: u32)
    ensures
        parse_u32_spec(seq!['0', 'x'] + uint_hex(x as nat)) == Some(x),
{
    let s = seq!['0', 'x'] + uint_hex(x as nat);
    lemma_uint_hex_val(x as nat);
    assert(s.skip(2) =~= uint_hex(x as nat));
}

/// The minimal decimal form of a `u16` parses back to it.
pub proof fn lemma_parse_dec_u16(x: u16)
    ensures
        parse_u16_spec(uint_dec(x as nat)) == Some(x),
{
    let s = uint_dec(x as nat);
    lemma_uint_dec_val(x as nat);
    if s.len() >= 2 {
        assert(dec_digit(s[1]));
        assert(s[1] != 'x' && s[1] != 'X');
    }
}

/// The minimal decimal form of a `u32` parses back to it.
pub proof fn lemma_parse_dec_u32(x: u32)
    ensures
        parse_u32_spec(uint_dec(x as nat)) == Some(x),
{
    let s = uint_dec(x as nat);
    lemma_uint_dec_val(x as nat);
    if s.len() >= 2 {
        assert(dec_digit(s[1]));
        assert(s[1] != 'x' && s[1] != 'X');
    }
}

/// Formatted digits are decimal digits or lower-case hex letters.
pub open spec fn lower_digits(s: Seq<char>) -> bool {
    forall|i: int| 0 <= i < s.len()
        ==> dec_digit(#[trigger] s[i]) || hex_letter_lower(s[i])
}

pub proof fn lemma_hex_w_lower(x: nat, w: nat)
    ensures
        lower_digits(hex_w(x, w)),
    decreases w,
{
    if w > 0 {
        lemma_hex_w_lower(x / 16, (w - 1) as nat);
        let inner = hex_w(x / 16, (w - 1) as nat);
        let s = hex_w(x, w);
        lemma_digit_char(x % 16);
        assert(lower_digits(s)) by {
            assert(forall|i: int| 0 <= i < s.len() - 1 ==> #[trigger] s[i] == inner[i]);
            assert(s.last() == digit_char(x % 16));
        }
    }
}

pub proof fn lemma_uint_hex_lower(x: nat)
    ensures
        lower_digits(uint_hex(x)),
    decreases x,
{
    if x < 16 {
        lemma_digit_char(x);
    } else {
        lemma_uint_hex_lower(x / 16);
        let inner = uint_hex(x / 16);
        let s = uint_hex(x);
        lemma_digit_char(x % 16);
        assert(lower_digits(s)) by {
            assert(forall|i: int| 0 <= i < s.len() - 1 ==> #[trigger] s[i] == inner[i]);
            assert(s.last() == digit_char(x % 16));
        }
    }
}

pub proof fn lemma_uint_dec_lower(x: nat)
    ensures
        lower_digits(uint_dec(x)),
    decreases x,
{
    if x < 10 {
        lemma_digit_char(x);
    } else {
        lemma_uint_dec_lower(x / 10);
        let inner = uint_dec(x / 10);
        let s = uint_dec(x);
        lemma_digit_char(x % 10);
        assert(lower_digits(s)) by {
            assert(forall|i: int| 0 <= i < s.len() - 1 ==> #[trigger] s[i] == inner[i]);
            assert(s.last() == digit_char(x % 10));
        }
    }
}

/// The minimal signed decimal form of an `i32` parses back to it.
pub proof fn lemma_parse_int_dec(x: i32)
    ensures
        parse_i32_spec(int_dec(x as int)) == Some(x),
{
    let s = int_dec(x as int);
    if x < 0 {
        let mag = (-(x as int)) as nat;
        lemma_uint_dec_val(mag);
        assert(s[0] == '-');
        assert(s.skip(1) =~= uint_dec(mag));
        if uint_dec(mag).len() >= 2 {
            assert(dec_digit(uint_dec(mag)[1]));
            assert(uint_dec(mag)[1] != 'x' && uint_dec(mag)[1] != 'X');
        }
        assert((0 - mag as int) as i32 == x);
    } else {
        lemma_uint_dec_val(x as nat);
        assert(dec_digit(s[0]));
        assert(s[0] != '-');
        if s.len() >= 2 {
            assert(dec_digit(s[1]));
            assert(s[1] != 'x' && s[1] != 'X');
        }
    }
}

} // verus!
