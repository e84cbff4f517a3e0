use vstd::prelude::*;

use crate::error::Error;
use crate::mapping::{FontData, MapEntry, Mapping, FULL};

verus! {

/// ASCII `0`.
pub const DIGIT_ZERO: u8 = 48;
/// ASCII `9`.
pub const DIGIT_NINE: u8 = 57;
/// ASCII `{`.
pub const OPEN_BRACE: u8 = 123;
/// ASCII `}`.
pub const CLOSE_BRACE: u8 = 125;
/// ASCII `[`.
pub const OPEN_BRACKET: u8 = 91;
/// ASCII `]`.
pub const CLOSE_BRACKET: u8 = 93;
/// ASCII `,`.
pub const COMMA: u8 = 44;
/// ASCII `:`.
pub const COLON: u8 = 58;
/// ASCII `"`.
pub const QUOTE: u8 = 34;

/// ASCII `.`.
pub const DOT: u8 = 46;
/// ASCII backslash.
pub const BACKSLASH: u8 = 92;
/// ASCII `u`.
pub const LOWER_U: u8 = 117;

/// Whether `b` is an ASCII decimal digit.
pub open spec fn is_digit(b: u8) -> bool {
    DIGIT_ZERO <= b <= DIGIT_NINE
}

/// The decimal numeral of `n`, without leading zeros.
pub open spec fn digits(n: nat) -> Seq<u8>
    decreases n,
{
    if n < 10 {
        seq![(DIGIT_ZERO + n) as u8]
    } else {
        digits(n / 10).push((DIGIT_ZERO + n % 10) as u8)
    }
}

/// The number that a run of decimal digits spells.
pub open spec fn numeral_value(ds: Seq<u8>) -> nat
    decreases ds.len(),
{
    if ds.len() == 0 {
        0
    } else {
        numeral_value(ds.drop_last()) * 10 + (ds.last() - DIGIT_ZERO) as nat
    }
}

/// Powers of ten.
pub open spec fn pow10(k: nat) -> nat
    decreases k,
{
    if k == 0 {
        1
    } else {
        10 * pow10((k - 1) as nat)
    }
}

/// A numeral is a nonempty run of digits that spells its number, and one
/// below `10^k` has at most `k` digits.
proof fn lemma_digits(n: nat, k: nat)
    ensures
        digits(n).len() >= 1,
        forall|i: int| 0 <= i < digits(n).len() ==> is_digit(#[trigger] digits(n)[i]),
        numeral_value(digits(n)) == n,
        k >= 1 && n < pow10(k) ==> digits(n).len() <= k,
    decreases n,
{
    assert(numeral_value(Seq::<u8>::empty()) == 0);
    if n < 10 {
        assert(digits(n).drop_last() =~= Seq::<u8>::empty());
        assert(digits(n).last() - DIGIT_ZERO == n);
    } else {
        lemma_digits(n / 10, (k - 1) as nat);
        let d = digits(n);
        assert(d.drop_last() =~= digits(n / 10));
        assert(d.last() - DIGIT_ZERO == n % 10);
        assert((n / 10) * 10 + n % 10 == n);
        assert(numeral_value(d) == numeral_value(d.drop_last()) * 10 + (d.last() - DIGIT_ZERO) as nat);
        if k >= 1 && n < pow10(k) {
            if k == 1 {
                assert(pow10(1) == 10) by {
                    assert(pow10(0) == 1);
                }
            } else {
                assert(n / 10 < pow10((k - 1) as nat));
            }
        }
    }
}

proof fn lemma_pow10_mono(a: nat, b: nat)
    requires
        a <= b,
    ensures
        1 <= pow10(a) <= pow10(b),
    decreases b,
{
    if b > 0 {
        if a < b {
            lemma_pow10_mono(a, (b - 1) as nat);
        } else {
            lemma_pow10_mono((a - 1) as nat, (b - 1) as nat);
        }
    }
}

/// The `k` last decimal digits of `n`, zeros in front.
pub open spec fn pad(n: nat, k: nat) -> Seq<u8>
    decreases k,
{
    if k == 0 {
        Seq::empty()
    } else {
        pad(n / 10, (k - 1) as nat).push((DIGIT_ZERO + n % 10) as u8)
    }
}

/// The decimal text of `num / 10^k`, with exactly `k` digits after the
/// point.
pub open spec fn decimal_text(num: nat, k: nat) -> Seq<u8> {
    digits(num / pow10(k)) + seq![DOT] + pad(num % pow10(k), k)
}

/// The lower-case hexadecimal digit of `d < 16`.
pub open spec fn hex_digit(d: nat) -> u8 {
    if d < 10 {
        (DIGIT_ZERO + d) as u8
    } else {
        (87 + d) as u8
    }
}

/// `\u` and four hexadecimal digits of `n < 65536`.
pub open spec fn unicode_escape(n: nat) -> Seq<u8> {
    seq![
        BACKSLASH,
        LOWER_U,
        hex_digit((n / 4096) % 16),
        hex_digit((n / 256) % 16),
        hex_digit((n / 16) % 16),
        hex_digit(n % 16),
    ]
}

/// A JSON string holding the one character `c`, written with `\u`
/// escapes (a surrogate pair above U+FFFF).
pub open spec fn char_text(c: char) -> Seq<u8> {
    let n = c as u32 as nat;
    if n < 0x10000 {
        seq![QUOTE] + unicode_escape(n) + seq![QUOTE]
    } else {
        let m = (n - 0x10000) as nat;
        seq![QUOTE] + unicode_escape(0xD800 + m / 1024) + unicode_escape(0xDC00 + m % 1024)
            + seq![QUOTE]
    }
}

/// The numerator over `10^10` written for the value `v / FULL`.
pub open spec fn val_numerator(v: nat) -> nat {
    v * pow10(10) / (FULL as nat)
}

/// The numerator over `10^6` written for `w` sixty-fourths of a pixel:
/// exact, since `10^6 / 64 = 15625`.
pub open spec fn px_numerator(w: nat) -> nat {
    w * 15625
}

/// The numerator over `10^20` written for the fudge factor `1 / d`.
pub open spec fn fudge_numerator(d: nat) -> nat {
    pow10(20) / d
}

/// `[char,value]`
pub open spec fn enc_entry(e: MapEntry) -> Seq<u8> {
    seq![OPEN_BRACKET] + char_text(e.chr) + seq![COMMA] + decimal_text(
        val_numerator(e.val as nat),
        10,
    ) + seq![CLOSE_BRACKET]
}

/// The entries, comma separated.
pub open spec fn enc_entries(s: Seq<MapEntry>) -> Seq<u8>
    decreases s.len(),
{
    if s.len() == 0 {
        Seq::empty()
    } else if s.len() == 1 {
        enc_entry(s[0])
    } else {
        enc_entries(s.drop_last()) + seq![COMMA] + enc_entry(s.last())
    }
}

/// `{"values":[`
pub open spec fn head_text() -> Seq<u8> {
    seq![OPEN_BRACE, QUOTE, 118u8, 97u8, 108u8, 117u8, 101u8, 115u8, QUOTE, COLON, OPEN_BRACKET]
}

/// `],"width":`
pub open spec fn width_text() -> Seq<u8> {
    seq![CLOSE_BRACKET, COMMA, QUOTE, 119u8, 105u8, 100u8, 116u8, 104u8, QUOTE, COLON]
}

/// `,"height":`
pub open spec fn height_text() -> Seq<u8> {
    seq![COMMA, QUOTE, 104u8, 101u8, 105u8, 103u8, 104u8, 116u8, QUOTE, COLON]
}

/// `,"fudge_factor":`
pub open spec fn fudge_text() -> Seq<u8> {
    seq![
        COMMA,
        QUOTE,
        102u8,
        117u8,
        100u8,
        103u8,
        101u8,
        95u8,
        102u8,
        97u8,
        99u8,
        116u8,
        111u8,
        114u8,
        QUOTE,
        COLON,
    ]
}

/// The JSON text of a mapping:
/// `{"values":[["\u0020",0.0000000000],...],"width":7.203125,"height":14.000000,"fudge_factor":0.01052631578947368421}`.
/// Values, width and height (in pixels) and the fudge factor are decimal
/// numbers; each character is a one-character string.
pub open spec fn encode(m: Mapping) -> Seq<u8> {
    head_text() + enc_entries(m.values) + width_text() + decimal_text(px_numerator(m.width), 6)
        + height_text() + decimal_text(px_numerator(m.height), 6) + fudge_text() + decimal_text(
        fudge_numerator(m.divisor),
        20,
    ) + seq![CLOSE_BRACE]
}

/// Where the run of decimal digits that starts at `pos` ends.
pub open spec fn digit_run(b: Seq<u8>, pos: int) -> int
    decreases b.len() - pos,
{
    if 0 <= pos < b.len() && is_digit(b[pos]) {
        digit_run(b, pos + 1)
    } else {
        pos
    }
}

/// The decimal number at `pos`: digits, then optionally a point and more
/// digits, thirty digits at most. Its digits read as one numerator, the
/// number of digits after the point, and where it ends.
pub open spec fn decimal_at(b: Seq<u8>, pos: int) -> Option<(nat, nat, int)> {
    let e1 = digit_run(b, pos);
    if pos < 0 || e1 == pos {
        None
    } else if e1 < b.len() && b[e1] == DOT {
        let e2 = digit_run(b, e1 + 1);
        if e2 == e1 + 1 || e2 - pos - 1 > 30 {
            None
        } else {
            Some(
                (
                    numeral_value(b.subrange(pos, e1) + b.subrange(e1 + 1, e2)),
                    (e2 - e1 - 1) as nat,
                    e2,
                ),
            )
        }
    } else if e1 - pos > 30 {
        None
    } else {
        Some((numeral_value(b.subrange(pos, e1)), 0nat, e1))
    }
}

/// The value of a hexadecimal digit.
pub open spec fn hex_value(x: u8) -> Option<nat> {
    if DIGIT_ZERO <= x <= DIGIT_NINE {
        Some((x - DIGIT_ZERO) as nat)
    } else if 97 <= x <= 102 {
        Some((x - 87) as nat)
    } else if 65 <= x <= 70 {
        Some((x - 55) as nat)
    } else {
        None
    }
}

/// The number of a `\\uXXXX` escape at `pos`.
pub open spec fn escape_at(b: Seq<u8>, pos: int) -> Option<nat> {
    if 0 <= pos && pos + 6 <= b.len() && b[pos] == BACKSLASH && b[pos + 1] == LOWER_U && hex_value(
        b[pos + 2],
    ) is Some && hex_value(b[pos + 3]) is Some && hex_value(b[pos + 4]) is Some && hex_value(
        b[pos + 5],
    ) is Some {
        Some(
            hex_value(b[pos + 2])->0 * 4096 + hex_value(b[pos + 3])->0 * 256 + hex_value(
                b[pos + 4],
            )->0 * 16 + hex_value(b[pos + 5])->0,
        )
    } else {
        None
    }
}

/// The code point spelled at `pos` inside a string, and where it ends: a
/// printable ASCII character other than `"` and backslash, a character in
/// raw UTF-8, an escaped `"`,
/// backslash or `/`, or a `\\u` escape (a surrogate pair for one above
/// U+FFFF).
pub open spec fn code_at(b: Seq<u8>, p: int) -> Option<(nat, int)> {
    if !(0 <= p < b.len()) {
        None
    } else if b[p] == BACKSLASH {
        if p + 1 < b.len() && (b[p + 1] == QUOTE || b[p + 1] == BACKSLASH || b[p + 1] == 47) {
            Some((b[p + 1] as nat, p + 2))
        } else {
            match escape_at(b, p) {
                None => None,
                Some(h) => if 0xD800 <= h < 0xDC00 {
                    match escape_at(b, p + 6) {
                        Some(l) => if 0xDC00 <= l < 0xE000 {
                            Some(((0x10000 + (h - 0xD800) * 1024 + (l - 0xDC00)) as nat, p + 12))
                        } else {
                            None
                        },
                        None => None,
                    }
                } else if 0xDC00 <= h < 0xE000 {
                    None
                } else {
                    Some((h, p + 6))
                },
            }
        }
    } else if 0x20 <= b[p] <= 0x7E && b[p] != QUOTE {
        Some((b[p] as nat, p + 1))
    } else if 0xC2 <= b[p] <= 0xF4 {
        utf8_at(b, p)
    } else {
        None
    }
}

/// A UTF-8 continuation byte.
pub open spec fn is_cont(x: u8) -> bool {
    0x80 <= x <= 0xBF
}

/// The code point of the UTF-8 sequence of two to four bytes at `p`, and
/// where it ends; overlong forms and values above U+10FFFF are refused.
pub open spec fn utf8_at(b: Seq<u8>, p: int) -> Option<(nat, int)> {
    let x = b[p];
    if x <= 0xDF {
        if p + 1 < b.len() && is_cont(b[p + 1]) {
            Some((((x - 0xC0) * 64 + (b[p + 1] - 0x80)) as nat, p + 2))
        } else {
            None
        }
    } else if x <= 0xEF {
        if p + 2 < b.len() && is_cont(b[p + 1]) && is_cont(b[p + 2]) {
            let c = (x - 0xE0) * 4096 + (b[p + 1] - 0x80) * 64 + (b[p + 2] - 0x80);
            if c >= 0x800 {
                Some((c as nat, p + 3))
            } else {
                None
            }
        } else {
            None
        }
    } else {
        if p + 3 < b.len() && is_cont(b[p + 1]) && is_cont(b[p + 2]) && is_cont(b[p + 3]) {
            let c = (x - 0xF0) * 262144 + (b[p + 1] - 0x80) * 4096 + (b[p + 2] - 0x80) * 64 + (b[p
                + 3] - 0x80);
            if 0x10000 <= c <= 0x10FFFF {
                Some((c as nat, p + 4))
            } else {
                None
            }
        } else {
            None
        }
    }
}

/// The one-character JSON string at `pos`: its code point, and where it
/// ends.
pub open spec fn str_at(b: Seq<u8>, pos: int) -> Option<(nat, int)> {
    if !(0 <= pos < b.len() && b[pos] == QUOTE) {
        None
    } else {
        match code_at(b, pos + 1) {
            None => None,
            Some((c, q)) => if 0 <= q < b.len() && b[q] == QUOTE {
                Some((c, q + 1))
            } else {
                None
            },
        }
    }
}

/// `num / 10^k`, rounded to the nearest multiple of 1/`FULL`, in those
/// units.
pub open spec fn round_val(num: nat, k: nat) -> nat {
    (2 * num * (FULL as nat) + pow10(k)) / (2 * pow10(k))
}

/// `num / 10^k` pixels, rounded to the nearest sixty-fourth, in those
/// units.
pub open spec fn round_px(num: nat, k: nat) -> nat {
    (2 * num * 64 + pow10(k)) / (2 * pow10(k))
}

/// The divisor `d` nearest to `10^k / num`, for a fudge factor `num / 10^k`.
pub open spec fn round_divisor(num: nat, k: nat) -> nat {
    (2 * pow10(k) + num) / (2 * num)
}

/// The entry `[string,number]` at `pos`, and where it ends.
pub open spec fn entry_at(b: Seq<u8>, pos: int) -> Option<(MapEntry, int)> {
    if !(0 <= pos < b.len() && b[pos] == OPEN_BRACKET) {
        None
    } else {
        match str_at(b, pos + 1) {
            None => None,
            Some((c, p)) => if !(c <= 0x10FFFF && vstd::utf8::is_scalar(c as u32) && 0 <= p
                < b.len() && b[p] == COMMA) {
                None
            } else {
                match decimal_at(b, p + 1) {
                    None => None,
                    Some((num, k, q)) => if !(round_val(num, k) <= u32::MAX && 0 <= q < b.len()
                        && b[q] == CLOSE_BRACKET) {
                        None
                    } else {
                        Some(
                            (
                                MapEntry { chr: (c as u32) as char, val: round_val(num, k) as u32 },
                                q + 1,
                            ),
                        )
                    },
                }
            },
        }
    }
}

/// The comma-separated entries from `pos` on, after those in `acc`, and
/// where they end.
#[verifier::opaque]
pub open spec fn entries_from(b: Seq<u8>, pos: int, acc: Seq<MapEntry>) -> Option<
    (Seq<MapEntry>, int),
>
    decreases b.len() - pos,
{
    match entry_at(b, pos) {
        None => None,
        Some((e, p)) => if pos < p && p < b.len() && b[p] == COMMA {
            entries_from(b, p + 1, acc.push(e))
        } else {
            Some((acc.push(e), p))
        },
    }
}

/// The bytes at `pos` are `t`.
pub open spec fn text_at_spec(b: Seq<u8>, pos: int, t: Seq<u8>) -> bool {
    0 <= pos && pos + t.len() <= b.len() && b.subrange(pos, pos + t.len()) == t
}

/// What follows the entries at `p`:
/// `],"width":w,"height":h,"fudge_factor":f}` up to the end, giving the
/// width and height rounded to sixty-fourths of a pixel and the divisor
/// nearest to `1/f`.
#[verifier::opaque]
pub open spec fn tail_at(b: Seq<u8>, p: int) -> Option<(nat, nat, nat)> {
    if !text_at_spec(b, p, width_text()) {
        None
    } else {
        match decimal_at(b, p + 10) {
            None => None,
            Some((wn, wk, p2)) => if !text_at_spec(b, p2, height_text()) {
                None
            } else {
                match decimal_at(b, p2 + 10) {
                    None => None,
                    Some((hn, hk, p3)) => if !text_at_spec(b, p3, fudge_text()) {
                        None
                    } else {
                        match decimal_at(b, p3 + 16) {
                            None => None,
                            Some((fnum, fk, p4)) => if fnum == 0 || !(p4 + 1 == b.len() && b[p4]
                                == CLOSE_BRACE) {
                                None
                            } else {
                                Some((round_px(wn, wk), round_px(hn, hk), round_divisor(fnum, fk)))
                            },
                        }
                    },
                }
            },
        }
    }
}

/// The mapping that a JSON text describes, if it is one:
/// `{"values":[[c,v],...],"width":w,"height":h,"fudge_factor":f}` with no
/// whitespace, each `c` a one-character string and the others decimal
/// numbers. Values are rounded to units of 1/`FULL`, width and height to
/// sixty-fourths of a pixel, and the fudge factor to the nearest `1/d`.
#[verifier::opaque]
pub open spec fn decode(b: Seq<u8>) -> Option<Mapping> {
    if !text_at_spec(b, 0, head_text()) {
        None
    } else {
        match entries_from(b, 11, Seq::empty()) {
            None => None,
            Some((vals, p)) => match tail_at(b, p) {
                None => None,
                Some((w, h, d)) => {
                    let m = Mapping { values: vals, width: w, height: h, divisor: d };
                    if m.wf() {
                        Some(m)
                    } else {
                        None
                    }
                },
            },
        }
    }
}

fn push_text(out: &mut Vec<u8>, t: &[u8])
    ensures
        final(out)@ == old(out)@ + t@,
{
    let mut i: usize = 0;
    while i < t.len()
        invariant
            i <= t@.len(),
            out@ == old(out)@ + t@.take(i as int),
        decreases t@.len() - i,
    {
        out.push(t[i]);
        assert(t@.take(i + 1) =~= t@.take(i as int).push(t@[i as int]));
        i = i + 1;
    }
    assert(t@.take(i as int) =~= t@);
}

fn push_number(out: &mut Vec<u8>, n: u64)
    ensures
        final(out)@ == old(out)@ + digits(n as nat),
    decreases n,
{
    if n < 10 {
        out.push(DIGIT_ZERO + n as u8);
        assert(old(out)@.push((DIGIT_ZERO + n) as u8) =~= old(out)@ + digits(n as nat));
    } else {
        push_number(out, n / 10);
        out.push(DIGIT_ZERO + (n % 10) as u8);
        assert(old(out)@ + digits((n / 10) as nat) + seq![(DIGIT_ZERO + n % 10) as u8] =~= old(out)@
            + digits(n as nat));
    }
}

fn push_pad(out: &mut Vec<u8>, n: u128, k: u32)
    ensures
        final(out)@ == old(out)@ + pad(n as nat, k as nat),
    decreases k,
{
    if k == 0 {
        assert(old(out)@ + Seq::<u8>::empty() =~= old(out)@);
    } else {
        push_pad(out, n / 10, k - 1);
        out.push(DIGIT_ZERO + (n % 10) as u8);
        assert(old(out)@ + pad((n / 10) as nat, (k - 1) as nat) + seq![(DIGIT_ZERO + n % 10) as u8]
            =~= old(out)@ + pad(n as nat, k as nat));
    }
}

fn pow10_exec(k: u32) -> (r: u128)
    requires
        k <= 38,
    ensures
        r == pow10(k as nat),
{
    let mut r: u128 = 1;
    let mut i: u32 = 0;
    while i < k
        invariant
            i <= k <= 38,
            r == pow10(i as nat),
        decreases k - i,
    {
        proof {
            lemma_pow10_mono((i + 1) as nat, 38);
            lemma_pow10_38();
        }
        assert(pow10((i + 1) as nat) == 10 * pow10(i as nat));
        r = r * 10;
        i = i + 1;
    }
    r
}

proof fn lemma_pow10_small()
    ensures
        pow10(6) == 1_000_000,
        pow10(10) == 10_000_000_000,
        pow10(20) == 100_000_000_000_000_000_000,
        pow10(30) == 1_000_000_000_000_000_000_000_000_000_000,
{
    reveal_with_fuel(pow10, 31);
}

proof fn lemma_pow10_38()
    ensures
        pow10(38) == 100_000_000_000_000_000_000_000_000_000_000_000_000,
{
    reveal_with_fuel(pow10, 39);
}

fn push_decimal(out: &mut Vec<u8>, num: u128, k: u32)
    requires
        1 <= k <= 20,
        (num as nat) / pow10(k as nat) <= u64::MAX,
    ensures
        final(out)@ == old(out)@ + decimal_text(num as nat, k as nat),
{
    let p = pow10_exec(k);
    proof {
        lemma_pow10_mono(0, k as nat);
    }
    push_number(out, (num / p) as u64);
    out.push(DOT);
    push_pad(out, num % p, k);
    assert(old(out)@ + digits((num / p) as nat) + seq![DOT] + pad((num % p) as nat, k as nat) =~= old(out)@
        + decimal_text(num as nat, k as nat));
}

fn hex_digit_exec(d: u32) -> (r: u8)
    requires
        d < 16,
    ensures
        r == hex_digit(d as nat),
{
    if d < 10 {
        DIGIT_ZERO + d as u8
    } else {
        87 + d as u8
    }
}

fn push_escape(out: &mut Vec<u8>, n: u32)
    requires
        n < 0x10000,
    ensures
        final(out)@ == old(out)@ + unicode_escape(n as nat),
{
    out.push(BACKSLASH);
    out.push(LOWER_U);
    out.push(hex_digit_exec((n / 4096) % 16));
    out.push(hex_digit_exec((n / 256) % 16));
    out.push(hex_digit_exec((n / 16) % 16));
    out.push(hex_digit_exec(n % 16));
    assert(final(out)@ =~= old(out)@ + unicode_escape(n as nat));
}

fn push_char(out: &mut Vec<u8>, c: char)
    ensures
        final(out)@ == old(out)@ + char_text(c),
{
    let n = c as u32;
    out.push(QUOTE);
    if n < 0x10000 {
        push_escape(out, n);
    } else {
        proof {
            vstd::utf8::char_is_scalar(c);
        }
        let m = n - 0x10000;
        push_escape(out, 0xD800 + m / 1024);
        push_escape(out, 0xDC00 + m % 1024);
    }
    out.push(QUOTE);
    assert(final(out)@ =~= old(out)@ + char_text(c));
}

/// Whether the bytes at `pos` are `t`.
fn text_at(b: &[u8], pos: usize, t: &[u8]) -> (r: bool)
    ensures
        r == (pos + t@.len() <= b@.len() && b@.subrange(pos as int, pos + t@.len()) == t@),
{
    let blen = b.len();
    if pos > blen || t.len() > blen - pos {
        return false;
    }
    let mut i: usize = 0;
    while i < t.len()
        invariant
            blen == b@.len(),
            pos + t@.len() <= blen,
            i <= t@.len(),
            forall|k: int| 0 <= k < i ==> b@[pos + k] == t@[k],
        decreases t@.len() - i,
    {
        assert(pos + i < b@.len());
        if b[pos + i] != t[i] {
            assert(b@.subrange(pos as int, pos + t@.len())[i as int] != t@[i as int]);
            return false;
        }
        i = i + 1;
    }
    assert(b@.subrange(pos as int, pos + t@.len()) =~= t@);
    true
}

/// Relies on `char::from_u32`: `Some` exactly for the Unicode scalar
/// values, holding the character of that value.
#[verifier::external_body]
fn char_from_code(n: u32) -> (r: Option<char>)
    ensures
        r is Some <==> vstd::utf8::is_scalar(n),
        r matches Some(c) ==> c as u32 == n,
{
    char::from_u32(n)
}


fn scan_digits(b: &[u8], pos: usize) -> (r: usize)
    requires
        pos <= b@.len(),
    ensures
        r == digit_run(b@, pos as int),
        pos <= r <= b@.len(),
        forall|k: int| pos <= k < r ==> is_digit(#[trigger] b@[k]),
{
    let mut i = pos;
    while i < b.len() && DIGIT_ZERO <= b[i] && b[i] <= DIGIT_NINE
        invariant
            pos <= i <= b@.len(),
            digit_run(b@, i as int) == digit_run(b@, pos as int),
            forall|k: int| pos <= k < i ==> is_digit(#[trigger] b@[k]),
        decreases b@.len() - i,
    {
        i = i + 1;
    }
    i
}

fn parse_decimal(b: &[u8], pos: usize) -> (r: Option<(u128, u32, usize)>)
    requires
        pos <= b@.len(),
    ensures
        match decimal_at(b@, pos as int) {
            None => r is None,
            Some((n, k, e)) => r == Some((n as u128, k as u32, e as usize)) && n < pow10(30) && k
                <= 30 && pos < e <= b@.len(),
        },
{
    let e1 = scan_digits(b, pos);
    if e1 == pos {
        return None;
    }
    let has_point = e1 < b.len() && b[e1] == DOT;
    let e2 = if has_point {
        scan_digits(b, e1 + 1)
    } else {
        e1
    };
    if has_point && e2 == e1 + 1 {
        return None;
    }
    let total = if has_point {
        e2 - pos - 1
    } else {
        e1 - pos
    };
    if total > 30 {
        return None;
    }
    let ghost x = b@.subrange(pos as int, e1 as int);
    let ghost y = if has_point {
        b@.subrange(e1 + 1, e2 as int)
    } else {
        Seq::<u8>::empty()
    };
    let ghost cat = x + y;
    assert(cat.len() == total);
    proof {
        lemma_pow10_38();
        lemma_pow10_mono(total as nat, 38);
    }
    let mut v: u128 = 0;
    let mut j: usize = 0;
    let l1 = e1 - pos;
    while j < total
        invariant
            cat == x + y,
            x == b@.subrange(pos as int, e1 as int),
            l1 == e1 - pos,
            cat.len() == total,
            total <= 30,
            has_point ==> y == b@.subrange(e1 + 1, e2 as int),
            !has_point ==> y.len() == 0,
            !has_point ==> total == l1,
            has_point ==> total == l1 + (e2 - e1 - 1) && e1 + 1 <= e2,
            e2 <= b@.len(),
            e1 <= b@.len(),
            forall|k: int| pos <= k < e1 ==> is_digit(#[trigger] b@[k]),
            has_point ==> forall|k: int| e1 + 1 <= k < e2 ==> is_digit(#[trigger] b@[k]),
            j <= total,
            v == numeral_value(cat.take(j as int)),
            v < pow10(j as nat),
            pow10(total as nat) <= pow10(38),
            pow10(38) == 100_000_000_000_000_000_000_000_000_000_000_000_000,
        decreases total - j,
    {
        let d = if j < l1 {
            b[pos + j]
        } else {
            b[e1 + 1 + (j - l1)]
        };
        assert(d == cat[j as int]);
        assert(is_digit(d));
        assert(cat.take(j + 1).drop_last() =~= cat.take(j as int));
        proof {
            lemma_pow10_mono((j + 1) as nat, total as nat);
        }
        assert(pow10((j + 1) as nat) == 10 * pow10(j as nat));
        assert(v * 10 + (d - DIGIT_ZERO) < 10 * pow10(j as nat)) by (nonlinear_arith)
            requires
                v < pow10(j as nat),
                d - DIGIT_ZERO < 10,
        ;
        v = v * 10 + (d - DIGIT_ZERO) as u128;
        j = j + 1;
    }
    assert(cat.take(total as int) =~= cat);
    proof {
        lemma_pow10_mono(total as nat, 30);
        if !has_point {
            assert(cat =~= x);
        }
    }
    if has_point {
        Some((v, (e2 - e1 - 1) as u32, e2))
    } else {
        Some((v, 0, e1))
    }
}

fn hex_value_exec(x: u8) -> (r: Option<u32>)
    ensures
        match hex_value(x) {
            None => r is None,
            Some(h) => r == Some(h as u32),
        },
{
    if DIGIT_ZERO <= x && x <= DIGIT_NINE {
        Some((x - DIGIT_ZERO) as u32)
    } else if 97 <= x && x <= 102 {
        Some((x - 87) as u32)
    } else if 65 <= x && x <= 70 {
        Some((x - 55) as u32)
    } else {
        None
    }
}

fn escape_exec(b: &[u8], pos: usize) -> (r: Option<u32>)
    ensures
        match escape_at(b@, pos as int) {
            None => r is None,
            Some(h) => r == Some(h as u32),
        },
{
    let n = b.len();
    if pos > n || n - pos < 6 || b[pos] != BACKSLASH || b[pos + 1] != LOWER_U {
        return None;
    }
    let h0 = match hex_value_exec(b[pos + 2]) {
        Some(h) => h,
        None => {
            return None;
        },
    };
    let h1 = match hex_value_exec(b[pos + 3]) {
        Some(h) => h,
        None => {
            return None;
        },
    };
    let h2 = match hex_value_exec(b[pos + 4]) {
        Some(h) => h,
        None => {
            return None;
        },
    };
    let h3 = match hex_value_exec(b[pos + 5]) {
        Some(h) => h,
        None => {
            return None;
        },
    };
    Some(h0 * 4096 + h1 * 256 + h2 * 16 + h3)
}

fn is_cont_exec(x: u8) -> (r: bool)
    ensures
        r == is_cont(x),
{
    0x80 <= x && x <= 0xBF
}

fn utf8_exec(b: &[u8], p: usize) -> (r: Option<(u32, usize)>)
    requires
        p < b@.len(),
        0xC2 <= b@[p as int] <= 0xF4,
    ensures
        match utf8_at(b@, p as int) {
            None => r is None,
            Some((c, q)) => r == Some((c as u32, q as usize)) && c <= 0x10FFFF,
        },
{
    let n = b.len();
    let x = b[p];
    if x <= 0xDF {
        if n - p > 1 && is_cont_exec(b[p + 1]) {
            Some(((x - 0xC0) as u32 * 64 + (b[p + 1] - 0x80) as u32, p + 2))
        } else {
            None
        }
    } else if x <= 0xEF {
        if n - p > 2 && is_cont_exec(b[p + 1]) && is_cont_exec(b[p + 2]) {
            let c = (x - 0xE0) as u32 * 4096 + (b[p + 1] - 0x80) as u32 * 64 + (b[p + 2] - 0x80) as u32;
            if c >= 0x800 {
                Some((c, p + 3))
            } else {
                None
            }
        } else {
            None
        }
    } else {
        if n - p > 3 && is_cont_exec(b[p + 1]) && is_cont_exec(b[p + 2]) && is_cont_exec(b[p + 3]) {
            let c = (x - 0xF0) as u32 * 262144 + (b[p + 1] - 0x80) as u32 * 4096 + (b[p + 2] - 0x80)
                as u32 * 64 + (b[p + 3] - 0x80) as u32;
            if 0x10000 <= c && c <= 0x10FFFF {
                Some((c, p + 4))
            } else {
                None
            }
        } else {
            None
        }
    }
}

fn code_exec(b: &[u8], p: usize) -> (r: Option<(u32, usize)>)
    ensures
        match code_at(b@, p as int) {
            None => r is None,
            Some((c, q)) => r == Some((c as u32, q as usize)) && c <= 0x10FFFF,
        },
{
    let n = b.len();
    if p >= n {
        return None;
    }
    if b[p] == BACKSLASH {
        if p + 1 < n && (b[p + 1] == QUOTE || b[p + 1] == BACKSLASH || b[p + 1] == 47) {
            return Some((b[p + 1] as u32, p + 2));
        }
        match escape_exec(b, p) {
            None => None,
            Some(h) => if 0xD800 <= h && h < 0xDC00 {
                match escape_exec(b, p + 6) {
                    Some(l) => if 0xDC00 <= l && l < 0xE000 {
                        Some((0x10000 + (h - 0xD800) * 1024 + (l - 0xDC00), p + 12))
                    } else {
                        None
                    },
                    None => None,
                }
            } else if 0xDC00 <= h && h < 0xE000 {
                None
            } else {
                Some((h, p + 6))
            },
        }
    } else if 0x20 <= b[p] && b[p] <= 0x7E && b[p] != QUOTE {
        Some((b[p] as u32, p + 1))
    } else if 0xC2 <= b[p] && b[p] <= 0xF4 {
        utf8_exec(b, p)
    } else {
        None
    }
}

fn str_exec(b: &[u8], pos: usize) -> (r: Option<(u32, usize)>)
    ensures
        match str_at(b@, pos as int) {
            None => r is None,
            Some((c, q)) => r == Some((c as u32, q as usize)) && c <= 0x10FFFF,
        },
{
    if pos >= b.len() || b[pos] != QUOTE {
        return None;
    }
    match code_exec(b, pos + 1) {
        None => None,
        Some((c, q)) => if q < b.len() && b[q] == QUOTE {
            Some((c, q + 1))
        } else {
            None
        },
    }
}

fn round_val_exec(num: u128, k: u32) -> (r: u128)
    requires
        num < pow10(30),
        k <= 30,
    ensures
        r == round_val(num as nat, k as nat),
{
    proof {
        lemma_pow10_38();
        lemma_pow10_small();
        lemma_pow10_mono(30, 38);
        lemma_pow10_mono(k as nat, 30);
        lemma_pow10_mono(0, k as nat);
    }
    let p = pow10_exec(k);
    assert(2 * num * 65535 + p < 300_000_000_000_000_000_000_000_000_000_000_000_000) by (nonlinear_arith)
        requires
            num < 1_000_000_000_000_000_000_000_000_000_000,
            p <= 1_000_000_000_000_000_000_000_000_000_000,
    ;
    (2 * num * 65535 + p) / (2 * p)
}

fn round_px_exec(num: u128, k: u32) -> (r: u128)
    requires
        num < pow10(30),
        k <= 30,
    ensures
        r == round_px(num as nat, k as nat),
{
    proof {
        lemma_pow10_38();
        lemma_pow10_small();
        lemma_pow10_mono(30, 38);
        lemma_pow10_mono(k as nat, 30);
        lemma_pow10_mono(0, k as nat);
    }
    let p = pow10_exec(k);
    (2 * num * 64 + p) / (2 * p)
}

fn round_divisor_exec(num: u128, k: u32) -> (r: u128)
    requires
        0 < num < pow10(30),
        k <= 30,
    ensures
        r == round_divisor(num as nat, k as nat),
{
    proof {
        lemma_pow10_38();
        lemma_pow10_small();
        lemma_pow10_mono(30, 38);
        lemma_pow10_mono(k as nat, 30);
    }
    let p = pow10_exec(k);
    (2 * p + num) / (2 * num)
}

fn entry_exec(b: &[u8], pos: usize) -> (r: Option<(MapEntry, usize)>)
    ensures
        match entry_at(b@, pos as int) {
            None => r is None,
            Some((e, q)) => r == Some((e, q as usize)),
        },
{
    if pos >= b.len() || b[pos] != OPEN_BRACKET {
        return None;
    }
    let (c, p) = match str_exec(b, pos + 1) {
        Some(x) => x,
        None => {
            return None;
        },
    };
    let chr = match char_from_code(c) {
        Some(ch) => ch,
        None => {
            return None;
        },
    };
    proof {
        vstd::utf8::char_u32_cast(chr, c);
    }
    assert(str_at(b@, pos + 1) == Some((c as nat, p as int)));
    if p >= b.len() || b[p] != COMMA {
        return None;
    }
    let pd = parse_decimal(b, p + 1);
    let (num, k, q) = match pd {
        Some(x) => x,
        None => {
            return None;
        },
    };
    proof {
        lemma_pow10_small();
        let dd = decimal_at(b@, p + 1);
        assert(dd is Some);
        let (n2, k2, e2) = dd->0;
        assert(pd == Some((n2 as u128, k2 as u32, e2 as usize)));
        assert(n2 < pow10(30));
    }
    assert(decimal_at(b@, p + 1) == Some((num as nat, k as nat, q as int)));
    let v = round_val_exec(num, k);
    assert(v == round_val(num as nat, k as nat));
    if v > 0xFFFF_FFFF || q >= b.len() || b[q] != CLOSE_BRACKET {
        return None;
    }
    assert(chr == (c as u32) as char);
    assert(entry_at(b@, pos as int) == Some((MapEntry { chr, val: v as u32 }, q + 1)));
    Some((MapEntry { chr, val: v as u32 }, q + 1))
}

fn parse_entries(b: &[u8]) -> (r: Option<(Vec<MapEntry>, usize)>)
    requires
        11 <= b@.len(),
    ensures
        match entries_from(b@, 11, Seq::empty()) {
            None => r is None,
            Some((vals, end)) => r matches Some((v, e)) && v@ == vals && e == end && e <= b@.len(),
        },
{
    let n = b.len();
    let mut vals: Vec<MapEntry> = Vec::new();
    let mut pos: usize = 11;
    let mut end: usize = 11;
    let mut more = true;
    while more
        invariant
            n == b@.len(),
            pos <= n,
            end <= n,
            more ==> entries_from(b@, pos as int, vals@) == entries_from(b@, 11, Seq::empty()),
            !more ==> entries_from(b@, 11, Seq::empty()) == Some((vals@, end as int)),
        decreases (if more {
            1int
        } else {
            0int
        }) + n - pos,
    {
        proof {
            reveal_with_fuel(entries_from, 1);
        }
        match entry_exec(b, pos) {
            None => {
                return None;
            },
            Some((e, p)) => {
                vals.push(e);
                if pos < p && p < n && b[p] == COMMA {
                    pos = p + 1;
                } else {
                    end = p;
                    more = false;
                }
            },
        }
    }
    Some((vals, end))
}

#[verifier::rlimit(80)]
fn parse_tail(b: &[u8], p: usize) -> (r: Option<(u128, u128, u128)>)
    requires
        p <= b@.len(),
    ensures
        match tail_at(b@, p as int) {
            None => r is None,
            Some((w, h, d)) => r == Some((w as u128, h as u128, d as u128)) && w <= u128::MAX && h
                <= u128::MAX && d <= u128::MAX,
        },
{
    reveal(tail_at);
    let n = b.len();
    let wt: [u8; 10] = [CLOSE_BRACKET, COMMA, QUOTE, 119u8, 105u8, 100u8, 116u8, 104u8, QUOTE, COLON];
    assert(wt@ =~= width_text());
    if !text_at(b, p, &wt) {
        return None;
    }
    let (wn, wk, p2) = match parse_decimal(b, p + 10) {
        Some(x) => x,
        None => {
            return None;
        },
    };
    let ht: [u8; 10] = [COMMA, QUOTE, 104u8, 101u8, 105u8, 103u8, 104u8, 116u8, QUOTE, COLON];
    assert(ht@ =~= height_text());
    if !text_at(b, p2, &ht) {
        return None;
    }
    let (hn, hk, p3) = match parse_decimal(b, p2 + 10) {
        Some(x) => x,
        None => {
            return None;
        },
    };
    let ft: [u8; 16] = [
        COMMA,
        QUOTE,
        102u8,
        117u8,
        100u8,
        103u8,
        101u8,
        95u8,
        102u8,
        97u8,
        99u8,
        116u8,
        111u8,
        114u8,
        QUOTE,
        COLON,
    ];
    assert(ft@ =~= fudge_text());
    if !text_at(b, p3, &ft) {
        return None;
    }
    let (fnum, fk, p4) = match parse_decimal(b, p3 + 16) {
        Some(x) => x,
        None => {
            return None;
        },
    };
    proof {
        lemma_pow10_small();
    }
    if fnum == 0 || p4 >= n || p4 != n - 1 || b[p4] != CLOSE_BRACE {
        return None;
    }
    let w = round_px_exec(wn, wk);
    let h = round_px_exec(hn, hk);
    let d = round_divisor_exec(fnum, fk);
    Some((w, h, d))
}

/// The mapping the text describes, read part by part.
fn read_mapping(b: &[u8]) -> (r: Option<FontData>)
    ensures
        !text_at_spec(b@, 0, head_text()) ==> r is None,
        text_at_spec(b@, 0, head_text()) ==> match entries_from(b@, 11, Seq::empty()) {
            None => r is None,
            Some((vals, p)) => match tail_at(b@, p) {
                None => r is None,
                Some((w, h, d)) => {
                    let m = Mapping { values: vals, width: w, height: h, divisor: d };
                    if m.wf() {
                        r matches Some(fd) && fd@ == m
                    } else {
                        r is None
                    }
                },
            },
        },
{
    let head: [u8; 11] = [
        OPEN_BRACE,
        QUOTE,
        118u8,
        97u8,
        108u8,
        117u8,
        101u8,
        115u8,
        QUOTE,
        COLON,
        OPEN_BRACKET,
    ];
    assert(head@ =~= head_text());
    if !text_at(b, 0, &head) {
        return None;
    }
    let (vals, end) = match parse_entries(b) {
        Some(x) => x,
        None => {
            return None;
        },
    };
    let (w, h, d) = match parse_tail(b, end) {
        Some(x) => x,
        None => {
            return None;
        },
    };
    if w > 0xFFFF_FFFF || h > 0xFFFF_FFFF || d > usize::MAX as u128 {
        return None;
    }
    FontData::from_parts(vals, w as u32, h as u32, d as usize)
}

proof fn lemma_entries_front(s: Seq<MapEntry>)
    requires
        s.len() > 0,
    ensures
        enc_entries(s) == if s.len() == 1 {
            enc_entry(s[0])
        } else {
            enc_entry(s[0]) + seq![COMMA] + enc_entries(s.drop_first())
        },
    decreases s.len(),
{
    if s.len() > 2 {
        let dl = s.drop_last();
        lemma_entries_front(dl);
        assert(dl.drop_first() =~= s.drop_first().drop_last());
        assert(s.drop_first().last() == s.last());
        assert(dl[0] == s[0]);
        let a = enc_entry(s[0]);
        let b = enc_entries(dl.drop_first());
        let c = enc_entry(s.last());
        assert(enc_entries(s) == enc_entries(dl) + seq![COMMA] + c);
        assert(enc_entries(s.drop_first()) == b + seq![COMMA] + c);
        assert(a + seq![COMMA] + b + seq![COMMA] + c =~= a + seq![COMMA] + (b + seq![COMMA] + c));
    } else if s.len() == 2 {
        assert(s.drop_last() =~= seq![s[0]]);
        assert(s.drop_first() =~= seq![s[1]]);
        assert(enc_entries(s.drop_last()) == enc_entry(s[0]));
        assert(enc_entries(s.drop_first()) == enc_entry(s[1]));
        assert(enc_entries(s) == enc_entries(s.drop_last()) + seq![COMMA] + enc_entry(s.last()));
    }
}


proof fn lemma_quotient(x: int, d: int, q: int)
    requires
        d > 0,
        q * d <= x < q * d + d,
    ensures
        x / d == q,
{
    vstd::arithmetic::div_mod::lemma_fundamental_div_mod_converse(x, d, q, x - q * d);
}

proof fn lemma_round_val(v: nat)
    requires
        v <= 65535,
    ensures
        round_val(val_numerator(v), 10) == v,
        val_numerator(v) <= pow10(10),
{
    lemma_pow10_small();
    let f: int = 10_000_000_000;
    let x = val_numerator(v) as int;
    vstd::arithmetic::div_mod::lemma_fundamental_div_mod(v * f, 65535);
    let r = (v * f) % 65535;
    assert(0 <= r < 65535) by {
        vstd::arithmetic::div_mod::lemma_mod_bound(v * f, 65535);
    }
    assert(v * f == 65535 * x + r);
    assert(x * 65535 <= v * f);
    assert(x <= f) by (nonlinear_arith)
        requires
            x * 65535 <= v * f,
            v <= 65535,
            f > 0,
    ;
    lemma_quotient(2 * x * 65535 + f, 2 * f, v as int);
}

proof fn lemma_round_px(w: nat)
    ensures
        round_px(px_numerator(w), 6) == w,
{
    lemma_pow10_small();
    lemma_quotient(2 * (w as int * 15625) * 64 + 1_000_000, 2_000_000, w as int);
}

proof fn lemma_round_divisor(d: nat)
    requires
        1 <= d <= u32::MAX,
    ensures
        round_divisor(fudge_numerator(d), 20) == d,
        0 < fudge_numerator(d) <= pow10(20),
{
    lemma_pow10_small();
    let p: int = 100_000_000_000_000_000_000;
    let x = fudge_numerator(d) as int;
    vstd::arithmetic::div_mod::lemma_fundamental_div_mod(p, d as int);
    let r = p % (d as int);
    assert(0 <= r < d) by {
        vstd::arithmetic::div_mod::lemma_mod_bound(p, d as int);
    }
    assert(p == d * x + r);
    assert(x >= 2 * d + 1) by (nonlinear_arith)
        requires
            p == d * x + r,
            0 <= r < d,
            1 <= d <= 0xFFFF_FFFF,
            p == 100_000_000_000_000_000_000,
    ;
    assert(x <= p) by (nonlinear_arith)
        requires
            p == d * x + r,
            0 <= r,
            d >= 1,
            x >= 0,
    ;
    assert(2 * x * d <= 2 * p + x < 2 * x * d + 2 * x) by (nonlinear_arith)
        requires
            p == d * x + r,
            0 <= r < d,
            x >= 2 * d + 1,
    ;
    lemma_quotient(2 * p + x, 2 * x, d as int);
}

proof fn lemma_digit_run_at(b: Seq<u8>, p: int, l: int)
    requires
        0 <= p,
        0 <= l,
        p + l <= b.len(),
        forall|k: int| p <= k < p + l ==> is_digit(#[trigger] b[k]),
        p + l == b.len() || !is_digit(b[p + l]),
    ensures
        digit_run(b, p) == p + l,
    decreases l,
{
    if l > 0 {
        lemma_digit_run_at(b, p + 1, l - 1);
    }
}

proof fn lemma_numeral_concat(x: Seq<u8>, y: Seq<u8>)
    ensures
        numeral_value(x + y) == numeral_value(x) * pow10(y.len()) + numeral_value(y),
    decreases y.len(),
{
    if y.len() == 0 {
        assert(x + y =~= x);
        assert(pow10(0) == 1);
        assert(numeral_value(y) == 0);
    } else {
        let y1 = y.drop_last();
        lemma_numeral_concat(x, y1);
        assert((x + y).drop_last() =~= x + y1);
        assert((x + y).last() == y.last());
        let d = (y.last() - DIGIT_ZERO) as nat;
        assert(numeral_value(y) == numeral_value(y1) * 10 + d);
        assert(numeral_value(x + y) == numeral_value(x + y1) * 10 + d);
        assert((numeral_value(x) * pow10(y1.len()) + numeral_value(y1)) * 10 + d == numeral_value(x)
            * pow10(y1.len()) * 10 + (numeral_value(y1) * 10 + d)) by (nonlinear_arith);
        assert((x + y).drop_last() =~= x + y1);
        assert((x + y).last() == y.last());
        assert(pow10(y.len()) == 10 * pow10(y1.len()));
        assert(numeral_value(x) * pow10(y.len()) == (numeral_value(x) * pow10(y1.len())) * 10)
            by (nonlinear_arith)
            requires
                pow10(y.len()) == 10 * pow10(y1.len()),
        ;
    }
}

proof fn lemma_pad(n: nat, k: nat)
    requires
        n < pow10(k),
    ensures
        pad(n, k).len() == k,
        forall|i: int| 0 <= i < k ==> is_digit(#[trigger] pad(n, k)[i]),
        numeral_value(pad(n, k)) == n,
    decreases k,
{
    if k == 0 {
        assert(numeral_value(Seq::<u8>::empty()) == 0);
    } else {
        assert(n / 10 < pow10((k - 1) as nat));
        lemma_pad(n / 10, (k - 1) as nat);
        assert(pad(n, k).drop_last() =~= pad(n / 10, (k - 1) as nat));
    }
}

/// The canonical decimal text reads back as its numerator.
proof fn lemma_decimal_at(b: Seq<u8>, p: int, num: nat, k: nat)
    requires
        1 <= k,
        0 <= p,
        digits(num / pow10(k)).len() + k <= 30,
        p + decimal_text(num, k).len() <= b.len(),
        b.subrange(p, p + decimal_text(num, k).len()) == decimal_text(num, k),
        p + decimal_text(num, k).len() == b.len() || !is_digit(b[p + decimal_text(num, k).len()]),
    ensures
        decimal_at(b, p) == Some((num, k, p + decimal_text(num, k).len())),
{
    lemma_pow10_mono(0, k);
    let a = num / pow10(k);
    let r = num % pow10(k);
    lemma_digits(a, 0);
    vstd::arithmetic::div_mod::lemma_mod_bound(num as int, pow10(k) as int);
    lemma_pad(r, k);
    let t = decimal_text(num, k);
    let la = digits(a).len() as int;
    assert forall|i: int| 0 <= i < t.len() implies b[p + i] == t[i] by {
        assert(b.subrange(p, p + t.len())[i] == b[p + i]);
    }
    assert forall|i: int| p <= i < p + la implies is_digit(#[trigger] b[i]) by {
        assert(b[i] == t[i - p]);
        assert(t[i - p] == digits(a)[i - p]);
    }
    assert(b[p + la] == t[la]);
    lemma_digit_run_at(b, p, la);
    assert forall|i: int| p + la + 1 <= i < p + la + 1 + k implies is_digit(#[trigger] b[i]) by {
        assert(b[i] == t[i - p]);
        assert(t[i - p] == pad(r, k)[i - p - la - 1]);
    }
    lemma_digit_run_at(b, p + la + 1, k as int);
    assert(b.subrange(p, p + la) =~= digits(a));
    assert forall|j: int| 0 <= j < k implies b[p + la + 1 + j] == #[trigger] pad(r, k)[j] by {
        assert(b[p + la + 1 + j] == t[la + 1 + j]);
    }
    assert(b.subrange(p + la + 1, p + la + 1 + k) =~= pad(r, k));
    lemma_numeral_concat(digits(a), pad(r, k));
    vstd::arithmetic::div_mod::lemma_fundamental_div_mod(num as int, pow10(k) as int);
    assert(a * pow10(k) + r == num) by (nonlinear_arith)
        requires
            num == pow10(k) * a + r,
    ;
}

proof fn lemma_hex_split(n: nat)
    requires
        n < 65536,
    ensures
        ((n / 4096) % 16) * 4096 + ((n / 256) % 16) * 256 + ((n / 16) % 16) * 16 + n % 16 == n,
        n / 4096 < 16,
{
    assert(((n / 4096) % 16) * 4096 + ((n / 256) % 16) * 256 + ((n / 16) % 16) * 16 + n % 16 == n)
        by (nonlinear_arith)
        requires
            n < 65536,
    ;
}

proof fn lemma_escape_at(b: Seq<u8>, q: int, n: nat)
    requires
        n < 65536,
        0 <= q,
        q + 6 <= b.len(),
        b.subrange(q, q + 6) == unicode_escape(n),
    ensures
        escape_at(b, q) == Some(n),
{
    let t = unicode_escape(n);
    assert forall|i: int| 0 <= i < 6 implies b[q + i] == t[i] by {
        assert(b.subrange(q, q + 6)[i] == b[q + i]);
    }
    assert(b[q] == t[0] && b[q + 1] == t[1] && b[q + 2] == t[2] && b[q + 3] == t[3] && b[q + 4]
        == t[4] && b[q + 5] == t[5]);
    lemma_hex_split(n);
}

proof fn lemma_code_bmp(b: Seq<u8>, q: int, n: nat)
    requires
        n < 65536,
        !(0xD800 <= n < 0xE000),
        0 <= q,
        q + 6 <= b.len(),
        b.subrange(q, q + 6) == unicode_escape(n),
    ensures
        code_at(b, q) == Some((n, q + 6)),
{
    lemma_escape_at(b, q, n);
    assert(b[q] == b.subrange(q, q + 6)[0]);
    assert(b[q + 1] == b.subrange(q, q + 6)[1]);
}

proof fn lemma_code_pair(b: Seq<u8>, q: int, m: nat)
    requires
        m < 0x100000,
        0 <= q,
        q + 12 <= b.len(),
        b.subrange(q, q + 6) == unicode_escape(0xD800 + m / 1024),
        b.subrange(q + 6, q + 12) == unicode_escape(0xDC00 + m % 1024),
    ensures
        code_at(b, q) == Some(((0x10000 + m) as nat, q + 12)),
{
    let hi = 0xD800 + m / 1024;
    let lo = 0xDC00 + m % 1024;
    assert(m / 1024 < 1024);
    lemma_escape_at(b, q, hi);
    lemma_escape_at(b, q + 6, lo);
    assert(b[q] == b.subrange(q, q + 6)[0]);
    assert(b[q + 1] == b.subrange(q, q + 6)[1]);
    assert(0x10000 + (hi - 0xD800) * 1024 + (lo - 0xDC00) == 0x10000 + m) by {
        vstd::arithmetic::div_mod::lemma_fundamental_div_mod(m as int, 1024);
    }
}

proof fn lemma_str_bmp(b: Seq<u8>, p: int, n: nat)
    requires
        n < 0x10000,
        !(0xD800 <= n < 0xE000),
        0 <= p,
        p + 8 <= b.len(),
        b.subrange(p, p + 8) == seq![QUOTE] + unicode_escape(n) + seq![QUOTE],
    ensures
        str_at(b, p) == Some((n, p + 8)),
{
    let u = unicode_escape(n);
    let t = seq![QUOTE] + u + seq![QUOTE];
    assert(b[p] == QUOTE) by {
        assert(b.subrange(p, p + 8)[0] == b[p]);
    }
    assert(b.subrange(p + 1, p + 7) =~= u) by {
        assert forall|j: int| 0 <= j < 6 implies b[p + 1 + j] == #[trigger] u[j] by {
            assert(b.subrange(p, p + 8)[1 + j] == b[p + 1 + j]);
            assert(t[1 + j] == u[j]);
        }
    }
    assert(b[p + 7] == QUOTE) by {
        assert(b.subrange(p, p + 8)[7] == b[p + 7]);
    }
    lemma_code_bmp(b, p + 1, n);
}

proof fn lemma_str_pair(b: Seq<u8>, p: int, m: nat)
    requires
        m < 0x100000,
        0 <= p,
        p + 14 <= b.len(),
        b.subrange(p, p + 14) == seq![QUOTE] + unicode_escape(0xD800 + m / 1024) + unicode_escape(
            0xDC00 + m % 1024,
        ) + seq![QUOTE],
    ensures
        str_at(b, p) == Some(((0x10000 + m) as nat, p + 14)),
{
    let u1 = unicode_escape(0xD800 + m / 1024);
    let u2 = unicode_escape(0xDC00 + m % 1024);
    let t = seq![QUOTE] + u1 + u2 + seq![QUOTE];
    assert(b[p] == QUOTE) by {
        assert(b.subrange(p, p + 14)[0] == b[p]);
    }
    assert(b.subrange(p + 1, p + 7) =~= u1) by {
        assert forall|j: int| 0 <= j < 6 implies b[p + 1 + j] == #[trigger] u1[j] by {
            assert(b.subrange(p, p + 14)[1 + j] == b[p + 1 + j]);
            assert(t[1 + j] == u1[j]);
        }
    }
    assert(b.subrange(p + 7, p + 13) =~= u2) by {
        assert forall|j: int| 0 <= j < 6 implies b[p + 7 + j] == #[trigger] u2[j] by {
            assert(b.subrange(p, p + 14)[7 + j] == b[p + 7 + j]);
            assert(t[7 + j] == u2[j]);
        }
    }
    assert(b[p + 13] == QUOTE) by {
        assert(b.subrange(p, p + 14)[13] == b[p + 13]);
    }
    lemma_code_pair(b, p + 1, m);
}

/// The canonical string of a character reads back as that character.
proof fn lemma_str_at(b: Seq<u8>, p: int, c: char)
    requires
        0 <= p,
        p + char_text(c).len() <= b.len(),
        b.subrange(p, p + char_text(c).len()) == char_text(c),
    ensures
        str_at(b, p) == Some((c as u32 as nat, p + char_text(c).len())),
        c as u32 <= 0x10FFFF,
        vstd::utf8::is_scalar(c as u32),
{
    vstd::utf8::char_is_scalar(c);
    let n = c as u32 as nat;
    if n < 0x10000 {
        lemma_str_bmp(b, p, n);
    } else {
        lemma_str_pair(b, p, (n - 0x10000) as nat);
    }
}

proof fn lemma_split(b: Seq<u8>, p: int, x: Seq<u8>, y: Seq<u8>)
    requires
        0 <= p,
        p + x.len() + y.len() <= b.len(),
        b.subrange(p, p + x.len() + y.len()) == x + y,
    ensures
        b.subrange(p, p + x.len()) == x,
        b.subrange(p + x.len(), p + x.len() + y.len()) == y,
        y.len() > 0 ==> b[p + x.len()] == y[0],
{
    let xy = b.subrange(p, p + x.len() + y.len());
    assert(b.subrange(p, p + x.len()) =~= xy.subrange(0, x.len() as int));
    assert(b.subrange(p + x.len(), p + x.len() + y.len()) =~= xy.subrange(
        x.len() as int,
        xy.len() as int,
    ));
    if y.len() > 0 {
        assert(b[p + x.len()] == xy[x.len() as int]);
    }
}

proof fn lemma_entry_text(b: Seq<u8>, p: int, e: MapEntry)
    requires
        e.val <= FULL,
        0 <= p,
        p + enc_entry(e).len() <= b.len(),
        b.subrange(p, p + enc_entry(e).len()) == enc_entry(e),
    ensures
        entry_at(b, p) == Some((e, p + enc_entry(e).len())),
{
    let ct = char_text(e.chr);
    let num = val_numerator(e.val as nat);
    let dt = decimal_text(num, 10);
    lemma_round_val(e.val as nat);
    lemma_pow10_small();
    assert(enc_entry(e) =~= seq![OPEN_BRACKET] + (ct + (seq![COMMA] + (dt + seq![CLOSE_BRACKET]))));
    lemma_split(b, p, seq![OPEN_BRACKET], ct + (seq![COMMA] + (dt + seq![CLOSE_BRACKET])));
    lemma_split(b, p + 1, ct, seq![COMMA] + (dt + seq![CLOSE_BRACKET]));
    lemma_split(b, p + 1 + ct.len(), seq![COMMA], dt + seq![CLOSE_BRACKET]);
    lemma_split(b, p + 2 + ct.len(), dt, seq![CLOSE_BRACKET]);
    assert(b[p] == OPEN_BRACKET) by {
        assert(b.subrange(p, p + 1)[0] == b[p]);
    }
    lemma_str_at(b, p + 1, e.chr);
    vstd::utf8::char_u32_cast(e.chr, e.chr as u32);
    assert(num / pow10(10) <= 1) by {
        vstd::arithmetic::div_mod::lemma_div_is_ordered(num as int, pow10(10) as int, pow10(10) as int);
        vstd::arithmetic::div_mod::lemma_div_multiples_vanish(1, pow10(10) as int);
    }
    lemma_digits(num / pow10(10), 1);
    assert(pow10(1) == 10) by {
        reveal_with_fuel(pow10, 2);
    }
    lemma_decimal_at(b, p + 2 + ct.len(), num, 10);
}

/// The canonical text of a nonempty run of entries reads back as that run.
proof fn lemma_entries_text(b: Seq<u8>, p: int, s: Seq<MapEntry>, acc: Seq<MapEntry>)
    requires
        s.len() > 0,
        forall|i: int| 0 <= i < s.len() ==> (#[trigger] s[i]).val <= FULL,
        0 <= p,
        p + enc_entries(s).len() < b.len(),
        b.subrange(p, p + enc_entries(s).len()) == enc_entries(s),
        b[p + enc_entries(s).len()] == CLOSE_BRACKET,
    ensures
        entries_from(b, p, acc) == Some((acc + s, p + enc_entries(s).len())),
    decreases s.len(),
{
    reveal_with_fuel(entries_from, 1);
    lemma_entries_front(s);
    let e0 = s[0];
    let l0 = enc_entry(e0).len() as int;
    if s.len() == 1 {
        lemma_entry_text(b, p, e0);
        assert(acc.push(e0) =~= acc + s);
    } else {
        let rest = s.drop_first();
        let er = enc_entries(rest);
        assert(enc_entries(s) =~= enc_entry(e0) + (seq![COMMA] + er));
        lemma_split(b, p, enc_entry(e0), seq![COMMA] + er);
        lemma_split(b, p + l0, seq![COMMA], er);
        lemma_entry_text(b, p, e0);
        assert(b[p + l0] == COMMA) by {
            assert(b.subrange(p + l0, p + l0 + 1)[0] == b[p + l0]);
        }
        lemma_entries_text(b, p + l0 + 1, rest, acc.push(e0));
        assert(acc.push(e0) + rest =~= acc + s);
    }
}

proof fn lemma_tail_text(b: Seq<u8>, p: int, m: Mapping)
    requires
        m.wf(),
        0 <= p,
        b.len() == p + (width_text() + decimal_text(px_numerator(m.width), 6) + height_text()
            + decimal_text(px_numerator(m.height), 6) + fudge_text() + decimal_text(
            fudge_numerator(m.divisor),
            20,
        ) + seq![CLOSE_BRACE]).len(),
        b.subrange(p, b.len() as int) == width_text() + decimal_text(px_numerator(m.width), 6)
            + height_text() + decimal_text(px_numerator(m.height), 6) + fudge_text()
            + decimal_text(fudge_numerator(m.divisor), 20) + seq![CLOSE_BRACE],
    ensures
        tail_at(b, p) == Some((m.width, m.height, m.divisor)),
{
    reveal(tail_at);
    lemma_pow10_small();
    let dw = decimal_text(px_numerator(m.width), 6);
    let dh = decimal_text(px_numerator(m.height), 6);
    let df = decimal_text(fudge_numerator(m.divisor), 20);
    let cb = seq![CLOSE_BRACE];
    assert(b.subrange(p, b.len() as int) =~= width_text() + (dw + (height_text() + (dh + (
    fudge_text() + (df + cb))))));
    lemma_split(b, p, width_text(), dw + (height_text() + (dh + (fudge_text() + (df + cb)))));
    let p1 = p + 10;
    lemma_split(b, p1, dw, height_text() + (dh + (fudge_text() + (df + cb))));
    let p2 = p1 + dw.len();
    lemma_split(b, p2, height_text(), dh + (fudge_text() + (df + cb)));
    let p3 = p2 + 10;
    lemma_split(b, p3, dh, fudge_text() + (df + cb));
    let p4 = p3 + dh.len();
    lemma_split(b, p4, fudge_text(), df + cb);
    let p5 = p4 + 16;
    lemma_split(b, p5, df, cb);
    lemma_round_px(m.width);
    lemma_round_px(m.height);
    lemma_round_divisor(m.divisor);
    assert(px_numerator(m.width) / pow10(6) < pow10(8)) by {
        reveal_with_fuel(pow10, 9);
    }
    assert(px_numerator(m.height) / pow10(6) < pow10(8)) by {
        reveal_with_fuel(pow10, 9);
    }
    assert(fudge_numerator(m.divisor) / pow10(20) < pow10(1)) by {
        reveal_with_fuel(pow10, 2);
        vstd::arithmetic::div_mod::lemma_div_is_ordered(
            fudge_numerator(m.divisor) as int,
            pow10(20) as int,
            pow10(20) as int,
        );
        vstd::arithmetic::div_mod::lemma_div_multiples_vanish(1, pow10(20) as int);
    }
    lemma_digits(px_numerator(m.width) / pow10(6), 8);
    lemma_digits(px_numerator(m.height) / pow10(6), 8);
    lemma_digits(fudge_numerator(m.divisor) / pow10(20), 1);
    lemma_decimal_at(b, p1, px_numerator(m.width), 6);
    lemma_decimal_at(b, p3, px_numerator(m.height), 6);
    lemma_decimal_at(b, p5, fudge_numerator(m.divisor), 20);
}

/// Reading back the text of a well-formed mapping gives that mapping.
pub proof fn lemma_round_trip(m: Mapping)
    requires
        m.wf(),
    ensures
        decode(encode(m)) == Some(m),
{
    reveal(decode);
    let b = encode(m);
    let e = enc_entries(m.values);
    let t = width_text() + decimal_text(px_numerator(m.width), 6) + height_text() + decimal_text(
        px_numerator(m.height),
        6,
    ) + fudge_text() + decimal_text(fudge_numerator(m.divisor), 20) + seq![CLOSE_BRACE];
    assert(b =~= head_text() + (e + t));
    assert(b.subrange(0, 11 + (e + t).len() as int) =~= head_text() + (e + t));
    lemma_split(b, 0, head_text(), e + t);
    lemma_split(b, 11, e, t);
    let q = 11 + e.len() as int;
    assert(b[q] == CLOSE_BRACKET) by {
        assert(b.subrange(q, q + t.len())[0] == b[q]);
    }
    lemma_entries_text(b, 11, m.values, Seq::empty());
    assert(Seq::<MapEntry>::empty() + m.values =~= m.values);
    assert(b.subrange(q, b.len() as int) =~= b.subrange(q, q + t.len()));
    lemma_tail_text(b, q, m);
}

impl FontData {
    /// Append the JSON text of the mapping to `out`.
    pub fn serialize(&self, out: &mut Vec<u8>)
        ensures
            final(out)@ == old(out)@ + encode(self@),
    {
        self.lemma_wf();
        let ghost start = old(out)@;
        let head: [u8; 11] = [
            OPEN_BRACE,
            QUOTE,
            118u8,
            97u8,
            108u8,
            117u8,
            101u8,
            115u8,
            QUOTE,
            COLON,
            OPEN_BRACKET,
        ];
        assert(head@ =~= head_text());
        push_text(out, &head);
        let values = self.values();
        let ten = pow10_exec(10);
        proof {
            lemma_pow10_small();
        }
        let mut i: usize = 0;
        while i < values.len()
            invariant
                i <= values@.len(),
                values@ == self@.values,
                self@.wf(),
                ten == pow10(10),
                ten == 10_000_000_000,
                out@ == start + head_text() + enc_entries(values@.take(i as int)),
            decreases values@.len() - i,
        {
            let ghost before = out@;
            assert(values@.take(i + 1).drop_last() =~= values@.take(i as int));
            if i > 0 {
                out.push(COMMA);
            }
            let e = values[i];
            out.push(OPEN_BRACKET);
            push_char(out, e.chr);
            out.push(COMMA);
            assert(e.val <= FULL);
            assert((e.val as u128) * ten <= 65535 * 10_000_000_000) by (nonlinear_arith)
                requires
                    e.val <= 65535,
                    ten == 10_000_000_000,
            ;
            let num = (e.val as u128) * ten / (FULL as u128);
            assert(num <= ten) by {
                vstd::arithmetic::div_mod::lemma_div_is_ordered(
                    (e.val as u128 * ten) as int,
                    65535 * ten as int,
                    65535,
                );
                vstd::arithmetic::div_mod::lemma_div_multiples_vanish(ten as int, 65535);
            }
            assert(num / ten <= 1) by {
                vstd::arithmetic::div_mod::lemma_div_is_ordered(num as int, ten as int, ten as int);
            }
            push_decimal(out, num, 10);
            out.push(CLOSE_BRACKET);
            proof {
                if i == 0 {
                    assert(values@.take(1) =~= seq![e]);
                    assert(out@ =~= before + enc_entry(e));
                } else {
                    assert(out@ =~= before + seq![COMMA] + enc_entry(e));
                }
            }
            i = i + 1;
        }
        assert(values@.take(i as int) =~= values@);
        let wt: [u8; 10] = [CLOSE_BRACKET, COMMA, QUOTE, 119u8, 105u8, 100u8, 116u8, 104u8, QUOTE, COLON];
        assert(wt@ =~= width_text());
        push_text(out, &wt);
        let (w, h) = self.geometry();
        push_decimal(out, (w as u128) * 15625, 6);
        let ht: [u8; 10] = [COMMA, QUOTE, 104u8, 101u8, 105u8, 103u8, 104u8, 116u8, QUOTE, COLON];
        assert(ht@ =~= height_text());
        push_text(out, &ht);
        push_decimal(out, (h as u128) * 15625, 6);
        let ft: [u8; 16] = [
            COMMA,
            QUOTE,
            102u8,
            117u8,
            100u8,
            103u8,
            101u8,
            95u8,
            102u8,
            97u8,
            99u8,
            116u8,
            111u8,
            114u8,
            QUOTE,
            COLON,
        ];
        assert(ft@ =~= fudge_text());
        push_text(out, &ft);
        let p20 = pow10_exec(20);
        let d = self.fudge_divisor() as u128;
        assert(p20 / d <= p20) by {
            vstd::arithmetic::div_mod::lemma_div_is_ordered_by_denominator(p20 as int, 1, d as int);
        }
        assert((p20 / d) / p20 <= 1) by {
            vstd::arithmetic::div_mod::lemma_div_is_ordered((p20 / d) as int, p20 as int, p20 as int);
        }
        push_decimal(out, p20 / d, 20);
        out.push(CLOSE_BRACE);
        assert(out@ =~= start + encode(self@));
    }

    /// Read a mapping back from its JSON text: exactly the mapping that
    /// `decode` describes, or `IOError` where the text describes none.
    pub fn deserialize(bytes: &[u8]) -> (r: Result<FontData, Error>)
        ensures
            match decode(bytes@) {
                Some(m) => r matches Ok(fd) && fd@ == m,
                None => r matches Err(e) && e is IOError,
            },
    {
        let r = read_mapping(bytes);
        proof {
            reveal(decode);
        }
        match r {
            Some(fd) => Ok(fd),
            None => Err(Error::IOError(String::from_str("font data does not follow the layout"))),
        }
    }
}

} // verus!
