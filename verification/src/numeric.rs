//! Decimal and hexadecimal number parsing and formatting over character
//! sequences, with the lemmas that make them inverses of one another.

use crate::text::spec_is_ws;
use vstd::prelude::*;

verus! {

/// The value of one digit character under `radix` (10 or 16), accepting
/// both lower- and upper-case hexadecimal letters.
pub open spec fn spec_digit_of(c: char, radix: nat) -> Option<nat> {
    let u = c as u32;
    if 48 <= u && u <= 57 {
        if (u - 48) < radix {
            Some((u - 48) as nat)
        } else {
            None
        }
    } else if 97 <= u && u <= 102 {
        if (u - 87) < radix {
            Some((u - 87) as nat)
        } else {
            None
        }
    } else if 65 <= u && u <= 70 {
        if (u - 55) < radix {
            Some((u - 55) as nat)
        } else {
            None
        }
    } else {
        None
    }
}

/// Executable twin of [`spec_digit_of`].
pub fn digit_of(c: char, radix: u64) -> (r: Option<u64>)
    ensures
        match r {
            Some(d) => spec_digit_of(c, radix as nat) == Some(d as nat) && d < radix,
            None => spec_digit_of(c, radix as nat) is None,
        },
{
    let u = c as u32;
    let v: u64 = if 48 <= u && u <= 57 {
        (u - 48) as u64
    } else if 97 <= u && u <= 102 {
        (u - 87) as u64
    } else if 65 <= u && u <= 70 {
        (u - 55) as u64
    } else {
        return None;
    };
    if v < radix {
        Some(v)
    } else {
        None
    }
}

/// Every character of `s` is a digit under `radix`.
pub open spec fn spec_all_digits(s: Seq<char>, radix: nat) -> bool {
    forall|i: int| 0 <= i < s.len() ==> spec_digit_of(#[trigger] s[i], radix) is Some
}

/// The numeric value of an all-digit sequence under `radix`.
pub open spec fn spec_digits_val(s: Seq<char>, radix: nat) -> nat
    decreases s.len(),
{
    if s.len() == 0 {
        0
    } else {
        spec_digits_val(s.drop_last(), radix) * radix + match spec_digit_of(s.last(), radix) {
            Some(d) => d,
            None => 0,
        }
    }
}

/// What `u64::from_str_radix` (and `str::parse` for decimal) accepts for an
/// unsigned value bounded by `max`: an optional leading `+`, then one or
/// more digits whose value does not exceed `max`.
pub open spec fn spec_parse_uint(s: Seq<char>, radix: nat, max: nat) -> Option<nat> {
    let t = if s.len() > 0 && s[0] == '+' {
        s.drop_first()
    } else {
        s
    };
    if t.len() > 0 && spec_all_digits(t, radix) && spec_digits_val(t, radix) <= max {
        Some(spec_digits_val(t, radix))
    } else {
        None
    }
}

/// What `str::parse::<i32>` accepts: an optional sign, then decimal digits,
/// within the two's-complement range.
pub open spec fn spec_parse_i32(s: Seq<char>) -> Option<int> {
    if s.len() > 0 && s[0] == '-' {
        let t = s.drop_first();
        if t.len() > 0 && spec_all_digits(t, 10) && spec_digits_val(t, 10) <= 0x8000_0000 {
            Some(-(spec_digits_val(t, 10) as int))
        } else {
            None
        }
    } else {
        match spec_parse_uint(s, 10, 0x7fff_ffff) {
            Some(v) => Some(v as int),
            None => None,
        }
    }
}

/// `s` with every leading repetition of `0x` removed, as
/// `str::trim_start_matches("0x")` leaves it.
pub open spec fn spec_strip_0x(s: Seq<char>) -> Seq<char>
    decreases s.len(),
{
    if s.len() >= 2 && s[0] == '0' && s[1] == 'x' {
        spec_strip_0x(s.skip(2))
    } else {
        s
    }
}

/// How a hexadecimal field of a module record is read: leading `0x`
/// repetitions stripped, the remainder parsed as hexadecimal.
pub open spec fn spec_parse_hex(s: Seq<char>, max: nat) -> Option<nat> {
    spec_parse_uint(spec_strip_0x(s), 16, max)
}

/// A value's digit under formatting: `0`-`9` then lowercase `a`-`f`.
pub open spec fn spec_digit_char(d: nat) -> char {
    if d < 10 {
        ((48 + d) as u32) as char
    } else {
        ((87 + d) as u32) as char
    }
}

/// The decimal digits of `n`, most significant first, no sign or padding.
pub open spec fn spec_dec_digits(n: nat) -> Seq<char>
    decreases n,
{
    if n < 10 {
        seq![spec_digit_char(n)]
    } else {
        spec_dec_digits(n / 10) + seq![spec_digit_char(n % 10)]
    }
}

/// The lowercase hexadecimal digits of `n`, most significant first.
pub open spec fn spec_hex_digits(n: nat) -> Seq<char>
    decreases n,
{
    if n < 16 {
        seq![spec_digit_char(n)]
    } else {
        spec_hex_digits(n / 16) + seq![spec_digit_char(n % 16)]
    }
}

/// The decimal rendering of a signed value: a `-` sign when negative.
pub open spec fn spec_int_digits(v: int) -> Seq<char> {
    if v < 0 {
        seq!['-'] + spec_dec_digits((-v) as nat)
    } else {
        spec_dec_digits(v as nat)
    }
}

/// `s` left-padded with `0` characters to width `w`.
pub open spec fn spec_zero_pad(s: Seq<char>, w: nat) -> Seq<char> {
    if s.len() >= w {
        s
    } else {
        Seq::new((w - s.len()) as nat, |i: int| '0') + s
    }
}

/// The bytes of an ASCII character sequence, one byte per character.
pub open spec fn spec_ascii_of(s: Seq<char>) -> Seq<u8> {
    Seq::new(s.len(), |i: int| (s[i] as u32) as u8)
}

/// Characters of formatted decimal numbers are ASCII digits.
pub proof fn lemma_dec_digits_ascii(n: nat)
    ensures
        forall|i: int|
            0 <= i < spec_dec_digits(n).len() ==> 48 <= (#[trigger] spec_dec_digits(n)[i])
                as u32 <= 57,
        spec_dec_digits(n).len() >= 1,
    decreases n,
{
    if n < 10 {
    } else {
        lemma_dec_digits_ascii(n / 10);
    }
}

/// Characters of formatted hexadecimal numbers are ASCII digits or `a`-`f`.
pub proof fn lemma_hex_digits_ascii(n: nat)
    ensures
        forall|i: int|
            0 <= i < spec_hex_digits(n).len() ==> {
                let u = (#[trigger] spec_hex_digits(n)[i]) as u32;
                (48 <= u <= 57) || (97 <= u <= 102)
            },
        spec_hex_digits(n).len() >= 1,
    decreases n,
{
    if n < 16 {
    } else {
        lemma_hex_digits_ascii(n / 16);
    }
}

/// Formatted decimal digits parse back to the formatted value.
pub proof fn lemma_dec_digits_val(n: nat)
    ensures
        spec_all_digits(spec_dec_digits(n), 10),
        spec_digits_val(spec_dec_digits(n), 10) == n,
    decreases n,
{
    let s = spec_dec_digits(n);
    if n < 10 {
        assert(spec_digit_of(spec_digit_char(n), 10) == Some(n));
        assert(s.drop_last() =~= Seq::<char>::empty());
        assert(spec_digits_val(Seq::<char>::empty(), 10) == 0);
        assert(s.last() == spec_digit_char(n));
    } else {
        lemma_dec_digits_val(n / 10);
        let a = spec_dec_digits(n / 10);
        assert(s == a + seq![spec_digit_char(n % 10)]);
        assert(s.drop_last() =~= a);
        assert(s.last() == spec_digit_char(n % 10));
        assert(spec_digit_of(spec_digit_char(n % 10), 10) == Some(n % 10));
        assert(spec_digits_val(s, 10) == n / 10 * 10 + n % 10);
        assert(n / 10 * 10 + n % 10 == n) by (nonlinear_arith);
        assert forall|i: int| 0 <= i < s.len() implies spec_digit_of(s[i], 10) is Some by {
            if i < a.len() {
                assert(s[i] == a[i]);
            }
        }
    }
}

/// Formatted hexadecimal digits parse back to the formatted value.
pub proof fn lemma_hex_digits_val(n: nat)
    ensures
        spec_all_digits(spec_hex_digits(n), 16),
        spec_digits_val(spec_hex_digits(n), 16) == n,
    decreases n,
{
    let s = spec_hex_digits(n);
    if n < 16 {
        assert(spec_digit_of(spec_digit_char(n), 16) == Some(n));
        assert(s.drop_last() =~= Seq::<char>::empty());
        assert(spec_digits_val(Seq::<char>::empty(), 16) == 0);
        assert(s.last() == spec_digit_char(n));
    } else {
        lemma_hex_digits_val(n / 16);
        let a = spec_hex_digits(n / 16);
        assert(s == a + seq![spec_digit_char(n % 16)]);
        assert(s.drop_last() =~= a);
        assert(s.last() == spec_digit_char(n % 16));
        assert(spec_digit_of(spec_digit_char(n % 16), 16) == Some(n % 16));
        assert(spec_digits_val(s, 16) == n / 16 * 16 + n % 16);
        assert(n / 16 * 16 + n % 16 == n) by (nonlinear_arith);
        assert forall|i: int| 0 <= i < s.len() implies spec_digit_of(s[i], 16) is Some by {
            if i < a.len() {
                assert(s[i] == a[i]);
            }
        }
    }
}

/// Zero-padding never changes the parsed value.
pub proof fn lemma_zero_pad_val(s: Seq<char>, w: nat, radix: nat)
    requires
        spec_all_digits(s, radix),
        radix >= 2,
    ensures
        spec_all_digits(spec_zero_pad(s, w), radix),
        spec_digits_val(spec_zero_pad(s, w), radix) == spec_digits_val(s, radix),
{
    if s.len() >= w {
    } else {
        let k = (w - s.len()) as nat;
        lemma_zeros_prefix_val(k, s, radix);
    }
}

/// Prepending `k` zero characters keeps an all-digit sequence all-digit and
/// keeps its value.
pub proof fn lemma_zeros_prefix_val(k: nat, s: Seq<char>, radix: nat)
    requires
        spec_all_digits(s, radix),
        radix >= 2,
    ensures
        spec_all_digits(Seq::new(k, |i: int| '0') + s, radix),
        spec_digits_val(Seq::new(k, |i: int| '0') + s, radix) == spec_digits_val(s, radix),
    decreases s.len(),
{
    let z = Seq::new(k, |i: int| '0');
    assert(spec_digit_of('0', radix) == Some(0nat));
    assert forall|i: int| 0 <= i < (z + s).len() implies spec_digit_of(
        #[trigger] (z + s)[i],
        radix,
    ) is Some by {
        if i < k {
            assert((z + s)[i] == '0');
        } else {
            assert((z + s)[i] == s[i - k]);
        }
    }
    if s.len() == 0 {
        lemma_zeros_val(k, radix);
        assert(z + s =~= z);
    } else {
        assert forall|i: int| 0 <= i < s.drop_last().len() implies spec_digit_of(
            #[trigger] s.drop_last()[i],
            radix,
        ) is Some by {
            assert(s.drop_last()[i] == s[i]);
        }
        lemma_zeros_prefix_val(k, s.drop_last(), radix);
        assert((z + s).drop_last() =~= z + s.drop_last());
        assert((z + s).last() == s.last());
    }
}

/// A sequence of zero characters has value zero.
pub proof fn lemma_zeros_val(k: nat, radix: nat)
    requires
        radix >= 1,
    ensures
        spec_digits_val(Seq::new(k, |i: int| '0'), radix) == 0,
    decreases k,
{
    let z = Seq::new(k, |i: int| '0');
    if k == 0 {
    } else {
        lemma_zeros_val((k - 1) as nat, radix);
        assert(z.drop_last() =~= Seq::new((k - 1) as nat, |i: int| '0'));
        assert(spec_digits_val(z.drop_last(), radix) == 0);
        assert(z.last() == '0');
        assert(spec_digit_of(z.last(), radix) == Some(0nat));
        assert(spec_digits_val(z, radix) == 0 * radix + 0);
        assert(0 * radix == 0) by (nonlinear_arith);
    }
}

/// The value of an all-digit prefix never exceeds the value of the whole.
pub proof fn lemma_digits_val_monotonic(s: Seq<char>, j: int, radix: nat)
    requires
        0 <= j <= s.len(),
        radix >= 1,
    ensures
        spec_digits_val(s.take(j), radix) <= spec_digits_val(s, radix),
    decreases s.len() - j,
{
    if j == s.len() {
        assert(s.take(j) =~= s);
    } else {
        lemma_digits_val_monotonic(s, j + 1, radix);
        let a = spec_digits_val(s.take(j), radix);
        let d = match spec_digit_of(s.take(j + 1).last(), radix) {
            Some(d) => d,
            None => 0,
        };
        assert(s.take(j + 1).drop_last() =~= s.take(j));
        assert(spec_digits_val(s.take(j + 1), radix) == a * radix + d);
        assert(a * radix >= a) by (nonlinear_arith)
            requires
                radix >= 1,
                a >= 0,
        ;
    }
}

/// Parses an unsigned number of the given radix bounded by `max`, as
/// `from_str_radix` does: an optional `+`, then digits.
fn parse_uint_radix(s: &str, radix: u64, max: u64) -> (r: Option<u64>)
    requires
        radix == 10 || radix == 16,
    ensures
        match r {
            Some(v) => spec_parse_uint(s@, radix as nat, max as nat) == Some(v as nat),
            None => spec_parse_uint(s@, radix as nat, max as nat) is None,
        },
{
    let n = s.unicode_len();
    let off: usize = if n > 0 && s.get_char(0) == '+' {
        1
    } else {
        0
    };
    let ghost t = if off == 1 {
        s@.drop_first()
    } else {
        s@
    };
    proof {
        assert(t =~= s@.subrange(off as int, n as int));
    }
    if off == n {
        return None;
    }
    let mut acc: u128 = 0;
    let mut i: usize = off;
    while i < n
        invariant
            n == s@.len(),
            radix == 10 || radix == 16,
            off <= i <= n,
            off < n,
            off == (if s@.len() > 0 && s@[0] == '+' { 1int } else { 0int }),
            t == (if s@.len() > 0 && s@[0] == '+' { s@.drop_first() } else { s@ }),
            t == s@.subrange(off as int, n as int),
            forall|j: int| off <= j < i ==> spec_digit_of(#[trigger] s@[j], radix as nat) is Some,
            acc == spec_digits_val(s@.subrange(off as int, i as int), radix as nat),
            acc <= max,
            max <= u64::MAX,
        decreases n - i,
    {
        let c = s.get_char(i);
        let d = match digit_of(c, radix) {
            Some(d) => d,
            None => {
                proof {
                    assert(t[i - off] == s@[i as int]);
                    assert(!spec_all_digits(t, radix as nat));
                }
                return None;
            },
        };
        proof {
            assert(acc * (radix as u128) + (d as u128) <= 0xffff_ffff_ffff_ffff * 16 + 15)
                by (nonlinear_arith)
                requires
                    acc <= 0xffff_ffff_ffff_ffff,
                    radix <= 16,
                    d < radix,
            ;
        }
        let next: u128 = acc * (radix as u128) + (d as u128);
        proof {
            let p = s@.subrange(off as int, i as int);
            let q = s@.subrange(off as int, i + 1);
            assert(q.drop_last() =~= p);
            assert(q.last() == s@[i as int]);
            assert(next == spec_digits_val(q, radix as nat));
        }
        if next > max as u128 {
            proof {
                let w = i + 1 - off;
                assert(t.take(w) =~= s@.subrange(off as int, i + 1));
                if spec_all_digits(t, radix as nat) {
                    lemma_digits_val_monotonic(t, w, radix as nat);
                }
            }
            return None;
        }
        acc = next;
        i = i + 1;
    }
    proof {
        assert(t =~= s@.subrange(off as int, n as int));
        assert forall|j: int| 0 <= j < t.len() implies spec_digit_of(
            #[trigger] t[j],
            radix as nat,
        ) is Some by {
            assert(t[j] == s@[j + off]);
        }
        assert(spec_digits_val(t, radix as nat) == acc);
    }
    Some(acc as u64)
}

/// Parses a decimal `u32`, as `str::parse::<u32>` does.
pub fn parse_u32_dec(s: &str) -> (r: Option<u32>)
    ensures
        match r {
            Some(v) => spec_parse_uint(s@, 10, u32::MAX as nat) == Some(v as nat),
            None => spec_parse_uint(s@, 10, u32::MAX as nat) is None,
        },
{
    match parse_uint_radix(s, 10, 0xffff_ffff) {
        Some(v) => Some(v as u32),
        None => None,
    }
}

/// Parses a decimal `usize`, as `str::parse::<usize>` does.
pub fn parse_usize_dec(s: &str) -> (r: Option<usize>)
    ensures
        match r {
            Some(v) => spec_parse_uint(s@, 10, usize::MAX as nat) == Some(v as nat),
            None => spec_parse_uint(s@, 10, usize::MAX as nat) is None,
        },
{
    match parse_uint_radix(s, 10, usize::MAX as u64) {
        Some(v) => Some(v as usize),
        None => None,
    }
}

/// Parses a decimal `i32`, as `str::parse::<i32>` does.
pub fn parse_i32_dec(s: &str) -> (r: Option<i32>)
    ensures
        match r {
            Some(v) => spec_parse_i32(s@) == Some(v as int),
            None => spec_parse_i32(s@) is None,
        },
{
    let n = s.unicode_len();
    if n > 0 && s.get_char(0) == '-' {
        let rest = s.substring_char(1, n);
        proof {
            assert(rest@ =~= s@.drop_first());
        }
        if rest.unicode_len() > 0 && rest.get_char(0) == '+' {
            proof {
                assert(spec_digit_of(s@.drop_first()[0], 10) is None);
            }
            return None;
        }
        match parse_uint_radix(rest, 10, 0x8000_0000) {
            Some(v) => {
                let r: i64 = -(v as i64);
                Some(r as i32)
            },
            None => None,
        }
    } else {
        match parse_uint_radix(s, 10, 0x7fff_ffff) {
            Some(v) => Some(v as i32),
            None => None,
        }
    }
}

/// Strips leading `0x` repetitions, then parses hexadecimal digits bounded
/// by `max`, exactly as module record fields are read.
pub fn parse_hex_u64(s: &str, max: u64) -> (r: Option<u64>)
    ensures
        match r {
            Some(v) => spec_parse_hex(s@, max as nat) == Some(v as nat),
            None => spec_parse_hex(s@, max as nat) is None,
        },
{
    let n = s.unicode_len();
    let mut i: usize = 0;
    proof {
        assert(s@.skip(0) =~= s@);
    }
    while n - i >= 2 && s.get_char(i) == '0' && s.get_char(i + 1) == 'x'
        invariant
            n == s@.len(),
            0 <= i <= n,
            spec_strip_0x(s@) == spec_strip_0x(s@.skip(i as int)),
        decreases n - i,
    {
        proof {
            assert(s@.skip(i as int).skip(2) =~= s@.skip(i + 2));
        }
        i = i + 2;
    }
    let rest = s.substring_char(i, n);
    proof {
        assert(rest@ =~= s@.skip(i as int));
        assert(spec_strip_0x(s@.skip(i as int)) == s@.skip(i as int));
    }
    parse_uint_radix(rest, 16, max)
}

/// Appends the decimal digits of `n` as ASCII bytes.
pub fn push_dec_u64(out: &mut Vec<u8>, n: u64)
    ensures
        final(out)@ == old(out)@ + spec_ascii_of(spec_dec_digits(n as nat)),
    decreases n,
{
    if n < 10 {
        out.push(48 + n as u8);
        proof {
            assert(out@ =~= old(out)@ + spec_ascii_of(spec_dec_digits(n as nat)));
        }
    } else {
        push_dec_u64(out, n / 10);
        out.push(48 + (n % 10) as u8);
        proof {
            let a = spec_dec_digits((n / 10) as nat);
            let b = seq![spec_digit_char((n % 10) as nat)];
            assert(spec_ascii_of(a + b) =~= spec_ascii_of(a) + spec_ascii_of(b));
            assert(out@ =~= old(out)@ + spec_ascii_of(spec_dec_digits(n as nat)));
        }
    }
}

/// Appends the lowercase hexadecimal digits of `n` as ASCII bytes.
pub fn push_hex_u64(out: &mut Vec<u8>, n: u64)
    ensures
        final(out)@ == old(out)@ + spec_ascii_of(spec_hex_digits(n as nat)),
    decreases n,
{
    if n < 16 {
        let d = n as u8;
        out.push(
            if d < 10 {
                48 + d
            } else {
                87 + d
            },
        );
        proof {
            assert(out@ =~= old(out)@ + spec_ascii_of(spec_hex_digits(n as nat)));
        }
    } else {
        push_hex_u64(out, n / 16);
        let d = (n % 16) as u8;
        out.push(
            if d < 10 {
                48 + d
            } else {
                87 + d
            },
        );
        proof {
            let a = spec_hex_digits((n / 16) as nat);
            let b = seq![spec_digit_char((n % 16) as nat)];
            assert(spec_ascii_of(a + b) =~= spec_ascii_of(a) + spec_ascii_of(b));
            assert(out@ =~= old(out)@ + spec_ascii_of(spec_hex_digits(n as nat)));
        }
    }
}

/// The number of hexadecimal digits in the rendering of `n`.
fn hex_len(n: u64) -> (r: usize)
    ensures
        r == spec_hex_digits(n as nat).len(),
        r >= 1,
    decreases n,
{
    if n < 16 {
        1
    } else {
        let rest = hex_len(n / 16);
        proof {
            assert(spec_hex_digits(n as nat).len() == spec_hex_digits((n / 16) as nat).len() + 1);
            lemma_hex_digits_len_le_16(n as nat);
        }
        rest + 1
    }
}

/// A `u64` renders to at most sixteen hexadecimal digits.
pub proof fn lemma_hex_digits_len_le_16(n: nat)
    ensures
        n <= u64::MAX ==> spec_hex_digits(n).len() <= 16,
{
    lemma_hex_digits_len_bound(n, 16);
    reveal_with_fuel(spec_pow16, 17);
    assert(spec_pow16(16) == 0x1_0000_0000_0000_0000);
}

proof fn lemma_hex_digits_len_bound(n: nat, b: nat)
    requires
        b >= 1,
    ensures
        n < spec_pow16(b) ==> spec_hex_digits(n).len() <= b,
    decreases b,
{
    if n < 16 {
    } else if b > 1 {
        lemma_hex_digits_len_bound(n / 16, (b - 1) as nat);
        assert(n < spec_pow16(b) ==> n / 16 < spec_pow16((b - 1) as nat)) by (nonlinear_arith)
            requires
                b >= 2,
                spec_pow16(b) == 16 * spec_pow16((b - 1) as nat),
        ;
    }
}

/// Sixteen to the power `k`.
pub open spec fn spec_pow16(k: nat) -> nat
    decreases k,
{
    if k == 0 {
        1
    } else {
        16 * spec_pow16((k - 1) as nat)
    }
}

/// Appends the hexadecimal digits of `n`, left-padded with zeros to `width`.
pub fn push_hex_u64_padded(out: &mut Vec<u8>, n: u64, width: usize)
    ensures
        final(out)@ == old(out)@ + spec_ascii_of(spec_zero_pad(spec_hex_digits(n as nat), width as nat)),
{
    let len = hex_len(n);
    if width > len {
        let zeros = width - len;
        let mut k: usize = 0;
        while k < zeros
            invariant
                0 <= k <= zeros,
                out@ == old(out)@ + Seq::new(k as nat, |i: int| 48u8),
            decreases zeros - k,
        {
            out.push(48);
            proof {
                assert(out@ =~= old(out)@ + Seq::new((k + 1) as nat, |i: int| 48u8));
            }
            k = k + 1;
        }
        push_hex_u64(out, n);
        proof {
            let digits = spec_hex_digits(n as nat);
            let padded = spec_zero_pad(digits, width as nat);
            assert(padded == Seq::new((width - len) as nat, |i: int| '0') + digits);
            assert(spec_ascii_of(padded) =~= Seq::new(zeros as nat, |i: int| 48u8)
                + spec_ascii_of(digits));
            assert(out@ =~= old(out)@ + spec_ascii_of(padded));
        }
    } else {
        push_hex_u64(out, n);
    }
}

/// Appends the decimal rendering of a signed value, with a `-` sign when
/// negative.
pub fn push_i32_dec(out: &mut Vec<u8>, v: i32)
    ensures
        final(out)@ == old(out)@ + spec_ascii_of(spec_int_digits(v as int)),
{
    if v >= 0 {
        push_dec_u64(out, v as u64);
    } else {
        out.push(45);
        let m: u64 = (-(v as i64)) as u64;
        push_dec_u64(out, m);
        proof {
            let d = spec_dec_digits(m as nat);
            assert(spec_int_digits(v as int) == seq!['-'] + d);
            assert(spec_ascii_of(seq!['-'] + d) =~= seq![45u8] + spec_ascii_of(d));
            assert(out@ =~= old(out)@ + spec_ascii_of(spec_int_digits(v as int)));
        }
    }
}

/// Characters of a signed decimal rendering: a possible `-`, then digits.
pub proof fn lemma_int_digits_ascii(v: int)
    ensures
        forall|i: int|
            0 <= i < spec_int_digits(v).len() ==> {
                let u = (#[trigger] spec_int_digits(v)[i]) as u32;
                u == 45 || (48 <= u <= 57)
            },
        spec_int_digits(v).len() >= 1,
{
    if v < 0 {
        lemma_dec_digits_ascii((-v) as nat);
        let s = spec_int_digits(v);
        let d = spec_dec_digits((-v) as nat);
        assert forall|i: int| 0 <= i < s.len() implies {
            let u = (#[trigger] s[i]) as u32;
            u == 45 || (48 <= u <= 57)
        } by {
            if i == 0 {
                assert(s[0] == '-');
            } else {
                assert(s[i] == d[i - 1]);
            }
        }
    } else {
        lemma_dec_digits_ascii(v as nat);
    }
}

/// Formatted unsigned decimals parse back to their value.
pub proof fn lemma_parse_uint_of_dec(n: nat, max: nat)
    requires
        n <= max,
    ensures
        spec_parse_uint(spec_dec_digits(n), 10, max) == Some(n),
{
    lemma_dec_digits_val(n);
    lemma_dec_digits_ascii(n);
    let s = spec_dec_digits(n);
    assert((s[0] as u32) != 43);
    assert(s[0] != '+') by {
        if s[0] == '+' {
            assert(('+' as u32) == 43);
        }
    }
}

/// A formatted hexadecimal field, `0x` prefix and optional zero padding
/// included, parses back to its value.
pub proof fn lemma_parse_hex_of_formatted(n: nat, w: nat, max: nat)
    requires
        n <= max,
    ensures
        spec_parse_hex("0x"@ + spec_zero_pad(spec_hex_digits(n), w), max) == Some(n),
{
    reveal_strlit("0x");
    lemma_hex_digits_val(n);
    lemma_hex_digits_ascii(n);
    let d = spec_hex_digits(n);
    lemma_zero_pad_val(d, w, 16);
    let p = spec_zero_pad(d, w);
    assert forall|i: int| 0 <= i < p.len() implies spec_digit_of(#[trigger] p[i], 16)
        is Some by {
        if d.len() >= w {
            assert(p[i] == d[i]);
        } else {
            let z = (w - d.len()) as int;
            if i < z {
                assert(p[i] == '0');
            } else {
                assert(p[i] == d[i - z]);
            }
        }
    }
    let s = "0x"@ + p;
    assert(s.len() >= 2 && s[0] == '0' && s[1] == 'x');
    assert(s.skip(2) =~= p);
    assert(p.len() > 0);
    assert(spec_digit_of(p[0], 16) is Some);
    lemma_digit_chars_plain(p[0], 16);
    if p.len() >= 2 {
        lemma_digit_chars_plain(p[1], 16);
        assert(p[1] != 'x');
    }
    assert(spec_strip_0x(p) == p);
    assert(spec_strip_0x(s) == p);
    assert(p[0] != '+') by {
        lemma_digit_chars_plain(p[0], 16);
    }
}

/// A formatted signed decimal parses back to its value under `i32` rules.
pub proof fn lemma_parse_i32_of_int_digits(v: int)
    requires
        -0x8000_0000 <= v <= 0x7fff_ffff,
    ensures
        spec_parse_i32(spec_int_digits(v)) == Some(v),
{
    if v < 0 {
        let d = spec_dec_digits((-v) as nat);
        lemma_dec_digits_val((-v) as nat);
        lemma_dec_digits_ascii((-v) as nat);
        let s = spec_int_digits(v);
        assert(s == seq!['-'] + d);
        assert(s[0] == '-');
        assert(s.drop_first() =~= d);
    } else {
        lemma_parse_uint_of_dec(v as nat, 0x7fff_ffff);
        let s = spec_int_digits(v);
        lemma_dec_digits_ascii(v as nat);
        assert(s[0] != '-') by {
            if s[0] == '-' {
                assert(('-' as u32) == 45);
            }
        }
    }
}

/// Digit and sign characters are never a newline, and formatted fields
/// carry no whitespace, comma or newline at all.
pub proof fn lemma_dec_digits_plain(n: nat)
    ensures
        spec_dec_digits(n).len() >= 1,
        forall|i: int|
            0 <= i < spec_dec_digits(n).len() ==> {
                let c = #[trigger] spec_dec_digits(n)[i];
                &&& !spec_is_ws(c)
                &&& c != ','
                &&& (c as u32) != 10
                &&& (c as u32) < 128
            },
{
    lemma_dec_digits_ascii(n);
}

/// The characters of a formatted signed decimal are plain ASCII: no
/// whitespace, comma or newline.
pub proof fn lemma_int_digits_plain(v: int)
    ensures
        spec_int_digits(v).len() >= 1,
        forall|i: int|
            0 <= i < spec_int_digits(v).len() ==> {
                let c = #[trigger] spec_int_digits(v)[i];
                &&& !spec_is_ws(c)
                &&& c != ','
                &&& (c as u32) != 10
                &&& (c as u32) < 128
            },
{
    lemma_int_digits_ascii(v);
    assert forall|i: int| 0 <= i < spec_int_digits(v).len() implies {
        let c = #[trigger] spec_int_digits(v)[i];
        &&& !spec_is_ws(c)
        &&& c != ','
        &&& (c as u32) != 10
        &&& (c as u32) < 128
    } by {
        let c = spec_int_digits(v)[i];
        assert((c as u32) == 45 || (48 <= (c as u32) <= 57));
        assert(c != ',') by {
            if c == ',' {
                assert((',' as u32) == 44);
            }
        }
    }
}

/// A hexadecimal field as formatted — `0x`, zeros, digits — is plain
/// ASCII: no whitespace, comma or newline.
pub proof fn lemma_hex_field_plain(n: nat, w: nat)
    ensures
        ({
            let f = "0x"@ + spec_zero_pad(spec_hex_digits(n), w);
            &&& f.len() >= 3
            &&& forall|i: int|
                0 <= i < f.len() ==> {
                    let c = #[trigger] f[i];
                    &&& !spec_is_ws(c)
                    &&& c != ','
                    &&& (c as u32) != 10
                    &&& (c as u32) < 128
                }
        }),
{
    reveal_strlit("0x");
    lemma_hex_digits_ascii(n);
    let d = spec_hex_digits(n);
    let p = spec_zero_pad(d, w);
    let f = "0x"@ + p;
    assert(p.len() >= 1);
    assert forall|i: int| 0 <= i < f.len() implies {
        let c = #[trigger] f[i];
        &&& !spec_is_ws(c)
        &&& c != ','
        &&& (c as u32) != 10
        &&& (c as u32) < 128
    } by {
        let c = f[i];
        if i < 2 {
            assert(c == '0' || c == 'x');
        } else {
            assert(c == p[i - 2]);
            if d.len() >= w {
                assert(c == d[i - 2]);
            } else {
                let z = (w - d.len()) as int;
                if i - 2 < z {
                    assert(c == '0');
                } else {
                    assert(c == d[i - 2 - z]);
                }
            }
        }
    }
}

/// Digit characters are not whitespace, not separators, and not signs.
pub proof fn lemma_digit_chars_plain(c: char, radix: nat)
    requires
        spec_digit_of(c, radix) is Some,
    ensures
        !spec_is_ws(c),
        c != ',',
        c != '+',
        c != '-',
        c != '\n',
        c != 'x',
{
}

} // verus!
