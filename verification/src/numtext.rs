//! Decimal and hexadecimal numbers in text: the parsing rules of Rust's
//! `FromStr` / `from_str_radix` for integers, and plain decimal and
//! zero-padded hexadecimal rendering.

use vstd::prelude::*;
use vstd::arithmetic::div_mod::*;
use crate::text::push_char;

verus! {

// ── Digits ──────────────────────────────────────────────────────────

/// A decimal digit.
pub open spec fn is_dec_digit(c: char) -> bool {
    '0' <= c && c <= '9'
}

/// Value of a decimal digit.
pub open spec fn dec_digit_value(c: char) -> nat {
    (c as u32 - '0' as u32) as nat
}

/// A hexadecimal digit of either case.
pub open spec fn is_hex_digit(c: char) -> bool {
    ('0' <= c && c <= '9') || ('a' <= c && c <= 'f') || ('A' <= c && c <= 'F')
}

/// Value of a hexadecimal digit.
pub open spec fn hex_digit_value(c: char) -> nat {
    if '0' <= c && c <= '9' {
        (c as u32 - '0' as u32) as nat
    } else if 'a' <= c && c <= 'f' {
        (c as u32 - 'a' as u32 + 10) as nat
    } else {
        (c as u32 - 'A' as u32 + 10) as nat
    }
}

/// Number written by a sequence of digits in base `radix` (10 or 16).
pub open spec fn digits_number(s: Seq<char>, radix: nat) -> nat
    decreases s.len(),
{
    if s.len() == 0 {
        0
    } else {
        digits_number(s.drop_last(), radix) * radix + if radix == 16 {
            hex_digit_value(s.last())
        } else {
            dec_digit_value(s.last())
        }
    }
}

/// Every character is a digit of base `radix` (10 or 16).
pub open spec fn all_digits(s: Seq<char>, radix: nat) -> bool {
    forall|i: int|
        0 <= i < s.len() ==> if radix == 16 {
            is_hex_digit(#[trigger] s[i])
        } else {
            is_dec_digit(s[i])
        }
}

/// `s` without one leading `'+'`.
pub open spec fn drop_plus(s: Seq<char>) -> Seq<char> {
    if s.len() > 0 && s[0] == '+' {
        s.drop_first()
    } else {
        s
    }
}

/// An unsigned integer in base `radix` no greater than `max`, as Rust's
/// integer parsing reads it: an optional `'+'`, then at least one digit.
pub open spec fn parse_unsigned_spec(s: Seq<char>, radix: nat, max: nat) -> Option<nat> {
    let d = drop_plus(s);
    if d.len() == 0 || !all_digits(d, radix) || digits_number(d, radix) > max {
        None
    } else {
        Some(digits_number(d, radix))
    }
}

/// A signed decimal `i64` as `i64::from_str` reads it: an optional sign,
/// then at least one digit, within range.
pub open spec fn parse_i64_spec(s: Seq<char>) -> Option<int> {
    if s.len() > 0 && s[0] == '-' {
        let d = s.drop_first();
        if d.len() == 0 || !all_digits(d, 10) || digits_number(d, 10) > 0x8000_0000_0000_0000 {
            None
        } else {
            Some(-(digits_number(d, 10) as int))
        }
    } else {
        match parse_unsigned_spec(s, 10, 0x7fff_ffff_ffff_ffff) {
            Some(v) => Some(v as int),
            None => None,
        }
    }
}

/// Parses the digits `v[from..]` in base `radix`, rejecting values above
/// `max`.
fn parse_digits(v: &[char], from: usize, radix: u64, max: u64) -> (r: Option<u64>)
    requires
        from <= v@.len(),
        radix == 10 || radix == 16,
    ensures
        ({
            let d = v@.skip(from as int);
            match r {
                Some(x) => d.len() > 0 && all_digits(d, radix as nat) && digits_number(d, radix as nat)
                    <= max && x == digits_number(d, radix as nat),
                None => d.len() == 0 || !all_digits(d, radix as nat) || digits_number(d, radix as nat)
                    > max,
            }
        }),
{
    if from == v.len() {
        return None;
    }
    let ghost d = v@.skip(from as int);
    let mut acc: u64 = 0;
    let mut i = from;
    assert(v@.subrange(from as int, from as int) =~= Seq::<char>::empty());
    while i < v.len()
        invariant
            from <= i <= v@.len(),
            d == v@.skip(from as int),
            radix == 10 || radix == 16,
            all_digits(v@.subrange(from as int, i as int), radix as nat),
            acc as nat == digits_number(v@.subrange(from as int, i as int), radix as nat),
            acc <= max,
        decreases v.len() - i,
    {
        let c = v[i];
        let dv: u64 = if radix == 16 {
            if '0' <= c && c <= '9' {
                (c as u32 - '0' as u32) as u64
            } else if 'a' <= c && c <= 'f' {
                (c as u32 - 'a' as u32 + 10) as u64
            } else if 'A' <= c && c <= 'F' {
                (c as u32 - 'A' as u32 + 10) as u64
            } else {
                assert(!is_hex_digit(d[i - from]));
                return None;
            }
        } else {
            if '0' <= c && c <= '9' {
                (c as u32 - '0' as u32) as u64
            } else {
                assert(!is_dec_digit(d[i - from]));
                return None;
            }
        };
        let ghost pre = v@.subrange(from as int, i as int);
        let ghost post = v@.subrange(from as int, i + 1);
        assert(post.drop_last() == pre);
        assert(post.last() == c);
        assert forall|k: int| 0 <= k < post.len() implies (if radix == 16 {
            is_hex_digit(#[trigger] post[k])
        } else {
            is_dec_digit(post[k])
        }) by {
            if k < pre.len() {
                assert(post[k] == pre[k]);
            }
        }
        if dv > max || acc > (max - dv) / radix {
            // The digits read so far already exceed `max`, and more digits
            // only make the number larger.
            proof {
                if dv <= max {
                    let m = (max - dv) as int;
                    let q = m / (radix as int);
                    lemma_fundamental_div_mod(m, radix as int);
                    assert(acc as int * radix as int >= (q + 1) * radix as int) by (nonlinear_arith)
                        requires
                            acc as int >= q + 1,
                            radix > 0,
                    ;
                }
                lemma_digits_grow(v@.skip(from as int), (i + 1 - from) as nat, radix as nat);
                assert(v@.skip(from as int).take((i + 1 - from) as int) == post);
            }
            return None;
        }
        proof {
            let m = (max - dv) as int;
            let q = m / (radix as int);
            lemma_fundamental_div_mod(m, radix as int);
            assert(acc as int * radix as int <= q * radix as int) by (nonlinear_arith)
                requires
                    acc as int <= q,
                    radix > 0,
            ;
        }
        acc = acc * radix + dv;
        i = i + 1;
    }
    assert(v@.subrange(from as int, v.len() as int) == d);
    Some(acc)
}

/// A longer digit string denotes at least as much as its prefix, when all
/// its characters are digits.
proof fn lemma_digits_grow(d: Seq<char>, k: nat, radix: nat)
    requires
        k <= d.len(),
        radix == 10 || radix == 16,
    ensures
        all_digits(d, radix) ==> digits_number(d, radix) >= digits_number(d.take(k as int), radix),
    decreases d.len(),
{
    if k < d.len() && all_digits(d, radix) {
        assert(all_digits(d.drop_last(), radix)) by {
            assert forall|i: int| 0 <= i < d.drop_last().len() implies (if radix == 16 {
                is_hex_digit(#[trigger] d.drop_last()[i])
            } else {
                is_dec_digit(d.drop_last()[i])
            }) by {
                assert(d.drop_last()[i] == d[i]);
            }
        }
        lemma_digits_grow(d.drop_last(), k, radix);
        assert(d.drop_last().take(k as int) == d.take(k as int));
        let a = digits_number(d.drop_last(), radix);
        assert(a * radix >= a) by (nonlinear_arith)
            requires
                radix >= 1,
        ;
    } else if k == d.len() {
        assert(d.take(k as int) == d);
    }
}

/// Rust's reading of an unsigned integer in base `radix` (10 or 16) that
/// must not exceed `max`.
pub fn parse_unsigned(v: &[char], radix: u64, max: u64) -> (r: Option<u64>)
    requires
        radix == 10 || radix == 16,
    ensures
        r == (match parse_unsigned_spec(v@, radix as nat, max as nat) {
            Some(x) => Some(x as u64),
            None => None::<u64>,
        }),
{
    let from: usize = if v.len() > 0 && v[0] == '+' {
        1
    } else {
        0
    };
    assert(v@.skip(from as int) == drop_plus(v@));
    parse_digits(v, from, radix, max)
}

/// `i64::from_str` on a character sequence.
pub fn parse_i64(v: &[char]) -> (r: Option<i64>)
    ensures
        r == (match parse_i64_spec(v@) {
            Some(x) => Some(x as i64),
            None => None::<i64>,
        }),
{
    if v.len() > 0 && v[0] == '-' {
        assert(v@.skip(1) == v@.drop_first());
        match parse_digits(v, 1, 10, 0x8000_0000_0000_0000) {
            Some(x) => {
                if x == 0x8000_0000_0000_0000 {
                    Some(i64::MIN)
                } else {
                    Some(-(x as i64))
                }
            },
            None => None,
        }
    } else {
        match parse_unsigned(v, 10, 0x7fff_ffff_ffff_ffff) {
            Some(x) => Some(x as i64),
            None => None,
        }
    }
}

// ── Rendering ───────────────────────────────────────────────────────

/// The character of digit `d` (below 16), lower-case for 10..15.
pub open spec fn digit_char(d: nat) -> char {
    if d < 10 {
        ((d + 0x30) as u8) as char
    } else {
        ((d - 10 + 0x61) as u8) as char
    }
}

/// Digits of `n` in base `radix`, most significant first, without leading
/// zeros (`"0"` for zero).
pub open spec fn radix_text(n: nat, radix: nat) -> Seq<char>
    decreases n,
{
    if n < radix || radix < 2 {
        seq![digit_char(n)]
    } else {
        proof {
            lemma_div_decreases(n as int, radix as int);
        }
        radix_text(n / radix, radix).push(digit_char(n % radix))
    }
}

/// Decimal text of a signed number.
pub open spec fn int_text(n: int) -> Seq<char> {
    if n < 0 {
        seq!['-'] + radix_text((-n) as nat, 10)
    } else {
        radix_text(n as nat, 10)
    }
}

proof fn lemma_digit_char_value(d: nat, radix: nat)
    requires
        radix == 10 || radix == 16,
        d < radix,
    ensures
        (if radix == 16 {
            hex_digit_value(digit_char(d))
        } else {
            dec_digit_value(digit_char(d))
        }) == d,
{
    let c = digit_char(d);
    if d < 10 {
        assert(c as u32 == d + 0x30);
    } else {
        assert(c as u32 == d - 10 + 0x61);
    }
}

/// Reading the digits of `n` back in the same base gives `n`; they are all
/// digits of that base.
pub proof fn lemma_radix_text_roundtrip(n: nat, radix: nat)
    requires
        radix == 10 || radix == 16,
    ensures
        radix_text(n, radix).len() > 0,
        all_digits(radix_text(n, radix), radix),
        digits_number(radix_text(n, radix), radix) == n,
        forall|i: int| 0 <= i < radix_text(n, radix).len() ==> {
            let c = #[trigger] radix_text(n, radix)[i];
            ('0' <= c <= '9') || ('a' <= c <= 'f')
        },
    decreases n,
{
    let t = radix_text(n, radix);
    if n < radix {
        assert(t == seq![digit_char(n)]);
        assert(t.drop_last() =~= Seq::<char>::empty());
        lemma_digit_char_value(n, radix);
        assert(digits_number(t.drop_last(), radix) == 0);
        assert(digits_number(t, radix) == 0 * radix + n);
    } else {
        lemma_div_decreases(n as int, radix as int);
        lemma_radix_text_roundtrip(n / radix, radix);
        let d = n % radix;
        let p = radix_text(n / radix, radix);
        assert(t == p.push(digit_char(d)));
        assert(t.drop_last() =~= p);
        assert(n == (n / radix) * radix + d) by {
            lemma_fundamental_div_mod(n as int, radix as int);
        }
        lemma_digit_char_value(d, radix);
        assert(digits_number(t, radix) == digits_number(p, radix) * radix + (if radix == 16 {
            hex_digit_value(digit_char(d))
        } else {
            dec_digit_value(digit_char(d))
        }));
        assert(digits_number(p, radix) == n / radix);
        assert(digits_number(t, radix) == (n / radix) * radix + d);
        assert forall|i: int| 0 <= i < t.len() implies (if radix == 16 {
            is_hex_digit(#[trigger] t[i])
        } else {
            is_dec_digit(t[i])
        }) by {
            if i < p.len() {
                assert(t[i] == p[i]);
            }
        }
    }
}

/// `s` padded on the left with `'0'` to at least `width` characters.
pub open spec fn zero_pad(s: Seq<char>, width: nat) -> Seq<char> {
    if s.len() >= width {
        s
    } else {
        Seq::new((width - s.len()) as nat, |i: int| '0') + s
    }
}

fn digit_char_of(d: u64) -> (c: char)
    requires
        d < 16,
    ensures
        c == digit_char(d as nat),
{
    if d < 10 {
        ((d + 0x30) as u8) as char
    } else {
        ((d - 10 + 0x61) as u8) as char
    }
}

/// Digits of `n` in base `radix` (10 or 16).
pub fn radix_digits(n: u64, radix: u64) -> (r: Vec<char>)
    requires
        radix == 10 || radix == 16,
    ensures
        r@ == radix_text(n as nat, radix as nat),
{
    let mut r: Vec<char> = Vec::new();
    let mut m = n;
    loop
        invariant_except_break
            radix == 10 || radix == 16,
            radix_text(n as nat, radix as nat) == radix_text(m as nat, radix as nat) + r@,
        ensures
            radix_text(n as nat, radix as nat) == r@,
        decreases m,
    {
        let c = digit_char_of(m % radix);
        let ghost old_r = r@;
        r.insert(0, c);
        if m < radix {
            assert(r@ =~= seq![c] + old_r);
            break;
        }
        assert(radix_text(m as nat, radix as nat) == radix_text((m / radix) as nat, radix as nat).push(c));
        assert(radix_text((m / radix) as nat, radix as nat).push(c) + old_r =~= radix_text(
            (m / radix) as nat,
            radix as nat,
        ) + r@);
        m = m / radix;
    }
    r
}

/// Appends the decimal text of `n` to `s`.
pub fn push_int(s: &mut String, n: i64)
    ensures
        final(s)@ == old(s)@ + int_text(n as int),
{
    let ghost start = s@;
    let digits = if n < 0 {
        push_char(s, '-');
        if n == i64::MIN {
            radix_digits(0x8000_0000_0000_0000, 10)
        } else {
            radix_digits((-n) as u64, 10)
        }
    } else {
        radix_digits(n as u64, 10)
    };
    let ghost mid = s@;
    let mut i: usize = 0;
    while i < digits.len()
        invariant
            i <= digits.len(),
            s@ == mid + digits@.take(i as int),
        decreases digits.len() - i,
    {
        push_char(s, digits[i]);
        i = i + 1;
        assert(s@ == mid + digits@.take(i as int));
    }
    assert(digits@.take(digits.len() as int) == digits@);
    assert(s@ =~= start + int_text(n as int));
}

/// Appends the decimal text of `n` to `s`.
pub fn push_uint(s: &mut String, n: u64)
    ensures
        final(s)@ == old(s)@ + radix_text(n as nat, 10),
{
    let digits = radix_digits(n, 10);
    let ghost mid = s@;
    let mut i: usize = 0;
    while i < digits.len()
        invariant
            i <= digits.len(),
            s@ == mid + digits@.take(i as int),
        decreases digits.len() - i,
    {
        push_char(s, digits[i]);
        i = i + 1;
        assert(s@ == mid + digits@.take(i as int));
    }
    assert(digits@.take(digits.len() as int) == digits@);
}

} // verus!
