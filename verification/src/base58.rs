//! Base58 (Bitcoin alphabet) encoding of byte strings, as used by the brain's
//! wallet addresses: leading zero bytes become leading `'1'` characters and
//! the remaining bytes are written as one big-endian number in base 58.

use vstd::prelude::*;
use vstd::arithmetic::power::*;
use vstd::arithmetic::div_mod::*;
use crate::text::push_char;

verus! {

// ── Numeric models ───────────────────────────────────────────────────

/// The number a byte string denotes, most significant byte first.
pub open spec fn be_value(b: Seq<u8>) -> nat
    decreases b.len(),
{
    if b.len() == 0 {
        0
    } else {
        be_value(b.drop_last()) * 256 + b.last() as nat
    }
}

/// The number a sequence of base-58 digits denotes, most significant first.
pub open spec fn digits_value(d: Seq<u8>) -> nat
    decreases d.len(),
{
    if d.len() == 0 {
        0
    } else {
        digits_value(d.drop_last()) * 58 + d.last() as nat
    }
}

/// The base-58 digits of `n`, most significant first, without leading zero
/// digits (zero itself is the single digit 0).
pub open spec fn base58_digits(n: nat) -> Seq<u8>
    decreases n,
{
    if n < 58 {
        seq![n as u8]
    } else {
        base58_digits(n / 58).push((n % 58) as u8)
    }
}

/// The shortest big-endian byte string (at least one byte) that denotes `n`.
pub open spec fn min_be_bytes(n: nat) -> Seq<u8>
    decreases n,
{
    if n < 256 {
        seq![n as u8]
    } else {
        min_be_bytes(n / 256).push((n % 256) as u8)
    }
}

/// Number of zero bytes at the front of `b`.
pub open spec fn leading_zero_count(b: Seq<u8>) -> nat
    decreases b.len(),
{
    if b.len() > 0 && b[0] == 0 {
        1 + leading_zero_count(b.drop_first())
    } else {
        0
    }
}

/// Number of `'1'` characters at the front of `s`.
pub open spec fn leading_one_count(s: Seq<char>) -> nat
    decreases s.len(),
{
    if s.len() > 0 && s[0] == '1' {
        1 + leading_one_count(s.drop_first())
    } else {
        0
    }
}

// ── Alphabet ─────────────────────────────────────────────────────────

/// ASCII code of the base-58 digit `d` in the alphabet
/// `123456789ABCDEFGHJKLMNPQRSTUVWXYZabcdefghijkmnopqrstuvwxyz`.
pub open spec fn b58_code(d: u8) -> u8 {
    if d < 9 {
        (0x31 + d) as u8
    } else if d < 17 {
        (0x41 + d - 9) as u8
    } else if d < 22 {
        (0x4A + d - 17) as u8
    } else if d < 33 {
        (0x50 + d - 22) as u8
    } else if d < 44 {
        (0x61 + d - 33) as u8
    } else {
        (0x6D + d - 44) as u8
    }
}

/// The alphabet character of digit `d`.
pub open spec fn b58_char(d: u8) -> char {
    b58_code(d) as char
}

/// The digit an alphabet character stands for; `None` outside the alphabet.
pub open spec fn b58_index(c: char) -> Option<u8> {
    let u = c as u32;
    if 0x31 <= u && u <= 0x39 {
        Some((u - 0x31) as u8)
    } else if 0x41 <= u && u <= 0x48 {
        Some((u - 0x41 + 9) as u8)
    } else if 0x4A <= u && u <= 0x4E {
        Some((u - 0x4A + 17) as u8)
    } else if 0x50 <= u && u <= 0x5A {
        Some((u - 0x50 + 22) as u8)
    } else if 0x61 <= u && u <= 0x6B {
        Some((u - 0x61 + 33) as u8)
    } else if 0x6D <= u && u <= 0x7A {
        Some((u - 0x6D + 44) as u8)
    } else {
        None
    }
}

/// Every character of `s` belongs to the alphabet.
pub open spec fn all_b58(s: Seq<char>) -> bool {
    forall|i: int| 0 <= i < s.len() ==> (#[trigger] b58_index(s[i])) is Some
}

/// The digits the characters of `s` stand for.
pub open spec fn b58_digits_of(s: Seq<char>) -> Seq<u8> {
    s.map_values(|c: char| b58_index(c)->0)
}

// ── Codec specifications ─────────────────────────────────────────────

/// Base58 text of `b`: one `'1'` per leading zero byte, then the base-58
/// digits of the number `b` denotes (a lone `'1'` when that number is zero).
pub open spec fn base58_encode_spec(b: Seq<u8>) -> Seq<char> {
    if b.len() == 0 {
        Seq::empty()
    } else {
        Seq::new(leading_zero_count(b), |i: int| '1') + base58_digits(be_value(b)).map_values(
            |d: u8| b58_char(d),
        )
    }
}

/// Bytes denoted by base58 text `s`: `None` when a character lies outside
/// the alphabet; otherwise one zero byte per leading `'1'`, followed by the
/// shortest big-endian bytes (at least one) of the number `s` denotes.
pub open spec fn base58_decode_spec(s: Seq<char>) -> Option<Seq<u8>> {
    if s.len() == 0 {
        Some(Seq::empty())
    } else if !all_b58(s) {
        None
    } else {
        Some(
            Seq::new(leading_one_count(s), |i: int| 0u8) + min_be_bytes(
                digits_value(b58_digits_of(s)),
            ),
        )
    }
}

// ── Lemmas ───────────────────────────────────────────────────────────

proof fn lemma_pow256_pos(n: nat)
    ensures
        pow(256, n) >= 1,
{
    lemma_pow_positive(256, n);
}

/// Value of a concatenation.
pub proof fn lemma_be_concat(a: Seq<u8>, b: Seq<u8>)
    ensures
        be_value(a + b) == be_value(a) * pow(256, b.len()) + be_value(b),
    decreases b.len(),
{
    if b.len() == 0 {
        assert(a + b == a);
        reveal_with_fuel(pow, 1);
    } else {
        lemma_be_concat(a, b.drop_last());
        assert((a + b).drop_last() == a + b.drop_last());
        assert((a + b).last() == b.last());
        let p = pow(256, (b.len() - 1) as nat);
        assert(pow(256, b.len()) == 256 * p) by {
            reveal_with_fuel(pow, 2);
        }
        let x = be_value(a);
        let y = be_value(b.drop_last());
        assert((x * p + y) * 256 + b.last() == x * (256 * p) + (y * 256 + b.last()))
            by (nonlinear_arith);
    }
}

/// A string of zero bytes denotes zero.
proof fn lemma_be_zeros(k: nat)
    ensures
        be_value(Seq::new(k, |i: int| 0u8)) == 0,
    decreases k,
{
    if k > 0 {
        let z = Seq::new(k, |i: int| 0u8);
        assert(z.drop_last() == Seq::new((k - 1) as nat, |i: int| 0u8));
        lemma_be_zeros((k - 1) as nat);
    }
}

/// Digits of zero value.
proof fn lemma_digits_zeros(k: nat)
    ensures
        digits_value(Seq::new(k, |i: int| 0u8)) == 0,
    decreases k,
{
    if k > 0 {
        let z = Seq::new(k, |i: int| 0u8);
        assert(z.drop_last() == Seq::new((k - 1) as nat, |i: int| 0u8));
        lemma_digits_zeros((k - 1) as nat);
    }
}

/// Leading zero digits do not change the value.
proof fn lemma_digits_leading_zeros(k: nat, t: Seq<u8>)
    ensures
        digits_value(Seq::new(k, |i: int| 0u8) + t) == digits_value(t),
    decreases t.len(),
{
    let z = Seq::new(k, |i: int| 0u8);
    if t.len() == 0 {
        assert(z + t == z);
        lemma_digits_zeros(k);
    } else {
        assert((z + t).drop_last() == z + t.drop_last());
        assert((z + t).last() == t.last());
        lemma_digits_leading_zeros(k, t.drop_last());
    }
}

/// A string whose first byte is nonzero denotes at least `256^(len-1)`.
proof fn lemma_be_lower(s: Seq<u8>)
    requires
        s.len() > 0,
        s[0] != 0,
    ensures
        be_value(s) >= pow(256, (s.len() - 1) as nat),
    decreases s.len(),
{
    if s.len() == 1 {
        reveal_with_fuel(pow, 1);
        assert(s.drop_last().len() == 0);
    } else {
        let d = s.drop_last();
        assert(d[0] == s[0]);
        lemma_be_lower(d);
        let p = pow(256, (d.len() - 1) as nat);
        assert(pow(256, (s.len() - 1) as nat) == 256 * p) by {
            reveal_with_fuel(pow, 2);
        }
        assert(be_value(d) * 256 >= p * 256) by (nonlinear_arith)
            requires
                be_value(d) >= p,
        ;
    }
}

/// The shortest big-endian form is unique.
pub proof fn lemma_min_be_bytes_unique(s: Seq<u8>)
    requires
        s.len() >= 1,
        s.len() == 1 || s[0] != 0,
    ensures
        min_be_bytes(be_value(s)) == s,
    decreases s.len(),
{
    if s.len() == 1 {
        assert(s.drop_last() =~= Seq::<u8>::empty());
        reveal_with_fuel(be_value, 2);
        assert(be_value(s) == s[0] as nat);
        assert(min_be_bytes(be_value(s)) =~= s);
    } else {
        let d = s.drop_last();
        lemma_be_lower(s);
        lemma_pow256_pos((s.len() - 2) as nat);
        assert(pow(256, (s.len() - 1) as nat) == 256 * pow(256, (s.len() - 2) as nat)) by {
            reveal_with_fuel(pow, 2);
        }
        let v = be_value(s);
        assert(v >= 256);
        lemma_fundamental_div_mod_converse(v as int, 256, be_value(d) as int, s.last() as int);
        assert(d[0] == s[0]);
        lemma_min_be_bytes_unique(d);
        assert(min_be_bytes(v) =~= d.push(s.last()));
        assert(d.push(s.last()) =~= s);
    }
}

/// The base-58 digits of `n` denote `n`.
pub proof fn lemma_base58_digits_value(n: nat)
    ensures
        digits_value(base58_digits(n)) == n,
        base58_digits(n).len() >= 1,
        forall|i: int| 0 <= i < base58_digits(n).len() ==> base58_digits(n)[i] < 58,
        n > 0 ==> base58_digits(n)[0] != 0,
    decreases n,
{
    if n < 58 {
        assert(seq![n as u8].drop_last() =~= Seq::<u8>::empty());
        reveal_with_fuel(digits_value, 2);
    } else {
        lemma_base58_digits_value(n / 58);
        let p = base58_digits(n / 58);
        assert(base58_digits(n).drop_last() == p);
        lemma_fundamental_div_mod(n as int, 58);
    }
}

/// The leading-zero count is exact.
proof fn lemma_leading_zeros(b: Seq<u8>)
    ensures
        leading_zero_count(b) <= b.len(),
        forall|i: int| 0 <= i < leading_zero_count(b) ==> b[i] == 0,
        leading_zero_count(b) < b.len() ==> b[leading_zero_count(b) as int] != 0,
    decreases b.len(),
{
    if b.len() > 0 && b[0] == 0 {
        lemma_leading_zeros(b.drop_first());
        assert forall|i: int| 0 <= i < leading_zero_count(b) implies b[i] == 0 by {
            if i > 0 {
                assert(b[i] == b.drop_first()[i - 1]);
            }
        }
    }
}

/// A prefix of zero bytes followed by a byte that is not zero.
proof fn lemma_leading_zeros_of(k: nat, t: Seq<u8>)
    requires
        t.len() == 0 || t[0] != 0,
    ensures
        leading_zero_count(Seq::new(k, |i: int| 0u8) + t) == k,
    decreases k,
{
    let s = Seq::new(k, |i: int| 0u8) + t;
    if k > 0 {
        assert(s.drop_first() == Seq::new((k - 1) as nat, |i: int| 0u8) + t);
        lemma_leading_zeros_of((k - 1) as nat, t);
    } else {
        assert(s == t);
    }
}

/// A prefix of `'1'` characters followed by a character that is not `'1'`.
proof fn lemma_leading_ones_of(k: nat, t: Seq<char>)
    requires
        t.len() == 0 || t[0] != '1',
    ensures
        leading_one_count(Seq::new(k, |i: int| '1') + t) == k,
    decreases k,
{
    let s = Seq::new(k, |i: int| '1') + t;
    if k > 0 {
        assert(s.drop_first() == Seq::new((k - 1) as nat, |i: int| '1') + t);
        lemma_leading_ones_of((k - 1) as nat, t);
    } else {
        assert(s == t);
    }
}

/// The leading-one count is exact.
proof fn lemma_leading_ones(s: Seq<char>)
    ensures
        leading_one_count(s) <= s.len(),
        forall|i: int| 0 <= i < leading_one_count(s) ==> s[i] == '1',
        leading_one_count(s) < s.len() ==> s[leading_one_count(s) as int] != '1',
    decreases s.len(),
{
    if s.len() > 0 && s[0] == '1' {
        lemma_leading_ones(s.drop_first());
        assert forall|i: int| 0 <= i < leading_one_count(s) implies s[i] == '1' by {
            if i > 0 {
                assert(s[i] == s.drop_first()[i - 1]);
            }
        }
    }
}

/// Alphabet characters and digits are in one-to-one correspondence.
proof fn lemma_b58_char_index(d: u8)
    requires
        d < 58,
    ensures
        b58_index(b58_char(d)) == Some(d),
        b58_char(d) == '1' <==> d == 0,
{
}

/// Encoding followed by decoding gives back every byte string that is empty
/// or holds a nonzero byte.
pub proof fn lemma_base58_roundtrip(b: Seq<u8>)
    requires
        b.len() == 0 || exists|i: int| 0 <= i < b.len() && b[i] != 0,
    ensures
        base58_decode_spec(base58_encode_spec(b)) == Some(b),
{
    if b.len() > 0 {
        let z = leading_zero_count(b);
        lemma_leading_zeros(b);
        let zs = Seq::new(z, |i: int| 0u8);
        let t = b.subrange(z as int, b.len() as int);
        assert(b =~= zs + t);
        if z == b.len() {
            let i = choose|i: int| 0 <= i < b.len() && b[i] != 0;
            assert(false);
        }
        assert(t[0] != 0);
        lemma_be_concat(zs, t);
        lemma_be_zeros(z);
        let n = be_value(b);
        assert(n == be_value(t));
        lemma_be_lower(t);
        lemma_pow256_pos((t.len() - 1) as nat);
        let ds = base58_digits(n);
        lemma_base58_digits_value(n);
        let text = base58_encode_spec(b);
        let ones = Seq::new(z, |i: int| '1');
        let tail = ds.map_values(|d: u8| b58_char(d));
        assert(text == ones + tail);
        lemma_b58_char_index(ds[0]);
        lemma_leading_ones_of(z, tail);
        assert forall|i: int| 0 <= i < text.len() implies (#[trigger] b58_index(text[i])) is Some by {
            if i >= z {
                lemma_b58_char_index(ds[i - z]);
            }
        }
        assert(b58_digits_of(text) =~= zs + ds) by {
            assert forall|i: int| 0 <= i < text.len() implies b58_digits_of(text)[i] == (zs
                + ds)[i] by {
                if i >= z {
                    lemma_b58_char_index(ds[i - z]);
                }
            }
        }
        lemma_digits_leading_zeros(z, ds);
        lemma_min_be_bytes_unique(t);
        assert(base58_decode_spec(text) == Some(zs + t));
    }
}

// ── Executable codec ────────────────────────────────────────────────

proof fn lemma_divmod_step(p: nat, b: nat, cur: nat)
    requires
        cur == (p % 58) * 256 + b,
    ensures
        (p * 256 + b) / 58 == (p / 58) * 256 + cur / 58,
        (p * 256 + b) % 58 == cur % 58,
{
    let q0 = p / 58;
    let r0 = p % 58;
    lemma_fundamental_div_mod(p as int, 58);
    let q1 = cur / 58;
    let r1 = cur % 58;
    lemma_fundamental_div_mod(cur as int, 58);
    assert(p * 256 + b == (q0 * 256 + q1) * 58 + r1) by (nonlinear_arith)
        requires
            p == 58 * q0 + r0,
            cur == 58 * q1 + r1,
            cur == r0 * 256 + b,
    ;
    lemma_fundamental_div_mod_converse((p * 256 + b) as int, 58, (q0 * 256 + q1) as int, r1 as int);
}


/// Long division of a big-endian number by 58: the quotient without leading
/// zero bytes, and the remainder.
fn divmod58(n: &Vec<u8>) -> (res: (Vec<u8>, u8))
    ensures
        be_value(res.0@) == be_value(n@) / 58,
        res.1 as nat == be_value(n@) % 58,
        res.0@.len() > 0 ==> res.0@[0] != 0,
{
    let mut q: Vec<u8> = Vec::new();
    let mut rem: u32 = 0;
    let mut i: usize = 0;
    while i < n.len()
        invariant
            i <= n.len(),
            rem < 58,
            be_value(q@) == be_value(n@.take(i as int)) / 58,
            rem as nat == be_value(n@.take(i as int)) % 58,
            q@.len() > 0 ==> q@[0] != 0,
        decreases n.len() - i,
    {
        let cur: u32 = rem * 256 + n[i] as u32;
        let qd: u32 = cur / 58;
        proof {
            let p = be_value(n@.take(i as int));
            assert(n@.take(i + 1).drop_last() == n@.take(i as int));
            assert(n@.take(i + 1).last() == n[i as int]);
            lemma_divmod_step(p, n[i as int] as nat, cur as nat);
            if q@.len() == 0 && qd == 0 {
                assert(p / 58 == 0);
            }
        }
        let ghost oldq = q@;
        if q.len() > 0 || qd > 0 {
            q.push(qd as u8);
            proof {
                assert(q@.drop_last() == oldq);
            }
        }
        rem = cur % 58;
        i = i + 1;
    }
    assert(n@.take(n.len() as int) == n@);
    (q, rem as u8)
}

/// The alphabet character of digit `d`.
fn b58_char_of(d: u8) -> (c: char)
    requires
        d < 58,
    ensures
        c == b58_char(d),
{
    let code: u8 = if d < 9 {
        0x31 + d
    } else if d < 17 {
        0x41 + d - 9
    } else if d < 22 {
        0x4A + d - 17
    } else if d < 33 {
        0x50 + d - 22
    } else if d < 44 {
        0x61 + d - 33
    } else {
        0x6D + d - 44
    };
    code as char
}

/// The digit an alphabet character stands for.
fn b58_index_of(c: char) -> (r: Option<u8>)
    ensures
        r == b58_index(c),
{
    let u = c as u32;
    if 0x31 <= u && u <= 0x39 {
        Some((u - 0x31) as u8)
    } else if 0x41 <= u && u <= 0x48 {
        Some((u - 0x41 + 9) as u8)
    } else if 0x4A <= u && u <= 0x4E {
        Some((u - 0x4A + 17) as u8)
    } else if 0x50 <= u && u <= 0x5A {
        Some((u - 0x50 + 22) as u8)
    } else if 0x61 <= u && u <= 0x6B {
        Some((u - 0x61 + 33) as u8)
    } else if 0x6D <= u && u <= 0x7A {
        Some((u - 0x6D + 44) as u8)
    } else {
        None
    }
}

/// Base58 text of a byte string.
pub fn base58_encode(b: &[u8]) -> (s: String)
    ensures
        s@ == base58_encode_spec(b@),
{
    if b.len() == 0 {
        return String::new();
    }
    let mut zeros: usize = 0;
    while zeros < b.len() && b[zeros] == 0
        invariant
            zeros <= b.len(),
            forall|k: int| 0 <= k < zeros ==> b[k] == 0,
        decreases b.len() - zeros,
    {
        zeros = zeros + 1;
    }
    proof {
        let zs = Seq::new(zeros as nat, |i: int| 0u8);
        let t = b@.subrange(zeros as int, b.len() as int);
        assert(b@ =~= zs + t);
        lemma_leading_zeros_of(zeros as nat, t);
    }
    let mut n: Vec<u8> = Vec::new();
    let mut k: usize = 0;
    while k < b.len()
        invariant
            k <= b.len(),
            n@ == b@.take(k as int),
        decreases b.len() - k,
    {
        n.push(b[k]);
        k = k + 1;
        assert(n@ == b@.take(k as int));
    }
    assert(b@.take(b.len() as int) == b@);
    let ghost total = be_value(b@);
    let mut digits: Vec<u8> = Vec::new();
    loop
        invariant_except_break
            base58_digits(total) == base58_digits(be_value(n@)) + digits@,
        ensures
            base58_digits(total) == digits@,
        decreases be_value(n@),
    {
        let (q, r) = divmod58(&n);
        let ghost v = be_value(n@);
        let ghost old_digits = digits@;
        digits.insert(0, r);
        if q.len() == 0 {
            proof {
                assert(v / 58 == 0);
                lemma_fundamental_div_mod(v as int, 58);
                assert(v < 58);
                assert(digits@ =~= seq![r] + old_digits);
            }
            break;
        }
        proof {
            lemma_be_lower(q@);
            lemma_pow256_pos((q@.len() - 1) as nat);
            lemma_fundamental_div_mod(v as int, 58);
            assert(v >= 58);
            assert(base58_digits(v) == base58_digits(v / 58).push(r));
            assert(base58_digits(v / 58).push(r) + old_digits =~= base58_digits(v / 58) + digits@);
        }
        n = q;
    }
    proof {
        lemma_base58_digits_value(total);
    }
    let mut out = String::new();
    let mut i: usize = 0;
    while i < zeros
        invariant
            i <= zeros,
            out@ == Seq::new(i as nat, |j: int| '1'),
        decreases zeros - i,
    {
        push_char(&mut out, '1');
        i = i + 1;
        assert(out@ =~= Seq::new(i as nat, |j: int| '1'));
    }
    let ghost ones = out@;
    let mut j: usize = 0;
    while j < digits.len()
        invariant
            j <= digits.len(),
            digits@ == base58_digits(total),
            forall|x: int| 0 <= x < digits@.len() ==> digits@[x] < 58,
            out@ == ones + digits@.take(j as int).map_values(|d: u8| b58_char(d)),
        decreases digits.len() - j,
    {
        let c = b58_char_of(digits[j]);
        push_char(&mut out, c);
        j = j + 1;
        assert(out@ =~= ones + digits@.take(j as int).map_values(|d: u8| b58_char(d)));
    }
    assert(digits@.take(digits.len() as int) == digits@);
    out
}


/// Multiplies the big-endian number held in `n` by 58 and adds `idx`.
fn mul58_add(n: &mut Vec<u8>, idx: u8)
    requires
        old(n)@.len() >= 1,
        idx < 58,
    ensures
        final(n)@.len() >= 1,
        be_value(final(n)@) == be_value(old(n)@) * 58 + idx,
{
    let ghost target = be_value(old(n)@) * 58 + idx as nat;
    let ghost old_n = n@;
    let len = n.len();
    let mut carry: u32 = idx as u32;
    let mut j: usize = len;
    proof {
        reveal_with_fuel(pow, 1);
        assert(n@.subrange(j as int, len as int) =~= Seq::<u8>::empty());
    }
    while j > 0
        invariant
            j <= len,
            len == n@.len(),
            len == old_n.len(),
            carry < 256,
            n@.take(j as int) == old_n.take(j as int),
            be_value(n@.subrange(j as int, len as int)) + carry * pow(256, (len - j) as nat)
                == be_value(old_n.subrange(j as int, len as int)) * 58 + idx,
        decreases j,
    {
        let t: u32 = n[j - 1] as u32 * 58 + carry;
        let ghost old_suffix = n@.subrange(j as int, len as int);
        let ghost cur = n@;
        n.set(j - 1, (t % 256) as u8);
        proof {
            let p = pow(256, (len - j) as nat);
            assert(pow(256, (len - j + 1) as nat) == 256 * p) by {
                reveal_with_fuel(pow, 2);
            }
            assert(n@.subrange(j - 1, len as int) =~= seq![(t % 256) as u8] + old_suffix);
            assert(old_n.subrange(j - 1, len as int) =~= seq![old_n[j - 1]]
                + old_n.subrange(j as int, len as int));
            assert(cur.take(j as int)[j - 1] == cur[j - 1]);
            assert(old_n.take(j as int)[j - 1] == old_n[j - 1]);
            assert(old_n[j - 1] == cur[j - 1]);
            lemma_be_concat(seq![(t % 256) as u8], old_suffix);
            lemma_be_concat(seq![old_n[j - 1]], old_n.subrange(j as int, len as int));
            assert(seq![(t % 256) as u8].drop_last() =~= Seq::<u8>::empty());
            assert(seq![old_n[j - 1]].drop_last() =~= Seq::<u8>::empty());
            reveal_with_fuel(be_value, 2);
            lemma_fundamental_div_mod(t as int, 256);
            let a = be_value(old_suffix);
            let o = be_value(old_n.subrange(j as int, len as int));
            let x = old_n[j - 1] as int;
            assert((t % 256) * p + a + (t / 256) * (256 * p) == (x * p + o) * 58 + idx)
                by (nonlinear_arith)
                requires
                    a + carry * p == o * 58 + idx,
                    t == x * 58 + carry,
                    t == 256 * (t / 256) + t % 256,
            ;
            assert(n@.take(j - 1) =~= old_n.take(j - 1));
        }
        carry = t / 256;
        j = j - 1;
    }
    assert(n@.subrange(0, len as int) == n@);
    assert(old_n.subrange(0, len as int) == old_n);
    while carry > 0
        invariant
            n@.len() >= 1,
            be_value(n@) + carry * pow(256, n@.len()) == target,
        decreases carry,
    {
        let ghost before = n@;
        n.insert(0, (carry % 256) as u8);
        proof {
            let p = pow(256, before.len());
            assert(pow(256, before.len() + 1) == 256 * p) by {
                reveal_with_fuel(pow, 2);
            }
            assert(n@ =~= seq![(carry % 256) as u8] + before);
            lemma_be_concat(seq![(carry % 256) as u8], before);
            assert(seq![(carry % 256) as u8].drop_last() =~= Seq::<u8>::empty());
            reveal_with_fuel(be_value, 2);
            lemma_fundamental_div_mod(carry as int, 256);
            let a = be_value(before);
            assert((carry % 256) * p + a + (carry / 256) * (256 * p) == a + carry * p)
                by (nonlinear_arith)
                requires
                    carry == 256 * (carry / 256) + carry % 256,
            ;
        }
        carry = carry / 256;
    }
}

/// Bytes denoted by base58 text, or the error for a character outside the
/// alphabet.
pub fn base58_decode(s: &[char]) -> (r: Result<Vec<u8>, &'static str>)
    ensures
        match base58_decode_spec(s@) {
            Some(v) => r matches Ok(x) && x@ == v,
            None => r is Err,
        },
{
    if s.len() == 0 {
        return Ok(Vec::new());
    }
    let mut ones: usize = 0;
    while ones < s.len() && s[ones] == '1'
        invariant
            ones <= s.len(),
            forall|k: int| 0 <= k < ones ==> s[k] == '1',
        decreases s.len() - ones,
    {
        ones = ones + 1;
    }
    proof {
        let os = Seq::new(ones as nat, |i: int| '1');
        let t = s@.subrange(ones as int, s.len() as int);
        assert(s@ =~= os + t);
        lemma_leading_ones_of(ones as nat, t);
    }
    let mut n: Vec<u8> = Vec::new();
    n.push(0);
    proof {
        assert(n@.drop_last() =~= Seq::<u8>::empty());
        reveal_with_fuel(be_value, 2);
    }
    let mut i: usize = 0;
    while i < s.len()
        invariant
            i <= s.len(),
            n@.len() >= 1,
            all_b58(s@.take(i as int)),
            be_value(n@) == digits_value(b58_digits_of(s@.take(i as int))),
        decreases s.len() - i,
    {
        let idx = match b58_index_of(s[i]) {
            Some(x) => x,
            None => {
                return Err("base58: invalid char");
            },
        };
        mul58_add(&mut n, idx);
        proof {
            let pre = s@.take(i as int);
            let post = s@.take(i + 1);
            assert(post.drop_last() == pre);
            assert(b58_digits_of(post).drop_last() =~= b58_digits_of(pre));
            assert(b58_digits_of(post).last() == idx);
            assert forall|k: int| 0 <= k < post.len() implies (#[trigger] b58_index(post[k])) is Some by {
                if k < i {
                    assert(post[k] == pre[k]);
                }
            }
        }
        i = i + 1;
    }
    assert(s@.take(s.len() as int) == s@);
    let ghost value = be_value(n@);
    // Skip the zero bytes in front, keeping at least one byte.
    let mut first: usize = 0;
    while first < n.len() - 1 && n[first] == 0
        invariant
            first < n@.len(),
            forall|k: int| 0 <= k < first ==> n@[k] == 0,
        decreases n.len() - first,
    {
        first = first + 1;
    }
    let mut out: Vec<u8> = Vec::new();
    let mut k: usize = 0;
    while k < ones
        invariant
            k <= ones,
            out@ == Seq::new(k as nat, |x: int| 0u8),
        decreases ones - k,
    {
        out.push(0);
        k = k + 1;
        assert(out@ =~= Seq::new(k as nat, |x: int| 0u8));
    }
    let ghost zs = out@;
    let mut m: usize = first;
    while m < n.len()
        invariant
            first <= m <= n@.len(),
            out@ == zs + n@.subrange(first as int, m as int),
        decreases n.len() - m,
    {
        out.push(n[m]);
        m = m + 1;
        assert(out@ =~= zs + n@.subrange(first as int, m as int));
    }
    proof {
        let rest = n@.subrange(first as int, n@.len() as int);
        let pre = n@.subrange(0, first as int);
        assert(n@ =~= pre + rest);
        assert(pre =~= Seq::new(first as nat, |x: int| 0u8));
        lemma_be_concat(pre, rest);
        lemma_be_zeros(first as nat);
        lemma_min_be_bytes_unique(rest);
    }
    Ok(out)
}

} // verus!
