//! Time-ordered identifiers: the least and greatest UUIDv7 text for a
//! millisecond timestamp, which bound the ids minted in that millisecond.

use vstd::prelude::*;
use vstd::arithmetic::div_mod::{lemma_div_denominator, lemma_div_is_ordered, lemma_fundamental_div_mod, lemma_basic_div};
use crate::numtext::digit_char;
use crate::text::push_char;

verus! {

/// `16^k`.
pub open spec fn pow16(k: nat) -> nat
    decreases k,
{
    if k == 0 {
        1
    } else {
        16 * pow16((k - 1) as nat)
    }
}

/// The twelve lowest hexadecimal digits of `n`, most significant first,
/// lower-case.
pub open spec fn hex12(n: nat) -> Seq<char> {
    Seq::new(12, |i: int| digit_char((n / pow16((11 - i) as nat)) % 16))
}

/// The timestamp a UUIDv7 carries for `epoch_ms`: negative times are 0.
pub open spec fn v7_stamp(epoch_ms: int) -> nat {
    if epoch_ms < 0 {
        0
    } else {
        epoch_ms as nat
    }
}

/// The UUIDv7 text of a timestamp with the given tail.
pub open spec fn v7_text(epoch_ms: int, tail: Seq<char>) -> Seq<char> {
    let h = hex12(v7_stamp(epoch_ms));
    h.take(8) + seq!['-'] + h.skip(8) + tail
}

/// The least UUIDv7 of a millisecond.
pub open spec fn v7_floor_text(epoch_ms: int) -> Seq<char> {
    v7_text(epoch_ms, "-7000-8000-000000000000"@)
}

/// The greatest UUIDv7 of a millisecond.
pub open spec fn v7_ceiling_text(epoch_ms: int) -> Seq<char> {
    v7_text(epoch_ms, "-7fff-bfff-ffffffffffff"@)
}

proof fn lemma_pow16_pos(k: nat)
    ensures
        pow16(k) > 0,
    decreases k,
{
    if k > 0 {
        lemma_pow16_pos((k - 1) as nat);
    }
}

fn digit_of(d: u64) -> (c: char)
    requires
        d < 16,
    ensures
        c == digit_char(d as nat),
{
    if d < 10 {
        ((d + 0x30) as u8) as char
    } else {
        ((d - 10 + 0x61) as u8) as char
    }
}

/// The twelve lowest hexadecimal digits of `n`.
fn hex12_of(n: u64) -> (r: Vec<char>)
    ensures
        r@ == hex12(n as nat),
{
    let mut r: Vec<char> = Vec::new();
    let mut i: usize = 0;
    let mut p: u64 = 0x1000_0000_0000;
    proof {
        reveal_with_fuel(pow16, 12);
        assert(pow16(11) == 0x1000_0000_0000);
    }
    while i < 12
        invariant
            i <= 12,
            p as nat == pow16((11 - i) as nat) || (i == 12 && p == 0),
            i < 12 ==> p as nat == pow16((11 - i) as nat),
            r@.len() == i,
            forall|k: int| 0 <= k < i ==> r@[k] == hex12(n as nat)[k],
        decreases 12 - i,
    {
        proof {
            lemma_pow16_pos((11 - i) as nat);
        }
        let d = (n / p) % 16;
        let c = digit_of(d);
        r.push(c);
        proof {
            assert(r@[i as int] == hex12(n as nat)[i as int]);
        }
        if i < 11 {
            proof {
                assert(pow16((11 - i) as nat) == 16 * pow16((11 - i - 1) as nat));
            }
            p = p / 16;
        } else {
            p = 0;
        }
        i = i + 1;
    }
    assert(r@ =~= hex12(n as nat));
    r
}

fn v7(epoch_ms: i64, ceiling: bool) -> (s: String)
    ensures
        s@ == (if ceiling {
            v7_ceiling_text(epoch_ms as int)
        } else {
            v7_floor_text(epoch_ms as int)
        }),
{
    let ts: u64 = if epoch_ms < 0 {
        0
    } else {
        epoch_ms as u64
    };
    let h = hex12_of(ts);
    let mut s = String::new();
    let mut i: usize = 0;
    while i < 12
        invariant
            i <= 12,
            h@ == hex12(ts as nat),
            s@ == (if i <= 8 {
                h@.take(i as int)
            } else {
                h@.take(8) + seq!['-'] + h@.subrange(8, i as int)
            }),
        decreases 12 - i,
    {
        if i == 8 {
            push_char(&mut s, '-');
        }
        push_char(&mut s, h[i]);
        i = i + 1;
        assert(s@ =~= (if i <= 8 {
            h@.take(i as int)
        } else {
            h@.take(8) + seq!['-'] + h@.subrange(8, i as int)
        }));
    }
    assert(h@.subrange(8, 12) =~= h@.skip(8));
    if ceiling {
        s.append("-7fff-bfff-ffffffffffff");
    } else {
        s.append("-7000-8000-000000000000");
    }
    s
}

/// The least UUIDv7 text of the millisecond `epoch_ms`.
pub fn v7_floor(epoch_ms: i64) -> (s: String)
    ensures
        s@ == v7_floor_text(epoch_ms as int),
{
    v7(epoch_ms, false)
}

/// The greatest UUIDv7 text of the millisecond `epoch_ms`.
pub fn v7_ceiling(epoch_ms: i64) -> (s: String)
    ensures
        s@ == v7_ceiling_text(epoch_ms as int),
{
    v7(epoch_ms, true)
}

/// `a` comes before `b` in the order of their characters.
pub open spec fn text_less(a: Seq<char>, b: Seq<char>) -> bool {
    exists|i: int|
        0 <= i < a.len() && i < b.len() && a.take(i) == b.take(i) && (a[i] as u32) < (#[trigger] b[i] as u32)
}

/// The floor of a millisecond sorts before its ceiling.
pub proof fn lemma_v7_floor_before_ceiling(epoch_ms: int)
    ensures
        text_less(v7_floor_text(epoch_ms), v7_ceiling_text(epoch_ms)),
{
    reveal_strlit("-7000-8000-000000000000");
    reveal_strlit("-7fff-bfff-ffffffffffff");
    let f = v7_floor_text(epoch_ms);
    let c = v7_ceiling_text(epoch_ms);
    let h = hex12(v7_stamp(epoch_ms));
    assert(f.len() == 36);
    assert(c.len() == 36);
    assert(f.take(15) =~= c.take(15));
    assert(f[15] == '0');
    assert(c[15] == 'f');
}

/// Digit `i` (from the most significant) of the twelve lowest hex digits.
pub open spec fn hex_digit_at(n: nat, i: nat) -> nat {
    (n / pow16((11 - i) as nat)) % 16
}

/// The number the first `j` of the twelve lowest hex digits of `n` spell.
pub open spec fn hex_head(n: nat, j: nat) -> nat {
    n / pow16((12 - j) as nat)
}

proof fn lemma_hex_head_step(n: nat, j: nat)
    requires
        j < 12,
    ensures
        hex_head(n, j + 1) == 16 * hex_head(n, j) + hex_digit_at(n, j),
{
    let q = pow16((11 - j) as nat);
    lemma_pow16_pos((11 - j) as nat);
    assert(pow16((12 - j) as nat) == 16 * q);
    lemma_div_denominator(n as int, q as int, 16);
    assert(q * 16 == 16 * q) by (nonlinear_arith);
    let x = n / q;
    assert(hex_head(n, j) == x / 16);
    lemma_fundamental_div_mod(x as int, 16);
}

proof fn lemma_hex_head_ordered(a: nat, b: nat, j: nat)
    requires
        a <= b,
        j <= 12,
    ensures
        hex_head(a, j) <= hex_head(b, j),
{
    lemma_pow16_pos((12 - j) as nat);
    lemma_div_is_ordered(a as int, b as int, pow16((12 - j) as nat) as int);
}

/// The first hex digit at or after `j` where `a` and `b` differ, when their
/// first `j` digits agree: there `a`'s digit is the smaller.
proof fn lemma_first_difference(a: nat, b: nat, j: nat) -> (i: nat)
    requires
        a < b < pow16(12),
        j <= 12,
        hex_head(a, j) == hex_head(b, j),
    ensures
        j <= i < 12,
        forall|m: nat| j <= m < i ==> hex_digit_at(a, m) == hex_digit_at(b, m),
        hex_digit_at(a, i) < hex_digit_at(b, i),
    decreases 12 - j,
{
    if j == 12 {
        assert(pow16(0) == 1);
        assert(hex_head(a, 12) == a / 1);
        assert(hex_head(b, 12) == b / 1);
        assert(false);
        0
    } else {
        lemma_hex_head_step(a, j);
        lemma_hex_head_step(b, j);
        if hex_head(a, j + 1) == hex_head(b, j + 1) {
            let i = lemma_first_difference(a, b, j + 1);
            i
        } else {
            lemma_hex_head_ordered(a, b, j + 1);
            j
        }
    }
}

proof fn lemma_digit_char_ordered(x: nat, y: nat)
    requires
        x < y < 16,
    ensures
        (digit_char(x) as u32) < (digit_char(y) as u32),
{
}

/// Distinct milliseconds have disjoint, increasing UUIDv7 bounds: the
/// ceiling of an earlier millisecond sorts before the floor of a later one
/// (for timestamps below 2^48, the width of the time field).
pub proof fn lemma_v7_ordered(a: int, b: int)
    requires
        0 <= a < b < 0x1_0000_0000_0000,
    ensures
        text_less(v7_ceiling_text(a), v7_floor_text(b)),
{
    reveal_with_fuel(pow16, 13);
    assert(pow16(12) == 0x1_0000_0000_0000);
    let an = a as nat;
    let bn = b as nat;
    lemma_basic_div(a, 0x1_0000_0000_0000);
    lemma_basic_div(b, 0x1_0000_0000_0000);
    assert(hex_head(an, 0) == 0 && hex_head(bn, 0) == 0);
    let i = lemma_first_difference(an, bn, 0);
    let ha = hex12(an);
    let hb = hex12(bn);
    assert forall|m: int| 0 <= m < i implies ha[m] == hb[m] by {
        assert(hex_digit_at(an, m as nat) == hex_digit_at(bn, m as nat));
    }
    lemma_digit_char_ordered(hex_digit_at(an, i), hex_digit_at(bn, i));
    assert((ha[i as int] as u32) < (hb[i as int] as u32));
    reveal_strlit("-7000-8000-000000000000");
    reveal_strlit("-7fff-bfff-ffffffffffff");
    let c = v7_ceiling_text(a);
    let f = v7_floor_text(b);
    let k: int = if i < 8 {
        i as int
    } else {
        (i + 1) as int
    };
    assert(c.len() == 36 && f.len() == 36);
    assert(c[k] == ha[i as int]);
    assert(f[k] == hb[i as int]);
    assert(c.take(k) =~= f.take(k)) by {
        assert forall|m: int| 0 <= m < k implies c[m] == f[m] by {
            if m < 8 {
                assert(c[m] == ha[m] && f[m] == hb[m]);
            } else if m > 8 {
                assert(c[m] == ha[m - 1] && f[m] == hb[m - 1]);
            }
        }
    }
}

/// Every time before the epoch has the bounds of the epoch itself.
pub proof fn lemma_v7_before_epoch(epoch_ms: int)
    requires
        epoch_ms < 0,
    ensures
        v7_floor_text(epoch_ms) == v7_floor_text(0),
        v7_ceiling_text(epoch_ms) == v7_ceiling_text(0),
{
}

} // verus!
