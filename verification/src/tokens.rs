//! Token budgeting: a BPE-style estimate of a text's token count, and the
//! longest prefix of a text that fits a budget.

use vstd::prelude::*;
use crate::script::{is_cjk, is_cjk_cp, is_emoji, is_emoji_cp};
use crate::text::{is_ws, is_ws_char, string_from_chars, to_chars};

verus! {

/// Whether a character is counted as a token of its own (CJK or emoji).
pub open spec fn is_glyph_token(c: char) -> bool {
    is_cjk_cp(c as u32) || is_emoji_cp(c as u32)
}

/// Tokens of a word of `n` characters: one per four characters, rounded
/// up (at least one for a non-empty word).
pub open spec fn word_tokens(n: nat) -> nat {
    (n + 3) / 4
}

/// Scan of a text from the left: the tokens of everything before the word
/// that is still open at the end, and the length of that word. Words are
/// the maximal runs of characters that are neither white space nor CJK or
/// emoji; each CJK or emoji character is one token.
pub open spec fn token_scan(s: Seq<char>) -> (nat, nat)
    decreases s.len(),
{
    if s.len() == 0 {
        (0, 0)
    } else {
        let (d, t) = token_scan(s.drop_last());
        let c = s.last();
        if is_glyph_token(c) {
            (d + word_tokens(t) + 1, 0)
        } else if is_ws_char(c) {
            (d + word_tokens(t), 0)
        } else {
            (d, t + 1)
        }
    }
}

/// The token estimate of a text.
pub open spec fn estimate_tokens_spec(s: Seq<char>) -> nat {
    token_scan(s).0 + word_tokens(token_scan(s).1)
}

proof fn lemma_scan_bound(s: Seq<char>)
    ensures
        token_scan(s).0 + token_scan(s).1 <= s.len(),
    decreases s.len(),
{
    if s.len() > 0 {
        lemma_scan_bound(s.drop_last());
    }
}

/// Appending a character never lowers the estimate.
pub proof fn lemma_estimate_step(s: Seq<char>, c: char)
    ensures
        estimate_tokens_spec(s) <= estimate_tokens_spec(s.push(c)),
{
    assert(s.push(c).drop_last() =~= s);
    let t = token_scan(s).1;
    assert(word_tokens(t) <= word_tokens(t + 1)) by (nonlinear_arith);
}

/// The estimate of a prefix is at most that of a longer prefix.
pub proof fn lemma_estimate_monotone(s: Seq<char>, i: nat, j: nat)
    requires
        i <= j <= s.len(),
    ensures
        estimate_tokens_spec(s.take(i as int)) <= estimate_tokens_spec(s.take(j as int)),
    decreases j - i,
{
    if i < j {
        lemma_estimate_monotone(s, i, (j - 1) as nat);
        assert(s.take(j as int) =~= s.take(j - 1).push(s[j - 1]));
        lemma_estimate_step(s.take(j - 1), s[j - 1]);
    }
}

fn ceil_quarter(t: usize) -> (r: usize)
    ensures
        r == word_tokens(t as nat),
        r <= t,
{
    let r = t / 4 + if t % 4 != 0 {
        1
    } else {
        0
    };
    assert(r == (t + 3) / 4) by (nonlinear_arith)
        requires
            r == t / 4 + if t % 4 != 0 {
                1int
            } else {
                0int
            },
    ;
    r
}

/// The estimate of `v[..n]`.
fn estimate_prefix(v: &[char], n: usize) -> (r: usize)
    requires
        n <= v@.len(),
    ensures
        r == estimate_tokens_spec(v@.take(n as int)),
{
    let mut d: usize = 0;
    let mut t: usize = 0;
    let mut i: usize = 0;
    while i < n
        invariant
            i <= n <= v@.len(),
            (d as nat, t as nat) == token_scan(v@.take(i as int)),
            d + t <= i,
        decreases n - i,
    {
        let c = v[i];
        proof {
            assert(v@.take(i + 1).drop_last() =~= v@.take(i as int));
            assert(word_tokens(t as nat) <= t);
        }
        if is_cjk(c as u32) || is_emoji(c as u32) {
            d = d + ceil_quarter(t) + 1;
            t = 0;
        } else if is_ws(c) {
            d = d + ceil_quarter(t);
            t = 0;
        } else {
            t = t + 1;
        }
        i = i + 1;
    }
    proof {
        assert(word_tokens(t as nat) <= t);
    }
    d + ceil_quarter(t)
}

/// Fast BPE-style token estimate: one token per CJK or emoji character,
/// and a quarter token per character of every other word, rounded up.
pub fn estimate_tokens(text: &str) -> (r: usize)
    ensures
        r == estimate_tokens_spec(text@),
{
    let v = to_chars(text);
    assert(v@.take(v@.len() as int) =~= text@);
    estimate_prefix(v.as_slice(), v.len())
}

/// Truncates a text to the longest prefix whose estimate fits `max`
/// tokens; the whole text when it fits.
pub fn truncate_to_tokens(text: &str, max: usize) -> (r: String)
    ensures
        r@.len() <= text@.len(),
        r@ == text@.take(r@.len() as int),
        estimate_tokens_spec(r@) <= max,
        r@.len() < text@.len() ==> estimate_tokens_spec(text@.take(r@.len() + 1int)) > max,
{
    let v = to_chars(text);
    assert(v@.take(v@.len() as int) =~= text@);
    if estimate_prefix(v.as_slice(), v.len()) <= max {
        return string_from_chars(v.as_slice());
    }
    let mut lo: usize = 0;
    let mut hi: usize = v.len();
    proof {
        assert(v@.take(0) =~= Seq::<char>::empty());
    }
    while lo < hi
        invariant
            lo <= hi <= v@.len(),
            v@ == text@,
            estimate_tokens_spec(v@.take(lo as int)) <= max,
            hi < v@.len() ==> estimate_tokens_spec(v@.take(hi + 1)) > max,
            estimate_tokens_spec(v@) > max,
        decreases hi - lo,
    {
        let mid = lo + (hi - lo) / 2 + (hi - lo) % 2;
        if estimate_prefix(v.as_slice(), mid) <= max {
            lo = mid;
        } else {
            hi = mid - 1;
        }
    }
    let mut out: Vec<char> = Vec::new();
    let mut k: usize = 0;
    while k < lo
        invariant
            k <= lo <= v@.len(),
            out@ == v@.take(k as int),
        decreases lo - k,
    {
        out.push(v[k]);
        k = k + 1;
        assert(out@ =~= v@.take(k as int));
    }
    proof {
        if lo == v@.len() {
            assert(v@.take(lo as int) =~= v@);
        }
        assert(v@.take(lo as int).len() == lo);
        assert(v@.take(lo as int) =~= v@.take(lo as int).take(lo as int));
    }
    string_from_chars(out.as_slice())
}

/// What truncation keeps fits the budget, and a text that fits is kept
/// whole.
pub proof fn lemma_truncation_fits(text: Seq<char>, max: nat, kept: Seq<char>)
    requires
        kept.len() <= text.len(),
        kept == text.take(kept.len() as int),
        estimate_tokens_spec(kept) <= max,
        kept.len() < text.len() ==> estimate_tokens_spec(text.take(kept.len() + 1int)) > max,
    ensures
        estimate_tokens_spec(text) <= max ==> kept == text,
        forall|k: nat|
            kept.len() < k <= text.len() ==> estimate_tokens_spec(#[trigger] text.take(k as int))
                > max,
{
    assert forall|k: nat| kept.len() < k <= text.len() implies estimate_tokens_spec(
        #[trigger] text.take(k as int),
    ) > max by {
        lemma_estimate_monotone(text, kept.len() + 1, k);
    }
    if estimate_tokens_spec(text) <= max && kept.len() < text.len() {
        lemma_estimate_monotone(text, kept.len() + 1, text.len());
        assert(text.take(text.len() as int) =~= text);
    }
}

/// Every CJK or emoji character is a token of its own: a text of such
/// characters only is estimated at its length.
pub proof fn lemma_glyph_tokens(s: Seq<char>)
    requires
        forall|i: int| 0 <= i < s.len() ==> is_glyph_token(#[trigger] s[i]),
    ensures
        estimate_tokens_spec(s) == s.len(),
        token_scan(s).1 == 0,
    decreases s.len(),
{
    if s.len() > 0 {
        let p = s.drop_last();
        assert forall|i: int| 0 <= i < p.len() implies is_glyph_token(#[trigger] p[i]) by {
            assert(p[i] == s[i]);
        }
        lemma_glyph_tokens(p);
        assert(is_glyph_token(s[s.len() - 1]));
    }
}

} // verus!
