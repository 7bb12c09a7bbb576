//! Script classification of text: CJK and emoji detection, the per-script
//! character counts behind script detection, and the n-grams that full-text
//! search indexes for CJK and emoji runs.

use vstd::prelude::*;
use crate::text::{is_ws, is_ws_char, string_of_range, to_chars};

verus! {

// ── Code points ─────────────────────────────────────────────────────

/// CJK ideographs, extension A, kana and Hangul syllables.
pub open spec fn is_cjk_cp(cp: u32) -> bool {
    (0x4E00 <= cp <= 0x9FFF) || (0x3400 <= cp <= 0x4DBF) || (0x3040 <= cp <= 0x30FF) || (0xAC00
        <= cp <= 0xD7AF)
}

/// Miscellaneous symbols and dingbats, and the pictographic planes.
pub open spec fn is_emoji_cp(cp: u32) -> bool {
    (0x2600 <= cp <= 0x27BF) || (0x1F300 <= cp <= 0x1FAFF)
}

/// Whether `cp` is a CJK code point.
pub fn is_cjk(cp: u32) -> (b: bool)
    ensures
        b == is_cjk_cp(cp),
{
    (0x4E00 <= cp && cp <= 0x9FFF) || (0x3400 <= cp && cp <= 0x4DBF) || (0x3040 <= cp && cp
        <= 0x30FF) || (0xAC00 <= cp && cp <= 0xD7AF)
}

/// Whether `cp` is an emoji code point.
pub fn is_emoji(cp: u32) -> (b: bool)
    ensures
        b == is_emoji_cp(cp),
{
    (0x2600 <= cp && cp <= 0x27BF) || (0x1F300 <= cp && cp <= 0x1FAFF)
}

/// True when any CJK code point is present.
pub fn has_cjk(s: &str) -> (b: bool)
    ensures
        b == exists|i: int| 0 <= i < s@.len() && is_cjk_cp(#[trigger] s@[i] as u32),
{
    let v = to_chars(s);
    let mut i: usize = 0;
    while i < v.len()
        invariant
            i <= v.len(),
            v@ == s@,
            forall|j: int| 0 <= j < i ==> !is_cjk_cp(#[trigger] v@[j] as u32),
        decreases v.len() - i,
    {
        if is_cjk(v[i] as u32) {
            assert(is_cjk_cp(s@[i as int] as u32));
            return true;
        }
        i = i + 1;
    }
    false
}

/// True when any emoji code point is present.
pub fn has_emoji(s: &str) -> (b: bool)
    ensures
        b == exists|i: int| 0 <= i < s@.len() && is_emoji_cp(#[trigger] s@[i] as u32),
{
    let v = to_chars(s);
    let mut i: usize = 0;
    while i < v.len()
        invariant
            i <= v.len(),
            v@ == s@,
            forall|j: int| 0 <= j < i ==> !is_emoji_cp(#[trigger] v@[j] as u32),
        decreases v.len() - i,
    {
        if is_emoji(v[i] as u32) {
            assert(is_emoji_cp(s@[i as int] as u32));
            return true;
        }
        i = i + 1;
    }
    false
}

// ── Scripts ─────────────────────────────────────────────────────────

/// The scripts that detection tells apart, in the order in which ties are
/// broken.
#[derive(Debug, Clone, Copy, PartialEq, Eq, Structural)]
pub enum Script {
    Latin,
    Cjk,
    Emoji,
    Cyrillic,
    Arabic,
    Hebrew,
    Greek,
    Devanagari,
    Other,
}

/// Position of a script in the tie-breaking order.
pub open spec fn script_index(s: Script) -> nat {
    match s {
        Script::Latin => 0,
        Script::Cjk => 1,
        Script::Emoji => 2,
        Script::Cyrillic => 3,
        Script::Arabic => 4,
        Script::Hebrew => 5,
        Script::Greek => 6,
        Script::Devanagari => 7,
        Script::Other => 8,
    }
}

/// The script of a code point; `None` for ASCII punctuation and controls,
/// which count for no script.
pub open spec fn script_of(cp: u32) -> Option<Script> {
    if is_cjk_cp(cp) {
        Some(Script::Cjk)
    } else if is_emoji_cp(cp) {
        Some(Script::Emoji)
    } else if (0x41 <= cp <= 0x5A) || (0x61 <= cp <= 0x7A) || (0xC0 <= cp <= 0x24F) {
        Some(Script::Latin)
    } else if 0x370 <= cp <= 0x3FF {
        Some(Script::Greek)
    } else if 0x400 <= cp <= 0x4FF {
        Some(Script::Cyrillic)
    } else if 0x590 <= cp <= 0x5FF {
        Some(Script::Hebrew)
    } else if 0x600 <= cp <= 0x6FF {
        Some(Script::Arabic)
    } else if 0x900 <= cp <= 0x97F {
        Some(Script::Devanagari)
    } else if cp <= 0x2F || (0x3A <= cp <= 0x40) || (0x5B <= cp <= 0x60) || (0x7B <= cp <= 0x7E) {
        None
    } else {
        Some(Script::Other)
    }
}

impl Script {
    /// The script's name as reports spell it.
    pub fn name(&self) -> (s: &'static str)
        ensures
            s@ == script_name(*self),
    {
        match self {
            Script::Latin => "latin",
            Script::Cjk => "cjk",
            Script::Emoji => "emoji",
            Script::Cyrillic => "cyrillic",
            Script::Arabic => "arabic",
            Script::Hebrew => "hebrew",
            Script::Greek => "greek",
            Script::Devanagari => "devanagari",
            Script::Other => "other",
        }
    }

    fn at(i: usize) -> (s: Script)
        requires
            i < 9,
        ensures
            script_index(s) == i,
    {
        if i == 0 {
            Script::Latin
        } else if i == 1 {
            Script::Cjk
        } else if i == 2 {
            Script::Emoji
        } else if i == 3 {
            Script::Cyrillic
        } else if i == 4 {
            Script::Arabic
        } else if i == 5 {
            Script::Hebrew
        } else if i == 6 {
            Script::Greek
        } else if i == 7 {
            Script::Devanagari
        } else {
            Script::Other
        }
    }
}

/// The name of a script.
pub open spec fn script_name(s: Script) -> Seq<char> {
    match s {
        Script::Latin => "latin"@,
        Script::Cjk => "cjk"@,
        Script::Emoji => "emoji"@,
        Script::Cyrillic => "cyrillic"@,
        Script::Arabic => "arabic"@,
        Script::Hebrew => "hebrew"@,
        Script::Greek => "greek"@,
        Script::Devanagari => "devanagari"@,
        Script::Other => "other"@,
    }
}

/// The script of a code point.
pub fn classify_cp(cp: u32) -> (r: Option<Script>)
    ensures
        r == script_of(cp),
{
    if is_cjk(cp) {
        return Some(Script::Cjk);
    }
    if is_emoji(cp) {
        return Some(Script::Emoji);
    }
    if (0x41 <= cp && cp <= 0x5A) || (0x61 <= cp && cp <= 0x7A) || (0xC0 <= cp && cp <= 0x24F) {
        return Some(Script::Latin);
    }
    if 0x370 <= cp && cp <= 0x3FF {
        return Some(Script::Greek);
    }
    if 0x400 <= cp && cp <= 0x4FF {
        return Some(Script::Cyrillic);
    }
    if 0x590 <= cp && cp <= 0x5FF {
        return Some(Script::Hebrew);
    }
    if 0x600 <= cp && cp <= 0x6FF {
        return Some(Script::Arabic);
    }
    if 0x900 <= cp && cp <= 0x97F {
        return Some(Script::Devanagari);
    }
    if cp <= 0x2F || (0x3A <= cp && cp <= 0x40) || (0x5B <= cp && cp <= 0x60) || (0x7B <= cp
        && cp <= 0x7E) {
        return None;
    }
    Some(Script::Other)
}

/// Whether a character counts for script `k`: it is no ASCII digit and its
/// script is `k`.
pub open spec fn counts_for(c: char, k: Script) -> bool {
    !(0x30 <= (c as u32) <= 0x39) && script_of(c as u32) == Some(k)
}

/// Whether a character counts for some script.
pub open spec fn counts_at_all(c: char) -> bool {
    !(0x30 <= (c as u32) <= 0x39) && script_of(c as u32) is Some
}

/// Number of characters of `s` that count for script `k`.
pub open spec fn script_count(s: Seq<char>, k: Script) -> nat
    decreases s.len(),
{
    if s.len() == 0 {
        0
    } else {
        script_count(s.drop_last(), k) + if counts_for(s.last(), k) {
            1nat
        } else {
            0nat
        }
    }
}

/// Number of characters of `s` that count for some script.
pub open spec fn counted_total(s: Seq<char>) -> nat
    decreases s.len(),
{
    if s.len() == 0 {
        0
    } else {
        counted_total(s.drop_last()) + if counts_at_all(s.last()) {
            1nat
        } else {
            0nat
        }
    }
}

/// Position `p` holds the primary count: positive, no count greater, and
/// every earlier count smaller.
pub open spec fn is_primary_at(counts: Seq<nat>, p: int) -> bool {
    &&& 0 <= p < counts.len()
    &&& counts[p] > 0
    &&& forall|j: int| 0 <= j < counts.len() ==> counts[j] <= counts[p]
    &&& forall|j: int| 0 <= j < p ==> counts[j] < counts[p]
}

/// The script at a position of the tie-breaking order.
pub open spec fn script_at(i: int) -> Script {
    if i == 0 {
        Script::Latin
    } else if i == 1 {
        Script::Cjk
    } else if i == 2 {
        Script::Emoji
    } else if i == 3 {
        Script::Cyrillic
    } else if i == 4 {
        Script::Arabic
    } else if i == 5 {
        Script::Hebrew
    } else if i == 6 {
        Script::Greek
    } else if i == 7 {
        Script::Devanagari
    } else {
        Script::Other
    }
}

/// The primary script of counts given in tie-breaking order: the first
/// script with the greatest count, when some count is positive; `Other`
/// when none is.
pub open spec fn primary_of(counts: Seq<nat>) -> Script {
    if exists|p: int| is_primary_at(counts, p) {
        script_at(choose|p: int| is_primary_at(counts, p))
    } else {
        Script::Other
    }
}

/// Per-script character counts of a text, with its primary script.
#[derive(Debug, Clone)]
pub struct ScriptCounts {
    /// Counts in tie-breaking order (latin, cjk, emoji, cyrillic, arabic,
    /// hebrew, greek, devanagari, other).
    pub counts: Vec<usize>,
    /// Characters that count for some script.
    pub total: usize,
    pub primary: Script,
    pub has_cjk: bool,
    pub has_emoji: bool,
}

proof fn lemma_script_count_step(s: Seq<char>, k: Script)
    requires
        s.len() > 0,
    ensures
        script_count(s, k) == script_count(s.drop_last(), k) + if counts_for(s.last(), k) {
            1nat
        } else {
            0nat
        },
{
}

/// Counts the characters of `s` per script, ASCII digits and punctuation
/// left out, and names the primary script.
pub fn script_counts(s: &str) -> (r: ScriptCounts)
    ensures
        r.counts@.len() == 9,
        forall|k: Script| r.counts@[script_index(k) as int] == script_count(s@, k),
        r.total == counted_total(s@),
        r.primary == primary_of(r.counts@.map_values(|c: usize| c as nat)),
        r.has_cjk == (script_count(s@, Script::Cjk) > 0),
        r.has_emoji == (script_count(s@, Script::Emoji) > 0),
{
    let v = to_chars(s);
    let mut counts: Vec<usize> = Vec::new();
    let mut z: usize = 0;
    while z < 9
        invariant
            z <= 9,
            counts@.len() == z,
            forall|j: int| 0 <= j < z ==> counts@[j] == 0,
        decreases 9 - z,
    {
        counts.push(0);
        z = z + 1;
    }
    let mut total: usize = 0;
    let mut i: usize = 0;
    while i < v.len()
        invariant
            i <= v.len(),
            v@ == s@,
            counts@.len() == 9,
            forall|k: Script| counts@[script_index(k) as int] == script_count(
                #[trigger] v@.take(i as int),
                k,
            ),
            total == counted_total(v@.take(i as int)),
            forall|j: int| 0 <= j < 9 ==> counts@[j] <= i,
            total <= i,
        decreases v.len() - i,
    {
        let c = v[i];
        let cp = c as u32;
        let ghost pre = v@.take(i as int);
        let ghost cur = v@.take(i + 1);
        assert(cur.drop_last() =~= pre);
        assert(cur.last() == c);
        if !(0x30 <= cp && cp <= 0x39) {
            match classify_cp(cp) {
                Some(k) => {
                    let idx: usize = match k {
                        Script::Latin => 0,
                        Script::Cjk => 1,
                        Script::Emoji => 2,
                        Script::Cyrillic => 3,
                        Script::Arabic => 4,
                        Script::Hebrew => 5,
                        Script::Greek => 6,
                        Script::Devanagari => 7,
                        Script::Other => 8,
                    };
                    assert(idx == script_index(k));
                    let old_count = counts[idx];
                    counts.set(idx, old_count + 1);
                    total = total + 1;
                    assert forall|q: Script|
                        counts@[script_index(q) as int] == script_count(
                            #[trigger] v@.take(i + 1),
                            q,
                        ) by {
                        lemma_script_count_step(cur, q);
                    }
                },
                None => {
                    assert forall|q: Script|
                        counts@[script_index(q) as int] == script_count(
                            #[trigger] v@.take(i + 1),
                            q,
                        ) by {
                        lemma_script_count_step(cur, q);
                    }
                },
            }
        } else {
            assert forall|q: Script|
                counts@[script_index(q) as int] == script_count(#[trigger] v@.take(i + 1), q) by {
                lemma_script_count_step(cur, q);
            }
        }
        i = i + 1;
    }
    assert(v@.take(v.len() as int) == s@);
    let primary = primary_script(&counts);
    let has_cjk = counts[1] > 0;
    let has_emoji = counts[2] > 0;
    assert(counts@[script_index(Script::Cjk) as int] == script_count(s@, Script::Cjk));
    assert(counts@[script_index(Script::Emoji) as int] == script_count(s@, Script::Emoji));
    ScriptCounts { counts, total, primary, has_cjk, has_emoji }
}

/// The primary script of nine counts given in tie-breaking order.
pub fn primary_script(counts: &Vec<usize>) -> (p: Script)
    requires
        counts@.len() == 9,
    ensures
        p == primary_of(counts@.map_values(|c: usize| c as nat)),
{
    let ghost cs = counts@.map_values(|c: usize| c as nat);
    let mut best: usize = 0;
    let mut best_i: usize = 8;
    let mut found = false;
    let mut i: usize = 0;
    while i < 9
        invariant
            i <= 9,
            counts@.len() == 9,
            cs == counts@.map_values(|c: usize| c as nat),
            found ==> best_i < i && best > 0 && counts@[best_i as int] == best,
            !found ==> best == 0 && forall|j: int| 0 <= j < i ==> counts@[j] == 0,
            forall|j: int| 0 <= j < i ==> counts@[j] <= best,
            found ==> forall|j: int| 0 <= j < best_i ==> counts@[j] < best,
        decreases 9 - i,
    {
        if counts[i] > best {
            best = counts[i];
            best_i = i;
            found = true;
        }
        i = i + 1;
    }
    if !found {
        assert forall|p: int| !is_primary_at(cs, p) by {
            if 0 <= p < cs.len() {
                assert(cs[p] == 0);
            }
        }
        return Script::Other;
    }
    let k = Script::at(best_i);
    proof {
        assert(is_primary_at(cs, best_i as int));
        let c = choose|p: int| is_primary_at(cs, p);
        assert(is_primary_at(cs, c));
        if c < best_i {
            assert(cs[c] < cs[best_i as int]);
        } else if c > best_i {
            assert(cs[best_i as int] < cs[c]);
        }
        assert(c == best_i);
        assert(script_at(best_i as int) == k);
    }
    k
}

/// The CJK and emoji flags of a text are its CJK and emoji counts being
/// positive: `has_cjk` and `has_emoji` agree with the script counts.
pub proof fn lemma_flags_match_counts(s: Seq<char>)
    ensures
        (script_count(s, Script::Cjk) > 0) == (exists|i: int|
            0 <= i < s.len() && is_cjk_cp(#[trigger] s[i] as u32)),
        (script_count(s, Script::Emoji) > 0) == (exists|i: int|
            0 <= i < s.len() && is_emoji_cp(#[trigger] s[i] as u32)),
    decreases s.len(),
{
    if s.len() > 0 {
        let p = s.drop_last();
        lemma_flags_match_counts(p);
        let c = s.last();
        assert(counts_for(c, Script::Cjk) == is_cjk_cp(c as u32));
        assert(counts_for(c, Script::Emoji) == is_emoji_cp(c as u32));
        assert forall|i: int| 0 <= i < p.len() implies p[i] == s[i] by {}
        if exists|i: int| 0 <= i < p.len() && is_cjk_cp(#[trigger] p[i] as u32) {
            let i = choose|i: int| 0 <= i < p.len() && is_cjk_cp(#[trigger] p[i] as u32);
            assert(s[i] == p[i]);
        }
        if exists|i: int| 0 <= i < p.len() && is_emoji_cp(#[trigger] p[i] as u32) {
            let i = choose|i: int| 0 <= i < p.len() && is_emoji_cp(#[trigger] p[i] as u32);
            assert(s[i] == p[i]);
        }
        if exists|i: int| 0 <= i < s.len() && is_cjk_cp(#[trigger] s[i] as u32) {
            let i = choose|i: int| 0 <= i < s.len() && is_cjk_cp(#[trigger] s[i] as u32);
            if i < s.len() - 1 {
                assert(p[i] == s[i]);
            }
        }
        if exists|i: int| 0 <= i < s.len() && is_emoji_cp(#[trigger] s[i] as u32) {
            let i = choose|i: int| 0 <= i < s.len() && is_emoji_cp(#[trigger] s[i] as u32);
            if i < s.len() - 1 {
                assert(p[i] == s[i]);
            }
        }
    }
}

// ── N-grams ─────────────────────────────────────────────────────────

/// Whether `c` belongs to a run of the kind `cjk`: CJK characters, or
/// other characters that are not white space.
pub open spec fn in_run(c: char, cjk: bool) -> bool {
    if cjk {
        is_cjk_cp(c as u32)
    } else {
        !is_ws_char(c) && !is_cjk_cp(c as u32)
    }
}

/// Length of the run of kind `cjk` at the front of `s`.
pub open spec fn run_len(s: Seq<char>, cjk: bool) -> nat
    decreases s.len(),
{
    if s.len() > 0 && in_run(s[0], cjk) {
        1 + run_len(s.drop_first(), cjk)
    } else {
        0
    }
}

proof fn lemma_run_len(s: Seq<char>, cjk: bool)
    ensures
        run_len(s, cjk) <= s.len(),
        s.len() > 0 && in_run(s[0], cjk) ==> run_len(s, cjk) > 0,
    decreases s.len(),
{
    if s.len() > 0 && in_run(s[0], cjk) {
        lemma_run_len(s.drop_first(), cjk);
    }
}

proof fn lemma_run_len_exact(s: Seq<char>, cjk: bool, n: nat)
    requires
        n <= s.len(),
        forall|i: int| 0 <= i < n ==> in_run(#[trigger] s[i], cjk),
        n < s.len() ==> !in_run(s[n as int], cjk),
    ensures
        run_len(s, cjk) == n,
    decreases n,
{
    if n > 0 {
        assert forall|i: int| 0 <= i < n - 1 implies in_run(#[trigger] s.drop_first()[i], cjk) by {
            assert(s.drop_first()[i] == s[i + 1]);
        }
        lemma_run_len_exact(s.drop_first(), cjk, (n - 1) as nat);
    }
}

/// The grams of a CJK run: its 2-character windows, or the run itself when
/// it has one character.
pub open spec fn bigrams_of(run: Seq<char>) -> Seq<Seq<char>> {
    if run.len() <= 1 {
        seq![run]
    } else {
        Seq::new((run.len() - 1) as nat, |i: int| run.subrange(i, i + 2))
    }
}

/// The search terms of a text: CJK runs become their bigrams, other runs
/// between white space stay whole, in order of appearance.
pub open spec fn cjk_terms(s: Seq<char>) -> Seq<Seq<char>>
    decreases s.len(),
{
    if s.len() == 0 {
        Seq::empty()
    } else if is_ws_char(s[0]) {
        cjk_terms(s.drop_first())
    } else {
        let cjk = is_cjk_cp(s[0] as u32);
        let n = run_len(s, cjk);
        if 0 < n <= s.len() {
            (if cjk {
                bigrams_of(s.take(n as int))
            } else {
                seq![s.take(n as int)]
            }) + cjk_terms(s.skip(n as int))
        } else {
            Seq::empty()
        }
    }
}

fn run_char(c: char, cjk: bool) -> (b: bool)
    ensures
        b == in_run(c, cjk),
{
    if cjk {
        is_cjk(c as u32)
    } else {
        !is_ws(c) && !is_cjk(c as u32)
    }
}

/// Length of the run of kind `cjk` starting at `from`.
fn run_end(v: &[char], from: usize, cjk: bool) -> (end: usize)
    requires
        from <= v@.len(),
    ensures
        from <= end <= v@.len(),
        end - from == run_len(v@.skip(from as int), cjk),
{
    let mut j = from;
    while j < v.len() && run_char(v[j], cjk)
        invariant
            from <= j <= v@.len(),
            forall|i: int| from <= i < j ==> in_run(#[trigger] v@[i], cjk),
        decreases v.len() - j,
    {
        j = j + 1;
    }
    proof {
        let t = v@.skip(from as int);
        assert forall|i: int| 0 <= i < j - from implies in_run(#[trigger] t[i], cjk) by {
            assert(t[i] == v@[from + i]);
        }
        if j < v.len() {
            assert(t[j - from] == v@[j as int]);
        }
        lemma_run_len_exact(t, cjk, (j - from) as nat);
    }
    j
}

/// Splits CJK runs into 2-character grams; other words pass through
/// intact.
pub fn cjk_bigrams(text: &str) -> (r: Vec<String>)
    ensures
        r@.map_values(|t: String| t@) == cjk_terms(text@),
        forall|p: int|
            0 <= p < text@.len() - 1 && is_cjk_cp(#[trigger] text@[p] as u32) && is_cjk_cp(text@[p + 1] as u32)
                ==> exists|j: int| 0 <= j < r@.len() && r@[j]@ == seq![text@[p], text@[p + 1]],
        forall|p: int|
            0 <= p < text@.len() && is_cjk_cp(#[trigger] text@[p] as u32) && (p == 0 || !is_cjk_cp(
                text@[p - 1] as u32,
            )) && (p + 1 == text@.len() || !is_cjk_cp(text@[p + 1] as u32)) ==> exists|j: int|
                0 <= j < r@.len() && r@[j]@ == seq![text@[p]],
{
    let v = to_chars(text);
    let mut r: Vec<String> = Vec::new();
    let mut i: usize = 0;
    assert(v@.skip(0) =~= v@);
    while i < v.len()
        invariant
            i <= v@.len(),
            v@ == text@,
            r@.map_values(|t: String| t@) + cjk_terms(v@.skip(i as int)) == cjk_terms(v@),
        decreases v.len() - i,
    {
        let ghost rest = v@.skip(i as int);
        let ghost before = r@.map_values(|t: String| t@);
        assert(rest[0] == v@[i as int]);
        if is_ws(v[i]) {
            assert(rest.drop_first() =~= v@.skip(i + 1));
            i = i + 1;
        } else {
            let cjk = is_cjk(v[i] as u32);
            let end = run_end(v.as_slice(), i, cjk);
            proof {
                lemma_run_len(rest, cjk);
            }
            let ghost n = (end - i) as nat;
            let ghost run = rest.take(n as int);
            assert(run =~= v@.subrange(i as int, end as int));
            assert(rest.skip(n as int) =~= v@.skip(end as int));
            if cjk {
                if end - i == 1 {
                    let one = string_of_range(v.as_slice(), i, end);
                    r.push(one);
                    assert(r@.map_values(|t: String| t@) =~= before + bigrams_of(run));
                } else {
                    let mut k = i;
                    while k + 1 < end
                        invariant
                            i <= k < end,
                            end <= v@.len(),
                            end - i >= 2,
                            run == v@.subrange(i as int, end as int),
                            r@.map_values(|t: String| t@) == before + bigrams_of(run).take(k - i),
                        decreases end - k,
                    {
                        let g = string_of_range(v.as_slice(), k, k + 2);
                        assert(g@ =~= run.subrange(k - i, k - i + 2));
                        let ghost prev = r@.map_values(|t: String| t@);
                        r.push(g);
                        assert(r@.map_values(|t: String| t@) =~= prev.push(g@));
                        assert(bigrams_of(run).take(k + 1 - i) =~= bigrams_of(run).take(k - i).push(g@));
                        assert(r@.map_values(|t: String| t@) =~= before + bigrams_of(run).take(k + 1 - i));
                        k = k + 1;
                    }
                    assert(bigrams_of(run).take(k - i) =~= bigrams_of(run));
                }
            } else {
                let w = string_of_range(v.as_slice(), i, end);
                r.push(w);
                assert(r@.map_values(|t: String| t@) =~= before + seq![run]);
            }
            assert(cjk_terms(rest) == (if cjk {
                bigrams_of(run)
            } else {
                seq![run]
            }) + cjk_terms(rest.skip(n as int)));
            i = end;
        }
    }
    assert(v@.skip(i as int) =~= Seq::<char>::empty());
    assert(r@.map_values(|t: String| t@) + Seq::<Seq<char>>::empty() =~= r@.map_values(
        |t: String| t@,
    ));
    proof {
        let m = r@.map_values(|t: String| t@);
        assert forall|p: int|
            0 <= p < text@.len() - 1 && is_cjk_cp(#[trigger] text@[p] as u32) && is_cjk_cp(text@[p + 1] as u32)
            implies exists|j: int| 0 <= j < r@.len() && r@[j]@ == seq![text@[p], text@[p + 1]] by {
            lemma_cjk_chars_covered(text@, p);
            let j = choose|j: int| 0 <= j < m.len() && m[j] == seq![text@[p], text@[p + 1]];
            assert(r@[j]@ == m[j]);
        }
        assert forall|p: int|
            0 <= p < text@.len() && is_cjk_cp(#[trigger] text@[p] as u32) && (p == 0 || !is_cjk_cp(
                text@[p - 1] as u32,
            )) && (p + 1 == text@.len() || !is_cjk_cp(text@[p + 1] as u32)) implies exists|j: int|
                0 <= j < r@.len() && r@[j]@ == seq![text@[p]] by {
            lemma_cjk_chars_covered(text@, p);
            let j = choose|j: int| 0 <= j < m.len() && m[j] == seq![text@[p]];
            assert(r@[j]@ == m[j]);
        }
    }
    r
}

/// A text of CJK characters only is cut into its 2-character windows (one
/// term when it has one character); a word of other characters stays
/// whole.
pub proof fn lemma_single_run_terms(s: Seq<char>, cjk: bool)
    requires
        s.len() > 0,
        forall|i: int| 0 <= i < s.len() ==> in_run(#[trigger] s[i], cjk),
    ensures
        cjk_terms(s) == (if cjk {
            bigrams_of(s)
        } else {
            seq![s]
        }),
{
    lemma_run_len_exact(s, cjk, s.len());
    assert(!is_ws_char(s[0])) by {
        assert(in_run(s[0], cjk));
    }
    assert(is_cjk_cp(s[0] as u32) == cjk) by {
        assert(in_run(s[0], cjk));
    }
    assert(s.take(s.len() as int) =~= s);
    assert(s.skip(s.len() as int) =~= Seq::<char>::empty());
    assert(cjk_terms(Seq::<char>::empty()) =~= Seq::<Seq<char>>::empty());
    assert(bigrams_of(s) + Seq::<Seq<char>>::empty() =~= bigrams_of(s));
    assert(seq![s] + Seq::<Seq<char>>::empty() =~= seq![s]);
}

proof fn lemma_run_facts(s: Seq<char>, cjk: bool)
    ensures
        run_len(s, cjk) <= s.len(),
        forall|i: int| 0 <= i < run_len(s, cjk) ==> in_run(#[trigger] s[i], cjk),
        run_len(s, cjk) < s.len() ==> !in_run(s[run_len(s, cjk) as int], cjk),
    decreases s.len(),
{
    if s.len() > 0 && in_run(s[0], cjk) {
        let t = s.drop_first();
        lemma_run_facts(t, cjk);
        assert forall|i: int| 0 <= i < run_len(s, cjk) implies in_run(#[trigger] s[i], cjk) by {
            if i > 0 {
                assert(s[i] == t[i - 1]);
            }
        }
        if run_len(s, cjk) < s.len() {
            assert(s[run_len(s, cjk) as int] == t[run_len(t, cjk) as int]);
        }
    }
}

proof fn lemma_contains_in_tail(a: Seq<Seq<char>>, b: Seq<Seq<char>>, x: Seq<char>)
    requires
        b.contains(x),
    ensures
        (a + b).contains(x),
{
    let j = choose|j: int| 0 <= j < b.len() && b[j] == x;
    assert((a + b)[a.len() + j] == x);
}

proof fn lemma_contains_in_head(a: Seq<Seq<char>>, b: Seq<Seq<char>>, x: Seq<char>)
    requires
        a.contains(x),
    ensures
        (a + b).contains(x),
{
    let j = choose|j: int| 0 <= j < a.len() && a[j] == x;
    assert((a + b)[j] == x);
}

/// No CJK character is lost: two neighbouring CJK characters make a term of
/// their own, and a CJK character with no CJK neighbour is a term by itself.
pub proof fn lemma_cjk_chars_covered(s: Seq<char>, p: int)
    requires
        0 <= p < s.len(),
        is_cjk_cp(s[p] as u32),
    ensures
        p + 1 < s.len() && is_cjk_cp(s[p + 1] as u32) ==> cjk_terms(s).contains(seq![s[p], s[p + 1]]),
        (p == 0 || !is_cjk_cp(s[p - 1] as u32)) && (p + 1 == s.len() || !is_cjk_cp(s[p + 1] as u32))
            ==> cjk_terms(s).contains(seq![s[p]]),
    decreases s.len(),
{
    if is_ws_char(s[0]) {
        let t = s.drop_first();
        assert(p > 0);
        assert(t[p - 1] == s[p]);
        if p + 1 < s.len() {
            assert(t[p] == s[p + 1]);
        }
        if p - 1 > 0 {
            assert(t[p - 2] == s[p - 1]);
        }
        lemma_cjk_chars_covered(t, p - 1);
    } else {
        let cjk = is_cjk_cp(s[0] as u32);
        lemma_run_facts(s, cjk);
        lemma_run_len(s, cjk);
        let n = run_len(s, cjk);
        let head = if cjk {
            bigrams_of(s.take(n as int))
        } else {
            seq![s.take(n as int)]
        };
        let rest = s.skip(n as int);
        assert(cjk_terms(s) == head + cjk_terms(rest));
        if p < n {
            assert(in_run(s[p], cjk));
            assert(cjk);
            let run = s.take(n as int);
            if n == 1 {
                assert(p == 0);
                if s.len() > 1 {
                    assert(!in_run(s[1], cjk));
                }
                assert(run =~= seq![s[p]]);
                assert(head[0] == seq![s[p]]);
                lemma_contains_in_head(head, cjk_terms(rest), seq![s[p]]);
            } else {
                if p + 1 < n {
                    assert(head[p] =~= seq![s[p], s[p + 1]]);
                    lemma_contains_in_head(head, cjk_terms(rest), seq![s[p], s[p + 1]]);
                } else if p + 1 < s.len() {
                    assert(!in_run(s[p + 1], cjk));
                }
                if p > 0 {
                    assert(in_run(s[p - 1], cjk));
                } else {
                    assert(in_run(s[1], cjk));
                }
            }
        } else {
            let q = p - n;
            assert(rest[q] == s[p]);
            if p + 1 < s.len() {
                assert(rest[q + 1] == s[p + 1]);
            }
            if q > 0 {
                assert(rest[q - 1] == s[p - 1]);
            }
            lemma_cjk_chars_covered(rest, q);
            if p + 1 < s.len() && is_cjk_cp(s[p + 1] as u32) {
                assert(seq![rest[q], rest[q + 1]] == seq![s[p], s[p + 1]]);
                lemma_contains_in_tail(head, cjk_terms(rest), seq![s[p], s[p + 1]]);
            }
            if (p == 0 || !is_cjk_cp(s[p - 1] as u32)) && (p + 1 == s.len() || !is_cjk_cp(s[p + 1] as u32)) {
                assert(seq![rest[q]] == seq![s[p]]);
                lemma_contains_in_tail(head, cjk_terms(rest), seq![s[p]]);
            }
        }
    }
}

/// The emoji grams of the first `k` positions of `v`: for each emoji, the
/// text of up to three characters starting at it.
pub open spec fn emoji_grams_upto(v: Seq<char>, k: nat) -> Seq<Seq<char>>
    decreases k,
{
    if k == 0 {
        Seq::empty()
    } else {
        let i = k - 1;
        emoji_grams_upto(v, (k - 1) as nat) + if i < v.len() && is_emoji_cp(v[i] as u32) {
            seq![v.subrange(i, if i + 3 <= v.len() { i + 3 } else { v.len() as int })]
        } else {
            Seq::empty()
        }
    }
}

/// Length-3 grams starting at each emoji.
pub fn emoji_trigrams(text: &str) -> (r: Vec<String>)
    ensures
        r@.map_values(|t: String| t@) == emoji_grams_upto(text@, text@.len()),
{
    let v = to_chars(text);
    let mut r: Vec<String> = Vec::new();
    let mut i: usize = 0;
    while i < v.len()
        invariant
            i <= v@.len(),
            v@ == text@,
            r@.map_values(|t: String| t@) == emoji_grams_upto(v@, i as nat),
        decreases v.len() - i,
    {
        let ghost before = r@.map_values(|t: String| t@);
        if is_emoji(v[i] as u32) {
            let end = if v.len() - i >= 3 {
                i + 3
            } else {
                v.len()
            };
            let g = string_of_range(v.as_slice(), i, end);
            r.push(g);
            assert(r@.map_values(|t: String| t@) =~= before.push(g@));
        } else {
            assert(emoji_grams_upto(v@, (i + 1) as nat) =~= before);
        }
        i = i + 1;
    }
    r
}

} // verus!
