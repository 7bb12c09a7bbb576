//! Search queries: the shape of a query (token count, phrase, boolean)
//! that picks the fusion parameters, the decomposition of a websearch-style
//! query, and its rendering as an SQLite FTS5 `MATCH` expression.

use vstd::prelude::*;
use crate::text::{
    str_eq, find_char, is_ws, is_ws_char, push_char, split_words, string_of_range, to_chars, trim_chars,
    trim_end_spec, trim_spec, trim_start_spec, word_len, words,
};

verus! {

// ── Query shape ─────────────────────────────────────────────────────

/// Query characteristics used to pick adaptive RRF k and weights.
#[derive(Debug, Clone, Copy)]
pub struct QueryCharacteristics {
    pub token_count: usize,
    pub is_phrase: bool,
    pub is_boolean: bool,
}

/// An ASCII letter or digit.
pub open spec fn is_ascii_alnum(c: char) -> bool {
    ('0' <= c <= '9') || ('a' <= c <= 'z') || ('A' <= c <= 'Z')
}

/// `kw` stands in `t` at position `i` as a word of its own: no ASCII letter
/// or digit touches it on either side.
pub open spec fn keyword_at(t: Seq<char>, kw: Seq<char>, i: int) -> bool {
    &&& 0 <= i
    &&& i + kw.len() <= t.len()
    &&& t.subrange(i, i + kw.len()) == kw
    &&& (i == 0 || !is_ascii_alnum(t[i - 1]))
    &&& (i + kw.len() == t.len() || !is_ascii_alnum(t[i + kw.len()]))
}

/// Some stand-alone occurrence of `kw` in `t`.
pub open spec fn has_keyword(t: Seq<char>, kw: Seq<char>) -> bool {
    exists|i: int| keyword_at(t, kw, i)
}

/// A `'-'` right after white space (a negated term).
pub open spec fn has_negation(t: Seq<char>) -> bool {
    exists|i: int| 1 <= i < t.len() && t[i] == '-' && is_ws_char(#[trigger] t[i - 1])
}

/// `t` is enclosed in the quote `q` and holds something between the quotes.
pub open spec fn quoted_by(t: Seq<char>, q: char) -> bool {
    t.len() > 2 && t[0] == q && t.last() == q
}

/// The characteristics of a query.
pub open spec fn characteristics_of(query: Seq<char>) -> (nat, bool, bool) {
    let t = trim_spec(query);
    (
        words(t).len(),
        quoted_by(t, '"') || quoted_by(t, '\''),
        has_keyword(t, "AND"@) || has_keyword(t, "OR"@) || has_keyword(t, "NOT"@) || has_negation(t),
    )
}

fn is_ascii_alnum_char(c: char) -> (b: bool)
    ensures
        b == is_ascii_alnum(c),
{
    ('0' <= c && c <= '9') || ('a' <= c && c <= 'z') || ('A' <= c && c <= 'Z')
}

/// Whether `kw` stands alone in `t` somewhere.
fn find_keyword(t: &[char], kw: &str) -> (b: bool)
    requires
        kw@.len() > 0,
    ensures
        b == has_keyword(t@, kw@),
{
    let k = to_chars(kw);
    if k.len() > t.len() {
        assert forall|i: int| !keyword_at(t@, kw@, i) by {}
        return false;
    }
    let mut i: usize = 0;
    while i <= t.len() - k.len()
        invariant
            k@ == kw@,
            0 < k.len() <= t.len(),
            i <= t.len() - k.len() + 1,
            forall|j: int| 0 <= j < i ==> !keyword_at(t@, kw@, j),
        decreases t.len() - k.len() + 1 - i,
    {
        let mut m: usize = 0;
        let mut same = true;
        while m < k.len()
            invariant
                m <= k.len(),
                i + k.len() <= t.len(),
                same <==> forall|q: int| 0 <= q < m ==> t@[i + q] == k@[q],
            decreases k.len() - m,
        {
            if t[i + m] != k[m] {
                same = false;
            }
            m = m + 1;
        }
        let end = i + k.len();
        let before_ok = i == 0 || !is_ascii_alnum_char(t[i - 1]);
        let after_ok = end == t.len() || !is_ascii_alnum_char(t[end]);
        proof {
            if same {
                assert(t@.subrange(i as int, end as int) =~= kw@);
            } else {
                let q = choose|q: int| 0 <= q < k.len() && t@[i + q] != k@[q];
                assert(t@.subrange(i as int, end as int)[q] != kw@[q]);
            }
        }
        if same && before_ok && after_ok {
            assert(keyword_at(t@, kw@, i as int));
            return true;
        }
        i = i + 1;
    }
    assert forall|j: int| !keyword_at(t@, kw@, j) by {
        if j >= i {
            assert(j + kw@.len() > t@.len());
        }
    }
    false
}

/// Whether some `'-'` follows white space.
fn find_negation(t: &[char]) -> (b: bool)
    ensures
        b == has_negation(t@),
{
    let mut i: usize = 1;
    while i < t.len()
        invariant
            1 <= i,
            forall|j: int| 1 <= j < i && j < t@.len() ==> !(t@[j] == '-' && is_ws_char(
                #[trigger] t@[j - 1],
            )),
        decreases t.len() - i,
    {
        if t[i] == '-' && is_ws(t[i - 1]) {
            assert(is_ws_char(t@[i - 1]));
            return true;
        }
        i = i + 1;
    }
    false
}

/// Cheap query characterizer: token count, whether the query is one
/// quoted phrase, whether it uses boolean keywords or a negated term.
pub fn characterize(query: &str) -> (r: QueryCharacteristics)
    ensures
        (r.token_count as nat, r.is_phrase, r.is_boolean) == characteristics_of(query@),
        has_keyword(query@, "AND"@) || has_keyword(query@, "OR"@) || has_keyword(query@, "NOT"@)
            ==> r.is_boolean,
{
    proof {
        reveal_strlit("AND");
        reveal_strlit("OR");
        reveal_strlit("NOT");
        if has_keyword(query@, "AND"@) {
            lemma_keyword_makes_boolean(query@, "AND"@);
        }
        if has_keyword(query@, "OR"@) {
            lemma_keyword_makes_boolean(query@, "OR"@);
        }
        if has_keyword(query@, "NOT"@) {
            lemma_keyword_makes_boolean(query@, "NOT"@);
        }
    }
    let qv = to_chars(query);
    let t = trim_chars(qv.as_slice());
    let n = t.len();
    let is_phrase = (n > 2 && t[0] == '"' && t[n - 1] == '"') || (n > 2 && t[0] == '\'' && t[n
        - 1] == '\'');
    proof {
        reveal_strlit("AND");
        reveal_strlit("OR");
        reveal_strlit("NOT");
    }
    let is_boolean = find_keyword(t.as_slice(), "AND") || find_keyword(t.as_slice(), "OR")
        || find_keyword(t.as_slice(), "NOT") || find_negation(t.as_slice());
    let ws = split_words(t.as_slice());
    QueryCharacteristics { token_count: ws.len(), is_phrase, is_boolean }
}

proof fn lemma_keyword_trim_start(t: Seq<char>, kw: Seq<char>, i: int)
    requires
        keyword_at(t, kw, i),
        kw.len() > 0,
        !is_ws_char(kw[0]),
    ensures
        has_keyword(trim_start_spec(t), kw),
    decreases t.len(),
{
    if t.len() > 0 && is_ws_char(t[0]) {
        assert(t.subrange(i, i + kw.len())[0] == t[i]);
        assert(i != 0);
        let u = t.drop_first();
        assert(u.subrange(i - 1, i - 1 + kw.len()) =~= t.subrange(i, i + kw.len()));
        if i - 1 > 0 {
            assert(u[i - 2] == t[i - 1]);
        }
        if i - 1 + kw.len() != u.len() {
            assert(u[i - 1 + kw.len()] == t[i + kw.len()]);
        }
        assert(keyword_at(u, kw, i - 1));
        lemma_keyword_trim_start(u, kw, i - 1);
    } else {
        assert(keyword_at(trim_start_spec(t), kw, i));
    }
}

proof fn lemma_keyword_trim_end(t: Seq<char>, kw: Seq<char>, i: int)
    requires
        keyword_at(t, kw, i),
        kw.len() > 0,
        !is_ws_char(kw.last()),
    ensures
        has_keyword(trim_end_spec(t), kw),
    decreases t.len(),
{
    if t.len() > 0 && is_ws_char(t.last()) {
        assert(t.subrange(i, i + kw.len())[kw.len() - 1] == t[i + kw.len() - 1]);
        assert(i + kw.len() < t.len());
        let u = t.drop_last();
        assert(u.subrange(i, i + kw.len()) =~= t.subrange(i, i + kw.len()));
        if i > 0 {
            assert(u[i - 1] == t[i - 1]);
        }
        if i + kw.len() != u.len() {
            assert(u[i + kw.len()] == t[i + kw.len()]);
        }
        assert(keyword_at(u, kw, i));
        lemma_keyword_trim_end(u, kw, i);
    } else {
        assert(keyword_at(trim_end_spec(t), kw, i));
    }
}

/// A query in which `AND`, `OR` or `NOT` stands as a word of its own is a
/// boolean query.
pub proof fn lemma_keyword_makes_boolean(t: Seq<char>, kw: Seq<char>)
    requires
        kw == "AND"@ || kw == "OR"@ || kw == "NOT"@,
        has_keyword(t, kw),
    ensures
        characteristics_of(t).2,
{
    reveal_strlit("AND");
    reveal_strlit("OR");
    reveal_strlit("NOT");
    let i = choose|i: int| keyword_at(t, kw, i);
    lemma_keyword_trim_start(t, kw, i);
    let s = trim_start_spec(t);
    let j = choose|j: int| keyword_at(s, kw, j);
    lemma_keyword_trim_end(s, kw, j);
    assert(has_keyword(trim_spec(t), kw));
}

/// The RRF k for a query shape: 10 for a phrase, 15 for a boolean query or
/// one of at most two tokens, 40 from ten tokens on, 20 otherwise.
pub open spec fn rrf_k_for(token_count: nat, is_phrase: bool, is_boolean: bool) -> int {
    if is_phrase {
        10
    } else if is_boolean {
        15
    } else if token_count <= 2 {
        15
    } else if token_count >= 10 {
        40
    } else {
        20
    }
}

/// Picks an adaptive k value for RRF based on query shape.
pub fn select_rrf_k(q: QueryCharacteristics) -> (k: i32)
    ensures
        k == rrf_k_for(q.token_count as nat, q.is_phrase, q.is_boolean),
{
    if q.is_phrase {
        return 10;
    }
    if q.is_boolean {
        return 15;
    }
    if q.token_count <= 2 {
        return 15;
    }
    if q.token_count >= 10 {
        return 40;
    }
    20
}

/// The FTS and semantic fusion weights of a query shape, in percent:
/// 80/20 for a phrase, 70/30 for a boolean query, 65/35 up to two tokens,
/// 30/70 from ten tokens on, 50/50 otherwise. They always sum to 100.
pub open spec fn weight_percents_for(token_count: nat, is_phrase: bool, is_boolean: bool) -> (
    nat,
    nat,
) {
    if is_phrase {
        (80, 20)
    } else if is_boolean {
        (70, 30)
    } else if token_count <= 2 {
        (65, 35)
    } else if token_count >= 10 {
        (30, 70)
    } else {
        (50, 50)
    }
}

/// Picks adaptive FTS / semantic weights, in percent, from query shape.
pub fn select_weight_percents(q: QueryCharacteristics) -> (w: (u32, u32))
    ensures
        (w.0 as nat, w.1 as nat) == weight_percents_for(q.token_count as nat, q.is_phrase, q.is_boolean),
        w.0 + w.1 == 100,
{
    if q.is_phrase {
        return (80, 20);
    }
    if q.is_boolean {
        return (70, 30);
    }
    if q.token_count <= 2 {
        return (65, 35);
    }
    if q.token_count >= 10 {
        return (30, 70);
    }
    (50, 50)
}

// ── Websearch syntax ────────────────────────────────────────────────

/// A token of a websearch query: a quoted phrase (`true`) or a word
/// (`false`), with its text.
pub type QueryToken = (bool, Seq<char>);

/// The tokens of a query: a `'"'` opens a phrase that runs to the next
/// `'"'` (or the end); any other run of non-white-space is a word.
pub open spec fn query_tokens(s: Seq<char>) -> Seq<QueryToken>
    decreases s.len(),
{
    if s.len() == 0 {
        Seq::empty()
    } else if is_ws_char(s[0]) {
        query_tokens(s.drop_first())
    } else if s[0] == '"' {
        let body = s.drop_first();
        match find_char(body, '"') {
            Some(j) => if j < body.len() {
                seq![(true, body.take(j as int))] + query_tokens(body.skip(j + 1int))
            } else {
                Seq::empty()
            },
            None => seq![(true, body)],
        }
    } else {
        let n = word_len(s);
        if 0 < n <= s.len() {
            seq![(false, s.take(n as int))] + query_tokens(s.skip(n as int))
        } else {
            Seq::empty()
        }
    }
}

/// The word `OR`.
pub open spec fn is_or_word(t: QueryToken) -> bool {
    !t.0 && t.1 == "OR"@
}

/// Where an `OR` group that continues at `j` ends: each `OR` followed by a
/// token adds that token.
pub open spec fn group_end(toks: Seq<QueryToken>, j: nat) -> nat
    decreases toks.len() - j,
{
    if j + 1 < toks.len() && is_or_word(toks[j as int]) {
        group_end(toks, j + 2)
    } else {
        j
    }
}

/// The alternatives an `OR` group gains from position `j` on.
pub open spec fn group_rest(toks: Seq<QueryToken>, j: nat) -> Seq<Seq<char>>
    decreases toks.len() - j,
{
    if j + 1 < toks.len() && is_or_word(toks[j as int]) {
        seq![toks[j + 1int].1] + group_rest(toks, j + 2)
    } else {
        Seq::empty()
    }
}

/// An `OR` group ends at or after where it continues, and within the
/// tokens.
pub proof fn lemma_group_end(toks: Seq<QueryToken>, j: nat)
    ensures
        j <= group_end(toks, j),
        j < toks.len() ==> group_end(toks, j) <= toks.len(),
    decreases toks.len() - j,
{
    if j + 1 < toks.len() && is_or_word(toks[j as int]) {
        lemma_group_end(toks, j + 2);
    }
}

/// Token `i` opens an `OR` group: it is a word followed by the word `OR`.
pub open spec fn opens_group(toks: Seq<QueryToken>, i: nat) -> bool {
    !toks[i as int].0 && i + 1 < toks.len() && is_or_word(toks[i + 1int])
}

/// Token `i` excludes a term: a word of `'-'` and something more.
pub open spec fn is_exclusion(t: QueryToken) -> bool {
    !t.0 && t.1.len() > 1 && t.1[0] == '-'
}

/// Where reading continues after the item that starts at token `i`.
pub open spec fn next_item(toks: Seq<QueryToken>, i: nat) -> nat {
    if !toks[i as int].0 && opens_group(toks, i) {
        group_end(toks, i + 1)
    } else {
        i + 1
    }
}

/// The required terms from token `i` on: phrases and plain words.
pub open spec fn required_from(toks: Seq<QueryToken>, i: nat) -> Seq<Seq<char>>
    decreases toks.len() - i,
{
    if i >= toks.len() {
        Seq::empty()
    } else {
        proof {
            lemma_group_end(toks, i + 1);
        }
        let t = toks[i as int];
        (if t.0 || (!opens_group(toks, i) && !is_exclusion(t)) {
            seq![t.1]
        } else {
            Seq::empty()
        }) + required_from(toks, next_item(toks, i))
    }
}

/// The excluded terms from token `i` on, without their `'-'`.
pub open spec fn excluded_from(toks: Seq<QueryToken>, i: nat) -> Seq<Seq<char>>
    decreases toks.len() - i,
{
    if i >= toks.len() {
        Seq::empty()
    } else {
        proof {
            lemma_group_end(toks, i + 1);
        }
        let t = toks[i as int];
        (if !t.0 && !opens_group(toks, i) && is_exclusion(t) {
            seq![t.1.drop_first()]
        } else {
            Seq::empty()
        }) + excluded_from(toks, next_item(toks, i))
    }
}

/// The `OR` groups from token `i` on.
pub open spec fn optional_from(toks: Seq<QueryToken>, i: nat) -> Seq<Seq<Seq<char>>>
    decreases toks.len() - i,
{
    if i >= toks.len() {
        Seq::empty()
    } else {
        proof {
            lemma_group_end(toks, i + 1);
        }
        let t = toks[i as int];
        (if !t.0 && opens_group(toks, i) {
            seq![seq![t.1] + group_rest(toks, i + 1)]
        } else {
            Seq::empty()
        }) + optional_from(toks, next_item(toks, i))
    }
}

/// The phrases from token `i` on.
pub open spec fn phrases_from(toks: Seq<QueryToken>, i: nat) -> Seq<Seq<char>>
    decreases toks.len() - i,
{
    if i >= toks.len() {
        Seq::empty()
    } else {
        proof {
            lemma_group_end(toks, i + 1);
        }
        let t = toks[i as int];
        (if t.0 {
            seq![t.1]
        } else {
            Seq::empty()
        }) + phrases_from(toks, next_item(toks, i))
    }
}

/// Decomposed websearch query.
#[derive(Debug, Clone)]
pub struct ParsedQuery {
    pub required: Vec<String>,
    pub excluded: Vec<String>,
    pub optional: Vec<Vec<String>>,
    pub phrases: Vec<String>,
}

/// The texts of a list of strings.
pub open spec fn texts(v: Seq<String>) -> Seq<Seq<char>> {
    v.map_values(|s: String| s@)
}

/// The texts of a list of lists of strings.
pub open spec fn text_groups(v: Seq<Vec<String>>) -> Seq<Seq<Seq<char>>> {
    v.map_values(|g: Vec<String>| texts(g@))
}

/// The tokens as the parser sees them.
pub open spec fn token_view(v: Seq<(bool, String)>) -> Seq<QueryToken> {
    v.map_values(|t: (bool, String)| (t.0, t.1@))
}

/// Splits a query into phrase and word tokens.
pub fn tokenize_with_phrases(q: &str) -> (r: Vec<(bool, String)>)
    ensures
        token_view(r@) == query_tokens(q@),
{
    let v = to_chars(q);
    let mut r: Vec<(bool, String)> = Vec::new();
    let mut i: usize = 0;
    assert(v@.skip(0) =~= v@);
    while i < v.len()
        invariant
            i <= v@.len(),
            v@ == q@,
            token_view(r@) + query_tokens(v@.skip(i as int)) == query_tokens(v@),
        decreases v.len() - i,
    {
        let ghost rest = v@.skip(i as int);
        let ghost before = token_view(r@);
        assert(rest[0] == v@[i as int]);
        if is_ws(v[i]) {
            assert(rest.drop_first() =~= v@.skip(i + 1));
            i = i + 1;
        } else if v[i] == '"' {
            let mut j = i + 1;
            while j < v.len() && v[j] != '"'
                invariant
                    i < j <= v@.len(),
                    forall|k: int| i < k < j ==> v@[k] != '"',
                decreases v.len() - j,
            {
                j = j + 1;
            }
            let text = string_of_range(v.as_slice(), i + 1, j);
            let ghost body = rest.drop_first();
            proof {
                crate::text::lemma_find_char(body, '"');
                assert(body =~= v@.skip(i + 1));
                assert forall|k: int| 0 <= k < j - i - 1 implies body[k] != '"' by {
                    assert(body[k] == v@[i + 1 + k]);
                }
                if j < v.len() {
                    assert(body[j - i - 1] == '"');
                    assert(find_char(body, '"') == Some((j - i - 1) as nat));
                    assert(body.take(j - i - 1) =~= text@);
                    assert(body.skip(j - i - 1 + 1int) =~= v@.skip(j + 1));
                } else {
                    assert(find_char(body, '"') is None);
                    assert(body =~= text@);
                }
            }
            let ghost prev = r@;
            r.push((true, text));
            assert(token_view(r@) =~= before.push((true, text@)));
            if j < v.len() {
                i = j + 1;
            } else {
                assert(v@.skip(j as int) =~= Seq::<char>::empty());
                i = j;
            }
        } else {
            let mut j = i;
            while j < v.len() && !is_ws(v[j])
                invariant
                    i <= j <= v@.len(),
                    forall|k: int| i <= k < j ==> !is_ws_char(#[trigger] v@[k]),
                decreases v.len() - j,
            {
                j = j + 1;
            }
            proof {
                assert forall|k: int| 0 <= k < j - i implies !is_ws_char(#[trigger] rest[k]) by {
                    assert(rest[k] == v@[i + k]);
                }
                if j < v.len() {
                    assert(rest[j - i] == v@[j as int]);
                }
                crate::text::lemma_word_len_exact(rest, (j - i) as nat);
            }
            let text = string_of_range(v.as_slice(), i, j);
            assert(rest.take(j - i) =~= text@);
            assert(rest.skip(j - i) =~= v@.skip(j as int));
            r.push((false, text));
            assert(token_view(r@) =~= before.push((false, text@)));
            i = j;
        }
    }
    assert(v@.skip(i as int) =~= Seq::<char>::empty());
    assert(token_view(r@) + Seq::<QueryToken>::empty() =~= token_view(r@));
    r
}

fn is_or_token(t: &(bool, String)) -> (b: bool)
    ensures
        b == is_or_word((t.0, t.1@)),
{
    !t.0 && str_eq(t.1.as_str(), "OR")
}

/// Parses a websearch-style query: quoted phrases (also required),
/// `a OR b OR c` groups, `-term` exclusions, and plain required words.
pub fn parse_websearch(query: &str) -> (r: ParsedQuery)
    ensures
        texts(r.required@) == required_from(query_tokens(query@), 0),
        texts(r.excluded@) == excluded_from(query_tokens(query@), 0),
        text_groups(r.optional@) == optional_from(query_tokens(query@), 0),
        texts(r.phrases@) == phrases_from(query_tokens(query@), 0),
{
    let tokens = tokenize_with_phrases(query);
    let ghost tv = token_view(tokens@);
    let mut required: Vec<String> = Vec::new();
    let mut excluded: Vec<String> = Vec::new();
    let mut optional: Vec<Vec<String>> = Vec::new();
    let mut phrases: Vec<String> = Vec::new();
    let mut i: usize = 0;
    while i < tokens.len()
        invariant
            i <= tokens@.len(),
            tv == token_view(tokens@),
            tv == query_tokens(query@),
            texts(required@) + required_from(tv, i as nat) == required_from(tv, 0),
            texts(excluded@) + excluded_from(tv, i as nat) == excluded_from(tv, 0),
            text_groups(optional@) + optional_from(tv, i as nat) == optional_from(tv, 0),
            texts(phrases@) + phrases_from(tv, i as nat) == phrases_from(tv, 0),
        decreases tokens.len() - i,
    {
        let ghost r0 = texts(required@);
        let ghost e0 = texts(excluded@);
        let ghost o0 = text_groups(optional@);
        let ghost p0 = texts(phrases@);
        let ghost t = tv[i as int];
        proof {
            lemma_group_end(tv, (i + 1) as nat);
        }
        let is_phrase = tokens[i].0;
        let val = tokens[i].1.clone();
        assert(t == (is_phrase, val@));
        if is_phrase {
            let v2 = val.clone();
            phrases.push(val);
            required.push(v2);
            assert(texts(phrases@) =~= p0.push(t.1));
            assert(texts(required@) =~= r0.push(t.1));
            assert(texts(excluded@) =~= e0);
            assert(text_groups(optional@) =~= o0);
            i = i + 1;
        } else if i + 1 < tokens.len() && is_or_token(&tokens[i + 1]) {
            assert(opens_group(tv, i as nat));
            let mut group: Vec<String> = Vec::new();
            group.push(val);
            let mut j = i + 1;
            assert(texts(group@) =~= seq![t.1]);
            while j < tokens.len() - 1 && is_or_token(&tokens[j])
                invariant
                    i + 1 <= j <= tokens@.len(),
                    tv == token_view(tokens@),
                    texts(group@) + group_rest(tv, j as nat) == seq![t.1] + group_rest(tv, (i + 1) as nat),
                    group_end(tv, j as nat) == group_end(tv, (i + 1) as nat),
                decreases tokens.len() - j,
            {
                let ghost g0 = texts(group@);
                let alt = tokens[j + 1].1.clone();
                group.push(alt);
                assert(texts(group@) =~= g0.push(tv[j + 1].1));
                assert(group_rest(tv, j as nat) == seq![tv[j + 1].1] + group_rest(tv, (j + 2) as nat));
                assert(g0.push(tv[j + 1].1) + group_rest(tv, (j + 2) as nat) =~= g0 + (seq![tv[j + 1].1] + group_rest(tv, (j + 2) as nat)));
                j = j + 2;
            }
            assert(group_rest(tv, j as nat) =~= Seq::<Seq<char>>::empty());
            assert(texts(group@) =~= seq![t.1] + group_rest(tv, (i + 1) as nat));
            let ghost gv = texts(group@);
            optional.push(group);
            assert(text_groups(optional@) =~= o0.push(gv));
            assert(next_item(tv, i as nat) == j);
            assert(texts(required@) =~= r0);
            i = j;
        } else if is_exclusion_text(val.as_str()) {
            let vc = to_chars(val.as_str());
            let rest = string_of_range(vc.as_slice(), 1, vc.len());
            assert(rest@ =~= t.1.drop_first());
            excluded.push(rest);
            assert(texts(excluded@) =~= e0.push(t.1.drop_first()));
            assert(texts(required@) =~= r0);
            i = i + 1;
        } else {
            required.push(val);
            assert(texts(required@) =~= r0.push(t.1));
            i = i + 1;
        }
    }
    ParsedQuery { required, excluded, optional, phrases }
}

fn is_exclusion_text(v: &str) -> (b: bool)
    ensures
        b == (v@.len() > 1 && v@[0] == '-'),
{
    let c = to_chars(v);
    c.len() > 1 && c[0] == '-'
}

/// Every phrase of a query is also a required term.
pub proof fn lemma_phrases_required(toks: Seq<QueryToken>, i: nat)
    ensures
        forall|j: int|
            0 <= j < phrases_from(toks, i).len() ==> required_from(toks, i).contains(
                #[trigger] phrases_from(toks, i)[j],
            ),
    decreases toks.len() - i,
{
    if i < toks.len() {
        lemma_group_end(toks, i + 1);
        let n = next_item(toks, i);
        lemma_phrases_required(toks, n);
        let t = toks[i as int];
        let ph = phrases_from(toks, i);
        let rq = required_from(toks, i);
        let ph_rest = phrases_from(toks, n);
        let rq_rest = required_from(toks, n);
        if t.0 {
            assert(ph == seq![t.1] + ph_rest);
            assert(rq == seq![t.1] + rq_rest);
            assert forall|j: int| 0 <= j < ph.len() implies rq.contains(#[trigger] ph[j]) by {
                if j == 0 {
                    assert(rq[0] == t.1);
                } else {
                    assert(ph[j] == ph_rest[j - 1]);
                    let k = choose|k: int| 0 <= k < rq_rest.len() && rq_rest[k] == ph_rest[j - 1];
                    assert(rq[k + 1] == rq_rest[k]);
                }
            }
        } else {
            assert(ph =~= ph_rest);
            let head = if !opens_group(toks, i) && !is_exclusion(t) {
                seq![t.1]
            } else {
                Seq::<Seq<char>>::empty()
            };
            assert(rq == head + rq_rest);
            assert forall|j: int| 0 <= j < ph.len() implies rq.contains(#[trigger] ph[j]) by {
                assert(ph[j] == ph_rest[j]);
                let k = choose|k: int| 0 <= k < rq_rest.len() && rq_rest[k] == ph_rest[j];
                assert(rq[k + head.len()] == rq_rest[k]);
            }
        }
    }
}

// ── FTS5 rendering ──────────────────────────────────────────────────

/// What `char::is_alphanumeric` says of a character (Unicode `Alphabetic`
/// or `Numeric`).
pub uninterp spec fn unicode_alphanumeric(c: char) -> bool;

/// `char::is_alphanumeric`. Trusted: its result is named
/// `unicode_alphanumeric`; on ASCII it holds exactly of letters and
/// digits. Which non-ASCII characters it accepts is the Unicode tables'
/// matter and is not stated.
#[verifier::external_body]
fn char_is_alphanumeric(c: char) -> (b: bool)
    ensures
        b == unicode_alphanumeric(c),
        (c as u32) < 0x80 ==> (b == is_ascii_alnum(c)),
{
    c.is_alphanumeric()
}

/// Whether `char::is_alphanumeric` holds of `c`: on ASCII the letters and
/// digits, elsewhere as the Unicode tables say.
pub open spec fn alphanumeric(c: char) -> bool {
    if (c as u32) < 0x80 {
        is_ascii_alnum(c)
    } else {
        unicode_alphanumeric(c)
    }
}

/// A term FTS5 takes bare: not empty, only alphanumerics and `'_'`.
pub open spec fn is_bare_term(t: Seq<char>) -> bool {
    t.len() > 0 && forall|i: int| 0 <= i < t.len() ==> (alphanumeric(#[trigger] t[i]) || t[i] == '_')
}

/// `t` with every `'"'` doubled.
pub open spec fn double_quotes(t: Seq<char>) -> Seq<char>
    decreases t.len(),
{
    if t.len() == 0 {
        Seq::empty()
    } else {
        double_quotes(t.drop_last()) + if t.last() == '"' {
            seq!['"', '"']
        } else {
            seq![t.last()]
        }
    }
}

/// A term as FTS5 reads it: bare when it may be, else in double quotes
/// with its quotes doubled.
pub open spec fn fts5_term(t: Seq<char>) -> Seq<char> {
    if !is_bare_term(t) || t.contains(' ') {
        seq!['"'] + double_quotes(t) + seq!['"']
    } else {
        t
    }
}

/// The texts of `v` joined by `sep`.
pub open spec fn join_with(v: Seq<Seq<char>>, sep: Seq<char>) -> Seq<char>
    decreases v.len(),
{
    if v.len() == 0 {
        Seq::empty()
    } else if v.len() == 1 {
        v[0]
    } else {
        join_with(v.drop_last(), sep) + sep + v.last()
    }
}

/// An `OR` group in FTS5: its quoted alternatives joined by `OR`, in
/// parentheses.
pub open spec fn fts5_group(g: Seq<Seq<char>>) -> Seq<char> {
    seq!['('] + join_with(g.map_values(|t: Seq<char>| fts5_term(t)), " OR "@) + seq![')']
}

/// The `NOT` clauses of the excluded terms.
pub open spec fn fts5_exclusions(e: Seq<Seq<char>>) -> Seq<char>
    decreases e.len(),
{
    if e.len() == 0 {
        Seq::empty()
    } else {
        fts5_exclusions(e.drop_last()) + " NOT "@ + fts5_term(e.last())
    }
}

/// The FTS5 `MATCH` expression of a parsed query: the required terms and
/// the groups joined by `AND`, then a `NOT` clause per excluded term,
/// surrounding white space trimmed.
pub open spec fn fts5_match_text(
    required: Seq<Seq<char>>,
    optional: Seq<Seq<Seq<char>>>,
    excluded: Seq<Seq<char>>,
) -> Seq<char> {
    let parts = required.map_values(|t: Seq<char>| fts5_term(t)) + optional.map_values(
        |g: Seq<Seq<char>>| fts5_group(g),
    );
    trim_spec(join_with(parts, " AND "@) + fts5_exclusions(excluded))
}

/// Quotes a term for FTS5 when it is not a bare term.
pub fn quote_fts5(term: &str) -> (r: Vec<char>)
    ensures
        r@ == fts5_term(term@),
{
    let t = to_chars(term);
    let mut bare = t.len() > 0;
    let mut has_space = false;
    let mut i: usize = 0;
    while i < t.len()
        invariant
            i <= t@.len(),
            t@ == term@,
            bare <==> (t@.len() > 0 && forall|k: int| 0 <= k < i ==> (alphanumeric(#[trigger] t@[k]) || t@[k] == '_')),
            has_space <==> exists|k: int| 0 <= k < i && t@[k] == ' ',
        decreases t.len() - i,
    {
        let c = t[i];
        if !(char_is_alphanumeric(c) || c == '_') {
            bare = false;
        }
        if c == ' ' {
            has_space = true;
        }
        i = i + 1;
    }
    proof {
        if has_space {
            let k = choose|k: int| 0 <= k < t@.len() && t@[k] == ' ';
            assert(term@.contains(' ')) by {
                assert(term@[k] == ' ');
            }
        } else {
            assert(!term@.contains(' '));
        }
    }
    if !bare || has_space {
        let mut r: Vec<char> = Vec::new();
        r.push('"');
        let mut k: usize = 0;
        while k < t.len()
            invariant
                k <= t@.len(),
                t@ == term@,
                r@ == seq!['"'] + double_quotes(t@.take(k as int)),
            decreases t.len() - k,
        {
            let ghost before = r@;
            assert(t@.take(k + 1).drop_last() =~= t@.take(k as int));
            if t[k] == '"' {
                r.push('"');
                r.push('"');
            } else {
                r.push(t[k]);
            }
            k = k + 1;
            assert(r@ =~= seq!['"'] + double_quotes(t@.take(k as int)));
        }
        r.push('"');
        assert(t@.take(t@.len() as int) =~= t@);
        r
    } else {
        t
    }
}

fn push_all(r: &mut Vec<char>, s: &[char])
    ensures
        final(r)@ == old(r)@ + s@,
{
    let mut i: usize = 0;
    let ghost start = r@;
    while i < s.len()
        invariant
            i <= s@.len(),
            r@ == start + s@.take(i as int),
        decreases s.len() - i,
    {
        r.push(s[i]);
        i = i + 1;
        assert(r@ =~= start + s@.take(i as int));
    }
    assert(s@.take(s@.len() as int) =~= s@);
}

fn push_str_chars(r: &mut Vec<char>, s: &str)
    ensures
        final(r)@ == old(r)@ + s@,
{
    let c = to_chars(s);
    push_all(r, c.as_slice());
}

/// The texts of `parts` joined by `sep`.
fn join_chars(parts: &Vec<Vec<char>>, sep: &str) -> (r: Vec<char>)
    ensures
        r@ == join_with(parts@.map_values(|p: Vec<char>| p@), sep@),
{
    let ghost pv = parts@.map_values(|p: Vec<char>| p@);
    let mut r: Vec<char> = Vec::new();
    let mut i: usize = 0;
    assert(pv.take(0) =~= Seq::<Seq<char>>::empty());
    while i < parts.len()
        invariant
            i <= parts@.len(),
            pv == parts@.map_values(|p: Vec<char>| p@),
            r@ == join_with(pv.take(i as int), sep@),
        decreases parts.len() - i,
    {
        assert(pv.take(i + 1).drop_last() =~= pv.take(i as int));
        if i > 0 {
            push_str_chars(&mut r, sep);
        } else {
            assert(pv.take(1) =~= seq![pv[0]]);
        }
        push_all(&mut r, parts[i].as_slice());
        i = i + 1;
    }
    assert(pv.take(parts@.len() as int) =~= pv);
    r
}

/// Renders a parsed query as an SQLite FTS5 `MATCH` expression.
pub fn to_fts5_match(p: &ParsedQuery) -> (r: String)
    ensures
        r@ == fts5_match_text(texts(p.required@), text_groups(p.optional@), texts(p.excluded@)),
{
    let ghost req = texts(p.required@);
    let ghost opt = text_groups(p.optional@);
    let ghost exc = texts(p.excluded@);
    let mut parts: Vec<Vec<char>> = Vec::new();
    let mut i: usize = 0;
    while i < p.required.len()
        invariant
            i <= p.required@.len(),
            req == texts(p.required@),
            parts@.map_values(|q: Vec<char>| q@) == req.take(i as int).map_values(|t: Seq<char>| fts5_term(t)),
        decreases p.required.len() - i,
    {
        let q = quote_fts5(p.required[i].as_str());
        let ghost before = parts@.map_values(|q: Vec<char>| q@);
        parts.push(q);
        assert(parts@.map_values(|q: Vec<char>| q@) =~= before.push(fts5_term(req[i as int])));
        i = i + 1;
        assert(req.take(i as int).map_values(|t: Seq<char>| fts5_term(t)) =~= req.take(i - 1).map_values(|t: Seq<char>| fts5_term(t)).push(fts5_term(req[i - 1])));
    }
    assert(req.take(req.len() as int) =~= req);
    let ghost n_req = parts@.len();
    let mut g: usize = 0;
    while g < p.optional.len()
        invariant
            g <= p.optional@.len(),
            opt == text_groups(p.optional@),
            parts@.map_values(|q: Vec<char>| q@) == req.map_values(|t: Seq<char>| fts5_term(t)) + opt.take(g as int).map_values(|gr: Seq<Seq<char>>| fts5_group(gr)),
        decreases p.optional.len() - g,
    {
        let group = &p.optional[g];
        let mut alts: Vec<Vec<char>> = Vec::new();
        let mut a: usize = 0;
        let ghost gv = texts(group@);
        assert(gv == opt[g as int]);
        while a < group.len()
            invariant
                a <= group@.len(),
                gv == texts(group@),
                alts@.map_values(|q: Vec<char>| q@) == gv.take(a as int).map_values(|t: Seq<char>| fts5_term(t)),
            decreases group.len() - a,
        {
            let q = quote_fts5(group[a].as_str());
            let ghost before = alts@.map_values(|q: Vec<char>| q@);
            alts.push(q);
            assert(alts@.map_values(|q: Vec<char>| q@) =~= before.push(fts5_term(gv[a as int])));
            a = a + 1;
            assert(gv.take(a as int).map_values(|t: Seq<char>| fts5_term(t)) =~= gv.take(a - 1).map_values(|t: Seq<char>| fts5_term(t)).push(fts5_term(gv[a - 1])));
        }
        assert(gv.take(gv.len() as int) =~= gv);
        let joined = join_chars(&alts, " OR ");
        let mut part: Vec<char> = Vec::new();
        part.push('(');
        push_all(&mut part, joined.as_slice());
        part.push(')');
        assert(part@ =~= fts5_group(gv));
        let ghost before = parts@.map_values(|q: Vec<char>| q@);
        parts.push(part);
        assert(parts@.map_values(|q: Vec<char>| q@) =~= before.push(fts5_group(gv)));
        g = g + 1;
        assert(opt.take(g as int).map_values(|gr: Seq<Seq<char>>| fts5_group(gr)) =~= opt.take(g - 1).map_values(|gr: Seq<Seq<char>>| fts5_group(gr)).push(fts5_group(opt[g - 1])));
    }
    assert(opt.take(opt.len() as int) =~= opt);
    let mut s = join_chars(&parts, " AND ");
    let ghost joined = s@;
    let mut e: usize = 0;
    while e < p.excluded.len()
        invariant
            e <= p.excluded@.len(),
            exc == texts(p.excluded@),
            s@ == joined + fts5_exclusions(exc.take(e as int)),
        decreases p.excluded.len() - e,
    {
        assert(exc.take(e + 1).drop_last() =~= exc.take(e as int));
        push_str_chars(&mut s, " NOT ");
        let q = quote_fts5(p.excluded[e].as_str());
        push_all(&mut s, q.as_slice());
        e = e + 1;
        assert(s@ =~= joined + fts5_exclusions(exc.take(e as int)));
    }
    assert(exc.take(exc.len() as int) =~= exc);
    let t = trim_chars(s.as_slice());
    crate::text::string_from_chars(t.as_slice())
}

} // verus!
