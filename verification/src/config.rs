//! Inference settings: provider-qualified model slugs, the runtime
//! configuration with its precedence of overrides over environment over
//! defaults, and the rule-based classifier of link types.

use vstd::prelude::*;
use crate::embed::opt_text;
use crate::text::{chars_range, find_char, find_char_in, lemma_find_char, str_eq, string_of_range, to_chars};

verus! {

// ── Slugs ───────────────────────────────────────────────────────────

/// The providers a slug may name before its `':'`.
pub open spec fn known_provider(h: Seq<char>) -> bool {
    ||| h == "ollama"@
    ||| h == "openai"@
    ||| h == "openrouter"@
    ||| h == "llamacpp"@
    ||| h == "anthropic"@
    ||| h == "google"@
    ||| h == "azure"@
    ||| h == "groq"@
    ||| h == "together"@
    ||| h == "mock"@
}

fn is_known_provider(h: &str) -> (b: bool)
    ensures
        b == known_provider(h@),
{
    str_eq(h, "ollama") || str_eq(h, "openai") || str_eq(h, "openrouter") || str_eq(h, "llamacpp")
        || str_eq(h, "anthropic") || str_eq(h, "google") || str_eq(h, "azure") || str_eq(h, "groq")
        || str_eq(h, "together") || str_eq(h, "mock")
}

/// A model slug split into provider and model.
#[derive(Debug, Clone)]
pub struct ParsedSlug {
    pub provider: String,
    pub model: String,
}

impl PartialEq for ParsedSlug {
    fn eq(&self, other: &Self) -> (r: bool) {
        self.provider == other.provider && self.model == other.model
    }
}

impl vstd::std_specs::cmp::PartialEqSpecImpl for ParsedSlug {
    open spec fn obeys_eq_spec() -> bool {
        true
    }

    open spec fn eq_spec(&self, other: &Self) -> bool {
        self.provider@ == other.provider@ && self.model@ == other.model@
    }
}

/// Provider and model of a slug: a known provider before the first `':'`
/// names the provider and the rest is the model; otherwise the default
/// provider serves the whole slug.
pub open spec fn slug_parts(slug: Seq<char>, default_provider: Seq<char>) -> (Seq<char>, Seq<char>) {
    match find_char(slug, ':') {
        Some(c) => if known_provider(slug.take(c as int)) {
            (slug.take(c as int), slug.skip(c + 1int))
        } else {
            (default_provider, slug)
        },
        None => (default_provider, slug),
    }
}

/// Splits a model slug into provider and model.
pub fn parse_slug(slug: &str, default_provider: &str) -> (p: ParsedSlug)
    ensures
        (p.provider@, p.model@) == slug_parts(slug@, default_provider@),
{
    let v = to_chars(slug);
    proof {
        lemma_find_char(v@, ':');
    }
    match find_char_in(v.as_slice(), ':') {
        None => ParsedSlug { provider: String::from_str(default_provider), model: String::from_str(slug) },
        Some(c) => {
            let head = string_of_range(v.as_slice(), 0, c);
            assert(head@ =~= slug@.take(c as int));
            if is_known_provider(head.as_str()) {
                let model = string_of_range(v.as_slice(), c + 1, v.len());
                assert(model@ =~= slug@.skip(c + 1int));
                ParsedSlug { provider: head, model }
            } else {
                ParsedSlug { provider: String::from_str(default_provider), model: String::from_str(slug) }
            }
        },
    }
}

/// Writes a slug as `provider:model`.
pub fn format_slug(p: &ParsedSlug) -> (s: String)
    ensures
        s@ == p.provider@ + ":"@ + p.model@,
{
    let mut s = p.provider.clone();
    s.append(":");
    s.append(p.model.as_str());
    s
}

/// Parsing a slug written with a known provider gives back its provider and
/// model, and writing a slug that starts with a known provider gives the
/// slug back.
pub proof fn lemma_slug_roundtrip(provider: Seq<char>, model: Seq<char>, default_provider: Seq<char>)
    requires
        known_provider(provider),
    ensures
        slug_parts(provider + ":"@ + model, default_provider) == (provider, model),
{
    reveal_strlit(":");
    reveal_strlit("ollama");
    reveal_strlit("openai");
    reveal_strlit("openrouter");
    reveal_strlit("llamacpp");
    reveal_strlit("anthropic");
    reveal_strlit("google");
    reveal_strlit("azure");
    reveal_strlit("groq");
    reveal_strlit("together");
    reveal_strlit("mock");
    let s = provider + ":"@ + model;
    assert(forall|i: int| 0 <= i < provider.len() ==> provider[i] != ':');
    assert(s[provider.len() as int] == ':');
    assert forall|i: int| 0 <= i < provider.len() implies s[i] != ':' by {
        assert(s[i] == provider[i]);
    }
    crate::text::lemma_find_char(s, ':');
    let f = find_char(s, ':');
    assert(f == Some(provider.len())) by {
        match f {
            Some(k) => {
                if k < provider.len() {
                    assert(s[k as int] != ':');
                } else if k > provider.len() {
                    assert(s[provider.len() as int] == ':');
                }
            },
            None => {
                assert(s[provider.len() as int] == ':');
            },
        }
    }
    assert(s.take(provider.len() as int) =~= provider);
    assert(s.skip(provider.len() + 1int) =~= model);
}

/// A slug whose head is a known provider is written back as it was read.
pub proof fn lemma_slug_format_parse(slug: Seq<char>, default_provider: Seq<char>)
    requires
        find_char(slug, ':') matches Some(c) && known_provider(slug.take(c as int)),
    ensures
        slug_parts(slug, default_provider).0 + ":"@ + slug_parts(slug, default_provider).1 == slug,
{
    reveal_strlit(":");
    crate::text::lemma_find_char(slug, ':');
    let c = find_char(slug, ':')->0;
    assert(slug.take(c as int) + ":"@ + slug.skip(c + 1int) =~= slug);
}

// ── Runtime configuration ───────────────────────────────────────────

/// The texts of a list of key / value pairs.
pub open spec fn pairs_view(v: Seq<(String, String)>) -> Seq<(Seq<char>, Seq<char>)> {
    v.map_values(|p: (String, String)| (p.0@, p.1@))
}

/// The map a list of key / value pairs stands for: a later pair for a key
/// replaces an earlier one.
pub open spec fn assoc(v: Seq<(Seq<char>, Seq<char>)>) -> Map<Seq<char>, Seq<char>>
    decreases v.len(),
{
    if v.len() == 0 {
        Map::empty()
    } else {
        assoc(v.drop_last()).insert(v.last().0, v.last().1)
    }
}

/// The pairs of `v` whose key is not `k`.
pub open spec fn without_key(v: Seq<(Seq<char>, Seq<char>)>, k: Seq<char>) -> Seq<(Seq<char>, Seq<char>)>
    decreases v.len(),
{
    if v.len() == 0 {
        Seq::empty()
    } else if v.last().0 == k {
        without_key(v.drop_last(), k)
    } else {
        without_key(v.drop_last(), k).push(v.last())
    }
}

proof fn lemma_without_key(v: Seq<(Seq<char>, Seq<char>)>, k: Seq<char>)
    ensures
        assoc(without_key(v, k)) == assoc(v).remove(k),
    decreases v.len(),
{
    if v.len() > 0 {
        lemma_without_key(v.drop_last(), k);
        let w = without_key(v.drop_last(), k);
        if v.last().0 != k {
            assert(w.push(v.last()).drop_last() =~= w);
        }
        assert(assoc(without_key(v, k)) =~= assoc(v).remove(k));
    }
}

/// Settings resolved with precedence: an override set at run time, then
/// the environment, then the defaults.
#[derive(Debug)]
pub struct RuntimeConfig {
    pub defaults: Vec<(String, String)>,
    pub env: Vec<(String, String)>,
    overrides: Vec<(String, String)>,
}

impl RuntimeConfig {
    /// The defaults as a map.
    pub closed spec fn defaults_map(&self) -> Map<Seq<char>, Seq<char>> {
        assoc(pairs_view(self.defaults@))
    }

    /// The environment's settings as a map.
    pub closed spec fn env_map(&self) -> Map<Seq<char>, Seq<char>> {
        assoc(pairs_view(self.env@))
    }

    /// The overrides as a map.
    pub closed spec fn overrides_map(&self) -> Map<Seq<char>, Seq<char>> {
        assoc(pairs_view(self.overrides@))
    }

    /// The value of a key: its override, else its environment value, else
    /// its default.
    pub open spec fn lookup(&self, k: Seq<char>) -> Option<Seq<char>> {
        if self.overrides_map().dom().contains(k) {
            Some(self.overrides_map()[k])
        } else if self.env_map().dom().contains(k) {
            Some(self.env_map()[k])
        } else if self.defaults_map().dom().contains(k) {
            Some(self.defaults_map()[k])
        } else {
            None
        }
    }

    /// Where the value of a key comes from.
    pub open spec fn source_of(&self, k: Seq<char>) -> Seq<char> {
        if self.overrides_map().dom().contains(k) {
            "db_override"@
        } else if self.env_map().dom().contains(k) {
            "env"@
        } else if self.defaults_map().dom().contains(k) {
            "default"@
        } else {
            "absent"@
        }
    }
}

proof fn lemma_assoc_last(v: Seq<(Seq<char>, Seq<char>)>, k: Seq<char>, i: int)
    requires
        0 <= i < v.len(),
        v[i].0 == k,
        forall|j: int| i < j < v.len() ==> v[j].0 != k,
    ensures
        assoc(v).dom().contains(k),
        assoc(v)[k] == v[i].1,
    decreases v.len(),
{
    if i < v.len() - 1 {
        lemma_assoc_last(v.drop_last(), k, i);
    }
}

proof fn lemma_assoc_absent(v: Seq<(Seq<char>, Seq<char>)>, k: Seq<char>)
    requires
        forall|j: int| 0 <= j < v.len() ==> v[j].0 != k,
    ensures
        !assoc(v).dom().contains(k),
    decreases v.len(),
{
    if v.len() > 0 {
        lemma_assoc_absent(v.drop_last(), k);
    }
}

/// The value of the last pair for `key`.
fn find_last(v: &Vec<(String, String)>, key: &str) -> (r: Option<String>)
    ensures
        opt_text(r) == (if assoc(pairs_view(v@)).dom().contains(key@) {
            Some(assoc(pairs_view(v@))[key@])
        } else {
            None
        }),
{
    let ghost pv = pairs_view(v@);
    let mut i = v.len();
    while i > 0
        invariant
            i <= v@.len(),
            pv == pairs_view(v@),
            forall|j: int| i <= j < v@.len() ==> pv[j].0 != key@,
        decreases i,
    {
        if str_eq(v[i - 1].0.as_str(), key) {
            proof {
                lemma_assoc_last(pv, key@, i - 1);
            }
            return Some(v[i - 1].1.clone());
        }
        i = i - 1;
    }
    proof {
        lemma_assoc_absent(pv, key@);
    }
    None
}

impl RuntimeConfig {
    /// A configuration with the given defaults and environment and no
    /// overrides.
    pub fn new(defaults: Vec<(String, String)>, env: Vec<(String, String)>) -> (c: RuntimeConfig)
        ensures
            c.defaults_map() == assoc(pairs_view(defaults@)),
            c.env_map() == assoc(pairs_view(env@)),
            c.overrides_map() == Map::<Seq<char>, Seq<char>>::empty(),
    {
        let c = RuntimeConfig { defaults, env, overrides: Vec::new() };
        assert(pairs_view(c.overrides@) =~= Seq::<(Seq<char>, Seq<char>)>::empty());
        c
    }

    /// The value of `key`: its override, else its environment value, else
    /// its default.
    pub fn get(&self, key: &str) -> (r: Option<String>)
        ensures
            opt_text(r) == self.lookup(key@),
    {
        match find_last(&self.overrides, key) {
            Some(v) => Some(v),
            None => match find_last(&self.env, key) {
                Some(v) => Some(v),
                None => find_last(&self.defaults, key),
            },
        }
    }

    /// Where the value of `key` comes from: `"db_override"`, `"env"`,
    /// `"default"` or `"absent"`.
    pub fn source(&self, key: &str) -> (s: &'static str)
        ensures
            s@ == self.source_of(key@),
    {
        if find_last(&self.overrides, key).is_some() {
            return "db_override";
        }
        if find_last(&self.env, key).is_some() {
            return "env";
        }
        if find_last(&self.defaults, key).is_some() {
            return "default";
        }
        "absent"
    }

    fn drop_override(&mut self, key: &str)
        ensures
            final(self).defaults_map() == old(self).defaults_map(),
            final(self).env_map() == old(self).env_map(),
            final(self).overrides_map() == old(self).overrides_map().remove(key@),
    {
        let ghost pv = pairs_view(self.overrides@);
        let mut kept: Vec<(String, String)> = Vec::new();
        let mut i: usize = 0;
        assert(pv.take(0) =~= Seq::<(Seq<char>, Seq<char>)>::empty());
        while i < self.overrides.len()
            invariant
                i <= self.overrides@.len(),
                pv == pairs_view(self.overrides@),
                pairs_view(kept@) == without_key(pv.take(i as int), key@),
            decreases self.overrides.len() - i,
        {
            assert(pv.take(i + 1).drop_last() =~= pv.take(i as int));
            if !str_eq(self.overrides[i].0.as_str(), key) {
                let k = self.overrides[i].0.clone();
                let v = self.overrides[i].1.clone();
                let ghost before = pairs_view(kept@);
                kept.push((k, v));
                assert(pairs_view(kept@) =~= before.push(pv[i as int]));
            }
            i = i + 1;
        }
        assert(pv.take(pv.len() as int) =~= pv);
        proof {
            lemma_without_key(pv, key@);
        }
        self.overrides = kept;
    }

    /// Sets a run-time override for `key`.
    pub fn set(&mut self, key: String, value: String)
        ensures
            final(self).defaults_map() == old(self).defaults_map(),
            final(self).env_map() == old(self).env_map(),
            final(self).overrides_map() == old(self).overrides_map().insert(key@, value@),
            final(self).lookup(key@) == Some(value@),
            final(self).source_of(key@) == "db_override"@,
            forall|k: Seq<char>| k != key@ ==> final(self).lookup(k) == old(self).lookup(k),
    {
        self.drop_override(key.as_str());
        let ghost before = pairs_view(self.overrides@);
        let ghost kv = key@;
        let ghost vv = value@;
        self.overrides.push((key, value));
        proof {
            assert(pairs_view(self.overrides@) =~= before.push((kv, vv)));
            assert(pairs_view(self.overrides@).drop_last() =~= before);
            assert(self.overrides_map() =~= old(self).overrides_map().insert(kv, vv));
        }
    }

    /// Removes the run-time override for `key`.
    pub fn clear(&mut self, key: &str)
        ensures
            final(self).defaults_map() == old(self).defaults_map(),
            final(self).env_map() == old(self).env_map(),
            final(self).overrides_map() == old(self).overrides_map().remove(key@),
            final(self).lookup(key@) == (if old(self).env_map().dom().contains(key@) {
                Some(old(self).env_map()[key@])
            } else if old(self).defaults_map().dom().contains(key@) {
                Some(old(self).defaults_map()[key@])
            } else {
                None
            }),
            forall|k: Seq<char>| k != key@ ==> final(self).lookup(k) == old(self).lookup(k),
    {
        self.drop_override(key);
    }
}

/// Setting a key and then clearing it gives the key back the value it had
/// before, when it had no override.
pub proof fn lemma_set_clear_restores(
    c0: RuntimeConfig,
    c1: RuntimeConfig,
    c2: RuntimeConfig,
    k: Seq<char>,
    v: Seq<char>,
)
    requires
        !c0.overrides_map().dom().contains(k),
        c1.defaults_map() == c0.defaults_map(),
        c1.env_map() == c0.env_map(),
        c1.overrides_map() == c0.overrides_map().insert(k, v),
        c2.defaults_map() == c1.defaults_map(),
        c2.env_map() == c1.env_map(),
        c2.overrides_map() == c1.overrides_map().remove(k),
    ensures
        c2.lookup(k) == c0.lookup(k),
        c2.source_of(k) == c0.source_of(k),
{
    assert(c2.overrides_map() =~= c0.overrides_map());
}

// ── Link types ──────────────────────────────────────────────────────

/// The link types, in their canonical order.
pub open spec fn link_type_names() -> Seq<Seq<char>> {
    seq![
        "mentions"@,
        "founded"@,
        "invested_in"@,
        "advises"@,
        "works_at"@,
        "attended"@,
        "authored"@,
        "cites"@,
        "succeeded_by"@,
        "located_in"@,
        "related"@,
    ]
}

/// The link types the classifier assigns.
pub fn link_types() -> (v: Vec<&'static str>)
    ensures
        v@.map_values(|t: &'static str| t@) == link_type_names(),
{
    let mut v: Vec<&'static str> = Vec::new();
    v.push("mentions");
    v.push("founded");
    v.push("invested_in");
    v.push("advises");
    v.push("works_at");
    v.push("attended");
    v.push("authored");
    v.push("cites");
    v.push("succeeded_by");
    v.push("located_in");
    v.push("related");
    assert(v@.map_values(|t: &'static str| t@) =~= link_type_names());
    v
}

/// `p` occurs in `s` at position `i`.
pub open spec fn text_at(s: Seq<char>, p: Seq<char>, i: int) -> bool {
    0 <= i && i + p.len() <= s.len() && s.subrange(i, i + p.len()) == p
}

/// `p` occurs in `s`.
pub open spec fn contains_text(s: Seq<char>, p: Seq<char>) -> bool {
    exists|i: int| text_at(s, p, i)
}

/// The link type of lower-cased evidence text: the first rule that matches
/// decides, `"mentions"` when none does.
pub open spec fn link_rule_of(e: Seq<char>) -> Seq<char> {
    if contains_text(e, "founded"@) {
        "founded"@
    } else if contains_text(e, "invested"@) {
        "invested_in"@
    } else if contains_text(e, "advisor"@) || contains_text(e, "advises"@) || contains_text(e, "advising"@) {
        "advises"@
    } else if contains_text(e, "works at"@) || contains_text(e, "works for"@) || contains_text(e, "work at"@)
        || contains_text(e, "work for"@) {
        "works_at"@
    } else if contains_text(e, "attended"@) {
        "attended"@
    } else if contains_text(e, "wrote"@) || contains_text(e, "authored"@) {
        "authored"@
    } else if contains_text(e, "cites"@) || contains_text(e, "cite "@) {
        "cites"@
    } else if contains_text(e, "succeeded by"@) {
        "succeeded_by"@
    } else if contains_text(e, "located in"@) {
        "located_in"@
    } else {
        "mentions"@
    }
}

/// First position of `p` in `e[from..]`, counted from the start of `e`.
fn find_text_from(e: &[char], from: usize, p: &str) -> (r: Option<usize>)
    requires
        from <= e@.len(),
    ensures
        match r {
            Some(i) => from <= i && text_at(e@, p@, i as int) && forall|j: int| from <= j < i ==> !text_at(e@, p@, j),
            None => forall|j: int| from <= j ==> !text_at(e@, p@, j),
        },
{
    let pc = to_chars(p);
    if pc.len() > e.len() - from {
        return None;
    }
    let mut i: usize = from;
    while i <= e.len() - pc.len()
        invariant
            pc@ == p@,
            from <= i,
            pc.len() <= e.len() - from,
            i <= e.len() - pc.len() + 1,
            forall|j: int| from <= j < i ==> !text_at(e@, p@, j),
        decreases e.len() - pc.len() + 1 - i,
    {
        let mut m: usize = 0;
        let mut same = true;
        while m < pc.len()
            invariant
                m <= pc.len(),
                i + pc.len() <= e.len(),
                same <==> forall|q: int| 0 <= q < m ==> e@[i + q] == pc@[q],
            decreases pc.len() - m,
        {
            if e[i + m] != pc[m] {
                same = false;
            }
            m = m + 1;
        }
        proof {
            if same {
                assert(e@.subrange(i as int, i + pc.len()) =~= p@);
            } else {
                let q = choose|q: int| 0 <= q < pc.len() && e@[i + q] != pc@[q];
                assert(e@.subrange(i as int, i + pc.len())[q] != p@[q]);
            }
        }
        if same {
            return Some(i);
        }
        if i == e.len() - pc.len() {
            return None;
        }
        i = i + 1;
    }
    None
}

fn has_text(e: &[char], p: &str) -> (b: bool)
    ensures
        b == contains_text(e@, p@),
{
    match find_text_from(e, 0, p) {
        Some(i) => true,
        None => {
            assert forall|j: int| !text_at(e@, p@, j) by {
                if j < 0 {
                }
            }
            false
        },
    }
}

/// The link type of evidence that is already lower-cased.
pub fn classify_lowered(e: &[char]) -> (r: &'static str)
    ensures
        r@ == link_rule_of(e@),
{
    if has_text(e, "founded") {
        return "founded";
    }
    match find_text_from(e, 0, "invested") {
        Some(idx) => {
            proof {
                reveal_strlit("invested");
                reveal_strlit("in");
                assert(text_at(e@, "in"@, idx as int)) by {
                    assert("invested"@.len() == 8);
                    assert(e@.subrange(idx as int, idx + 8) == "invested"@);
                    assert("invested"@.subrange(0, 2) =~= "in"@);
                    assert(e@.subrange(idx as int, idx + 2) =~= e@.subrange(idx as int, idx + 8).subrange(0, 2));
                }
            }
            if find_text_from(e, idx, "in").is_some() {
                return "invested_in";
            }
        },
        None => {
            assert forall|j: int| !text_at(e@, "invested"@, j) by {
                if j < 0 {
                }
            }
        },
    }
    if has_text(e, "advisor") || has_text(e, "advises") || has_text(e, "advising") {
        return "advises";
    }
    if has_text(e, "works at") || has_text(e, "works for") || has_text(e, "work at") || has_text(e, "work for") {
        return "works_at";
    }
    if has_text(e, "attended") {
        return "attended";
    }
    if has_text(e, "wrote") || has_text(e, "authored") {
        return "authored";
    }
    if has_text(e, "cites") || has_text(e, "cite ") {
        return "cites";
    }
    if has_text(e, "succeeded by") {
        return "succeeded_by";
    }
    if has_text(e, "located in") {
        return "located_in";
    }
    "mentions"
}

/// What `str::to_lowercase` makes of a text.
pub uninterp spec fn unicode_lowercase(s: Seq<char>) -> Seq<char>;

/// `str::to_lowercase`. Trusted: its result is named `unicode_lowercase`,
/// and on ASCII text it lower-cases the letters A to Z and keeps the rest.
/// How other characters map is the Unicode tables' matter and is not
/// stated.
#[verifier::external_body]
fn lowercase(s: &str) -> (r: String)
    ensures
        r@ == unicode_lowercase(s@),
        (forall|i: int| 0 <= i < s@.len() ==> (#[trigger] s@[i] as u32) < 0x80) ==> r@ == s@.map_values(
            |c: char| crate::text::ascii_lower(c),
        ),
{
    s.to_lowercase()
}

/// Zero-LLM rule-based link classifier over lower-cased evidence. On ASCII
/// evidence the lower-casing is that of the letters A to Z.
pub fn classify_link_rule(evidence: &str) -> (r: &'static str)
    ensures
        r@ == link_rule_of(unicode_lowercase(evidence@)),
        (forall|i: int| 0 <= i < evidence@.len() ==> (#[trigger] evidence@[i] as u32) < 0x80) ==> r@
            == link_rule_of(evidence@.map_values(|c: char| crate::text::ascii_lower(c))),
{
    let e = lowercase(evidence);
    let ev = to_chars(e.as_str());
    classify_lowered(ev.as_slice())
}

} // verus!
