//! Embedding model profiles: a registry of known models keyed by slug, the
//! asymmetric query / passage prefixes some models need, and the coarse
//! dimension used for two-stage Matryoshka retrieval.

use vstd::prelude::*;
use crate::text::{str_eq, to_chars};

verus! {

/// Embedding model profile.
#[derive(Debug)]
pub struct EmbeddingModel {
    pub slug: String,
    pub dim: usize,
    pub mrl_dims: Vec<usize>,
    pub prefix_query: Option<String>,
    pub prefix_passage: Option<String>,
    pub family: Option<String>,
}

/// The text of an optional string.
pub open spec fn opt_text(o: Option<String>) -> Option<Seq<char>> {
    match o {
        Some(s) => Some(s@),
        None => None,
    }
}

/// What a model profile says, field by field.
pub type ModelView = (Seq<char>, nat, Seq<usize>, Option<Seq<char>>, Option<Seq<char>>, Option<Seq<char>>);

impl EmbeddingModel {
    /// The profile's fields as values.
    pub open spec fn view_of(&self) -> ModelView {
        (
            self.slug@,
            self.dim as nat,
            self.mrl_dims@,
            opt_text(self.prefix_query),
            opt_text(self.prefix_passage),
            opt_text(self.family),
        )
    }
}

fn copy_opt(o: &Option<String>) -> (r: Option<String>)
    ensures
        opt_text(r) == opt_text(*o),
{
    match o {
        Some(s) => Some(s.clone()),
        None => None,
    }
}

fn copy_dims(v: &Vec<usize>) -> (r: Vec<usize>)
    ensures
        r@ == v@,
{
    let mut r: Vec<usize> = Vec::new();
    let mut i: usize = 0;
    while i < v.len()
        invariant
            i <= v@.len(),
            r@ == v@.take(i as int),
        decreases v.len() - i,
    {
        r.push(v[i]);
        i = i + 1;
        assert(r@ =~= v@.take(i as int));
    }
    assert(v@.take(v@.len() as int) =~= v@);
    r
}

impl EmbeddingModel {
    /// A copy of the profile.
    pub fn copy(&self) -> (r: EmbeddingModel)
        ensures
            r.view_of() == self.view_of(),
    {
        EmbeddingModel {
            slug: self.slug.clone(),
            dim: self.dim,
            mrl_dims: copy_dims(&self.mrl_dims),
            prefix_query: copy_opt(&self.prefix_query),
            prefix_passage: copy_opt(&self.prefix_passage),
            family: copy_opt(&self.family),
        }
    }
}

/// Known embedding models, one per slug.
#[derive(Debug)]
pub struct EmbeddingRegistry {
    models: Vec<EmbeddingModel>,
}

/// No two profiles share a slug.
pub open spec fn slugs_unique(ms: Seq<ModelView>) -> bool {
    forall|i: int, j: int| 0 <= i < j < ms.len() ==> (#[trigger] ms[i]).0 != (#[trigger] ms[j]).0
}

/// The profiles of a registry, keyed by slug.
pub open spec fn models_map(ms: Seq<ModelView>) -> Map<Seq<char>, ModelView>
    decreases ms.len(),
{
    if ms.len() == 0 {
        Map::empty()
    } else {
        models_map(ms.drop_last()).insert(ms.last().0, ms.last())
    }
}

impl EmbeddingRegistry {
    /// The registered profiles in registration order.
    pub closed spec fn entries(&self) -> Seq<ModelView> {
        self.models@.map_values(|m: EmbeddingModel| m.view_of())
    }

    /// The registered profiles, keyed by slug.
    pub open spec fn view_map(&self) -> Map<Seq<char>, ModelView> {
        models_map(self.entries())
    }

    /// Slugs are unique.
    pub open spec fn wf(&self) -> bool {
        slugs_unique(self.entries())
    }
}

proof fn lemma_models_map(ms: Seq<ModelView>, k: Seq<char>)
    requires
        slugs_unique(ms),
    ensures
        models_map(ms).dom().contains(k) <==> exists|i: int| 0 <= i < ms.len() && (#[trigger] ms[i]).0 == k,
        forall|i: int| 0 <= i < ms.len() && (#[trigger] ms[i]).0 == k ==> models_map(ms)[k] == ms[i],
    decreases ms.len(),
{
    if ms.len() > 0 {
        let p = ms.drop_last();
        assert(slugs_unique(p)) by {
            assert forall|i: int, j: int| 0 <= i < j < p.len() implies (#[trigger] p[i]).0 != (#[trigger] p[j]).0 by {
                assert(p[i] == ms[i] && p[j] == ms[j]);
            }
        }
        lemma_models_map(p, k);
        if models_map(ms).dom().contains(k) && ms.last().0 != k {
            let i = choose|i: int| 0 <= i < p.len() && (#[trigger] p[i]).0 == k;
            assert(ms[i] == p[i]);
        }
        assert forall|i: int| 0 <= i < ms.len() && (#[trigger] ms[i]).0 == k implies models_map(ms)[k] == ms[i] by {
            if i < ms.len() - 1 {
                assert(ms[i] == p[i]);
                assert(ms.last().0 != k);
            }
        }
        if exists|i: int| 0 <= i < ms.len() && (#[trigger] ms[i]).0 == k {
            let i = choose|i: int| 0 <= i < ms.len() && (#[trigger] ms[i]).0 == k;
            if i < ms.len() - 1 {
                assert(p[i] == ms[i]);
            }
        }
    }
}

proof fn lemma_models_map_len(ms: Seq<ModelView>)
    requires
        slugs_unique(ms),
    ensures
        models_map(ms).dom().finite(),
        models_map(ms).dom().len() == ms.len(),
    decreases ms.len(),
{
    if ms.len() > 0 {
        let p = ms.drop_last();
        assert(slugs_unique(p)) by {
            assert forall|i: int, j: int| 0 <= i < j < p.len() implies (#[trigger] p[i]).0 != (#[trigger] p[j]).0 by {
                assert(p[i] == ms[i] && p[j] == ms[j]);
            }
        }
        lemma_models_map_len(p);
        lemma_models_map(p, ms.last().0);
        if models_map(p).dom().contains(ms.last().0) {
            let i = choose|i: int| 0 <= i < p.len() && (#[trigger] p[i]).0 == ms.last().0;
            assert(ms[i] == p[i]);
            assert(ms[i].0 != ms[ms.len() - 1].0);
        }
    }
}

/// A registry lists one profile per registered slug: as many as its map
/// has slugs.
pub proof fn lemma_list_counts_slugs(reg: EmbeddingRegistry)
    requires
        reg.wf(),
    ensures
        reg.view_map().dom().finite(),
        reg.entries().len() == reg.view_map().dom().len(),
{
    lemma_models_map_len(reg.entries());
}

fn model(
    slug: &str,
    dim: usize,
    mrl_dims: Vec<usize>,
    prefix_query: Option<&str>,
    prefix_passage: Option<&str>,
    family: &str,
) -> (m: EmbeddingModel)
    ensures
        m.view_of() == (
            slug@,
            dim as nat,
            mrl_dims@,
            match prefix_query {
                Some(p) => Some(p@),
                None => None::<Seq<char>>,
            },
            match prefix_passage {
                Some(p) => Some(p@),
                None => None::<Seq<char>>,
            },
            Some(family@),
        ),
{
    EmbeddingModel {
        slug: String::from_str(slug),
        dim,
        mrl_dims,
        prefix_query: match prefix_query {
            Some(p) => Some(String::from_str(p)),
            None => None,
        },
        prefix_passage: match prefix_passage {
            Some(p) => Some(String::from_str(p)),
            None => None,
        },
        family: Some(String::from_str(family)),
    }
}

fn dims(a: &[usize]) -> (v: Vec<usize>)
    ensures
        v@ == a@,
{
    let mut v: Vec<usize> = Vec::new();
    let mut i: usize = 0;
    while i < a.len()
        invariant
            i <= a@.len(),
            v@ == a@.take(i as int),
        decreases a.len() - i,
    {
        v.push(a[i]);
        i = i + 1;
        assert(v@ =~= a@.take(i as int));
    }
    assert(a@.take(a@.len() as int) =~= a@);
    v
}

/// The profiles every registry starts with.
pub open spec fn builtin_models() -> Seq<ModelView> {
    seq![
        ("ollama:nomic-embed-text"@, 768nat, seq![128usize, 256, 512, 768], None, None, Some("nomic"@)),
        ("intfloat/e5-large-v2"@, 1024nat, Seq::<usize>::empty(), Some("query: "@), Some("passage: "@), Some("e5"@)),
        ("openai:text-embedding-3-small"@, 1536nat, seq![256usize, 512, 768, 1024, 1536], None, None, Some("openai"@)),
        ("openai:text-embedding-3-large"@, 3072nat, seq![256usize, 512, 1024, 2048, 3072], None, None, Some("openai"@)),
    ]
}

/// The built-in profiles, keyed by slug.
pub open spec fn builtin_model_map() -> Map<Seq<char>, ModelView> {
    Map::empty().insert(builtin_models()[0].0, builtin_models()[0]).insert(
        builtin_models()[1].0,
        builtin_models()[1],
    ).insert(builtin_models()[2].0, builtin_models()[2]).insert(
        builtin_models()[3].0,
        builtin_models()[3],
    )
}

impl EmbeddingRegistry {
    /// A registry holding the built-in profiles (nomic, e5-large-v2 and the
    /// two OpenAI text-embedding-3 models).
    pub fn new() -> (r: EmbeddingRegistry)
        ensures
            r.wf(),
            r.entries() == builtin_models(),
            r.view_map() == builtin_model_map(),
    {
        let mut models: Vec<EmbeddingModel> = Vec::new();
        models.push(model("ollama:nomic-embed-text", 768, dims(&[128, 256, 512, 768]), None, None, "nomic"));
        models.push(model("intfloat/e5-large-v2", 1024, Vec::new(), Some("query: "), Some("passage: "), "e5"));
        models.push(model("openai:text-embedding-3-small", 1536, dims(&[256, 512, 768, 1024, 1536]), None, None, "openai"));
        models.push(model("openai:text-embedding-3-large", 3072, dims(&[256, 512, 1024, 2048, 3072]), None, None, "openai"));
        let r = EmbeddingRegistry { models };
        proof {
            reveal_strlit("ollama:nomic-embed-text");
            reveal_strlit("intfloat/e5-large-v2");
            reveal_strlit("openai:text-embedding-3-small");
            reveal_strlit("openai:text-embedding-3-large");
            assert(r.entries() =~= builtin_models());
            let e = r.entries();
            assert(e[0].0[0] == 'o' && e[1].0[0] == 'i');
            assert(e[0].0[1] != e[2].0[1]);
            assert(e[0].0.len() != e[3].0.len());
            assert(e[2].0[24] != e[3].0[24]);
            assert(e[1].0[0] != e[2].0[0] && e[1].0[0] != e[3].0[0]);
            reveal_with_fuel(models_map, 5);
            assert(e.drop_last().drop_last().drop_last().drop_last() =~= Seq::<ModelView>::empty());
            assert(models_map(e) =~= builtin_model_map());
        }
        r
    }

    fn position(&self, slug: &str) -> (r: Option<usize>)
        ensures
            match r {
                Some(i) => i < self.entries().len() && self.entries()[i as int].0 == slug@,
                None => forall|i: int| 0 <= i < self.entries().len() ==> (#[trigger] self.entries()[i]).0 != slug@,
            },
    {
        let mut i: usize = 0;
        while i < self.models.len()
            invariant
                i <= self.models@.len(),
                forall|k: int| 0 <= k < i ==> (#[trigger] self.entries()[k]).0 != slug@,
            decreases self.models.len() - i,
        {
            if str_eq(self.models[i].slug.as_str(), slug) {
                return Some(i);
            }
            i = i + 1;
        }
        None
    }

    /// The profile registered under `slug`.
    pub fn get(&self, slug: &str) -> (r: Option<EmbeddingModel>)
        requires
            self.wf(),
        ensures
            match r {
                Some(m) => self.view_map().dom().contains(slug@) && self.view_map()[slug@] == m.view_of(),
                None => !self.view_map().dom().contains(slug@),
            },
    {
        proof {
            lemma_models_map(self.entries(), slug@);
        }
        match self.position(slug) {
            Some(i) => Some(self.models[i].copy()),
            None => None,
        }
    }

    /// Registers a profile, replacing the one with the same slug.
    pub fn register(&mut self, m: EmbeddingModel)
        requires
            old(self).wf(),
        ensures
            final(self).wf(),
            final(self).view_map() == old(self).view_map().insert(m.slug@, m.view_of()),
            final(self).entries().len() == old(self).entries().len() + if old(
                self,
            ).view_map().dom().contains(m.slug@) {
                0int
            } else {
                1int
            },
    {
        let ghost mv = m.view_of();
        proof {
            lemma_models_map(self.entries(), m.slug@);
        }
        match self.position(m.slug.as_str()) {
            Some(i) => {
                let ghost before = self.entries();
                self.models.set(i, m);
                proof {
                    let after = self.entries();
                    assert(after =~= before.update(i as int, mv));
                    assert(slugs_unique(after)) by {
                        assert forall|a: int, b: int| 0 <= a < b < after.len() implies (#[trigger] after[a]).0 != (#[trigger] after[b]).0 by {
                            if a != i && b != i {
                                assert(after[a] == before[a] && after[b] == before[b]);
                            }
                        }
                    }
                    assert forall|k: Seq<char>| #[trigger] models_map(after).dom().contains(k) <==> old(self).view_map().insert(m.slug@, mv).dom().contains(k) by {
                        lemma_models_map(after, k);
                        lemma_models_map(before, k);
                        if models_map(before).dom().contains(k) && k != m.slug@ {
                            let j = choose|j: int| 0 <= j < before.len() && (#[trigger] before[j]).0 == k;
                            assert(after[j] == before[j]);
                        }
                        if models_map(after).dom().contains(k) && k != m.slug@ {
                            let j = choose|j: int| 0 <= j < after.len() && (#[trigger] after[j]).0 == k;
                            assert(after[j] == before[j]);
                        }
                        if k == m.slug@ {
                            assert(after[i as int].0 == k);
                        }
                    }
                    assert forall|k: Seq<char>| #[trigger] models_map(after).dom().contains(k) implies models_map(after)[k] == old(self).view_map().insert(m.slug@, mv)[k] by {
                        lemma_models_map(after, k);
                        lemma_models_map(before, k);
                        if k == m.slug@ {
                            assert(after[i as int].0 == k);
                        } else {
                            let j = choose|j: int| 0 <= j < after.len() && (#[trigger] after[j]).0 == k;
                            assert(after[j] == before[j]);
                        }
                    }
                    assert(models_map(after) =~= old(self).view_map().insert(m.slug@, mv));
                }
            },
            None => {
                let ghost before = self.entries();
                self.models.push(m);
                proof {
                    let after = self.entries();
                    assert(after =~= before.push(mv));
                    assert(after.drop_last() =~= before);
                    assert(slugs_unique(after)) by {
                        assert forall|a: int, b: int| 0 <= a < b < after.len() implies (#[trigger] after[a]).0 != (#[trigger] after[b]).0 by {
                            assert(after[a] == before[a]);
                            if b < before.len() {
                                assert(after[b] == before[b]);
                            }
                        }
                    }
                }
            },
        }
    }

    /// All registered profiles, in registration order.
    pub fn list(&self) -> (r: Vec<EmbeddingModel>)
        ensures
            r@.map_values(|m: EmbeddingModel| m.view_of()) == self.entries(),
    {
        let mut r: Vec<EmbeddingModel> = Vec::new();
        let mut i: usize = 0;
        while i < self.models.len()
            invariant
                i <= self.models@.len(),
                r@.map_values(|m: EmbeddingModel| m.view_of()) == self.entries().take(i as int),
            decreases self.models.len() - i,
        {
            let c = self.models[i].copy();
            let ghost before = r@.map_values(|m: EmbeddingModel| m.view_of());
            r.push(c);
            assert(r@.map_values(|m: EmbeddingModel| m.view_of()) =~= before.push(self.entries()[i as int]));
            i = i + 1;
            assert(self.entries().take(i as int) =~= self.entries().take(i - 1).push(self.entries()[i - 1]));
        }
        assert(self.entries().take(self.models@.len() as int) =~= self.entries());
        r
    }
}

/// Registers or replaces an embedding model in `reg`.
pub fn register_embedding_model(reg: &mut EmbeddingRegistry, m: EmbeddingModel)
    requires
        old(reg).wf(),
    ensures
        final(reg).wf(),
        final(reg).view_map() == old(reg).view_map().insert(m.slug@, m.view_of()),
        final(reg).entries().len() == old(reg).entries().len() + if old(reg).view_map().dom().contains(
            m.slug@,
        ) {
            0int
        } else {
            1int
        },
{
    reg.register(m)
}

/// Looks up an embedding model by slug.
pub fn get_embedding_model(reg: &EmbeddingRegistry, slug: &str) -> (r: Option<EmbeddingModel>)
    requires
        reg.wf(),
    ensures
        match r {
            Some(m) => reg.view_map().dom().contains(slug@) && reg.view_map()[slug@] == m.view_of(),
            None => !reg.view_map().dom().contains(slug@),
        },
{
    reg.get(slug)
}

/// Lists all known embedding models.
pub fn list_embedding_models(reg: &EmbeddingRegistry) -> (r: Vec<EmbeddingModel>)
    ensures
        r@.map_values(|m: EmbeddingModel| m.view_of()) == reg.entries(),
{
    reg.list()
}

/// The text a model embeds for `task`: symmetric tasks and models without
/// prefixes take the text as it is; `"query"` gets the query prefix, any
/// other task the passage prefix (an absent prefix is empty).
pub open spec fn prefixed_text(m: ModelView, task: Seq<char>, text: Seq<char>) -> Seq<char> {
    if task == "symmetric"@ || (m.3 is None && m.4 is None) {
        text
    } else if task == "query"@ {
        match m.3 {
            Some(p) => p + text,
            None => text,
        }
    } else {
        match m.4 {
            Some(p) => p + text,
            None => text,
        }
    }
}

/// Applies the asymmetric query / passage prefix when the model needs one.
pub fn prefix_for(m: &EmbeddingModel, task: &str, text: &str) -> (r: String)
    ensures
        r@ == prefixed_text(m.view_of(), task@, text@),
{
    if str_eq(task, "symmetric") || (m.prefix_query.is_none() && m.prefix_passage.is_none()) {
        return String::from_str(text);
    }
    let p = if str_eq(task, "query") {
        &m.prefix_query
    } else {
        &m.prefix_passage
    };
    let mut r = String::new();
    match p {
        Some(s) => r.append(s.as_str()),
        None => {},
    }
    r.append(text);
    r
}

/// The coarse dimension of a model for two-stage retrieval: the first
/// Matryoshka dimension of at least an eighth of the native one, else the
/// last; the native dimension when the model has none.
pub open spec fn coarse_dim_of(dim: nat, mrl: Seq<usize>) -> nat {
    if mrl.len() == 0 {
        dim
    } else if exists|i: int| 0 <= i < mrl.len() && 8 * (#[trigger] mrl[i]) >= dim {
        let i = choose|i: int|
            0 <= i < mrl.len() && 8 * (#[trigger] mrl[i]) >= dim && forall|j: int|
                0 <= j < i ==> 8 * mrl[j] < dim;
        mrl[i] as nat
    } else {
        mrl.last() as nat
    }
}

/// Coarse dimension for two-stage retrieval (about 1/8 of native).
pub fn coarse_dim(m: &EmbeddingModel) -> (d: usize)
    ensures
        d == coarse_dim_of(m.dim as nat, m.mrl_dims@),
{
    if m.mrl_dims.len() == 0 {
        return m.dim;
    }
    let mut i: usize = 0;
    while i < m.mrl_dims.len()
        invariant
            i <= m.mrl_dims@.len(),
            forall|j: int| 0 <= j < i ==> 8 * m.mrl_dims@[j] < m.dim,
        decreases m.mrl_dims.len() - i,
    {
        let d = m.mrl_dims[i];
        if d >= m.dim / 8 + (if m.dim % 8 == 0 {
            0
        } else {
            1
        }) {
            proof {
                assert(8 * d >= m.dim) by (nonlinear_arith)
                    requires
                        d >= m.dim / 8 + (if m.dim % 8 == 0 {
                            0int
                        } else {
                            1int
                        }),
                ;
                let w = |k: int|
                    0 <= k < m.mrl_dims@.len() && 8 * m.mrl_dims@[k] >= m.dim && forall|j: int|
                        0 <= j < k ==> 8 * m.mrl_dims@[j] < m.dim;
                assert(w(i as int));
                let c = choose|k: int|
                    0 <= k < m.mrl_dims@.len() && 8 * (#[trigger] m.mrl_dims@[k]) >= m.dim
                        && forall|j: int| 0 <= j < k ==> 8 * m.mrl_dims@[j] < m.dim;
                assert(c == i as int) by {
                    if c < i {
                        assert(8 * m.mrl_dims@[c] < m.dim);
                    } else if c > i {
                        assert(8 * m.mrl_dims@[i as int] < m.dim);
                    }
                }
            }
            return d;
        }
        proof {
            assert(8 * d < m.dim) by (nonlinear_arith)
                requires
                    d < m.dim / 8 + (if m.dim % 8 == 0 {
                        0int
                    } else {
                        1int
                    }),
            ;
        }
        i = i + 1;
    }
    m.mrl_dims[m.mrl_dims.len() - 1]
}

/// Registering a profile makes it what its slug looks up, and leaves
/// every other slug as it was.
pub proof fn lemma_register_then_get(
    before: Map<Seq<char>, ModelView>,
    after: Map<Seq<char>, ModelView>,
    m: ModelView,
    slug: Seq<char>,
)
    requires
        after == before.insert(m.0, m),
    ensures
        slug == m.0 ==> after.dom().contains(slug) && after[slug] == m,
        slug != m.0 ==> (after.dom().contains(slug) == before.dom().contains(slug) && (
        before.dom().contains(slug) ==> after[slug] == before[slug])),
{
}

} // verus!
