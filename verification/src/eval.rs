//! Retrieval evaluation: which predictions are relevant, where the first
//! relevant one stands, and how many relevant ones the top k hold. The
//! ratios built from these counts are computed by the caller.

use vstd::prelude::*;
use crate::text::str_eq;

verus! {

/// Per-query evaluation row: the predicted slugs in rank order, and the
/// graded relevant slugs (one grade per slug).
#[derive(Debug, Clone)]
pub struct QueryEval {
    pub predicted: Vec<String>,
    pub relevant: Vec<(String, i32)>,
}

/// The grades as texts.
pub open spec fn grades(rel: Seq<(String, i32)>) -> Seq<(Seq<char>, i32)> {
    rel.map_values(|p: (String, i32)| (p.0@, p.1))
}

/// No slug is graded twice.
pub open spec fn keys_unique(rel: Seq<(Seq<char>, i32)>) -> bool {
    forall|i: int, j: int| 0 <= i < j < rel.len() ==> (#[trigger] rel[i]).0 != (#[trigger] rel[j]).0
}

/// A slug is relevant: it has a positive grade.
pub open spec fn is_relevant(rel: Seq<(Seq<char>, i32)>, s: Seq<char>) -> bool {
    exists|i: int| 0 <= i < rel.len() && (#[trigger] rel[i]).0 == s && rel[i].1 > 0
}

/// Number of relevant slugs among the first `n` predictions.
pub open spec fn relevant_prefix(pred: Seq<Seq<char>>, rel: Seq<(Seq<char>, i32)>, n: nat) -> nat
    decreases n,
{
    if n == 0 {
        0
    } else {
        relevant_prefix(pred, rel, (n - 1) as nat) + if is_relevant(rel, pred[n - 1]) {
            1nat
        } else {
            0nat
        }
    }
}

/// Number of slugs with a positive grade among the first `n` grades.
pub open spec fn positive_grades(rel: Seq<(Seq<char>, i32)>, n: nat) -> nat
    decreases n,
{
    if n == 0 {
        0
    } else {
        positive_grades(rel, (n - 1) as nat) + if rel[n - 1].1 > 0 {
            1nat
        } else {
            0nat
        }
    }
}

/// The predictions as texts.
pub open spec fn predictions(q: QueryEval) -> Seq<Seq<char>> {
    q.predicted@.map_values(|s: String| s@)
}

/// Whether no slug is graded twice.
pub fn grades_unique(rel: &Vec<(String, i32)>) -> (b: bool)
    ensures
        b == keys_unique(grades(rel@)),
{
    let ghost g = grades(rel@);
    let mut i: usize = 0;
    while i < rel.len()
        invariant
            i <= rel@.len(),
            g == grades(rel@),
            forall|a: int, b: int| 0 <= a < b < rel@.len() && a < i ==> (#[trigger] g[a]).0 != (#[trigger] g[b]).0,
        decreases rel.len() - i,
    {
        let mut j: usize = i + 1;
        while j < rel.len()
            invariant
                i < rel@.len(),
                i + 1 <= j <= rel@.len(),
                g == grades(rel@),
                forall|b: int| i < b < j ==> g[i as int].0 != (#[trigger] g[b]).0,
            decreases rel.len() - j,
        {
            if str_eq(rel[i].0.as_str(), rel[j].0.as_str()) {
                assert(g[i as int].0 == g[j as int].0);
                assert(!keys_unique(g));
                return false;
            }
            j = j + 1;
        }
        i = i + 1;
    }
    true
}

fn relevant(rel: &Vec<(String, i32)>, s: &String) -> (b: bool)
    ensures
        b == is_relevant(grades(rel@), s@),
{
    let ghost g = grades(rel@);
    let mut i: usize = 0;
    while i < rel.len()
        invariant
            i <= rel@.len(),
            g == grades(rel@),
            forall|k: int| 0 <= k < i ==> !((#[trigger] g[k]).0 == s@ && g[k].1 > 0),
        decreases rel.len() - i,
    {
        if rel[i].1 > 0 && str_eq(rel[i].0.as_str(), s.as_str()) {
            assert(g[i as int].0 == s@);
            return true;
        }
        i = i + 1;
    }
    false
}

/// Rank (from zero) of the first relevant prediction.
pub fn first_relevant(q: &QueryEval) -> (r: Option<usize>)
    requires
        keys_unique(grades(q.relevant@)),
    ensures
        match r {
            Some(i) => i < q.predicted@.len() && is_relevant(grades(q.relevant@), predictions(*q)[i as int])
                && forall|j: int| 0 <= j < i ==> !is_relevant(grades(q.relevant@), #[trigger] predictions(*q)[j]),
            None => forall|j: int| 0 <= j < q.predicted@.len() ==> !is_relevant(grades(q.relevant@), #[trigger] predictions(*q)[j]),
        },
{
    let mut i: usize = 0;
    while i < q.predicted.len()
        invariant
            i <= q.predicted@.len(),
            forall|j: int| 0 <= j < i ==> !is_relevant(grades(q.relevant@), #[trigger] predictions(*q)[j]),
        decreases q.predicted.len() - i,
    {
        if relevant(&q.relevant, &q.predicted[i]) {
            return Some(i);
        }
        i = i + 1;
    }
    None
}

/// Number of relevant predictions among the first `k` (or all, when fewer).
pub fn relevant_in_top(q: &QueryEval, k: usize) -> (n: usize)
    requires
        keys_unique(grades(q.relevant@)),
    ensures
        n == relevant_prefix(predictions(*q), grades(q.relevant@), if k < q.predicted@.len() {
            k as nat
        } else {
            q.predicted@.len()
        }),
{
    let top = if k < q.predicted.len() {
        k
    } else {
        q.predicted.len()
    };
    let mut n: usize = 0;
    let mut i: usize = 0;
    while i < top
        invariant
            i <= top <= q.predicted@.len(),
            n == relevant_prefix(predictions(*q), grades(q.relevant@), i as nat),
            n <= i,
        decreases top - i,
    {
        if relevant(&q.relevant, &q.predicted[i]) {
            n = n + 1;
        }
        i = i + 1;
    }
    n
}

/// Number of relevant slugs (positive grades).
pub fn relevant_total(q: &QueryEval) -> (n: usize)
    requires
        keys_unique(grades(q.relevant@)),
    ensures
        n == positive_grades(grades(q.relevant@), q.relevant@.len()),
{
    let mut n: usize = 0;
    let mut i: usize = 0;
    while i < q.relevant.len()
        invariant
            i <= q.relevant@.len(),
            n == positive_grades(grades(q.relevant@), i as nat),
            n <= i,
        decreases q.relevant.len() - i,
    {
        if q.relevant[i].1 > 0 {
            n = n + 1;
        }
        i = i + 1;
    }
    n
}

} // verus!
