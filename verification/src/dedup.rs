//! Chains of search hits: the slug of the document a chunk or version of a
//! page belongs to, by which hits are grouped before deduplication.

use vstd::prelude::*;
use crate::config::text_at;
use crate::text::{chars_range, string_from_chars, to_chars};

verus! {

/// Position of the last occurrence of `p` in `s`.
pub open spec fn last_at(s: Seq<char>, p: Seq<char>) -> Option<nat>
    decreases s.len(),
{
    if s.len() < p.len() {
        None
    } else if s.skip(s.len() - p.len()) == p {
        Some((s.len() - p.len()) as nat)
    } else if s.len() == 0 {
        None
    } else {
        last_at(s.drop_last(), p)
    }
}

proof fn lemma_last_at(s: Seq<char>, p: Seq<char>)
    ensures
        match last_at(s, p) {
            Some(i) => text_at(s, p, i as int) && forall|j: int| i < j ==> !#[trigger] text_at(s, p, j),
            None => forall|j: int| !#[trigger] text_at(s, p, j),
        },
    decreases s.len(),
{
    if s.len() < p.len() {
    } else if s.skip(s.len() - p.len()) == p {
        assert(s.subrange(s.len() - p.len(), s.len() as int) == s.skip(s.len() - p.len()));
    } else if s.len() == 0 {
        assert(s.skip(0) =~= p);
    } else {
        let t = s.drop_last();
        lemma_last_at(t, p);
        assert forall|j: int| text_at(s, p, j) && j + p.len() < s.len() implies #[trigger] text_at(t, p, j) by {
            assert(t.subrange(j, j + p.len()) =~= s.subrange(j, j + p.len()));
        }
        assert forall|j: int| text_at(t, p, j) implies #[trigger] text_at(s, p, j) by {
            assert(t.subrange(j, j + p.len()) =~= s.subrange(j, j + p.len()));
        }
        assert forall|j: int| j + p.len() == s.len() implies !#[trigger] text_at(s, p, j) by {
            assert(s.subrange(j, j + p.len()) == s.skip(s.len() - p.len()));
        }
        assert forall|j: int| #[trigger] text_at(s, p, j) implies text_at(t, p, j) by {
            if j + p.len() == s.len() {
            }
        }
    }
}

/// All characters are ASCII digits.
pub open spec fn all_ascii_digits(s: Seq<char>) -> bool {
    forall|i: int| 0 <= i < s.len() ==> '0' <= #[trigger] s[i] <= '9'
}

/// `s` without its last `p` and what follows, when only ASCII digits
/// follow it.
pub open spec fn strip_numbered(s: Seq<char>, p: Seq<char>) -> Seq<char> {
    match last_at(s, p) {
        Some(i) => if all_ascii_digits(s.skip(i + p.len() as int)) {
            s.take(i as int)
        } else {
            s
        },
        None => s,
    }
}

/// The chain of a slug: without a `#chunk-N` suffix, then without a `::N`
/// suffix.
pub open spec fn chain_text(slug: Seq<char>) -> Seq<char> {
    strip_numbered(strip_numbered(slug, "#chunk-"@), "::"@)
}

fn strip_numbered_exec(s: Vec<char>, p: &str) -> (r: Vec<char>)
    ensures
        r@ == strip_numbered(s@, p@),
{
    let pc = to_chars(p);
    proof {
        lemma_last_at(s@, p@);
    }
    if pc.len() > s.len() {
        assert(last_at(s@, p@) is None);
        return s;
    }
    let mut j: usize = s.len() - pc.len();
    let mut found: Option<usize> = None;
    loop
        invariant_except_break
            found is None,
        invariant
            pc@ == p@,
            pc.len() <= s.len(),
            j <= s.len() - pc.len(),
            forall|k: int| j < k ==> !#[trigger] text_at(s@, p@, k),
        ensures
            match found {
                Some(i) => text_at(s@, p@, i as int) && forall|k: int| i < k ==> !#[trigger] text_at(s@, p@, k),
                None => forall|k: int| !#[trigger] text_at(s@, p@, k),
            },
        decreases j,
    {
        let mut m: usize = 0;
        let mut same = true;
        while m < pc.len()
            invariant
                m <= pc.len(),
                j + pc.len() <= s.len(),
                same <==> forall|q: int| 0 <= q < m ==> s@[j + q] == pc@[q],
            decreases pc.len() - m,
        {
            if s[j + m] != pc[m] {
                same = false;
            }
            m = m + 1;
        }
        proof {
            if same {
                assert(s@.subrange(j as int, j + pc.len()) =~= p@);
            } else {
                let q = choose|q: int| 0 <= q < pc.len() && s@[j + q] != pc@[q];
                assert(s@.subrange(j as int, j + pc.len())[q] != p@[q]);
            }
        }
        if same {
            found = Some(j);
            break;
        }
        if j == 0 {
            assert forall|k: int| !#[trigger] text_at(s@, p@, k) by {
                if k == 0 {
                }
            }
            break;
        }
        j = j - 1;
    }
    match found {
        Some(i) => {
            proof {
                match last_at(s@, p@) {
                    Some(l) => {
                        if (l as int) < (i as int) {
                        } else if (i as int) < (l as int) {
                        }
                    },
                    None => {},
                }
            }
            let mut all = true;
            let mut k = i + pc.len();
            while k < s.len()
                invariant
                    i + pc.len() <= k <= s.len(),
                    all <==> forall|q: int| i + pc.len() <= q < k ==> '0' <= #[trigger] s@[q] <= '9',
                decreases s.len() - k,
            {
                if !('0' <= s[k] && s[k] <= '9') {
                    all = false;
                }
                k = k + 1;
            }
            proof {
                let rest = s@.skip(i + pc.len());
                assert(all == all_ascii_digits(rest)) by {
                    if all {
                        assert forall|q: int| 0 <= q < rest.len() implies '0' <= #[trigger] rest[q] <= '9' by {
                            assert(rest[q] == s@[i + pc.len() + q]);
                        }
                    } else {
                        let q = choose|q: int| i + pc.len() <= q < s.len() && !('0' <= #[trigger] s@[q] <= '9');
                        assert(rest[q - i - pc.len()] == s@[q]);
                    }
                }
            }
            if all {
                let r = chars_range(s.as_slice(), 0, i);
                assert(r@ =~= s@.take(i as int));
                r
            } else {
                s
            }
        },
        None => s,
    }
}

/// The chain a hit's slug belongs to: `#chunk-N` and then `::N` suffixes
/// removed.
pub fn chain_of(slug: &str) -> (r: String)
    ensures
        r@ == chain_text(slug@),
{
    let s = to_chars(slug);
    let a = strip_numbered_exec(s, "#chunk-");
    let b = strip_numbered_exec(a, "::");
    string_from_chars(b.as_slice())
}

} // verus!
