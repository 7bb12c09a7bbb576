//! HTTP `Range` requests for byte ranges of a blob: reading the first range
//! of a `Range: bytes=...` header against the blob's size, and writing the
//! matching `Content-Range` value.

use vstd::prelude::*;
use crate::numtext::{int_text, parse_i64, parse_i64_spec, push_int};
use crate::text::{
    before_char, chars_range, find_char, find_char_in, has_prefix, lemma_find_char, prefix_before,
    starts_with, to_chars, trim_chars, trim_spec,
};

verus! {

/// Outcome of reading a `Range` header.
#[derive(Debug, Clone, Copy, PartialEq, Eq, Structural)]
pub enum RangeOutcome {
    Satisfied { start: i64, end: i64 },
    Unsatisfiable,
    Invalid,
}

/// The first range of a header's `bytes=` list, trimmed.
pub open spec fn first_range(h: Seq<char>) -> Seq<char> {
    trim_spec(before_char(h.skip(6), ','))
}

/// The text before the first `'-'` of a range, and what follows it.
pub open spec fn range_halves(sp: Seq<char>) -> (Seq<char>, Option<Seq<char>>) {
    match find_char(sp, '-') {
        Some(k) => (sp.take(k as int), Some(sp.skip(k + 1int))),
        None => (sp, None),
    }
}

/// The requested last position: the given end, when there is one.
pub open spec fn range_end(half: Option<Seq<char>>, total: int) -> Option<int> {
    match half {
        Some(b) => if b.len() > 0 {
            parse_i64_spec(b)
        } else {
            Some(total - 1)
        },
        None => Some(total - 1),
    }
}

/// Reading the arithmetic of a range would overflow an `i64`: a suffix
/// range reaching below the least `i64`, or an open range against the
/// least `i64` as size.
pub open spec fn range_overflows(h: Seq<char>, total: int) -> bool {
    let sp = first_range(h);
    &&& starts_with(h, "bytes="@)
    &&& sp.len() > 0
    &&& if sp[0] == '-' {
        parse_i64_spec(sp.drop_first()) matches Some(s) && s > 0 && total - s < i64::MIN
    } else {
        let (a, b) = range_halves(sp);
        parse_i64_spec(a) is Some && (b is None || b->0.len() == 0) && total == i64::MIN
    }
}

/// What a `Range` header asks of a blob of `total` bytes: the first range
/// of a `bytes=` header as inclusive positions, the end clipped to the
/// blob; a suffix range `-n` asks for the last `n` bytes.
pub open spec fn range_outcome(h: Seq<char>, total: int) -> RangeOutcome {
    if !starts_with(h, "bytes="@) {
        RangeOutcome::Invalid
    } else {
        let sp = first_range(h);
        if sp.len() == 0 {
            RangeOutcome::Invalid
        } else if sp[0] == '-' {
            match parse_i64_spec(sp.drop_first()) {
                Some(s) => if s > 0 {
                    RangeOutcome::Satisfied {
                        start: (if total - s > 0 {
                            total - s
                        } else {
                            0
                        }) as i64,
                        end: (total - 1) as i64,
                    }
                } else {
                    RangeOutcome::Invalid
                },
                None => RangeOutcome::Invalid,
            }
        } else {
            let (a, b) = range_halves(sp);
            match parse_i64_spec(a) {
                None => RangeOutcome::Invalid,
                Some(start) => match range_end(b, total) {
                    None => RangeOutcome::Invalid,
                    Some(end) => if start > end || start >= total {
                        RangeOutcome::Unsatisfiable
                    } else {
                        RangeOutcome::Satisfied {
                            start: start as i64,
                            end: (if end < total - 1 {
                                end
                            } else {
                                total - 1
                            }) as i64,
                        }
                    },
                },
            }
        }
    }
}

proof fn lemma_parse_i64_range(s: Seq<char>)
    ensures
        parse_i64_spec(s) matches Some(v) ==> i64::MIN <= v <= i64::MAX,
{
}

/// Reads the first range of a `Range` header against a blob of `total`
/// bytes.
pub fn parse_range(header: &str, total: i64) -> (r: RangeOutcome)
    requires
        !range_overflows(header@, total as int),
    ensures
        r == range_outcome(header@, total as int),
{
    let h = to_chars(header);
    if !has_prefix(h.as_slice(), "bytes=") {
        return RangeOutcome::Invalid;
    }
    proof {
        reveal_strlit("bytes=");
    }
    let tail = chars_range(h.as_slice(), 6, h.len());
    assert(tail@ =~= header@.skip(6));
    let first = prefix_before(tail.as_slice(), ',');
    let sp = trim_chars(first.as_slice());
    assert(sp@ == first_range(header@));
    if sp.len() == 0 {
        return RangeOutcome::Invalid;
    }
    if sp[0] == '-' {
        let rest = chars_range(sp.as_slice(), 1, sp.len());
        assert(rest@ =~= sp@.drop_first());
        proof {
            lemma_parse_i64_range(rest@);
        }
        match parse_i64(rest.as_slice()) {
            Some(suffix) => {
                if suffix > 0 {
                    let start = if total - suffix > 0 {
                        total - suffix
                    } else {
                        0
                    };
                    return RangeOutcome::Satisfied { start, end: total - 1 };
                }
                return RangeOutcome::Invalid;
            },
            None => {
                return RangeOutcome::Invalid;
            },
        }
    }
    proof {
        lemma_find_char(sp@, '-');
    }
    let (a, b): (Vec<char>, Option<Vec<char>>) = match find_char_in(sp.as_slice(), '-') {
        Some(k) => (chars_range(sp.as_slice(), 0, k), Some(chars_range(sp.as_slice(), k + 1, sp.len()))),
        None => (chars_range(sp.as_slice(), 0, sp.len()), None),
    };
    proof {
        let halves = range_halves(sp@);
        assert(a@ =~= halves.0);
        match &b {
            Some(bv) => {
                assert(bv@ =~= halves.1->0);
            },
            None => {},
        }
        lemma_parse_i64_range(a@);
    }
    let start = match parse_i64(a.as_slice()) {
        Some(v) => v,
        None => {
            return RangeOutcome::Invalid;
        },
    };
    let end: i64 = match b {
        Some(bv) => {
            if bv.len() > 0 {
                proof {
                    lemma_parse_i64_range(bv@);
                }
                match parse_i64(bv.as_slice()) {
                    Some(v) => v,
                    None => {
                        return RangeOutcome::Invalid;
                    },
                }
            } else {
                total - 1
            }
        },
        None => total - 1,
    };
    if start > end || start >= total {
        return RangeOutcome::Unsatisfiable;
    }
    let last = total - 1;
    RangeOutcome::Satisfied {
        start,
        end: if end < last {
            end
        } else {
            last
        },
    }
}

/// The `Content-Range` value for a served range.
pub open spec fn content_range_text(start: int, end: int, total: int) -> Seq<char> {
    "bytes "@ + int_text(start) + "-"@ + int_text(end) + "/"@ + int_text(total)
}

/// Writes the `Content-Range` value `bytes start-end/total`.
pub fn content_range(start: i64, end: i64, total: i64) -> (s: String)
    ensures
        s@ == content_range_text(start as int, end as int, total as int),
{
    let mut s = String::from_str("bytes ");
    push_int(&mut s, start);
    s.append("-");
    push_int(&mut s, end);
    s.append("/");
    push_int(&mut s, total);
    s
}

/// A satisfiable range of a non-empty blob lies within it:
/// `0 <= start <= end < total`.
pub proof fn lemma_range_within(h: Seq<char>, total: int)
    requires
        total > 0,
        total <= i64::MAX,
    ensures
        range_outcome(h, total) matches RangeOutcome::Satisfied { start, end } ==> 0 <= start <= end
            < total,
{
    if starts_with(h, "bytes="@) {
        let sp = first_range(h);
        if sp.len() > 0 && sp[0] != '-' {
            let (a, b) = range_halves(sp);
            lemma_find_char(sp, '-');
            match parse_i64_spec(a) {
                Some(start) => {
                    assert(a.len() > 0);
                    if find_char(sp, '-') is Some {
                        let k = find_char(sp, '-')->0;
                        assert(k > 0);
                        assert(a[0] == sp[0]);
                    }
                    assert(a[0] != '-');
                    assert(start >= 0);
                },
                None => {},
            }
        }
    }
}

} // verus!
