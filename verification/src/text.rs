//! Character classification and string building blocks shared by the
//! parsers and formatters of the crate.

use vstd::prelude::*;
use vstd::string::*;
use vstd::utf8::{decode_utf8, valid_utf8};

verus! {

/// Unicode `White_Space` property, as `char::is_whitespace` documents it.
pub open spec fn is_ws_char(c: char) -> bool {
    let u = c as u32;
    ||| (0x09 <= u && u <= 0x0D)
    ||| u == 0x20
    ||| u == 0x85
    ||| u == 0xA0
    ||| u == 0x1680
    ||| (0x2000 <= u && u <= 0x200A)
    ||| u == 0x2028
    ||| u == 0x2029
    ||| u == 0x202F
    ||| u == 0x205F
    ||| u == 0x3000
}

/// Whether `c` is a Unicode white-space character.
pub fn is_ws(c: char) -> (r: bool)
    ensures
        r == is_ws_char(c),
{
    let u = c as u32;
    (0x09 <= u && u <= 0x0D) || u == 0x20 || u == 0x85 || u == 0xA0 || u == 0x1680 || (0x2000
        <= u && u <= 0x200A) || u == 0x2028 || u == 0x2029 || u == 0x202F || u == 0x205F || u
        == 0x3000
}

/// The characters of `s`, in order.
pub fn to_chars(s: &str) -> (v: Vec<char>)
    ensures
        v@ == s@,
{
    let mut v: Vec<char> = Vec::new();
    for c in it: s.chars()
        invariant
            v@ == it.seq().take(it.index() as int),
    {
        v.push(c);
    }
    v
}

/// `String::push`. Trusted: the character is appended to the text.
#[verifier::external_body]
pub(crate) fn push_char(s: &mut String, c: char)
    ensures
        final(s)@ == old(s)@.push(c),
{
    s.push(c);
}

/// A `String` holding exactly the characters of `cs`.
pub fn string_from_chars(cs: &[char]) -> (s: String)
    ensures
        s@ == cs@,
{
    let mut s = String::new();
    let mut i: usize = 0;
    while i < cs.len()
        invariant
            i <= cs.len(),
            s@ == cs@.take(i as int),
        decreases cs.len() - i,
    {
        push_char(&mut s, cs[i]);
        i = i + 1;
        assert(s@ == cs@.take(i as int));
    }
    assert(cs@.take(cs.len() as int) == cs@);
    s
}


/// Position of the first occurrence of `c` in `s`.
pub open spec fn find_char(s: Seq<char>, c: char) -> Option<nat>
    decreases s.len(),
{
    if s.len() == 0 {
        None
    } else if s[0] == c {
        Some(0)
    } else {
        match find_char(s.drop_first(), c) {
            Some(i) => Some(i + 1),
            None => None,
        }
    }
}

/// `find_char` gives the first occurrence, or `None` when there is none.
pub proof fn lemma_find_char(s: Seq<char>, c: char)
    ensures
        match find_char(s, c) {
            Some(i) => i < s.len() && s[i as int] == c && forall|j: int| 0 <= j < i ==> s[j] != c,
            None => forall|j: int| 0 <= j < s.len() ==> s[j] != c,
        },
    decreases s.len(),
{
    if s.len() > 0 && s[0] != c {
        lemma_find_char(s.drop_first(), c);
        assert forall|j: int| 1 <= j < s.len() implies s[j] == s.drop_first()[j - 1] by {}
    }
}

/// `c` is found right after a part that does not hold it.
pub proof fn lemma_find_char_after(a: Seq<char>, c: char, rest: Seq<char>)
    requires
        forall|j: int| 0 <= j < a.len() ==> a[j] != c,
    ensures
        find_char(a + seq![c] + rest, c) == Some(a.len()),
    decreases a.len(),
{
    let s = a + seq![c] + rest;
    if a.len() > 0 {
        assert(s.drop_first() == a.drop_first() + seq![c] + rest);
        lemma_find_char_after(a.drop_first(), c, rest);
    }
}

/// Position of the first `c` in `v`.
pub fn find_char_in(v: &[char], c: char) -> (r: Option<usize>)
    ensures
        r == (match find_char(v@, c) {
            Some(i) => Some(i as usize),
            None => None::<usize>,
        }),
{
    proof {
        lemma_find_char(v@, c);
    }
    let mut i: usize = 0;
    while i < v.len()
        invariant
            i <= v.len(),
            forall|j: int| 0 <= j < i ==> v@[j] != c,
            match find_char(v@, c) {
                Some(k) => k < v@.len() && v@[k as int] == c && forall|j: int| 0 <= j < k ==> v@[j] != c,
                None => forall|j: int| 0 <= j < v@.len() ==> v@[j] != c,
            },
        decreases v.len() - i,
    {
        if v[i] == c {
            return Some(i);
        }
        i = i + 1;
    }
    None
}

/// The characters `v[from..to]` as a vector.
pub fn chars_range(v: &[char], from: usize, to: usize) -> (r: Vec<char>)
    requires
        from <= to <= v@.len(),
    ensures
        r@ == v@.subrange(from as int, to as int),
{
    let mut r: Vec<char> = Vec::new();
    let mut i = from;
    while i < to
        invariant
            from <= i <= to,
            to <= v@.len(),
            r@ == v@.subrange(from as int, i as int),
        decreases to - i,
    {
        r.push(v[i]);
        i = i + 1;
        assert(r@ == v@.subrange(from as int, i as int));
    }
    r
}

/// The bytes `v[from..to]` as a vector.
pub fn bytes_range(v: &[u8], from: usize, to: usize) -> (r: Vec<u8>)
    requires
        from <= to <= v@.len(),
    ensures
        r@ == v@.subrange(from as int, to as int),
{
    let mut r: Vec<u8> = Vec::new();
    let mut i = from;
    while i < to
        invariant
            from <= i <= to,
            to <= v@.len(),
            r@ == v@.subrange(from as int, i as int),
        decreases to - i,
    {
        r.push(v[i]);
        i = i + 1;
        assert(r@ == v@.subrange(from as int, i as int));
    }
    r
}

/// The characters `v[from..to]` as a `String`.
pub fn string_of_range(v: &[char], from: usize, to: usize) -> (s: String)
    requires
        from <= to <= v@.len(),
    ensures
        s@ == v@.subrange(from as int, to as int),
{
    let mut s = String::new();
    let mut i = from;
    while i < to
        invariant
            from <= i <= to,
            to <= v@.len(),
            s@ == v@.subrange(from as int, i as int),
        decreases to - i,
    {
        push_char(&mut s, v[i]);
        i = i + 1;
        assert(s@ =~= v@.subrange(from as int, i as int));
    }
    s
}

/// Whether two texts are equal.
pub fn str_eq(a: &str, b: &str) -> (r: bool)
    ensures
        r == (a@ == b@),
{
    let x = to_chars(a);
    let y = to_chars(b);
    if x.len() != y.len() {
        return false;
    }
    let mut i: usize = 0;
    while i < x.len()
        invariant
            i <= x@.len(),
            x@.len() == y@.len(),
            x@ == a@,
            y@ == b@,
            forall|k: int| 0 <= k < i ==> x@[k] == y@[k],
        decreases x.len() - i,
    {
        if x[i] != y[i] {
            return false;
        }
        i = i + 1;
    }
    assert(x@ =~= y@);
    true
}

/// A `String` holding the characters of `a` followed by those of `b`.
pub fn concat_str(a: &str, b: &[char]) -> (s: String)
    ensures
        s@ == a@ + b@,
{
    let mut s = String::new();
    s.append(a);
    let mut i: usize = 0;
    while i < b.len()
        invariant
            i <= b.len(),
            s@ == a@ + b@.take(i as int),
        decreases b.len() - i,
    {
        push_char(&mut s, b[i]);
        i = i + 1;
        assert(s@ == a@ + b@.take(i as int));
    }
    assert(b@.take(b.len() as int) == b@);
    s
}

// ── Trimming, words and lines ───────────────────────────────────────

/// `s` without its leading white space.
pub open spec fn trim_start_spec(s: Seq<char>) -> Seq<char>
    decreases s.len(),
{
    if s.len() > 0 && is_ws_char(s[0]) {
        trim_start_spec(s.drop_first())
    } else {
        s
    }
}

/// `s` without its trailing white space.
pub open spec fn trim_end_spec(s: Seq<char>) -> Seq<char>
    decreases s.len(),
{
    if s.len() > 0 && is_ws_char(s.last()) {
        trim_end_spec(s.drop_last())
    } else {
        s
    }
}

/// `s` without leading and trailing white space (`str::trim`).
pub open spec fn trim_spec(s: Seq<char>) -> Seq<char> {
    trim_end_spec(trim_start_spec(s))
}

/// `str::trim` on a character sequence.
pub fn trim_chars(v: &[char]) -> (r: Vec<char>)
    ensures
        r@ == trim_spec(v@),
{
    let mut a: usize = 0;
    assert(v@.skip(0) =~= v@);
    while a < v.len() && is_ws(v[a])
        invariant
            a <= v.len(),
            trim_start_spec(v@) == trim_start_spec(v@.skip(a as int)),
        decreases v.len() - a,
    {
        assert(v@.skip(a as int).drop_first() == v@.skip(a + 1));
        a = a + 1;
    }
    let mut b: usize = v.len();
    assert(v@.skip(a as int) == v@.subrange(a as int, b as int));
    while b > a && is_ws(v[b - 1])
        invariant
            a <= b <= v.len(),
            trim_spec(v@) == trim_end_spec(v@.subrange(a as int, b as int)),
        decreases b,
    {
        assert(v@.subrange(a as int, b as int).drop_last() == v@.subrange(a as int, b - 1));
        b = b - 1;
    }
    chars_range(v, a, b)
}

/// Number of non-white-space characters at the front of `s`.
pub open spec fn word_len(s: Seq<char>) -> nat
    decreases s.len(),
{
    if s.len() > 0 && !is_ws_char(s[0]) {
        1 + word_len(s.drop_first())
    } else {
        0
    }
}

/// The white-space separated words of `s` (`str::split_whitespace`).
pub open spec fn words(s: Seq<char>) -> Seq<Seq<char>>
    decreases s.len(),
{
    if s.len() == 0 {
        Seq::empty()
    } else if is_ws_char(s[0]) {
        words(s.drop_first())
    } else {
        let n = word_len(s);
        if 0 < n <= s.len() {
            seq![s.take(n as int)] + words(s.skip(n as int))
        } else {
            Seq::empty()
        }
    }
}

proof fn lemma_word_len(s: Seq<char>)
    ensures
        word_len(s) <= s.len(),
        s.len() > 0 && !is_ws_char(s[0]) ==> word_len(s) > 0,
        forall|i: int| 0 <= i < word_len(s) ==> !is_ws_char(s[i]),
        word_len(s) < s.len() ==> is_ws_char(s[word_len(s) as int]),
    decreases s.len(),
{
    if s.len() > 0 && !is_ws_char(s[0]) {
        lemma_word_len(s.drop_first());
        assert forall|i: int| 0 <= i < word_len(s) implies !is_ws_char(s[i]) by {
            if i > 0 {
                assert(s[i] == s.drop_first()[i - 1]);
            }
        }
    }
}

/// A run of `n` non-white-space characters ended by white space or the
/// end of the text is a word of length `n`.
pub proof fn lemma_word_len_exact(s: Seq<char>, n: nat)
    requires
        n <= s.len(),
        forall|i: int| 0 <= i < n ==> !is_ws_char(s[i]),
        n < s.len() ==> is_ws_char(s[n as int]),
    ensures
        word_len(s) == n,
    decreases n,
{
    if n > 0 {
        lemma_word_len_exact(s.drop_first(), (n - 1) as nat);
    } else {
        if s.len() > 0 {
            assert(is_ws_char(s[0]));
        }
    }
}

/// The white-space separated words of `v`.
pub fn split_words(v: &[char]) -> (r: Vec<Vec<char>>)
    ensures
        r@.len() == words(v@).len(),
        forall|i: int| 0 <= i < r@.len() ==> (#[trigger] r@[i])@ == words(v@)[i],
{
    let mut r: Vec<Vec<char>> = Vec::new();
    let mut i: usize = 0;
    assert(v@.skip(0) =~= v@);
    while i < v.len()
        invariant
            i <= v.len(),
            r@.len() + words(v@.skip(i as int)).len() == words(v@).len(),
            forall|k: int| 0 <= k < r@.len() ==> (#[trigger] r@[k])@ == words(v@)[k],
            forall|k: int| 0 <= k < words(v@.skip(i as int)).len() ==> words(v@.skip(i as int))[k]
                == words(v@)[r@.len() + k],
        decreases v.len() - i,
    {
        let ghost rest = v@.skip(i as int);
        if is_ws(v[i]) {
            assert(rest.drop_first() == v@.skip(i + 1));
            i = i + 1;
        } else {
            let mut j = i;
            while j < v.len() && !is_ws(v[j])
                invariant
                    i <= j <= v.len(),
                    forall|k: int| i <= k < j ==> !is_ws_char(v@[k]),
                decreases v.len() - j,
            {
                j = j + 1;
            }
            proof {
                lemma_word_len_exact(rest, (j - i) as nat);
                assert(rest.take((j - i) as int) == v@.subrange(i as int, j as int));
                assert(rest.skip((j - i) as int) == v@.skip(j as int));
                let ws = words(rest);
                assert(ws == seq![rest.take((j - i) as int)] + words(v@.skip(j as int)));
                assert(ws[0] == v@.subrange(i as int, j as int));
            }
            let w = chars_range(v, i, j);
            let ghost old_len = r@.len();
            r.push(w);
            proof {
                let ws = words(rest);
                let tail = words(v@.skip(j as int));
                assert forall|k: int| 0 <= k < tail.len() implies tail[k] == words(v@)[r@.len()
                    + k] by {
                    assert(tail[k] == ws[k + 1]);
                }
                assert(r@[old_len as int]@ == words(v@)[old_len as int]) by {
                    assert(ws[0] == words(v@)[old_len as int]);
                }
            }
            i = j;
        }
    }
    assert(v@.skip(v.len() as int) =~= Seq::<char>::empty());
    r
}

/// `l` without one trailing carriage return.
pub open spec fn strip_cr(l: Seq<char>) -> Seq<char> {
    if l.len() > 0 && l.last() == '\r' {
        l.drop_last()
    } else {
        l
    }
}

/// The lines of `s` (`str::lines`): split at `'\n'`, one `'\r'` before
/// the `'\n'` dropped, no empty last line for a trailing line ending.
pub open spec fn lines_of(s: Seq<char>) -> Seq<Seq<char>>
    decreases s.len(),
{
    if s.len() == 0 {
        Seq::empty()
    } else {
        match find_char(s, '\n') {
            None => seq![s],
            Some(i) => if i < s.len() {
                seq![strip_cr(s.take(i as int))] + lines_of(s.skip(i + 1 as int))
            } else {
                Seq::empty()
            },
        }
    }
}

/// Whether `s` begins with `p`.
pub open spec fn starts_with(s: Seq<char>, p: Seq<char>) -> bool {
    p.len() <= s.len() && s.take(p.len() as int) == p
}

/// Whether `v` begins with the characters of `p`.
pub fn has_prefix(v: &[char], p: &str) -> (b: bool)
    ensures
        b == starts_with(v@, p@),
{
    let pc = to_chars(p);
    if pc.len() > v.len() {
        return false;
    }
    let mut i: usize = 0;
    while i < pc.len()
        invariant
            i <= pc.len(),
            pc.len() <= v.len(),
            pc@ == p@,
            forall|k: int| 0 <= k < i ==> v@[k] == pc@[k],
        decreases pc.len() - i,
    {
        if v[i] != pc[i] {
            assert(v@.take(p@.len() as int)[i as int] != p@[i as int]);
            return false;
        }
        i = i + 1;
    }
    assert(v@.take(p@.len() as int) =~= p@);
    true
}

/// ASCII lower-casing of one character (`char::to_ascii_lowercase`).
pub open spec fn ascii_lower(c: char) -> char {
    if 'A' <= c && c <= 'Z' {
        ((c as u32) + 32) as char
    } else {
        c
    }
}

/// ASCII lower-casing of a character sequence.
pub fn to_ascii_lower(v: &[char]) -> (r: Vec<char>)
    ensures
        r@ == v@.map_values(|c: char| ascii_lower(c)),
{
    let mut r: Vec<char> = Vec::new();
    let mut i: usize = 0;
    while i < v.len()
        invariant
            i <= v.len(),
            r@ == v@.take(i as int).map_values(|c: char| ascii_lower(c)),
        decreases v.len() - i,
    {
        let c = v[i];
        let l = if 'A' <= c && c <= 'Z' {
            ((c as u8) + 32) as char
        } else {
            c
        };
        r.push(l);
        i = i + 1;
        assert(r@ =~= v@.take(i as int).map_values(|c: char| ascii_lower(c)));
    }
    assert(v@.take(v.len() as int) == v@);
    r
}

/// The text before the first `c` (all of it when there is none).
pub open spec fn before_char(s: Seq<char>, c: char) -> Seq<char> {
    match find_char(s, c) {
        Some(k) => s.take(k as int),
        None => s,
    }
}

/// The characters of `v` before the first `c`.
pub fn prefix_before(v: &[char], c: char) -> (r: Vec<char>)
    ensures
        r@ == before_char(v@, c),
{
    proof {
        lemma_find_char(v@, c);
    }
    match find_char_in(v, c) {
        Some(k) => {
            let r = chars_range(v, 0, k);
            assert(r@ =~= v@.take(k as int));
            r
        },
        None => {
            let r = chars_range(v, 0, v.len());
            assert(r@ =~= v@);
            r
        },
    }
}

/// Position (counted from `from`) of the first `c` in `v[from..]`.
pub fn find_char_from(v: &[char], from: usize, c: char) -> (r: Option<usize>)
    requires
        from <= v@.len(),
    ensures
        r == (match find_char(v@.skip(from as int), c) {
            Some(i) => Some(i as usize),
            None => None::<usize>,
        }),
{
    let ghost t = v@.skip(from as int);
    proof {
        lemma_find_char(t, c);
    }
    let mut i: usize = from;
    while i < v.len()
        invariant
            from <= i <= v.len(),
            t == v@.skip(from as int),
            forall|j: int| 0 <= j < i - from ==> t[j] != c,
            match find_char(t, c) {
                Some(k) => k < t.len() && t[k as int] == c && forall|j: int| 0 <= j < k ==> t[j] != c,
                None => forall|j: int| 0 <= j < t.len() ==> t[j] != c,
            },
        decreases v.len() - i,
    {
        if v[i] == c {
            assert(t[i - from] == c);
            return Some(i - from);
        }
        i = i + 1;
    }
    None
}

/// The lines of `v` (`str::lines`).
pub fn split_lines(v: &[char]) -> (r: Vec<Vec<char>>)
    ensures
        r@.map_values(|l: Vec<char>| l@) == lines_of(v@),
{
    let mut r: Vec<Vec<char>> = Vec::new();
    let mut i: usize = 0;
    assert(v@.skip(0) =~= v@);
    assert(r@.map_values(|l: Vec<char>| l@) + lines_of(v@.skip(0)) =~= lines_of(v@));
    while i < v.len()
        invariant
            i <= v.len(),
            r@.map_values(|l: Vec<char>| l@) + lines_of(v@.skip(i as int)) == lines_of(v@),
        decreases v.len() - i,
    {
        let ghost rest = v@.skip(i as int);
        let ghost before = r@.map_values(|l: Vec<char>| l@);
        proof {
            lemma_find_char(rest, '\n');
        }
        match find_char_from(v, i, '\n') {
            None => {
                let line = chars_range(v, i, v.len());
                r.push(line);
                proof {
                    assert(lines_of(rest) == seq![rest]);
                    assert(r@.map_values(|l: Vec<char>| l@) =~= before.push(rest));
                    assert(v@.skip(v.len() as int) =~= Seq::<char>::empty());
                    assert(before.push(rest) + lines_of(v@.skip(v.len() as int)) =~= before + seq![rest]);
                }
                i = v.len();
            },
            Some(k) => {
                let end = i + k;
                let mut line = chars_range(v, i, end);
                if line.len() > 0 && line[line.len() - 1] == '\r' {
                    line.pop();
                }
                proof {
                    assert(rest.take(k as int) == v@.subrange(i as int, end as int));
                    assert(line@ == strip_cr(rest.take(k as int)));
                    assert(rest.skip(k + 1 as int) =~= v@.skip(end + 1));
                    assert(lines_of(rest) == seq![strip_cr(rest.take(k as int))] + lines_of(
                        v@.skip(end + 1),
                    ));
                }
                r.push(line);
                proof {
                    assert(r@.map_values(|l: Vec<char>| l@) =~= before.push(line@));
                    assert(before.push(line@) + lines_of(v@.skip(end + 1)) =~= before + (seq![line@]
                        + lines_of(v@.skip(end + 1))));
                }
                i = end + 1;
            },
        }
    }
    proof {
        assert(v@.skip(i as int) =~= Seq::<char>::empty());
        assert(r@.map_values(|l: Vec<char>| l@) + Seq::<Seq<char>>::empty() =~= r@.map_values(
            |l: Vec<char>| l@,
        ));
    }
    r
}

// ── Byte search ─────────────────────────────────────────────────────

/// Position of the first occurrence of `pat` in `s`.
pub open spec fn find_bytes(s: Seq<u8>, pat: Seq<u8>) -> Option<nat>
    decreases s.len(),
{
    if s.len() < pat.len() {
        None
    } else if s.take(pat.len() as int) == pat {
        Some(0)
    } else if s.len() == 0 {
        None
    } else {
        match find_bytes(s.drop_first(), pat) {
            Some(i) => Some(i + 1),
            None => None,
        }
    }
}

/// `pat` occurs in `s` at position `j`.
pub open spec fn occurs_at(s: Seq<u8>, pat: Seq<u8>, j: int) -> bool {
    0 <= j && j + pat.len() <= s.len() && s.subrange(j, j + pat.len()) == pat
}

/// `find_bytes` gives the first occurrence.
pub proof fn lemma_find_bytes(s: Seq<u8>, pat: Seq<u8>)
    ensures
        match find_bytes(s, pat) {
            Some(i) => occurs_at(s, pat, i as int) && forall|j: int|
                0 <= j < i ==> !#[trigger] occurs_at(s, pat, j),
            None => forall|j: int| !#[trigger] occurs_at(s, pat, j),
        },
    decreases s.len(),
{
    if s.len() >= pat.len() && s.take(pat.len() as int) != pat && s.len() > 0 {
        lemma_find_bytes(s.drop_first(), pat);
        assert forall|j: int| 1 <= j implies #[trigger] occurs_at(s, pat, j) == occurs_at(
            s.drop_first(),
            pat,
            j - 1,
        ) by {
            if j + pat.len() <= s.len() {
                assert(s.subrange(j, j + pat.len()) =~= s.drop_first().subrange(
                    j - 1,
                    j - 1 + pat.len(),
                ));
            }
        }
        assert(!occurs_at(s, pat, 0)) by {
            assert(s.subrange(0, pat.len() as int) == s.take(pat.len() as int));
        }
    } else if s.len() >= pat.len() && s.take(pat.len() as int) == pat {
        assert(s.subrange(0, pat.len() as int) == s.take(pat.len() as int));
    } else if s.len() < pat.len() {
    } else {
        // s.len() == 0 and pat is empty but differs: impossible
        assert(s.take(0) =~= pat);
    }
}

/// Position (counted from `from`) of the first occurrence of `pat` in
/// `v[from..]`.
pub fn find_bytes_from(v: &[u8], from: usize, pat: &[u8]) -> (r: Option<usize>)
    requires
        from <= v@.len(),
    ensures
        r == (match find_bytes(v@.skip(from as int), pat@) {
            Some(i) => Some(i as usize),
            None => None::<usize>,
        }),
{
    let ghost t = v@.skip(from as int);
    proof {
        lemma_find_bytes(t, pat@);
    }
    if pat.len() > v.len() - from {
        proof {
            assert forall|j: int| !#[trigger] occurs_at(t, pat@, j) by {}
        }
        return None;
    }
    let mut i: usize = from;
    while i <= v.len() - pat.len()
        invariant
            from <= i <= v@.len(),
            pat@.len() <= v@.len() - from,
            t == v@.skip(from as int),
            forall|j: int| 0 <= j < i - from ==> !#[trigger] occurs_at(t, pat@, j),
            match find_bytes(t, pat@) {
                Some(k) => occurs_at(t, pat@, k as int) && forall|j: int|
                    0 <= j < k ==> !#[trigger] occurs_at(t, pat@, j),
                None => forall|j: int| !#[trigger] occurs_at(t, pat@, j),
            },
        decreases v.len() + 1 - i,
    {
        let mut k: usize = 0;
        let mut same = true;
        while k < pat.len()
            invariant
                k <= pat@.len(),
                i + pat@.len() <= v@.len(),
                pat@.len() == pat.len(),
                v@.len() == v.len(),
                same ==> forall|m: int| 0 <= m < k ==> v@[i + m] == pat@[m],
                !same ==> v@.subrange(i as int, i + pat@.len()) != pat@,
                !same ==> pat@.len() > 0,
            decreases pat.len() - k,
        {
            if v[i + k] != pat[k] {
                assert(v@.subrange(i as int, i + pat@.len())[k as int] != pat@[k as int]);
                same = false;
            }
            k = k + 1;
        }
        assert(t.subrange(i - from, i - from + pat@.len()) =~= v@.subrange(
            i as int,
            i + pat@.len(),
        ));
        if same {
            assert(v@.subrange(i as int, i + pat@.len()) =~= pat@);
            assert(occurs_at(t, pat@, i - from));
            return Some(i - from);
        }
        assert(!occurs_at(t, pat@, i - from));
        assert(pat@.len() > 0);
        i = i + 1;
    }
    proof {
        assert forall|j: int| !#[trigger] occurs_at(t, pat@, j) by {
            if 0 <= j < i - from {
            }
        }
    }
    None
}

// ── UTF-8 ───────────────────────────────────────────────────────────

/// `std::str::from_utf8`. Trusted: it succeeds exactly on valid UTF-8, and
/// then yields the characters that the bytes encode (vstd's `valid_utf8` and
/// `decode_utf8`).
#[verifier::external_body]
pub(crate) fn utf8_decode(bytes: &[u8]) -> (r: Option<String>)
    ensures
        r is Some <==> valid_utf8(bytes@),
        r matches Some(s) ==> s@ == decode_utf8(bytes@),
{
    std::str::from_utf8(bytes).ok().map(|s| s.to_string())
}

/// What `String::from_utf8_lossy` makes of a byte string.
pub uninterp spec fn utf8_lossy(bytes: Seq<u8>) -> Seq<char>;

/// The text `String::from_utf8_lossy` gives of a byte string: the decoded
/// text when the bytes are valid UTF-8.
pub open spec fn lossy_text(bytes: Seq<u8>) -> Seq<char> {
    if valid_utf8(bytes) {
        decode_utf8(bytes)
    } else {
        utf8_lossy(bytes)
    }
}

/// `String::from_utf8_lossy`. Trusted: its result is a function of the bytes
/// (named `utf8_lossy`) and, on valid UTF-8, is the decoded text; how
/// invalid sequences are replaced is not stated.
#[verifier::external_body]
pub(crate) fn utf8_decode_lossy(bytes: &[u8]) -> (s: String)
    ensures
        s@ == utf8_lossy(bytes@),
        valid_utf8(bytes@) ==> s@ == decode_utf8(bytes@),
{
    String::from_utf8_lossy(bytes).into_owned()
}

} // verus!
