//! The sidecar backend's HTTP/1.1 framing over the daemon's Unix socket:
//! the request head it sends, and the reading of the daemon's response
//! (status line, headers, plain, sized or chunked body).

use vstd::prelude::*;
use vstd::utf8::{
    decode_utf8, encode_utf8, encode_utf8_decode_utf8, encode_utf8_valid_utf8, valid_utf8,
};
use crate::machine::Error;
use crate::numtext::{
    digits_number, drop_plus, lemma_radix_text_roundtrip, parse_unsigned, parse_unsigned_spec,
};
use crate::numtext::{push_uint, radix_text};
use crate::text::{
    ascii_lower, bytes_range, chars_range, concat_str, find_bytes, find_bytes_from, find_char,
    find_char_in, has_prefix, lemma_find_bytes, lines_of, occurs_at, split_lines, split_words,
    starts_with, to_ascii_lower, to_chars, trim_chars, trim_spec, utf8_decode, utf8_decode_lossy,
    lossy_text, words,
};

verus! {

// ── Chunked transfer coding ─────────────────────────────────────────

/// The line ending of HTTP/1.1: carriage return, line feed.
pub open spec fn crlf() -> Seq<u8> {
    seq![13u8, 10u8]
}

/// The text before the first `';'` (`split(';').next()`).
pub open spec fn before_semicolon(s: Seq<char>) -> Seq<char> {
    match find_char(s, ';') {
        Some(k) => s.take(k as int),
        None => s,
    }
}

/// The size a chunk-size line announces: hexadecimal, chunk extensions
/// after `';'` ignored, surrounding white space ignored.
pub open spec fn chunk_size_of(line: Seq<char>) -> Option<nat> {
    parse_unsigned_spec(before_semicolon(trim_spec(line)), 16, usize::MAX as nat)
}

/// The payload of a body in chunked transfer coding, or the message of
/// the first defect found. Reading stops at the zero-size chunk; what
/// follows it (trailers) is ignored.
pub open spec fn decode_chunked_spec(buf: Seq<u8>) -> Result<Seq<u8>, Seq<char>>
    decreases buf.len(),
{
    if buf.len() == 0 {
        Ok(Seq::empty())
    } else {
        match find_bytes(buf, crlf()) {
            None => Err("chunk header truncated"@),
            Some(p) => {
                let line = buf.take(p as int);
                if !valid_utf8(line) {
                    Err("chunk size not utf-8"@)
                } else {
                    match chunk_size_of(decode_utf8(line)) {
                        None => Err("bad chunk size: "@ + decode_utf8(line)),
                        Some(size) => {
                            proof {
                                lemma_find_bytes(buf, crlf());
                            }
                            let rest = buf.skip(p + 2int);
                            if size == 0 {
                                Ok(Seq::empty())
                            } else if size > rest.len() {
                                Err("chunk truncated"@)
                            } else if rest.len() < size + 2 || rest.subrange(
                                size as int,
                                size + 2int,
                            ) != crlf() {
                                Err("missing chunk trailer"@)
                            } else {
                                match decode_chunked_spec(rest.skip(size + 2int)) {
                                    Ok(t) => Ok(rest.take(size as int) + t),
                                    Err(e) => Err(e),
                                }
                            }
                        },
                    }
                }
            },
        }
    }
}

fn crlf_bytes() -> (v: Vec<u8>)
    ensures
        v@ == crlf(),
{
    let mut v: Vec<u8> = Vec::new();
    v.push(13u8);
    v.push(10u8);
    assert(v@ =~= crlf());
    v
}

/// The size field of a chunk-size line: trimmed, cut at the first `';'`.
fn chunk_size_field(line: &[char]) -> (r: Vec<char>)
    ensures
        r@ == before_semicolon(trim_spec(line@)),
{
    let t = trim_chars(line);
    proof {
        crate::text::lemma_find_char(t@, ';');
    }
    match find_char_in(t.as_slice(), ';') {
        Some(k) => {
            assert(find_char(t@, ';') == Some(k as nat));
            let r = chars_range(t.as_slice(), 0, k);
            proof {
                assert(r@ =~= t@.take(k as int));
                assert(before_semicolon(t@) == t@.take(k as int));
            }
            r
        },
        None => {
            assert(find_char(t@, ';') is None);
            t
        },
    }
}

/// Decodes a body in chunked transfer coding.
pub fn decode_chunked(buf: &[u8]) -> (r: Result<Vec<u8>, Error>)
    ensures
        match decode_chunked_spec(buf@) {
            Ok(b) => r matches Ok(v) && v@ == b,
            Err(m) => r matches Err(Error::Sidecar(s)) && s@ == m,
        },
{
    let crlf_v = crlf_bytes();
    let mut out: Vec<u8> = Vec::new();
    let mut i: usize = 0;
    assert(buf@.skip(0) =~= buf@);
    while i < buf.len()
        invariant
            i <= buf@.len(),
            crlf_v@ == crlf(),
            decode_chunked_spec(buf@) == (match decode_chunked_spec(buf@.skip(i as int)) {
                Ok(t) => Ok(out@ + t),
                Err(e) => Err(e),
            }),
        decreases buf.len() - i,
    {
        let ghost rest0 = buf@.skip(i as int);
        proof {
            lemma_find_bytes(rest0, crlf());
        }
        let p = match find_bytes_from(buf, i, crlf_v.as_slice()) {
            Some(p) => p,
            None => {
                return Err(Error::Sidecar(String::from_str("chunk header truncated")));
            },
        };
        let line_end = i + p;
        let line_bytes = bytes_range(buf, i, line_end);
        assert(line_bytes@ == rest0.take(p as int));
        let line_text = match utf8_decode(line_bytes.as_slice()) {
            Some(s) => s,
            None => {
                return Err(Error::Sidecar(String::from_str("chunk size not utf-8")));
            },
        };
        let line_chars = to_chars(line_text.as_str());
        let field = chunk_size_field(line_chars.as_slice());
        let size = match parse_unsigned(field.as_slice(), 16, usize::MAX as u64) {
            Some(n) => n as usize,
            None => {
                return Err(Error::Sidecar(concat_str("bad chunk size: ", line_chars.as_slice())));
            },
        };
        assert(occurs_at(rest0, crlf(), p as int));
        i = line_end + 2;
        let ghost rest = rest0.skip(p + 2);
        assert(rest =~= buf@.skip(i as int));
        if size == 0 {
            assert(out@ + Seq::<u8>::empty() =~= out@);
            return Ok(out);
        }
        if size > buf.len() - i {
            return Err(Error::Sidecar(String::from_str("chunk truncated")));
        }
        let mut piece = bytes_range(buf, i, i + size);
        assert(piece@ =~= rest.take(size as int));
        let ghost out_old = out@;
        out.append(&mut piece);
        i = i + size;
        if buf.len() - i < 2 || buf[i] != 13u8 || buf[i + 1] != 10u8 {
            proof {
                if rest.len() >= size + 2 {
                    assert(rest.subrange(size as int, size + 2)[0] == buf@[i as int]);
                    assert(rest.subrange(size as int, size + 2)[1] == buf@[i + 1]);
                }
            }
            return Err(Error::Sidecar(String::from_str("missing chunk trailer")));
        }
        proof {
            assert(rest.subrange(size as int, size + 2) =~= crlf());
            assert(rest.skip(size + 2) =~= buf@.skip(i + 2));
        }
        i = i + 2;
        proof {
            match decode_chunked_spec(buf@.skip(i as int)) {
                Ok(t) => {
                    assert(out_old + (rest.take(size as int) + t) =~= out@ + t);
                },
                Err(e) => {},
            }
        }
    }
    assert(buf@.skip(i as int) =~= Seq::<u8>::empty());
    assert(out@ + Seq::<u8>::empty() =~= out@);
    Ok(out)
}

// ── The chunked coding of a payload ─────────────────────────────────

/// The size line of a chunk of `n` bytes: `n` in lower-case hexadecimal.
pub open spec fn size_line(n: nat) -> Seq<u8> {
    encode_utf8(radix_text(n, 16))
}

/// One chunk: its size line, the line ending, the bytes, the line ending.
pub open spec fn chunk_frame(p: Seq<u8>) -> Seq<u8> {
    size_line(p.len()) + crlf() + p + crlf()
}

/// A payload sent as the given chunks, closed by the zero-size chunk.
pub open spec fn chunked_body(parts: Seq<Seq<u8>>) -> Seq<u8>
    decreases parts.len(),
{
    if parts.len() == 0 {
        size_line(0) + crlf() + crlf()
    } else {
        chunk_frame(parts[0]) + chunked_body(parts.drop_first())
    }
}

/// The chunks joined.
pub open spec fn concat_parts(parts: Seq<Seq<u8>>) -> Seq<u8>
    decreases parts.len(),
{
    if parts.len() == 0 {
        Seq::empty()
    } else {
        parts[0] + concat_parts(parts.drop_first())
    }
}

proof fn lemma_ascii_encode(s: Seq<char>)
    requires
        forall|i: int| 0 <= i < s.len() ==> 0x21 <= (#[trigger] s[i] as u32) < 0x7F,
    ensures
        encode_utf8(s).len() == s.len(),
        forall|j: int| 0 <= j < encode_utf8(s).len() ==> #[trigger] encode_utf8(s)[j] != 13u8,
    decreases s.len(),
{
    if s.len() > 0 {
        let v = s[0] as u32;
        assert(0x21 <= v < 0x7F);
        assert((v & 0x7F) == v) by (bit_vector)
            requires
                v < 0x80,
        ;
        let t = s.drop_first();
        assert forall|i: int| 0 <= i < t.len() implies 0x21 <= (#[trigger] t[i] as u32) < 0x7F by {
            assert(t[i] == s[i + 1]);
        }
        lemma_ascii_encode(t);
        let e = encode_utf8(s);
        assert(e == vstd::utf8::encode_scalar(v) + encode_utf8(t));
        assert(vstd::utf8::encode_scalar(v) == seq![v as u8]);
        assert forall|j: int| 0 <= j < e.len() implies #[trigger] e[j] != 13u8 by {
            if j > 0 {
                assert(e[j] == encode_utf8(t)[j - 1]);
            }
        }
    }
}

proof fn lemma_crlf_first(a: Seq<u8>, b: Seq<u8>)
    requires
        forall|j: int| 0 <= j < a.len() ==> #[trigger] a[j] != 13u8,
    ensures
        find_bytes(a + crlf() + b, crlf()) == Some(a.len()),
{
    let buf = a + crlf() + b;
    let k0 = a.len() as int;
    assert(buf.subrange(k0, k0 + 2) =~= crlf());
    assert(occurs_at(buf, crlf(), k0));
    lemma_find_bytes(buf, crlf());
    let f = find_bytes(buf, crlf());
    if f is Some {
        let k = f->0 as int;
        if k < k0 {
            assert(occurs_at(buf, crlf(), k));
            assert(buf.subrange(k, k + 2)[0] == buf[k]);
            assert(buf[k] == a[k]);
            assert(false);
        }
        if k > k0 {
            assert(!occurs_at(buf, crlf(), k0));
        }
    }
}

proof fn lemma_size_line(n: nat)
    requires
        n <= usize::MAX,
    ensures
        forall|j: int| 0 <= j < size_line(n).len() ==> #[trigger] size_line(n)[j] != 13u8,
        valid_utf8(size_line(n)),
        chunk_size_of(decode_utf8(size_line(n))) == Some(n),
{
    let hex = radix_text(n, 16);
    lemma_radix_text_roundtrip(n, 16);
    assert forall|i: int| 0 <= i < hex.len() implies 0x21 <= (#[trigger] hex[i] as u32) < 0x7F by {
        let c = hex[i];
        assert(('0' <= c <= '9') || ('a' <= c <= 'f'));
    }
    lemma_ascii_encode(hex);
    encode_utf8_valid_utf8(hex);
    encode_utf8_decode_utf8(hex);
    assert(decode_utf8(size_line(n)) == hex);
    assert(!crate::text::is_ws_char(hex[0]));
    assert(!crate::text::is_ws_char(hex.last()));
    assert(crate::text::trim_start_spec(hex) == hex);
    assert(trim_spec(hex) == hex);
    crate::text::lemma_find_char(hex, ';');
    match find_char(hex, ';') {
        Some(k) => {
            assert(hex[k as int] == ';');
        },
        None => {},
    }
    assert(before_semicolon(hex) == hex);
    assert(drop_plus(hex) == hex);
}

/// Decoding a payload sent in chunked transfer coding gives the payload
/// back: the chunks, joined.
pub proof fn lemma_chunked_roundtrip(parts: Seq<Seq<u8>>)
    requires
        forall|i: int| 0 <= i < parts.len() ==> 0 < (#[trigger] parts[i]).len() <= usize::MAX,
    ensures
        decode_chunked_spec(chunked_body(parts)) == Ok::<Seq<u8>, Seq<char>>(concat_parts(parts)),
    decreases parts.len(),
{
    let n: nat = if parts.len() == 0 {
        0
    } else {
        parts[0].len()
    };
    let line = size_line(n);
    lemma_size_line(n);
    let buf = chunked_body(parts);
    let after = if parts.len() == 0 {
        crlf()
    } else {
        parts[0] + crlf() + chunked_body(parts.drop_first())
    };
    assert(buf =~= line + crlf() + after);
    lemma_crlf_first(line, after);
    assert(buf.take(line.len() as int) =~= line);
    assert(buf.skip(line.len() + 2int) =~= after);
    assert(buf.len() > 0);
    if parts.len() > 0 {
        let p = parts[0];
        let rest_parts = parts.drop_first();
        assert forall|i: int| 0 <= i < rest_parts.len() implies 0 < (#[trigger] rest_parts[i]).len() <= usize::MAX by {
            assert(rest_parts[i] == parts[i + 1]);
        }
        lemma_chunked_roundtrip(rest_parts);
        assert(after.subrange(p.len() as int, p.len() + 2int) =~= crlf());
        assert(after.skip(p.len() + 2int) =~= chunked_body(rest_parts));
        assert(after.take(p.len() as int) =~= p);
    }
}

/// Bytes of the first `k` chunks, as sent.
pub open spec fn frames_before(parts: Seq<Seq<u8>>, k: nat) -> nat
    decreases k,
{
    if k == 0 || parts.len() == 0 {
        0
    } else {
        chunk_frame(parts[0]).len() + frames_before(parts.drop_first(), (k - 1) as nat)
    }
}

proof fn lemma_decode_frame(p: Seq<u8>, rest: Seq<u8>)
    requires
        0 < p.len() <= usize::MAX,
    ensures
        decode_chunked_spec(chunk_frame(p) + rest) == (match decode_chunked_spec(rest) {
            Ok(t) => Ok(p + t),
            Err(e) => Err(e),
        }),
{
    let line = size_line(p.len());
    lemma_size_line(p.len());
    let buf = chunk_frame(p) + rest;
    let after = p + crlf() + rest;
    assert(buf =~= line + crlf() + after);
    lemma_crlf_first(line, after);
    assert(buf.take(line.len() as int) =~= line);
    assert(buf.skip(line.len() + 2int) =~= after);
    assert(after.subrange(p.len() as int, p.len() + 2int) =~= crlf());
    assert(after.skip(p.len() + 2int) =~= rest);
    assert(after.take(p.len() as int) =~= p);
}

proof fn lemma_decode_short(p: Seq<u8>, after: Seq<u8>)
    requires
        0 < p.len() <= usize::MAX,
        after.len() < p.len() + 2,
    ensures
        decode_chunked_spec(size_line(p.len()) + crlf() + after) is Err,
{
    let line = size_line(p.len());
    lemma_size_line(p.len());
    let buf = line + crlf() + after;
    lemma_crlf_first(line, after);
    assert(buf.take(line.len() as int) =~= line);
    assert(buf.skip(line.len() + 2int) =~= after);
}

proof fn lemma_frames_within(parts: Seq<Seq<u8>>, k: nat)
    requires
        k < parts.len(),
    ensures
        frames_before(parts, k) + chunk_frame(parts[k as int]).len() <= chunked_body(parts).len(),
    decreases k,
{
    let tail = parts.drop_first();
    assert(chunked_body(parts) == chunk_frame(parts[0]) + chunked_body(tail));
    if k > 0 {
        assert(tail[k - 1] == parts[k as int]);
        lemma_frames_within(tail, (k - 1) as nat);
    }
}

/// A chunked body cut inside the data of a chunk, or inside the line
/// ending after it, does not decode: it is reported as an error.
pub proof fn lemma_chunked_cut(parts: Seq<Seq<u8>>, k: nat, c: nat)
    requires
        forall|i: int| 0 <= i < parts.len() ==> 0 < (#[trigger] parts[i]).len() <= usize::MAX,
        k < parts.len(),
        frames_before(parts, k) + size_line(parts[k as int].len()).len() + 2 <= c,
        c < frames_before(parts, k) + chunk_frame(parts[k as int]).len(),
    ensures
        decode_chunked_spec(chunked_body(parts).take(c as int)) is Err,
    decreases k,
{
    let p = parts[0];
    let tail = parts.drop_first();
    let full = chunked_body(parts);
    let f0 = chunk_frame(p);
    assert(full == f0 + chunked_body(tail));
    lemma_frames_within(parts, k);
    let buf = full.take(c as int);
    if k == 0 {
        let line = size_line(p.len());
        let after = buf.skip(line.len() + 2int);
        assert(buf =~= line + crlf() + after);
        lemma_decode_short(p, after);
    } else {
        assert(frames_before(parts, k) == f0.len() + frames_before(tail, (k - 1) as nat));
        assert forall|i: int| 0 <= i < tail.len() implies 0 < (#[trigger] tail[i]).len() <= usize::MAX by {
            assert(tail[i] == parts[i + 1]);
        }
        assert(tail[k - 1] == parts[k as int]);
        let c2 = (c - f0.len()) as nat;
        lemma_frames_within(tail, (k - 1) as nat);
        lemma_chunked_cut(tail, (k - 1) as nat, c2);
        let cut = chunked_body(tail).take(c2 as int);
        assert(buf =~= f0 + cut);
        lemma_decode_frame(p, cut);
    }
}

// ── Responses ───────────────────────────────────────────────────────

/// The blank line that ends the head of a response.
pub open spec fn head_end() -> Seq<u8> {
    seq![13u8, 10u8, 13u8, 10u8]
}

/// ASCII lower-casing of a text.
pub open spec fn lower_text(s: Seq<char>) -> Seq<char> {
    s.map_values(|c: char| ascii_lower(c))
}

/// The value of a header line whose lower-cased text begins with `name`
/// (which includes the colon): what follows `name`, lower-cased.
pub open spec fn header_value(line: Seq<char>, name: Seq<char>) -> Option<Seq<char>> {
    let l = lower_text(line);
    if starts_with(l, name) {
        Some(l.skip(name.len() as int))
    } else {
        None
    }
}

/// The body length the headers announce: the last `Content-Length`
/// header decides; an unreadable value announces none.
pub open spec fn content_length_of(hs: Seq<Seq<char>>) -> Option<nat>
    decreases hs.len(),
{
    if hs.len() == 0 {
        None
    } else {
        match header_value(hs.last(), "content-length:"@) {
            Some(v) => parse_unsigned_spec(trim_spec(v), 10, usize::MAX as nat),
            None => content_length_of(hs.drop_last()),
        }
    }
}

proof fn lemma_content_length_fits(hs: Seq<Seq<char>>)
    ensures
        content_length_of(hs) matches Some(n) ==> n <= usize::MAX,
    decreases hs.len(),
{
    if hs.len() > 0 {
        lemma_content_length_fits(hs.drop_last());
    }
}

/// Whether a header line declares the chunked transfer coding.
pub open spec fn declares_chunked(line: Seq<char>) -> bool {
    match header_value(line, "transfer-encoding:"@) {
        Some(v) => trim_spec(v) == "chunked"@,
        None => false,
    }
}

/// Whether some header declares the chunked transfer coding.
pub open spec fn is_chunked(hs: Seq<Seq<char>>) -> bool {
    exists|i: int| 0 <= i < hs.len() && declares_chunked(#[trigger] hs[i])
}

/// The first line of the head, or nothing.
pub open spec fn status_line_of(ls: Seq<Seq<char>>) -> Seq<char> {
    if ls.len() == 0 {
        Seq::empty()
    } else {
        ls[0]
    }
}

/// The lines of the head after the status line.
pub open spec fn header_lines_of(ls: Seq<Seq<char>>) -> Seq<Seq<char>> {
    if ls.len() == 0 {
        Seq::empty()
    } else {
        ls.drop_first()
    }
}

/// The status code of a status line: its second word, a decimal `u16`.
pub open spec fn status_code_of(line: Seq<char>) -> Option<nat> {
    let w = words(line);
    if w.len() < 2 {
        None
    } else {
        parse_unsigned_spec(w[1], 10, 65535)
    }
}

/// The body of a response after its head: chunked when a header says so,
/// else cut to the announced length, else all of it.
pub open spec fn response_body(hs: Seq<Seq<char>>, rest: Seq<u8>) -> Result<Seq<u8>, Seq<char>> {
    if is_chunked(hs) {
        decode_chunked_spec(rest)
    } else {
        match content_length_of(hs) {
            Some(n) => Ok(
                if n < rest.len() {
                    rest.take(n as int)
                } else {
                    rest
                },
            ),
            None => Ok(rest),
        }
    }
}

/// What a raw response from the daemon yields: `Ok` with the body of a
/// successful response (empty for 204), `Err(None)` for 404, and
/// `Err(Some(message))` for a malformed response or another status.
pub open spec fn parse_response_spec(raw: Seq<u8>) -> Result<Seq<u8>, Option<Seq<char>>> {
    match find_bytes(raw, head_end()) {
        None => Err(Some("no header terminator"@)),
        Some(split) => {
            let head = raw.take(split as int);
            if !valid_utf8(head) {
                Err(Some("non-utf8 headers"@))
            } else {
                let ls = lines_of(decode_utf8(head));
                let sl = status_line_of(ls);
                match status_code_of(sl) {
                    None => Err(Some("bad status line: "@ + sl)),
                    Some(status) => match response_body(header_lines_of(ls), raw.skip(split + 4int)) {
                        Err(m) => Err(Some(m)),
                        Ok(body) => if status == 404 {
                            Err(None)
                        } else if status == 204 {
                            Ok(Seq::empty())
                        } else if status < 200 || status >= 300 {
                            Err(
                                Some(
                                    "daemon "@ + radix_text(status, 10) + ": "@ + lossy_text(body),
                                ),
                            )
                        } else {
                            Ok(body)
                        },
                    },
                }
            }
        },
    }
}

/// How the status of a readable response decides its outcome: every 2xx
/// status but 204 gives the body, 204 an empty body, 404 `NotFound`, and
/// only the statuses outside 200..300 (404 aside) give an error.
pub proof fn lemma_status_outcome(raw: Seq<u8>, split: nat, status: nat, body: Seq<u8>)
    requires
        find_bytes(raw, head_end()) == Some(split),
        valid_utf8(raw.take(split as int)),
        status_code_of(status_line_of(lines_of(decode_utf8(raw.take(split as int))))) == Some(status),
        response_body(header_lines_of(lines_of(decode_utf8(raw.take(split as int)))), raw.skip(split + 4int))
            == Ok::<Seq<u8>, Seq<char>>(body),
    ensures
        200 <= status < 300 && status != 204 ==> parse_response_spec(raw) == Ok::<Seq<u8>, Option<Seq<char>>>(body),
        status == 204 ==> parse_response_spec(raw) == Ok::<Seq<u8>, Option<Seq<char>>>(Seq::empty()),
        status == 404 ==> parse_response_spec(raw) == Err::<Seq<u8>, Option<Seq<char>>>(None),
        parse_response_spec(raw) is Err ==> status == 404 || status < 200 || status >= 300,
{
}

fn head_end_bytes() -> (v: Vec<u8>)
    ensures
        v@ == head_end(),
{
    let mut v: Vec<u8> = Vec::new();
    v.push(13u8);
    v.push(10u8);
    v.push(13u8);
    v.push(10u8);
    assert(v@ =~= head_end());
    v
}

/// The value of a header line for `name`, when the line names it.
fn header_value_of(line: &[char], name: &str) -> (r: Option<Vec<char>>)
    ensures
        match header_value(line@, name@) {
            Some(v) => r matches Some(x) && x@ == v,
            None => r is None,
        },
{
    let lower = to_ascii_lower(line);
    assert(lower@ == lower_text(line@));
    if has_prefix(lower.as_slice(), name) {
        let n = to_chars(name).len();
        Some(chars_range(lower.as_slice(), n, lower.len()))
    } else {
        None
    }
}

/// The status code and header facts of the head's lines.
fn read_headers(ls: &Vec<Vec<char>>) -> (r: (Option<usize>, bool))
    requires
        ls@.len() >= 1,
    ensures
        ({
            let hs = header_lines_of(ls@.map_values(|l: Vec<char>| l@));
            &&& r.0 == (match content_length_of(hs) {
                Some(n) => Some(n as usize),
                None => None::<usize>,
            })
            &&& r.1 == is_chunked(hs)
        }),
{
    let ghost hs = header_lines_of(ls@.map_values(|l: Vec<char>| l@));
    let mut cl: Option<usize> = None;
    let mut chunked = false;
    let mut k: usize = 1;
    assert(hs.take(0) =~= Seq::<Seq<char>>::empty());
    while k < ls.len()
        invariant
            1 <= k <= ls@.len(),
            hs == header_lines_of(ls@.map_values(|l: Vec<char>| l@)),
            hs.len() == ls@.len() - 1,
            forall|j: int| 0 <= j < hs.len() ==> hs[j] == (#[trigger] ls@[j + 1])@,
            cl == (match content_length_of(hs.take(k - 1)) {
                Some(n) => Some(n as usize),
                None => None::<usize>,
            }),
            chunked == is_chunked(hs.take(k - 1)),
        decreases ls.len() - k,
    {
        let line = &ls[k];
        let ghost pre = hs.take(k - 1);
        let ghost cur = hs.take(k as int);
        assert(cur.drop_last() =~= pre);
        assert(cur.last() == line@);
        match header_value_of(line.as_slice(), "content-length:") {
            Some(v) => {
                let t = trim_chars(v.as_slice());
                cl = match parse_unsigned(t.as_slice(), 10, usize::MAX as u64) {
                    Some(n) => Some(n as usize),
                    None => None,
                };
            },
            None => {},
        }
        let mut this_chunked = false;
        match header_value_of(line.as_slice(), "transfer-encoding:") {
            Some(v) => {
                let t = trim_chars(v.as_slice());
                let want = to_chars("chunked");
                if t.len() == want.len() && has_prefix(t.as_slice(), "chunked") {
                    assert(t@.take(want@.len() as int) =~= t@);
                    this_chunked = true;
                } else {
                    proof {
                        if t@ == "chunked"@ {
                            assert(t@.take(want@.len() as int) =~= t@);
                        }
                    }
                }
            },
            None => {},
        }
        assert(this_chunked == declares_chunked(cur.last()));
        proof {
            if chunked || this_chunked {
                if chunked {
                    let w = choose|i: int| 0 <= i < pre.len() && declares_chunked(#[trigger] pre[i]);
                    assert(cur[w] == pre[w]);
                } else {
                    assert(declares_chunked(cur[cur.len() - 1]));
                }
            } else {
                assert forall|i: int| 0 <= i < cur.len() implies !declares_chunked(#[trigger] cur[i]) by {
                    if i < pre.len() {
                        assert(cur[i] == pre[i]);
                    }
                }
            }
        }
        chunked = chunked || this_chunked;
        k = k + 1;
    }
    assert(hs.take(k - 1) =~= hs);
    (cl, chunked)
}

/// Reads a raw HTTP/1.1 response of the daemon: its body on a 2xx status
/// (empty on 204), `NotFound` on 404, `Sidecar` with a message otherwise.
#[verifier::spinoff_prover]
pub fn parse_response(raw: &[u8]) -> (r: Result<Vec<u8>, Error>)
    ensures
        match parse_response_spec(raw@) {
            Ok(b) => r matches Ok(v) && v@ == b,
            Err(None) => r matches Err(Error::NotFound),
            Err(Some(m)) => r matches Err(Error::Sidecar(s)) && s@ == m,
        },
{
    let pat = head_end_bytes();
    assert(raw@.skip(0) =~= raw@);
    proof {
        lemma_find_bytes(raw@, head_end());
    }
    let split = match find_bytes_from(raw, 0, pat.as_slice()) {
        Some(p) => p,
        None => {
            return Err(Error::Sidecar(String::from_str("no header terminator")));
        },
    };
    proof {
        // The terminator lies within the response, so its position fits.
        let f = find_bytes(raw@, head_end());
        assert(occurs_at(raw@, head_end(), f->0 as int));
        assert(head_end().len() == 4);
        assert(raw@.len() == raw.len());
    }
    let head_bytes = bytes_range(raw, 0, split);
    assert(head_bytes@ =~= raw@.take(split as int));
    let head = match utf8_decode(head_bytes.as_slice()) {
        Some(h) => h,
        None => {
            return Err(Error::Sidecar(String::from_str("non-utf8 headers")));
        },
    };
    let head_chars = to_chars(head.as_str());
    let lines = split_lines(head_chars.as_slice());
    let ghost ls = lines@.map_values(|l: Vec<char>| l@);
    assert(ls == lines_of(decode_utf8(raw@.take(split as int))));
    let status_line: Vec<char> = if lines.len() == 0 {
        Vec::new()
    } else {
        chars_range(lines[0].as_slice(), 0, lines[0].len())
    };
    assert(status_line@ =~= status_line_of(ls));
    let ws = split_words(status_line.as_slice());
    let status: u64 = if ws.len() < 2 {
        return Err(Error::Sidecar(concat_str("bad status line: ", status_line.as_slice())));
    } else {
        match parse_unsigned(ws[1].as_slice(), 10, 65535) {
            Some(n) => n,
            None => {
                return Err(Error::Sidecar(concat_str("bad status line: ", status_line.as_slice())));
            },
        }
    };
    let (cl, chunked) = if lines.len() == 0 {
        assert(header_lines_of(ls) =~= Seq::<Seq<char>>::empty());
        (None, false)
    } else {
        read_headers(&lines)
    };
    assert(chunked == is_chunked(header_lines_of(ls)));
    assert(cl == (match content_length_of(header_lines_of(ls)) {
        Some(n) => Some(n as usize),
        None => None::<usize>,
    }));
    proof {
        lemma_content_length_fits(header_lines_of(ls));
    }
    let rest = bytes_range(raw, split + 4, raw.len());
    assert(rest@ =~= raw@.skip(split + 4int));
    let body: Vec<u8> = if chunked {
        match decode_chunked(rest.as_slice()) {
            Ok(b) => b,
            Err(e) => {
                return Err(e);
            },
        }
    } else {
        match cl {
            Some(n) => {
                if n < rest.len() {
                    let b = bytes_range(rest.as_slice(), 0, n);
                    assert(b@ =~= rest@.take(n as int));
                    b
                } else {
                    rest
                }
            },
            None => rest,
        }
    };
    assert(status_code_of(status_line_of(ls)) == Some(status as nat));
    assert(response_body(header_lines_of(ls), raw@.skip(split + 4int)) == Ok::<Seq<u8>, Seq<char>>(body@));
    if status == 404 {
        return Err(Error::NotFound);
    }
    if status == 204 {
        return Ok(Vec::new());
    }
    if status < 200 || status >= 300 {
        let lossy = utf8_decode_lossy(body.as_slice());
        let mut m = String::from_str("daemon ");
        push_uint(&mut m, status);
        m.append(": ");
        m.append(lossy.as_str());
        return Err(Error::Sidecar(m));
    }
    Ok(body)
}

// ── The client ──────────────────────────────────────────────────────

/// Health report of the daemon.
#[derive(Debug, Clone)]
pub struct Health {
    pub ok: bool,
    pub version: String,
}

/// Client of the machine daemon on a Unix socket. The exchange itself is
/// done by the caller: this type keeps where to connect and how long to
/// wait, and says what to send.
#[derive(Debug, Clone)]
pub struct SidecarClient {
    socket: String,
    timeout_secs: u64,
    timeout_nanos: u32,
}

impl SidecarClient {
    /// The socket path the client connects to.
    pub closed spec fn socket_spec(&self) -> Seq<char> {
        self.socket@
    }

    /// The read and write timeout, as seconds and nanoseconds.
    pub closed spec fn timeout_spec(&self) -> (u64, u32) {
        (self.timeout_secs, self.timeout_nanos)
    }

    /// A client for `socket` with the default timeout of 15 seconds.
    pub fn new(socket: String) -> (c: SidecarClient)
        ensures
            c.socket_spec() == socket@,
            c.timeout_spec() == (15u64, 0u32),
    {
        SidecarClient { socket, timeout_secs: 15, timeout_nanos: 0 }
    }

    /// The same client with another timeout.
    pub fn with_timeout(self, secs: u64, nanos: u32) -> (c: SidecarClient)
        ensures
            c.socket_spec() == self.socket_spec(),
            c.timeout_spec() == (secs, nanos),
    {
        SidecarClient { socket: self.socket, timeout_secs: secs, timeout_nanos: nanos }
    }

    /// The socket path.
    pub fn socket_path(&self) -> (s: &str)
        ensures
            s@ == self.socket_spec(),
    {
        self.socket.as_str()
    }

    /// The timeout as seconds and nanoseconds.
    pub fn timeout(&self) -> (t: (u64, u32))
        ensures
            t == self.timeout_spec(),
    {
        (self.timeout_secs, self.timeout_nanos)
    }
}

/// The daemon's operations.
#[derive(Debug, Clone)]
pub enum SidecarCall {
    Health,
    List,
    Get(String),
    Create,
    Start(String),
    Stop(String),
    Delete(String),
}

/// The HTTP method of an operation.
pub open spec fn call_method(c: SidecarCall) -> Seq<char> {
    match c {
        SidecarCall::Create | SidecarCall::Start(_) | SidecarCall::Stop(_) => "POST"@,
        SidecarCall::Delete(_) => "DELETE"@,
        _ => "GET"@,
    }
}

/// The request path of an operation.
pub open spec fn call_path(c: SidecarCall) -> Seq<char> {
    match c {
        SidecarCall::Health => "/v1/health"@,
        SidecarCall::List | SidecarCall::Create => "/v1/machines"@,
        SidecarCall::Get(n) | SidecarCall::Delete(n) => "/v1/machines/"@ + n@,
        SidecarCall::Start(n) => "/v1/machines/"@ + n@ + "/start"@,
        SidecarCall::Stop(n) => "/v1/machines/"@ + n@ + "/stop"@,
    }
}

fn three(a: &str, b: &str, c: &str) -> (s: String)
    ensures
        s@ == a@ + b@ + c@,
{
    let mut s = String::from_str(a);
    s.append(b);
    s.append(c);
    s
}

impl SidecarCall {
    /// The HTTP method of the operation.
    pub fn method(&self) -> (m: &'static str)
        ensures
            m@ == call_method(*self),
    {
        match self {
            SidecarCall::Create | SidecarCall::Start(_) | SidecarCall::Stop(_) => "POST",
            SidecarCall::Delete(_) => "DELETE",
            _ => "GET",
        }
    }

    /// The request path of the operation.
    pub fn path(&self) -> (p: String)
        ensures
            p@ == call_path(*self),
    {
        match self {
            SidecarCall::Health => String::from_str("/v1/health"),
            SidecarCall::List | SidecarCall::Create => String::from_str("/v1/machines"),
            SidecarCall::Get(n) | SidecarCall::Delete(n) => {
                let mut p = String::from_str("/v1/machines/");
                p.append(n.as_str());
                p
            },
            SidecarCall::Start(n) => three("/v1/machines/", n.as_str(), "/start"),
            SidecarCall::Stop(n) => three("/v1/machines/", n.as_str(), "/stop"),
        }
    }
}

/// The head of a request: request line, fixed headers, the body's length,
/// a JSON content type when there is a body, and the blank line.
pub open spec fn request_head_text(method: Seq<char>, path: Seq<char>, body_len: nat) -> Seq<char> {
    method + " "@ + path
        + " HTTP/1.1\r\nHost: machined.local\r\nAccept: application/json\r\nConnection: close\r\nContent-Length: "@
        + radix_text(body_len, 10) + "\r\n"@ + (if body_len > 0 {
        "Content-Type: application/json\r\n"@
    } else {
        Seq::empty()
    }) + "\r\n"@
}

/// The head of a request to the daemon.
pub fn request_head(method: &str, path: &str, body_len: usize) -> (s: String)
    ensures
        s@ == request_head_text(method@, path@, body_len as nat),
{
    let mut s = three(method, " ", path);
    s.append(
        " HTTP/1.1\r\nHost: machined.local\r\nAccept: application/json\r\nConnection: close\r\nContent-Length: ",
    );
    push_uint(&mut s, body_len as u64);
    s.append("\r\n");
    if body_len > 0 {
        s.append("Content-Type: application/json\r\n");
    }
    s.append("\r\n");
    s
}

} // verus!
