//! Content-addressed wallet addresses of the brain: `prefix:base58(payload)`
//! where the payload is a version byte, the first 20 bytes of the BLAKE3
//! digest of the public key, and a 4-byte BLAKE3 checksum.

use vstd::prelude::*;
use crate::base58::{
    base58_decode, base58_decode_spec, base58_encode, base58_encode_spec, lemma_base58_roundtrip,
};
use crate::text::{chars_range, concat_str, find_char, find_char_in, lemma_find_char,
    lemma_find_char_after, push_char, string_from_chars, to_chars, bytes_range};

verus! {

/// The BLAKE3 digest of `data`: what `blake3::hash` returns for it.
pub uninterp spec fn blake3_digest(data: Seq<u8>) -> [u8; 32];

/// `blake3::hash`. Trusted: its result is the 32-byte BLAKE3 digest of
/// `data`, a function of the input bytes alone (named `blake3_digest`);
/// nothing else about the digest is stated.
#[verifier::external_body]
fn digest32(data: &[u8]) -> (r: [u8; 32])
    ensures
        r == blake3_digest(data@),
{
    blake3::hash(data).into()
}

/// Version byte of the current address format.
pub const VERSION_V1: u8 = 0x01;

/// The 21-byte versioned hash of a public key.
pub open spec fn versioned_hash(pk: Seq<u8>) -> Seq<u8> {
    seq![VERSION_V1] + blake3_digest(pk)@.take(20)
}

/// The 25-byte payload of the address of `pk`: versioned hash and checksum.
pub open spec fn address_payload(pk: Seq<u8>) -> Seq<u8> {
    versioned_hash(pk) + blake3_digest(versioned_hash(pk))@.take(4)
}

/// The address text of `pk` under `prefix`.
pub open spec fn address_text(pk: Seq<u8>, prefix: Seq<char>) -> Seq<char> {
    prefix + seq![':'] + base58_encode_spec(address_payload(pk))
}

/// The prefix used when none is given.
pub open spec fn prefix_or_default(prefix: Option<&str>) -> Seq<char> {
    match prefix {
        Some(p) => p@,
        None => "hanzo"@,
    }
}

/// Encode a 32-byte public key as a wallet address (`hanzo:` by default).
pub fn encode_address(public_key: &[u8], prefix: Option<&str>) -> (r: Result<String, &'static str>)
    ensures
        public_key@.len() != 32 ==> (r matches Err(e) && e@ == "public key must be 32 bytes"@),
        public_key@.len() == 32 ==> (r matches Ok(s) && s@ == address_text(
            public_key@,
            prefix_or_default(prefix),
        )),
{
    if public_key.len() != 32 {
        return Err("public key must be 32 bytes");
    }
    let p: &str = match prefix {
        Some(p) => p,
        None => "hanzo",
    };
    let h = digest32(public_key);
    let mut versioned: Vec<u8> = Vec::new();
    versioned.push(VERSION_V1);
    let mut i: usize = 0;
    while i < 20
        invariant
            i <= 20,
            h == blake3_digest(public_key@),
            versioned@ == seq![VERSION_V1] + h@.take(i as int),
        decreases 20 - i,
    {
        versioned.push(h[i]);
        i = i + 1;
        assert(versioned@ == seq![VERSION_V1] + h@.take(i as int));
    }
    let cs = digest32(versioned.as_slice());
    let mut payload = versioned.clone();
    let mut k: usize = 0;
    while k < 4
        invariant
            k <= 4,
            cs == blake3_digest(versioned@),
            payload@ == versioned@ + cs@.take(k as int),
        decreases 4 - k,
    {
        payload.push(cs[k]);
        k = k + 1;
        assert(payload@ == versioned@ + cs@.take(k as int));
    }
    let body = base58_encode(payload.as_slice());
    let body_chars = to_chars(body.as_str());
    let mut head = String::new();
    head.append(p);
    push_char(&mut head, ':');
    let out = concat_str(head.as_str(), body_chars.as_slice());
    Ok(out)
}

/// A decoded wallet address.
#[derive(Debug, Clone)]
pub struct DecodedAddress {
    pub prefix: String,
    pub version: u8,
    pub hash: [u8; 20],
}

/// What an address decodes to: its prefix, version byte and hash, or the
/// message of the first check that fails.
pub open spec fn decode_address_spec(a: Seq<char>) -> Result<(Seq<char>, u8, Seq<u8>), Seq<char>> {
    match find_char(a, ':') {
        None => Err("address: missing prefix"@),
        Some(k) => match base58_decode_spec(a.skip(k + 1 as int)) {
            None => Err("base58: invalid char"@),
            Some(d) => if d.len() != 25 {
                Err("address: wrong length"@)
            } else if d.subrange(21, 25) != blake3_digest(d.take(21))@.take(4) {
                Err("address: bad checksum"@)
            } else {
                Ok((a.take(k as int), d[0], d.subrange(1, 21)))
            },
        },
    }
}

/// Every address that decodes carries a valid checksum, whatever its
/// version byte: its base58 body is 25 bytes whose last four are the first
/// four of the BLAKE3 digest of the first 21.
pub proof fn lemma_decoded_addresses_checksummed(a: Seq<char>)
    requires
        decode_address_spec(a) is Ok,
    ensures
        find_char(a, ':') is Some,
        exists|d: Seq<u8>|
            #![trigger blake3_digest(d.take(21))]
            {
                &&& base58_decode_spec(a.skip(find_char(a, ':')->0 + 1int)) == Some(d)
                &&& d.len() == 25
                &&& d.subrange(21, 25) == blake3_digest(d.take(21))@.take(4)
            },
{
    let k = find_char(a, ':')->0;
    let d = base58_decode_spec(a.skip(k + 1int))->0;
    assert(d.subrange(21, 25) == blake3_digest(d.take(21))@.take(4));
}

/// Whether bytes 21..25 of a decoded payload equal the first four bytes of
/// the expected digest.
fn checksum_matches(decoded: &[u8], expected: &[u8; 32]) -> (b: bool)
    requires
        decoded@.len() == 25,
    ensures
        b == (decoded@.subrange(21, 25) == expected@.take(4)),
{
    let mut i: usize = 0;
    while i < 4
        invariant
            i <= 4,
            decoded@.len() == 25,
            forall|j: int| 0 <= j < i ==> decoded@[21 + j] == expected@[j],
        decreases 4 - i,
    {
        if decoded[21 + i] != expected[i] {
            assert(decoded@.subrange(21, 25)[i as int] != expected@.take(4)[i as int]);
            return false;
        }
        i = i + 1;
    }
    assert(decoded@.subrange(21, 25) =~= expected@.take(4));
    true
}

/// Decode and check a wallet address.
pub fn decode_address(addr: &str) -> (r: Result<DecodedAddress, &'static str>)
    ensures
        match (r, decode_address_spec(addr@)) {
            (Ok(x), Ok(y)) => x.prefix@ == y.0 && x.version == y.1 && x.hash@ == y.2,
            (Err(e), Err(m)) => e@ == m,
            _ => false,
        },
        r matches Ok(x) ==> exists|d: Seq<u8>|
            #![trigger blake3_digest(d.take(21))]
            {
                &&& addr@.len() > x.prefix@.len()
                &&& addr@.take(x.prefix@.len() as int) == x.prefix@
                &&& addr@[x.prefix@.len() as int] == ':'
                &&& base58_decode_spec(addr@.skip(x.prefix@.len() + 1int)) == Some(d)
                &&& d.len() == 25
                &&& d[0] == x.version
                &&& d.subrange(1, 21) == x.hash@
                &&& d.subrange(21, 25) == blake3_digest(d.take(21))@.take(4)
            },
{
    let chars = to_chars(addr);
    let n: usize = chars.len();
    proof {
        lemma_find_char(chars@, ':');
        if let Some(k) = find_char(chars@, ':') {
            assert(k < n);
            assert((k as usize) as nat == k);
        }
    }
    let colon = match find_char_in(chars.as_slice(), ':') {
        Some(i) => i,
        None => {
            return Err("address: missing prefix");
        },
    };
    proof {
        lemma_find_char(chars@, ':');
        let k = find_char(chars@, ':')->0;
        assert(colon == k);
        assert(colon < chars@.len());
    }
    let body = chars_range(chars.as_slice(), colon + 1, chars.len());
    assert(body@ == addr@.skip(colon + 1 as int));
    let decoded = match base58_decode(body.as_slice()) {
        Ok(d) => d,
        Err(_) => {
            return Err("base58: invalid char");
        },
    };
    if decoded.len() != 25 {
        return Err("address: wrong length");
    }
    let head = bytes_range(decoded.as_slice(), 0, 21);
    let expected = digest32(head.as_slice());
    assert(head@ =~= decoded@.take(21));
    if !checksum_matches(decoded.as_slice(), &expected) {
        return Err("address: bad checksum");
    }
    assert(decoded@.subrange(21, 25) =~= expected@.take(4));
    let hash: [u8; 20] = [
        decoded[1],
        decoded[2],
        decoded[3],
        decoded[4],
        decoded[5],
        decoded[6],
        decoded[7],
        decoded[8],
        decoded[9],
        decoded[10],
        decoded[11],
        decoded[12],
        decoded[13],
        decoded[14],
        decoded[15],
        decoded[16],
        decoded[17],
        decoded[18],
        decoded[19],
        decoded[20],
    ];
    assert(hash@ =~= decoded@.subrange(1, 21));
    let head_chars = chars_range(chars.as_slice(), 0, colon);
    let prefix = string_from_chars(head_chars.as_slice());
    proof {
        assert(prefix@ =~= addr@.take(colon as int));
        let d = decoded@;
        assert(d.take(21) =~= head@);
        assert(d.subrange(21, 25) == blake3_digest(d.take(21))@.take(4));
    }
    Ok(DecodedAddress { prefix, version: decoded[0], hash })
}

/// Decoding the address of a 32-byte public key under a prefix without `':'`
/// gives back that prefix, version 1, and the first 20 bytes of the key's
/// BLAKE3 digest.
pub proof fn lemma_address_roundtrip(pk: Seq<u8>, prefix: Seq<char>)
    requires
        pk.len() == 32,
        forall|i: int| 0 <= i < prefix.len() ==> prefix[i] != ':',
    ensures
        decode_address_spec(address_text(pk, prefix)) == Ok::<(Seq<char>, u8, Seq<u8>), Seq<char>>(
            (prefix, VERSION_V1, blake3_digest(pk)@.take(20)),
        ),
{
    let payload = address_payload(pk);
    let body = base58_encode_spec(payload);
    let text = address_text(pk, prefix);
    lemma_find_char_after(prefix, ':', body);
    assert(text.skip(prefix.len() + 1 as int) =~= body);
    assert(text.take(prefix.len() as int) =~= prefix);
    assert(payload[0] == VERSION_V1);
    lemma_base58_roundtrip(payload);
    let v = versioned_hash(pk);
    assert(payload.len() == 25);
    assert(payload.take(21) =~= v);
    assert(payload.subrange(21, 25) =~= blake3_digest(v)@.take(4));
    assert(payload.subrange(1, 21) =~= blake3_digest(pk)@.take(20));
}

} // verus!
