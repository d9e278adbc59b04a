//! Subresource-integrity strings, as the npm registry publishes them.
//!
//! `dist.integrity` is `sha512-<base64>`; packages published before 2017 carry
//! only `dist.shasum`, a hex sha1. Both are verified against the tarball bytes
//! *before* anything derived from them enters the CAS, because BLAKE3 addressing
//! answers "are these the bytes I stored", not "are these the bytes npm
//! published".

use vstd::prelude::*;
use crate::{hash, text};

verus! {

// ---------------------------------------------------------------------------
// SHA.

/// The SHA-512 digest of some bytes.
pub uninterp spec fn sha512_digest(bytes: Seq<u8>) -> Seq<u8>;

/// The SHA-1 digest of some bytes.
pub uninterp spec fn sha1_digest(bytes: Seq<u8>) -> Seq<u8>;

/// `Digest::digest` of `sha2::Sha512`: the 64 bytes of SHA-512, which depend on
/// the given bytes alone.
#[verifier::external_body]
fn sha512(bytes: &[u8]) -> (r: Vec<u8>)
    ensures
        r@ == sha512_digest(bytes@),
        r@.len() == 64,
{
    <sha2::Sha512 as sha2::Digest>::digest(bytes).to_vec()
}

/// `Digest::digest` of `sha1::Sha1`: the 20 bytes of SHA-1, which depend on the
/// given bytes alone.
#[verifier::external_body]
fn sha1(bytes: &[u8]) -> (r: Vec<u8>)
    ensures
        r@ == sha1_digest(bytes@),
        r@.len() == 20,
{
    <sha1::Sha1 as sha1::Digest>::digest(bytes).to_vec()
}

// ---------------------------------------------------------------------------
// Base64.

/// The character for six bits.
pub open spec fn base64_char(v: nat) -> char {
    if v < 26 {
        ('A' as int + v) as char
    } else if v < 52 {
        ('a' as int + (v - 26)) as char
    } else if v < 62 {
        ('0' as int + (v - 52)) as char
    } else if v == 62 {
        '+'
    } else {
        '/'
    }
}

/// The six bits that a character stands for.
pub open spec fn base64_value(c: char) -> Option<nat> {
    if 'A' <= c && c <= 'Z' {
        Some((c as int - 'A' as int) as nat)
    } else if 'a' <= c && c <= 'z' {
        Some((c as int - 'a' as int + 26) as nat)
    } else if '0' <= c && c <= '9' {
        Some((c as int - '0' as int + 52) as nat)
    } else if c == '+' {
        Some(62)
    } else if c == '/' {
        Some(63)
    } else {
        None
    }
}

/// Base64 with padding: three bytes become four characters.
pub open spec fn base64(bytes: Seq<u8>) -> Seq<char>
    decreases bytes.len(),
{
    if bytes.len() == 0 {
        Seq::empty()
    } else {
        let b0 = bytes[0] as nat;
        let b1 = if bytes.len() > 1 {
            bytes[1] as nat
        } else {
            0
        };
        let b2 = if bytes.len() > 2 {
            bytes[2] as nat
        } else {
            0
        };
        seq![
            base64_char(b0 / 4),
            base64_char((b0 % 4) * 16 + b1 / 16),
            if bytes.len() > 1 {
                base64_char((b1 % 16) * 4 + b2 / 64)
            } else {
                '='
            },
            if bytes.len() > 2 {
                base64_char(b2 % 64)
            } else {
                '='
            },
        ] + base64(
            if bytes.len() > 3 {
                bytes.skip(3)
            } else {
                Seq::empty()
            },
        )
    }
}

/// What a decoder has written, and the bits that it holds back.
#[verifier::ext_equal]
pub struct Unpacked {
    pub out: Seq<u8>,
    pub rest: nat,
    pub bits: nat,
}

/// Two to the power of a few bits.
pub open spec fn power(bits: nat) -> nat {
    if bits == 0 {
        1
    } else if bits == 2 {
        4
    } else {
        16
    }
}

/// Six more bits: a byte is written as soon as there are eight.
pub open spec fn unpack_one(u: Unpacked, value: nat) -> Unpacked {
    let packed = u.rest * 64 + value;
    if u.bits >= 2 {
        let left = (u.bits - 2) as nat;
        Unpacked {
            out: u.out.push((packed / power(left)) as u8),
            rest: packed % power(left),
            bits: left,
        }
    } else {
        Unpacked { out: u.out, rest: packed, bits: u.bits + 6 }
    }
}

/// The characters up to the padding, six bits each, from the left.
pub open spec fn unpack(u: Unpacked, s: Seq<char>) -> Option<Unpacked>
    decreases s.len(),
{
    if s.len() == 0 || s[0] == '=' {
        Some(u)
    } else {
        match base64_value(s[0]) {
            Some(value) => unpack(unpack_one(u, value), s.skip(1)),
            None => None,
        }
    }
}

/// Nothing unpacked yet.
pub open spec fn unpack_start() -> Unpacked {
    Unpacked { out: Seq::empty(), rest: 0, bits: 0 }
}

/// The bytes that a base64 text stands for. Padding ends it, and bits that
/// make up no byte are dropped.
pub open spec fn unbase64(s: Seq<char>) -> Option<Seq<u8>> {
    match unpack(unpack_start(), s) {
        Some(u) => Some(u.out),
        None => None,
    }
}

fn write_sextet(v: u8) -> (c: char)
    requires
        v < 64,
    ensures
        c == base64_char(v as nat),
{
    if v < 26 {
        (65u8 + v) as char
    } else if v < 52 {
        (97u8 + (v - 26)) as char
    } else if v < 62 {
        (48u8 + (v - 52)) as char
    } else if v == 62 {
        '+'
    } else {
        '/'
    }
}

fn read_sextet(c: char) -> (r: Option<u8>)
    ensures
        match r {
            Some(v) => base64_value(c) == Some(v as nat) && v < 64,
            None => base64_value(c) is None,
        },
{
    let code: u32 = c as u32;
    if 'A' <= c && c <= 'Z' {
        Some((code - 65) as u8)
    } else if 'a' <= c && c <= 'z' {
        Some((code - 97 + 26) as u8)
    } else if '0' <= c && c <= '9' {
        Some((code - 48 + 52) as u8)
    } else if c == '+' {
        Some(62)
    } else if c == '/' {
        Some(63)
    } else {
        None
    }
}

/// Encodes bytes in base64, with padding.
pub fn base64_encode(bytes: &[u8]) -> (r: String)
    ensures
        r@ == base64(bytes@),
{
    let mut out: Vec<char> = Vec::new();
    let mut at: usize = 0;
    assert(bytes@.skip(0) =~= bytes@);
    assert(out@ + base64(bytes@) =~= base64(bytes@));
    while at < bytes.len()
        invariant
            at <= bytes@.len(),
            out@ + base64(bytes@.skip(at as int)) == base64(bytes@),
        decreases bytes@.len() - at,
    {
        let ghost chunk = bytes@.skip(at as int);
        let ghost done = out@;
        let left: usize = bytes.len() - at;
        let b0: u8 = bytes[at];
        let b1: u8 = if left > 1 {
            bytes[at + 1]
        } else {
            0
        };
        let b2: u8 = if left > 2 {
            bytes[at + 2]
        } else {
            0
        };
        assert(b0 / 4 < 64 && (b0 % 4) * 16 + b1 / 16 < 64 && (b1 % 16) * 4 + b2 / 64 < 64 && b2
            % 64 < 64);
        out.push(write_sextet(b0 / 4));
        out.push(write_sextet((b0 % 4) * 16 + b1 / 16));
        if left > 1 {
            out.push(write_sextet((b1 % 16) * 4 + b2 / 64));
        } else {
            out.push('=');
        }
        if left > 2 {
            out.push(write_sextet(b2 % 64));
        } else {
            out.push('=');
        }
        let ghost four = out@.skip(done.len() as int);
        at = if left > 3 {
            at + 3
        } else {
            bytes.len()
        };
        proof {
            let next = if chunk.len() > 3 {
                chunk.skip(3)
            } else {
                Seq::empty()
            };
            assert(bytes@.skip(at as int) =~= next);
            assert(base64(chunk) =~= four + base64(next));
            assert(out@ =~= done + four);
            assert(out@ + base64(next) =~= done + base64(chunk));
        }
    }
    assert(bytes@.skip(at as int) =~= Seq::empty());
    assert(out@ + Seq::empty() =~= out@);
    text::string_of(&out)
}

/// Decodes base64, as far as its padding.
pub fn base64_decode(text: &str) -> (r: Option<Vec<u8>>)
    ensures
        r is Some <==> unbase64(text@) is Some,
        r matches Some(bytes) ==> unbase64(text@) == Some(bytes@),
{
    let chars = text::chars_of(text);
    decode_chars(&chars)
}

fn decode_chars(s: &[char]) -> (r: Option<Vec<u8>>)
    ensures
        r is Some <==> unbase64(s@) is Some,
        r matches Some(bytes) ==> unbase64(s@) == Some(bytes@),
{
    let mut out: Vec<u8> = Vec::new();
    let mut rest: u32 = 0;
    let mut bits: u32 = 0;
    let mut i: usize = 0;
    assert(s@.skip(0) =~= s@);
    assert((Unpacked { out: out@, rest: 0, bits: 0 }) =~= unpack_start());
    while i < s.len()
        invariant_except_break
            i <= s@.len(),
            bits == 0 && rest == 0 || bits == 2 && rest < 4 || bits == 4 && rest < 16 || bits == 6
                && rest < 64,
            unpack(unpack_start(), s@) == unpack(
                (Unpacked { out: out@, rest: rest as nat, bits: bits as nat }),
                s@.skip(i as int),
            ),
        ensures
            unpack(unpack_start(), s@) == Some(
                (Unpacked { out: out@, rest: rest as nat, bits: bits as nat }),
            ),
        decreases s@.len() - i,
    {
        let ghost u = Unpacked { out: out@, rest: rest as nat, bits: bits as nat };
        assert(s@.skip(i as int)[0] == s@[i as int]);
        if s[i] == '=' {
            break;
        }
        let value: u8 = match read_sextet(s[i]) {
            Some(value) => value,
            None => {
                return None;
            },
        };
        let packed: u32 = rest * 64 + value as u32;
        if bits == 0 {
            rest = packed;
            bits = 6;
        } else if bits == 2 {
            out.push(packed as u8);
            rest = 0;
            bits = 0;
        } else if bits == 4 {
            out.push((packed / 4) as u8);
            rest = packed % 4;
            bits = 2;
        } else {
            out.push((packed / 16) as u8);
            rest = packed % 16;
            bits = 4;
        }
        proof {
            assert(unpack_one(u, value as nat) =~= (Unpacked {
                out: out@,
                rest: rest as nat,
                bits: bits as nat,
            }));
            assert(s@.skip(i as int).skip(1) =~= s@.skip(i + 1));
        }
        i += 1;
    }
    Some(out)
}

proof fn lemma_sextet(v: nat)
    requires
        v < 64,
    ensures
        base64_value(base64_char(v)) == Some(v),
        base64_char(v) != '=',
        base64_char(v) != '-',
        !text::is_space(base64_char(v)),
{
}

proof fn lemma_unpack_base64(u: Unpacked, bytes: Seq<u8>)
    requires
        u.rest == 0 && u.bits == 0,
    ensures
        unpack(u, base64(bytes)) matches Some(found) && found.out == u.out + bytes,
    decreases bytes.len(),
{
    let s = base64(bytes);
    if bytes.len() == 0 {
        assert(bytes =~= Seq::empty());
        assert(u.out + bytes =~= u.out);
    } else {
        let b0 = bytes[0] as nat;
        let b1 = if bytes.len() > 1 {
            bytes[1] as nat
        } else {
            0
        };
        let b2 = if bytes.len() > 2 {
            bytes[2] as nat
        } else {
            0
        };
        let v0 = b0 / 4;
        let v1 = (b0 % 4) * 16 + b1 / 16;
        let v2 = (b1 % 16) * 4 + b2 / 64;
        let v3 = b2 % 64;
        assert(v0 < 64 && v1 < 64 && v2 < 64 && v3 < 64);
        lemma_sextet(v0);
        lemma_sextet(v1);
        lemma_sextet(v2);
        lemma_sextet(v3);
        let next = if bytes.len() > 3 {
            bytes.skip(3)
        } else {
            Seq::empty()
        };
        let s1 = s.skip(1);
        let s2 = s1.skip(1);
        let s3 = s2.skip(1);
        let s4 = s3.skip(1);
        assert(s[0] == base64_char(v0));
        assert(s1[0] == base64_char(v1));
        assert(s4 =~= base64(next));
        let u1 = unpack_one(u, v0);
        assert(u1 =~= Unpacked { out: u.out, rest: v0, bits: 6 });
        let u2 = unpack_one(u1, v1);
        let packed1 = v0 * 64 + v1;
        assert(packed1 / 16 == b0);
        assert(packed1 % 16 == b1 / 16);
        assert(u2 =~= Unpacked { out: u.out.push(bytes[0]), rest: b1 / 16, bits: 4 });
        assert(unpack(u, s) == unpack(u1, s1));
        assert(unpack(u1, s1) == unpack(u2, s2));
        if bytes.len() == 1 {
            assert(s2[0] == '=');
            assert(u.out.push(bytes[0]) =~= u.out + bytes);
        } else {
            assert(s2[0] == base64_char(v2));
            let u3 = unpack_one(u2, v2);
            let packed2 = (b1 / 16) * 64 + v2;
            assert(packed2 / 4 == b1);
            assert(packed2 % 4 == b2 / 64);
            assert(u3 =~= Unpacked {
                out: u.out.push(bytes[0]).push(bytes[1]),
                rest: b2 / 64,
                bits: 2,
            });
            assert(unpack(u2, s2) == unpack(u3, s3));
            if bytes.len() == 2 {
                assert(s3[0] == '=');
                assert(u.out.push(bytes[0]).push(bytes[1]) =~= u.out + bytes);
            } else {
                assert(s3[0] == base64_char(v3));
                let u4 = unpack_one(u3, v3);
                let packed3 = (b2 / 64) * 64 + v3;
                assert(packed3 == b2);
                let three = u.out.push(bytes[0]).push(bytes[1]).push(bytes[2]);
                assert(u4 =~= Unpacked { out: three, rest: 0, bits: 0 });
                assert(unpack(u3, s3) == unpack(u4, s4));
                lemma_unpack_base64(u4, next);
                assert(three + next =~= u.out + bytes);
            }
        }
    }
}

/// Decoding undoes encoding.
pub proof fn base64_reads_back(bytes: Seq<u8>)
    ensures
        unbase64(base64(bytes)) == Some(bytes),
{
    lemma_unpack_base64(unpack_start(), bytes);
    assert(Seq::<u8>::empty() + bytes =~= bytes);
}

/// Base64 holds neither white space nor hyphens.
proof fn lemma_base64_clean(bytes: Seq<u8>)
    ensures
        forall|i: int|
            0 <= i < base64(bytes).len() ==> !text::is_space(#[trigger] base64(bytes)[i])
                && base64(bytes)[i] != '-',
    decreases bytes.len(),
{
    let s = base64(bytes);
    if bytes.len() > 0 {
        let b0 = bytes[0] as nat;
        let b1 = if bytes.len() > 1 {
            bytes[1] as nat
        } else {
            0
        };
        let b2 = if bytes.len() > 2 {
            bytes[2] as nat
        } else {
            0
        };
        lemma_sextet(b0 / 4);
        lemma_sextet((b0 % 4) * 16 + b1 / 16);
        lemma_sextet((b1 % 16) * 4 + b2 / 64);
        lemma_sextet(b2 % 64);
        let next = if bytes.len() > 3 {
            bytes.skip(3)
        } else {
            Seq::empty()
        };
        lemma_base64_clean(next);
        assert forall|i: int| 0 <= i < s.len() implies !text::is_space(#[trigger] s[i]) && s[i]
            != '-' by {
            if i >= 4 {
                assert(s[i] == base64(next)[i - 4]);
            }
        }
    }
}

// ---------------------------------------------------------------------------
// Integrity strings.

/// Why an integrity was rejected.
#[derive(PartialEq, Eq, Debug)]
pub enum IntegrityError {
    Unsupported(String),
    Mismatch { expected: String, actual: String },
}

/// The message for a rejected integrity.
pub open spec fn integrity_error_text(e: IntegrityError) -> Seq<char> {
    match e {
        IntegrityError::Unsupported(given) => text::quoted(given@)
            + " is not a supported integrity string"@,
        IntegrityError::Mismatch { expected, actual } => "integrity mismatch: expected "@
            + expected@ + ", got "@ + actual@,
    }
}

impl IntegrityError {
    /// The message shown to the user.
    pub fn to_string(&self) -> (r: String)
        ensures
            r@ == integrity_error_text(*self),
    {
        match self {
            IntegrityError::Unsupported(given) => text::concat(
                text::quote(given.as_str()),
                " is not a supported integrity string",
            ),
            IntegrityError::Mismatch { expected, actual } => {
                let mut out = text::chars_of("integrity mismatch: expected ");
                text::append_str(&mut out, expected.as_str());
                text::append_str(&mut out, ", got ");
                text::append_str(&mut out, actual.as_str());
                text::string_of(&out)
            },
        }
    }
}

/// A supported digest algorithm.
#[derive(Clone, Copy, PartialEq, Eq, Debug, Structural)]
pub enum Algorithm {
    Sha512,
    Sha1,
}

/// How an algorithm is written.
pub open spec fn algorithm_name(algorithm: Algorithm) -> Seq<char> {
    match algorithm {
        Algorithm::Sha512 => "sha512"@,
        Algorithm::Sha1 => "sha1"@,
    }
}

/// The digest of some bytes by an algorithm.
pub open spec fn digest_by(algorithm: Algorithm, bytes: Seq<u8>) -> Seq<u8> {
    match algorithm {
        Algorithm::Sha512 => sha512_digest(bytes),
        Algorithm::Sha1 => sha1_digest(bytes),
    }
}

/// How many bytes a digest by an algorithm has.
pub open spec fn digest_len(algorithm: Algorithm) -> nat {
    match algorithm {
        Algorithm::Sha512 => 64,
        Algorithm::Sha1 => 20,
    }
}

impl Algorithm {
    /// How the algorithm is written.
    pub fn name(self) -> (r: &'static str)
        ensures
            r@ == algorithm_name(self),
    {
        match self {
            Algorithm::Sha512 => "sha512",
            Algorithm::Sha1 => "sha1",
        }
    }

    /// The digest of some bytes.
    pub fn digest(self, bytes: &[u8]) -> (r: Vec<u8>)
        ensures
            r@ == digest_by(self, bytes@),
            r@.len() == digest_len(self),
    {
        match self {
            Algorithm::Sha512 => sha512(bytes),
            Algorithm::Sha1 => sha1(bytes),
        }
    }
}

/// An algorithm and the digest that content must have by it.
#[derive(PartialEq, Eq, Debug)]
pub struct Integrity {
    algorithm: Algorithm,
    digest: Vec<u8>,
}

/// What an `Integrity` stands for.
#[verifier::ext_equal]
pub struct IntegrityModel {
    pub algorithm: Algorithm,
    pub digest: Seq<u8>,
}

impl View for Integrity {
    type V = IntegrityModel;

    closed spec fn view(&self) -> IntegrityModel {
        IntegrityModel { algorithm: self.algorithm, digest: self.digest@ }
    }
}

impl Clone for Integrity {
    fn clone(&self) -> (r: Self)
        ensures
            r@ == self@,
    {
        let mut digest: Vec<u8> = Vec::new();
        digest.extend_from_slice(&self.digest);
        assert(digest@ =~= self.digest@);
        Integrity { algorithm: self.algorithm, digest }
    }
}

/// An integrity as it is written.
pub open spec fn integrity_text(i: IntegrityModel) -> Seq<char> {
    algorithm_name(i.algorithm) + "-"@ + base64(i.digest)
}

/// The strongest of several entries: the first sha512, or else the first sha1.
/// Other algorithms are skipped, which beats pretending to verify them; a
/// supported entry that cannot be decoded spoils everything.
pub open spec fn strongest(
    entries: Seq<Seq<char>>,
    best: Option<IntegrityModel>,
) -> Option<IntegrityModel>
    decreases entries.len(),
{
    if entries.len() == 0 {
        best
    } else {
        match text::halves(entries[0], '-') {
            Some((name, encoded)) => if name == "sha512"@ {
                match unbase64(encoded) {
                    Some(digest) => Some(IntegrityModel { algorithm: Algorithm::Sha512, digest }),
                    None => None,
                }
            } else if name == "sha1"@ {
                match unbase64(encoded) {
                    Some(digest) => strongest(
                        entries.skip(1),
                        if best is Some {
                            best
                        } else {
                            Some(IntegrityModel { algorithm: Algorithm::Sha1, digest })
                        },
                    ),
                    None => None,
                }
            } else {
                strongest(entries.skip(1), best)
            },
            None => strongest(entries.skip(1), best),
        }
    }
}

/// The integrity that a text spells: one entry, or the strongest of several.
pub open spec fn integrity_of(s: Seq<char>) -> Option<IntegrityModel> {
    strongest(text::words(s), None)
}

/// The integrity that a legacy hex `dist.shasum` spells.
pub open spec fn integrity_of_shasum(s: Seq<char>) -> Option<IntegrityModel> {
    if s.len() == 40 && hash::utf8_len(s) == 40 {
        match hash::unhex(s) {
            Some(digest) => Some(IntegrityModel { algorithm: Algorithm::Sha1, digest }),
            None => None,
        }
    } else {
        None
    }
}

fn same_bytes(a: &Vec<u8>, b: &Vec<u8>) -> (r: bool)
    ensures
        r == (a@ == b@),
{
    if a.len() != b.len() {
        return false;
    }
    let mut i: usize = 0;
    while i < a.len()
        invariant
            a@.len() == b@.len(),
            i <= a@.len(),
            forall|j: int| 0 <= j < i ==> a@[j] == b@[j],
        decreases a@.len() - i,
    {
        if a[i] != b[i] {
            return false;
        }
        i += 1;
    }
    assert(a@ =~= b@);
    true
}

impl Integrity {
    /// The integrity that some bytes have.
    pub fn of(algorithm: Algorithm, bytes: &[u8]) -> (r: Self)
        ensures
            r@ == (IntegrityModel { algorithm, digest: digest_by(algorithm, bytes@) }),
            r@.digest.len() == digest_len(algorithm),
    {
        Integrity { algorithm, digest: algorithm.digest(bytes) }
    }

    /// The algorithm.
    pub fn algorithm(&self) -> (r: Algorithm)
        ensures
            r == self@.algorithm,
    {
        self.algorithm
    }

    /// The digest.
    pub fn digest(&self) -> (r: &Vec<u8>)
        ensures
            r@ == self@.digest,
    {
        &self.digest
    }

    /// Whether two integrities are the same.
    pub fn same(&self, other: &Self) -> (r: bool)
        ensures
            r == (self@ == other@),
    {
        self.algorithm == other.algorithm && same_bytes(&self.digest, &other.digest)
    }

    /// Parses one entry, or the strongest of several space-separated entries.
    pub fn parse(text: &str) -> (r: Result<Self, IntegrityError>)
        ensures
            match r {
                Ok(integrity) => integrity_of(text@) == Some(integrity@),
                Err(IntegrityError::Unsupported(given)) => integrity_of(text@) is None && given@
                    == text@,
                Err(_) => false,
            },
    {
        let chars = text::chars_of(text);
        let entries = text::split_whitespace(&chars);
        let ghost all = text::words(chars@);
        let mut best: Option<Integrity> = None;
        let mut i: usize = 0;
        assert(all.skip(0) =~= all);
        while i < entries.len()
            invariant
                i <= entries@.len(),
                text::views(entries@) == all,
                all == text::words(text@),
                strongest(all, None) == strongest(all.skip(i as int), text::view_of(best)),
            decreases entries@.len() - i,
        {
            proof {
                assert(all.skip(i as int)[0] == entries@[i as int]@);
                assert(all.skip(i as int).skip(1) =~= all.skip(i + 1));
            }
            if let Some((name, encoded)) = text::split_once(entries[i], '-') {
                if text::spells(name, "sha512") {
                    return match decode_chars(encoded) {
                        Some(digest) => Ok(Integrity { algorithm: Algorithm::Sha512, digest }),
                        None => Err(IntegrityError::Unsupported(text.to_string())),
                    };
                }
                if text::spells(name, "sha1") {
                    match decode_chars(encoded) {
                        Some(digest) => {
                            if best.is_none() {
                                best = Some(Integrity { algorithm: Algorithm::Sha1, digest });
                            }
                        },
                        None => {
                            return Err(IntegrityError::Unsupported(text.to_string()));
                        },
                    }
                }
            }
            i += 1;
        }
        assert(all.skip(i as int) =~= Seq::empty());
        match best {
            Some(integrity) => Ok(integrity),
            None => Err(IntegrityError::Unsupported(text.to_string())),
        }
    }

    /// Builds an integrity from a legacy hex `dist.shasum`.
    pub fn from_shasum(given: &str) -> (r: Result<Self, IntegrityError>)
        ensures
            match r {
                Ok(integrity) => integrity_of_shasum(given@) == Some(integrity@),
                Err(IntegrityError::Unsupported(text)) => integrity_of_shasum(given@) is None
                    && text@ == given@,
                Err(_) => false,
            },
    {
        let chars = text::chars_of(given);
        if given.as_bytes().len() == 40 && chars.len() == 40 {
            if let Some(digest) = hash::parse_hex_bytes(&chars) {
                return Ok(Integrity { algorithm: Algorithm::Sha1, digest });
            }
        }
        Err(IntegrityError::Unsupported(given.to_string()))
    }

    /// Checks that some bytes have this integrity.
    pub fn verify(&self, bytes: &[u8]) -> (r: Result<(), IntegrityError>)
        ensures
            match r {
                Ok(_) => digest_by(self@.algorithm, bytes@) == self@.digest,
                Err(IntegrityError::Mismatch { expected, actual }) => {
                    &&& digest_by(self@.algorithm, bytes@) != self@.digest
                    &&& expected@ == integrity_text(self@)
                    &&& actual@ == integrity_text(
                        (IntegrityModel {
                            algorithm: self@.algorithm,
                            digest: digest_by(self@.algorithm, bytes@),
                        }),
                    )
                },
                Err(_) => false,
            },
    {
        let actual = Integrity::of(self.algorithm, bytes);
        if actual.same(self) {
            Ok(())
        } else {
            Err(
                IntegrityError::Mismatch {
                    expected: self.to_string(),
                    actual: actual.to_string(),
                },
            )
        }
    }

    /// The integrity as it is written.
    pub fn to_string(&self) -> (r: String)
        ensures
            r@ == integrity_text(self@),
    {
        let mut out = text::chars_of(self.algorithm.name());
        text::append_str(&mut out, "-");
        let encoded = base64_encode(&self.digest);
        text::append_str(&mut out, encoded.as_str());
        text::string_of(&out)
    }
}

/// The text of an integrity is one word with the algorithm before its only
/// hyphen, and is not empty.
pub proof fn lemma_integrity_text(i: IntegrityModel)
    ensures
        text::words(integrity_text(i)) == seq![integrity_text(i)],
        text::halves(integrity_text(i), '-') == Some((algorithm_name(i.algorithm), base64(i.digest))),
        forall|k: int|
            0 <= k < integrity_text(i).len() ==> !text::is_space(#[trigger] integrity_text(i)[k]),
        integrity_text(i).len() > 0,
{
    reveal_strlit("sha512");
    reveal_strlit("sha1");
    reveal_strlit("-");
    let name = algorithm_name(i.algorithm);
    let s = integrity_text(i);
    lemma_base64_clean(i.digest);
    assert(!name.contains('-'));
    assert(s =~= name + (seq!['-'] + base64(i.digest)));
    text::lemma_halves(name, base64(i.digest), '-');
    assert forall|k: int| 0 <= k < s.len() implies !text::is_space(#[trigger] s[k]) by {
        if k > name.len() {
            assert(s[k] == base64(i.digest)[k - name.len() - 1]);
        }
    }
    text::lemma_one_word(s);
}

/// Parsing undoes rendering.
pub proof fn integrity_reads_back(i: IntegrityModel)
    ensures
        integrity_of(integrity_text(i)) == Some(i),
{
    lemma_integrity_text(i);
    base64_reads_back(i.digest);
    let entries = seq![integrity_text(i)];
    assert(entries.skip(1) =~= Seq::empty());
    reveal_strlit("sha512");
    reveal_strlit("sha1");
    assert("sha1"@.len() != "sha512"@.len());
    reveal_with_fuel(strongest, 2);
}

/// Wherever a sha512 entry stands among readable entries, it is the one that
/// counts; a weaker one never wins over it.
pub proof fn sha512_is_preferred(
    weak: IntegrityModel,
    strong: IntegrityModel,
    rest: Seq<Seq<char>>,
)
    requires
        weak.algorithm == Algorithm::Sha1,
        strong.algorithm == Algorithm::Sha512,
    ensures
        strongest(seq![integrity_text(weak), integrity_text(strong)] + rest, None) == Some(strong),
        strongest(seq![integrity_text(strong), integrity_text(weak)] + rest, None) == Some(strong),
{
    lemma_integrity_text(weak);
    lemma_integrity_text(strong);
    base64_reads_back(weak.digest);
    base64_reads_back(strong.digest);
    reveal_strlit("sha512");
    reveal_strlit("sha1");
    assert("sha1"@.len() != "sha512"@.len());
    let a = seq![integrity_text(weak), integrity_text(strong)] + rest;
    let b = seq![integrity_text(strong), integrity_text(weak)] + rest;
    assert(a[0] == integrity_text(weak));
    assert(a.skip(1)[0] == integrity_text(strong));
    assert(b[0] == integrity_text(strong));
    reveal_with_fuel(strongest, 3);
}

/// A shasum is the digest in hexadecimal, and is checked as a sha1.
pub proof fn shasums_are_sha1_digests(digest: Seq<u8>)
    requires
        digest.len() == 20,
    ensures
        integrity_of_shasum(hash::hex(digest)) == Some(
            IntegrityModel { algorithm: Algorithm::Sha1, digest },
        ),
        digest_by(Algorithm::Sha1, digest) == sha1_digest(digest),
        digest_by(Algorithm::Sha512, digest) == sha512_digest(digest),
{
    hash::hex_reads_back(digest);
    hash::lemma_hex_plain(digest);
    hash::lemma_ascii_len(hash::hex(digest));
}

} // verus!
