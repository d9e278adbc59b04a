//! BLAKE3 content hashing.
//!
//! Every identity (CAS keys, memo keys, "did this change?") is a
//! [`ContentHash`] over bytes. Nothing in this module, or anything built on it,
//! looks at a timestamp: mtimes are unreliable across git checkouts, CI runners,
//! and Docker layers, so they are not an input to any decision.

use vstd::prelude::*;
use vstd::bytes::u64_to_le_bytes;
use crate::order::{Order, Rank, Ranked};
use crate::{order, text};

verus! {

/// Length of a hash in bytes.
pub const HASH_BYTES: usize = 32;

/// Length of a hash in hex.
pub const HASH_HEX_LEN: usize = 64;

// ---------------------------------------------------------------------------
// BLAKE3.

/// The BLAKE3 digest of some bytes, as `blake3::hash` computes it.
pub uninterp spec fn blake3_digest(bytes: Seq<u8>) -> Seq<u8>;

/// The bytes that an incremental BLAKE3 hasher has been given so far.
pub uninterp spec fn absorbed(hasher: blake3::Hasher) -> Seq<u8>;

/// The incremental hasher of the `blake3` crate.
#[verifier::external_type_specification]
#[verifier::external_body]
pub struct ExHasher(blake3::Hasher);

/// `blake3::hash`: the digest of the bytes, which depends on nothing else.
#[verifier::external_body]
fn blake3_hash(bytes: &[u8]) -> (r: [u8; 32])
    ensures
        r@ == blake3_digest(bytes@),
{
    *blake3::hash(bytes).as_bytes()
}

/// `blake3::Hasher::new`: a hasher that was given nothing yet.
#[verifier::external_body]
fn blake3_start() -> (r: blake3::Hasher)
    ensures
        absorbed(r) == Seq::<u8>::empty(),
{
    blake3::Hasher::new()
}

/// `blake3::Hasher::update`: gives the hasher more bytes, after those that it
/// already has.
#[verifier::external_body]
fn blake3_update(hasher: &mut blake3::Hasher, bytes: &[u8])
    ensures
        absorbed(*final(hasher)) == absorbed(*old(hasher)) + bytes@,
{
    hasher.update(bytes);
}

/// `blake3::Hasher::finalize`: the digest of all bytes that the hasher was
/// given, the same as that of `blake3::hash` on them at once. It leaves the
/// hasher as it is. (It panics on a hasher with an input offset, which only the
/// crate's `hazmat` module makes; every hasher here comes from `Hasher::new`.)
#[verifier::external_body]
fn blake3_finish(hasher: &blake3::Hasher) -> (r: [u8; 32])
    ensures
        r@ == blake3_digest(absorbed(*hasher)),
{
    *hasher.finalize().as_bytes()
}

// ---------------------------------------------------------------------------
// Hashes.

/// A BLAKE3 digest of some content.
#[derive(Clone, Copy, PartialEq, Eq, PartialOrd, Ord, Hash, Debug)]
pub struct ContentHash([u8; 32]);

impl View for ContentHash {
    type V = Seq<u8>;

    closed spec fn view(&self) -> Seq<u8> {
        self.0@
    }
}

impl Rank for Seq<u8> {
    open spec fn rank(self) -> Seq<int> {
        self.map_values(|b: u8| b as int)
    }
}

impl Ranked for ContentHash {
    fn compare(&self, other: &Self) -> (r: Order) {
        let ghost a = self@.rank();
        let ghost b = other@.rank();
        let mut i: usize = 0;
        assert(a.skip(0) =~= a);
        assert(b.skip(0) =~= b);
        while i < 32
            invariant
                i <= 32,
                a == self@.rank(),
                b == other@.rank(),
                self@.len() == 32,
                other@.len() == 32,
                order::precedes(a, b) == order::precedes(a.skip(i as int), b.skip(i as int)),
                order::precedes(b, a) == order::precedes(b.skip(i as int), a.skip(i as int)),
                forall|j: int| 0 <= j < i ==> self@[j] == other@[j],
            decreases 32 - i,
        {
            assert(a.skip(i as int)[0] == self@[i as int]);
            assert(b.skip(i as int)[0] == other@[i as int]);
            if self.0[i] < other.0[i] {
                return Order::Less;
            }
            if other.0[i] < self.0[i] {
                return Order::Greater;
            }
            assert(a.skip(i as int).skip(1) =~= a.skip(i + 1));
            assert(b.skip(i as int).skip(1) =~= b.skip(i + 1));
            i += 1;
        }
        assert(self@ =~= other@);
        Order::Equal
    }
}

/// Different hashes have different ranks.
pub proof fn lemma_bytes_rank_injective(a: Seq<u8>, b: Seq<u8>)
    ensures
        a.rank() == b.rank() <==> a == b,
{
    if a.rank() == b.rank() {
        assert(a.rank().len() == a.len());
        assert(b.rank().len() == b.len());
        assert forall|i: int| 0 <= i < a.len() implies a[i] == b[i] by {
            assert(a.rank()[i] == b.rank()[i]);
        }
        assert(a =~= b);
    }
}

/// Why a text is not a hash.
#[derive(PartialEq, Eq, Debug)]
pub enum HashParseError {
    Length(usize),
    Digit,
}

impl HashParseError {
    /// The message shown to the user.
    pub fn to_string(&self) -> (r: String)
        ensures
            r@ == match self {
                HashParseError::Length(found) => "expected 64 hex characters, got "@
                    + text::decimal(*found as nat),
                HashParseError::Digit => "value is not lowercase hex"@,
            },
    {
        match self {
            HashParseError::Length(found) => {
                let mut out = text::chars_of("expected 64 hex characters, got ");
                text::append(&mut out, &text::render_decimal(*found as u64));
                text::string_of(&out)
            },
            HashParseError::Digit => "value is not lowercase hex".to_string(),
        }
    }
}

/// The lowercase hex digit for a number below sixteen.
pub open spec fn hex_char(d: nat) -> char {
    if d < 10 {
        ('0' as int + d) as char
    } else {
        ('a' as int + (d - 10)) as char
    }
}

/// Two hex digits for each byte.
pub open spec fn hex(bytes: Seq<u8>) -> Seq<char>
    decreases bytes.len(),
{
    if bytes.len() == 0 {
        Seq::empty()
    } else {
        hex(bytes.drop_last()).push(hex_char((bytes.last() / 16) as nat)).push(
            hex_char((bytes.last() % 16) as nat),
        )
    }
}

/// The number that a hex digit stands for, in either case.
pub open spec fn hex_value(c: char) -> Option<nat> {
    if '0' <= c && c <= '9' {
        Some((c as int - '0' as int) as nat)
    } else if 'a' <= c && c <= 'f' {
        Some((c as int - 'a' as int + 10) as nat)
    } else if 'A' <= c && c <= 'F' {
        Some((c as int - 'A' as int + 10) as nat)
    } else {
        None
    }
}

/// The byte that two hex digits spell.
pub open spec fn pair_value(high: char, low: char) -> Option<u8> {
    match (hex_value(high), hex_value(low)) {
        (Some(h), Some(l)) => Some((h * 16 + l) as u8),
        _ => None,
    }
}

/// The bytes that pairs of characters spell in hex.
pub open spec fn unhex(s: Seq<char>) -> Option<Seq<u8>>
    decreases s.len(),
{
    if s.len() < 2 {
        Some(Seq::empty())
    } else {
        match (unhex(s.take(s.len() - 2)), pair_value(s[s.len() - 2], s[s.len() - 1])) {
            (Some(front), Some(byte)) => Some(front.push(byte)),
            _ => None,
        }
    }
}

/// The hash that a text spells: 64 characters, each pair of them a byte.
pub open spec fn hash_of_hex(s: Seq<char>) -> Option<Seq<u8>> {
    if s.len() == 64 {
        unhex(s)
    } else {
        None
    }
}

/// Length of a text in UTF-8.
pub open spec fn utf8_len(s: Seq<char>) -> nat {
    vstd::utf8::encode_utf8(s).len()
}

fn read_digit(c: char) -> (r: Option<u8>)
    ensures
        match r {
            Some(d) => hex_value(c) == Some(d as nat) && d < 16,
            None => hex_value(c) is None,
        },
{
    let code: u32 = c as u32;
    if '0' <= c && c <= '9' {
        Some((code - 48) as u8)
    } else if 'a' <= c && c <= 'f' {
        Some((code - 97 + 10) as u8)
    } else if 'A' <= c && c <= 'F' {
        Some((code - 65 + 10) as u8)
    } else {
        None
    }
}

fn read_pair(high: char, low: char) -> (r: Option<u8>)
    ensures
        r == pair_value(high, low),
{
    match (read_digit(high), read_digit(low)) {
        (Some(h), Some(l)) => Some(h * 16 + l),
        _ => None,
    }
}

fn write_digit(d: u8) -> (c: char)
    requires
        d < 16,
    ensures
        c == hex_char(d as nat),
{
    if d < 10 {
        (48u8 + d) as char
    } else {
        (97u8 + (d - 10)) as char
    }
}

/// Lowercase hex of some bytes.
pub fn render_hex(bytes: &[u8]) -> (out: Vec<char>)
    ensures
        out@ == hex(bytes@),
{
    let mut out: Vec<char> = Vec::new();
    let mut i: usize = 0;
    while i < bytes.len()
        invariant
            i <= bytes@.len(),
            out@ == hex(bytes@.take(i as int)),
        decreases bytes@.len() - i,
    {
        assert(bytes@.take(i + 1).drop_last() =~= bytes@.take(i as int));
        out.push(write_digit(bytes[i] / 16));
        out.push(write_digit(bytes[i] % 16));
        i += 1;
    }
    assert(bytes@.take(i as int) =~= bytes@);
    out
}

/// The bytes that pairs of characters spell in hex.
pub fn parse_hex_bytes(chars: &[char]) -> (r: Option<Vec<u8>>)
    requires
        chars@.len() % 2 == 0,
    ensures
        r is Some <==> unhex(chars@) is Some,
        r matches Some(bytes) ==> unhex(chars@) == Some(bytes@),
{
    let mut bytes: Vec<u8> = Vec::new();
    let mut at: usize = 0;
    assert(bytes@ =~= Seq::empty());
    while at < chars.len()
        invariant
            at <= chars@.len(),
            at % 2 == 0,
            chars@.len() % 2 == 0,
            unhex(chars@.take(at as int)) == Some(bytes@),
        decreases chars@.len() - at,
    {
        proof {
            let next = chars@.take(at + 2);
            assert(next.take(next.len() - 2) =~= chars@.take(at as int));
        }
        match read_pair(chars[at], chars[at + 1]) {
            Some(byte) => {
                bytes.push(byte);
            },
            None => {
                proof {
                    lemma_unhex_prefix(chars@, at + 2);
                }
                return None;
            },
        }
        at += 2;
    }
    assert(chars@.take(at as int) =~= chars@);
    Some(bytes)
}

impl ContentHash {
    /// Hashes a byte slice.
    pub fn of(bytes: &[u8]) -> (r: Self)
        ensures
            r@ == blake3_digest(bytes@),
    {
        ContentHash(blake3_hash(bytes))
    }

    /// The bytes of the hash.
    pub fn as_bytes(&self) -> (r: &[u8; 32])
        ensures
            r@ == self@,
    {
        &self.0
    }

    /// A hash with the given bytes.
    pub fn from_bytes(bytes: [u8; 32]) -> (r: Self)
        ensures
            r@ == bytes@,
    {
        ContentHash(bytes)
    }

    /// Whether two hashes are the same.
    pub fn same(&self, other: &Self) -> (r: bool)
        ensures
            r == (self@ == other@),
    {
        let mut i: usize = 0;
        while i < 32
            invariant
                i <= 32,
                self@.len() == 32,
                other@.len() == 32,
                forall|j: int| 0 <= j < i ==> self@[j] == other@[j],
            decreases 32 - i,
        {
            if self.0[i] != other.0[i] {
                assert(self@[i as int] != other@[i as int]);
                return false;
            }
            i += 1;
        }
        assert(self@ =~= other@);
        true
    }

    /// Lowercase hex, 64 characters. This is the on-disk spelling everywhere:
    /// CAS filenames, memo filenames, JSON output.
    pub fn to_hex(&self) -> (r: String)
        ensures
            r@ == hex(self@),
            r@.len() == 64,
    {
        proof {
            lemma_hex_len(self@);
        }
        text::string_of(&render_hex(&self.0))
    }

    /// Lowercase hex.
    pub fn to_string(&self) -> (r: String)
        ensures
            r@ == hex(self@),
    {
        self.to_hex()
    }

    /// Reads a hash back from hex. The length that counts is the one in UTF-8.
    pub fn parse_hex(text: &str) -> (r: Result<Self, HashParseError>)
        ensures
            match r {
                Ok(hash) => utf8_len(text@) == 64 && hash_of_hex(text@) == Some(hash@),
                Err(HashParseError::Length(found)) => found == utf8_len(text@) && found != 64,
                Err(HashParseError::Digit) => utf8_len(text@) == 64 && hash_of_hex(text@) is None,
            },
    {
        let length: usize = text.as_bytes().len();
        if length != 64 {
            return Err(HashParseError::Length(length));
        }
        let chars = text::chars_of(text);
        if chars.len() != 64 {
            return Err(HashParseError::Digit);
        }
        let mut bytes: [u8; 32] = [0;32];
        let mut i: usize = 0;
        assert(bytes@.take(0) =~= Seq::empty());
        while i < 32
            invariant
                i <= 32,
                chars@.len() == 64,
                chars@ == text@,
                utf8_len(text@) == 64,
                unhex(chars@.take(2 * i)) == Some(bytes@.take(i as int)),
            decreases 32 - i,
        {
            let ghost front = bytes@;
            proof {
                let next = chars@.take(2 * i + 2);
                assert(next.take(next.len() - 2) =~= chars@.take(2 * i));
                assert(next[next.len() - 2] == chars@[2 * i]);
                assert(next[next.len() - 1] == chars@[2 * i + 1]);
            }
            match read_pair(chars[2 * i], chars[2 * i + 1]) {
                Some(byte) => {
                    bytes[i] = byte;
                    assert(bytes@.take(i + 1) =~= front.take(i as int).push(byte));
                },
                None => {
                    proof {
                        lemma_unhex_prefix(chars@, 2 * i + 2);
                    }
                    return Err(HashParseError::Digit);
                },
            }
            i += 1;
        }
        assert(chars@.take(64) =~= chars@);
        assert(bytes@.take(32) =~= bytes@);
        Ok(ContentHash(bytes))
    }
}

proof fn lemma_hex_len(bytes: Seq<u8>)
    ensures
        hex(bytes).len() == 2 * bytes.len(),
    decreases bytes.len(),
{
    if bytes.len() > 0 {
        lemma_hex_len(bytes.drop_last());
    }
}

/// What cannot be read in front cannot be read at all.
proof fn lemma_unhex_prefix(s: Seq<char>, n: int)
    requires
        0 <= n <= s.len(),
        n % 2 == 0,
        s.len() % 2 == 0,
        unhex(s.take(n)) is None,
    ensures
        unhex(s) is None,
    decreases s.len() - n,
{
    if n == s.len() {
        assert(s.take(n) =~= s);
    } else {
        let next = s.take(n + 2);
        assert(next.take(next.len() - 2) =~= s.take(n));
        lemma_unhex_prefix(s, n + 2);
    }
}

proof fn lemma_pair(byte: u8)
    ensures
        pair_value(hex_char((byte / 16) as nat), hex_char((byte % 16) as nat)) == Some(byte),
        hex_char((byte / 16) as nat) as int <= 127,
        hex_char((byte % 16) as nat) as int <= 127,
{
    let h = (byte / 16) as nat;
    let l = (byte % 16) as nat;
    assert(h < 16 && l < 16);
    assert(hex_value(hex_char(h)) == Some(h));
    assert(hex_value(hex_char(l)) == Some(l));
    assert(h * 16 + l == byte);
}

/// Hex is made of lowercase hex digits.
pub proof fn lemma_hex_plain(bytes: Seq<u8>)
    ensures
        hex(bytes).len() == 2 * bytes.len(),
        forall|i: int|
            0 <= i < hex(bytes).len() ==> ('0' <= #[trigger] hex(bytes)[i] && hex(bytes)[i]
                <= '9') || ('a' <= hex(bytes)[i] && hex(bytes)[i] <= 'f'),
    decreases bytes.len(),
{
    if bytes.len() > 0 {
        let front = bytes.drop_last();
        lemma_hex_plain(front);
        let s = hex(bytes);
        let h = (bytes.last() / 16) as nat;
        let l = (bytes.last() % 16) as nat;
        assert(h < 16 && l < 16);
        assert forall|i: int| 0 <= i < s.len() implies ('0' <= #[trigger] s[i] && s[i] <= '9') || (
        'a' <= s[i] && s[i] <= 'f') by {
            if i < s.len() - 2 {
                assert(s[i] == hex(front)[i]);
            } else if i == s.len() - 2 {
                assert(s[i] == hex_char(h));
            } else {
                assert(s[i] == hex_char(l));
            }
        }
    }
}

/// Hex reads back as the bytes that were written.
pub proof fn hex_reads_back(bytes: Seq<u8>)
    ensures
        unhex(hex(bytes)) == Some(bytes),
        hex(bytes).len() == 2 * bytes.len(),
        forall|i: int| 0 <= i < hex(bytes).len() ==> (#[trigger] hex(bytes)[i]) as int <= 127,
    decreases bytes.len(),
{
    if bytes.len() == 0 {
        assert(bytes =~= Seq::empty());
    } else {
        let front = bytes.drop_last();
        hex_reads_back(front);
        lemma_pair(bytes.last());
        let s = hex(bytes);
        assert(s.take(s.len() - 2) =~= hex(front));
        assert(front.push(bytes.last()) =~= bytes);
        assert forall|i: int| 0 <= i < s.len() implies (#[trigger] s[i]) as int <= 127 by {
            if i < s.len() - 2 {
                assert(s[i] == hex(front)[i]);
            }
        }
    }
}

/// ASCII text is as long in UTF-8 as it has characters.
pub proof fn lemma_ascii_len(s: Seq<char>)
    requires
        forall|i: int| 0 <= i < s.len() ==> (#[trigger] s[i]) as int <= 127,
    ensures
        utf8_len(s) == s.len(),
    decreases s.len(),
{
    if s.len() > 0 {
        let rest = s.drop_first();
        assert forall|i: int| 0 <= i < rest.len() implies (#[trigger] rest[i]) as int <= 127 by {
            assert(rest[i] == s[i + 1]);
        }
        lemma_ascii_len(rest);
        order::lemma_char_bounds(s[0]);
        let c = s[0] as u32;
        assert(c <= 127);
        assert(vstd::utf8::has_width_1_encoding(c)) by {
            reveal(vstd::utf8::has_width_1_encoding);
        }
        assert(vstd::utf8::encode_scalar(c).len() == 1);
    }
}

/// `parse_hex` gives back the hash that `to_hex` wrote.
pub proof fn hash_reads_back(hash: Seq<u8>)
    requires
        hash.len() == 32,
    ensures
        utf8_len(hex(hash)) == 64,
        hash_of_hex(hex(hash)) == Some(hash),
{
    hex_reads_back(hash);
    lemma_ascii_len(hex(hash));
}

// ---------------------------------------------------------------------------
// Incremental hashing.

/// Incremental hasher for content that arrives in chunks.
///
/// Unlike [`HashBuilder`] this adds no framing: the digest equals
/// [`ContentHash::of`] over the concatenated chunks, which is what makes it
/// usable for hashing a file while it streams past on its way into the CAS.
pub struct ContentHasher {
    hasher: blake3::Hasher,
}

impl View for ContentHasher {
    type V = Seq<u8>;

    /// The content so far.
    closed spec fn view(&self) -> Seq<u8> {
        absorbed(self.hasher)
    }
}

impl Default for ContentHasher {
    fn default() -> (r: Self)
        ensures
            r@ == Seq::<u8>::empty(),
    {
        ContentHasher { hasher: blake3_start() }
    }
}

impl ContentHasher {
    /// A hasher with no content yet.
    pub fn new() -> (r: Self)
        ensures
            r@ == Seq::<u8>::empty(),
    {
        ContentHasher { hasher: blake3_start() }
    }

    /// Adds the next chunk.
    pub fn update(&mut self, bytes: &[u8]) -> (r: &mut Self)
        ensures
            (*r)@ == old(self)@ + bytes@,
            *final(self) == *final(r),
    {
        blake3_update(&mut self.hasher, bytes);
        self
    }

    /// The hash of all chunks together.
    pub fn finish(&self) -> (r: ContentHash)
        ensures
            r@ == blake3_digest(self@),
    {
        ContentHash(blake3_finish(&self.hasher))
    }
}

/// One part as a builder hashes it: its length in eight bytes, then the part.
pub open spec fn frame(part: Seq<u8>) -> Seq<u8> {
    vstd::bytes::spec_u64_to_le_bytes(part.len() as u64) + part
}

/// Parts one after the other, each with its length in front.
pub open spec fn framed(parts: Seq<Seq<u8>>) -> Seq<u8>
    decreases parts.len(),
{
    if parts.len() == 0 {
        Seq::empty()
    } else {
        framed(parts.drop_last()) + frame(parts.last())
    }
}

/// The key that a builder derives from parts, the first of which is its domain.
pub open spec fn key_of(parts: Seq<Seq<u8>>) -> Seq<u8> {
    blake3_digest(framed(parts))
}

/// A text as a part.
pub open spec fn text_part(s: Seq<char>) -> Seq<u8> {
    vstd::utf8::encode_utf8(s)
}

/// A number as a part.
pub open spec fn number_part(n: u64) -> Seq<u8> {
    vstd::bytes::spec_u64_to_le_bytes(n)
}

/// One part more.
pub proof fn lemma_framed_push(parts: Seq<Seq<u8>>, part: Seq<u8>)
    ensures
        framed(parts.push(part)) == framed(parts) + frame(part),
{
    assert(parts.push(part).drop_last() =~= parts);
}

/// Parts after parts.
pub proof fn lemma_framed_append(a: Seq<Seq<u8>>, b: Seq<Seq<u8>>)
    ensures
        framed(a + b) == framed(a) + framed(b),
    decreases b.len(),
{
    if b.len() == 0 {
        assert(a + b =~= a);
        assert(framed(a) + framed(b) =~= framed(a));
    } else {
        lemma_framed_append(a, b.drop_last());
        assert((a + b).drop_last() =~= a + b.drop_last());
        assert(framed(a + b) =~= framed(a) + framed(b));
    }
}

/// The first part is in front.
proof fn lemma_framed_first(parts: Seq<Seq<u8>>)
    requires
        parts.len() > 0,
    ensures
        framed(parts) == frame(parts[0]) + framed(parts.skip(1)),
    decreases parts.len(),
{
    if parts.len() == 1 {
        assert(parts.drop_last() =~= Seq::empty());
        assert(parts.skip(1) =~= Seq::empty());
        assert(framed(parts) =~= frame(parts[0]) + framed(parts.skip(1)));
    } else {
        lemma_framed_first(parts.drop_last());
        assert(parts.drop_last().skip(1) =~= parts.skip(1).drop_last());
        assert(framed(parts) =~= frame(parts[0]) + framed(parts.skip(1)));
    }
}

/// Texts and numbers are told apart by their parts.
pub proof fn lemma_parts_injective(a: Seq<char>, b: Seq<char>, m: u64, n: u64)
    ensures
        text_part(a) == text_part(b) <==> a == b,
        number_part(m) == number_part(n) <==> m == n,
{
    vstd::utf8::encode_utf8_decode_utf8(a);
    vstd::utf8::encode_utf8_decode_utf8(b);
    vstd::bytes::lemma_auto_spec_u64_to_from_le_bytes();
    assert(vstd::bytes::spec_u64_from_le_bytes(number_part(m)) == m);
    assert(vstd::bytes::spec_u64_from_le_bytes(number_part(n)) == n);
}

/// Different parts are hashed as different bytes: `("ab", "c")` and
/// `("a", "bc")` cannot be confused, nor can parts below different domains.
pub proof fn parts_are_unambiguous(a: Seq<Seq<u8>>, b: Seq<Seq<u8>>)
    requires
        forall|i: int| 0 <= i < a.len() ==> (#[trigger] a[i]).len() <= u64::MAX,
        forall|i: int| 0 <= i < b.len() ==> (#[trigger] b[i]).len() <= u64::MAX,
        framed(a) == framed(b),
    ensures
        a == b,
    decreases a.len(),
{
    vstd::bytes::lemma_auto_spec_u64_to_from_le_bytes();
    if a.len() > 0 {
        lemma_framed_first(a);
        assert(frame(a[0]).len() >= 8);
    }
    if b.len() > 0 {
        lemma_framed_first(b);
        assert(frame(b[0]).len() >= 8);
    }
    if a.len() == 0 || b.len() == 0 {
        assert(a.len() > 0 ==> framed(a).len() >= 8);
        assert(b.len() > 0 ==> framed(b).len() >= 8);
        assert(a.len() == 0 ==> framed(a).len() == 0);
        assert(b.len() == 0 ==> framed(b).len() == 0);
        assert(a =~= b);
    } else {
        let x = framed(a);
        let n = vstd::bytes::spec_u64_to_le_bytes(a[0].len() as u64);
        let m = vstd::bytes::spec_u64_to_le_bytes(b[0].len() as u64);
        assert(x.take(8) =~= n);
        assert(framed(b).take(8) =~= m);
        assert(n == m);
        assert(a[0].len() as u64 == vstd::bytes::spec_u64_from_le_bytes(n));
        assert(a[0].len() == b[0].len());
        let k = a[0].len() as int;
        assert(x.subrange(8, 8 + k) =~= a[0]);
        assert(framed(b).subrange(8, 8 + k) =~= b[0]);
        assert(x.skip(8 + k) =~= framed(a.skip(1)));
        assert(framed(b).skip(8 + k) =~= framed(b.skip(1)));
        let a1 = a.skip(1);
        let b1 = b.skip(1);
        assert forall|i: int| 0 <= i < a1.len() implies (#[trigger] a1[i]).len() <= u64::MAX by {
            assert(a1[i] == a[i + 1]);
        }
        assert forall|i: int| 0 <= i < b1.len() implies (#[trigger] b1[i]).len() <= u64::MAX by {
            assert(b1[i] == b[i + 1]);
        }
        parts_are_unambiguous(a1, b1);
        assert(a =~= seq![a[0]] + a1);
        assert(b =~= seq![b[0]] + b1);
    }
}

/// Builds a hash out of several parts, the primitive behind every derived key
/// (memo keys, graph digests).
///
/// Parts are length-prefixed, so `("ab", "c")` and `("a", "bc")` cannot produce
/// the same key, and every builder starts from a domain string, so a key derived
/// for one purpose can never collide with a key derived for another.
pub struct HashBuilder {
    hasher: blake3::Hasher,
}

impl View for HashBuilder {
    type V = Seq<u8>;

    /// The framed parts so far.
    closed spec fn view(&self) -> Seq<u8> {
        absorbed(self.hasher)
    }
}

impl HashBuilder {
    /// A builder for keys of the given domain.
    pub fn new(domain: &str) -> (r: Self)
        ensures
            r@ == framed(seq![text_part(domain@)]),
    {
        let mut r = HashBuilder { hasher: blake3_start() };
        let ghost start = r@;
        r.put(domain.as_bytes());
        proof {
            let parts = Seq::<Seq<u8>>::empty();
            lemma_framed_push(parts, text_part(domain@));
            assert(parts.push(text_part(domain@)) =~= seq![text_part(domain@)]);
            assert(start + frame(text_part(domain@)) =~= framed(parts) + frame(
                text_part(domain@),
            ));
        }
        r
    }

    fn put(&mut self, bytes: &[u8])
        ensures
            final(self)@ == old(self)@ + frame(bytes@),
    {
        let length = u64_to_le_bytes(bytes.len() as u64);
        blake3_update(&mut self.hasher, &length);
        blake3_update(&mut self.hasher, bytes);
        assert(self@ =~= old(self)@ + frame(bytes@));
    }

    /// Adds a part.
    pub fn push_bytes(&mut self, bytes: &[u8]) -> (r: &mut Self)
        ensures
            (*r)@ == old(self)@ + frame(bytes@),
            *final(self) == *final(r),
    {
        self.put(bytes);
        self
    }

    /// Adds a text.
    pub fn push_str(&mut self, text: &str) -> (r: &mut Self)
        ensures
            (*r)@ == old(self)@ + frame(text_part(text@)),
            *final(self) == *final(r),
    {
        self.put(text.as_bytes());
        self
    }

    /// Adds a number.
    pub fn push_u64(&mut self, value: u64) -> (r: &mut Self)
        ensures
            (*r)@ == old(self)@ + frame(number_part(value)),
            *final(self) == *final(r),
    {
        let bytes = u64_to_le_bytes(value);
        self.put(&bytes);
        self
    }

    /// Adds a hash.
    pub fn push_hash(&mut self, hash: &ContentHash) -> (r: &mut Self)
        ensures
            (*r)@ == old(self)@ + frame(hash@),
            *final(self) == *final(r),
    {
        self.put(hash.as_bytes());
        self
    }

    /// The key.
    pub fn finish(&self) -> (r: ContentHash)
        ensures
            r@ == blake3_digest(self@),
    {
        ContentHash(blake3_finish(&self.hasher))
    }
}

} // verus!
