//! Content digests, and whether a write would change anything.
use vstd::prelude::*;
use crate::text::{push_char, same_text};

verus! {

/// The 32-byte BLAKE3 hash of `input`, as `blake3::hash` computes it.
pub uninterp spec fn blake3_hash(input: Seq<u8>) -> Seq<u8>;

/// `blake3::hash`, as the hash's raw bytes.
///
/// Trusted: BLAKE3 is a function of its input alone, and `Hash::as_bytes` hands out its
/// `OUT_LEN`, 32, bytes. Which bytes those are is not stated: the contract names them.
#[verifier::external_body]
fn blake3_bytes(input: &[u8]) -> (r: Vec<u8>)
    ensures
        r@ == blake3_hash(input@),
        r@.len() == 32,
{
    blake3::hash(input).as_bytes().to_vec()
}

/// The lowercase hexadecimal digit for `n`, which is below 16.
pub open spec fn hex_digit(n: int) -> char {
    if n < 10 {
        (48 + n) as char
    } else {
        (87 + n) as char
    }
}

/// `bytes` in lowercase hexadecimal, two digits per byte, high nibble first.
pub open spec fn hex_lower(bytes: Seq<u8>) -> Seq<char>
    decreases bytes.len(),
{
    if bytes.len() == 0 {
        Seq::empty()
    } else {
        let b = bytes.last() as int;
        hex_lower(bytes.drop_last()) + seq![hex_digit(b / 16), hex_digit(b % 16)]
    }
}

/// The hex digits of `bytes` have twice its length.
pub proof fn lemma_hex_len(bytes: Seq<u8>)
    ensures
        hex_lower(bytes).len() == 2 * bytes.len(),
    decreases bytes.len(),
{
    if bytes.len() > 0 {
        lemma_hex_len(bytes.drop_last());
    }
}

fn hex_char(n: u8) -> (c: char)
    requires
        n < 16,
    ensures
        c == hex_digit(n as int),
{
    if n < 10 {
        (48u8 + n) as char
    } else {
        (87u8 + n) as char
    }
}

/// A content hash of a source document, as hex.
#[derive(Debug, Clone, PartialEq, Eq)]
pub struct Digest(String);

impl View for Digest {
    type V = Seq<char>;

    closed spec fn view(&self) -> Seq<char> {
        self.0@
    }
}

impl Digest {
    /// Hash arbitrary bytes: the BLAKE3 hash of `bytes`, in lowercase hex.
    pub fn of(bytes: &[u8]) -> (r: Digest)
        ensures
            r@ == hex_lower(blake3_hash(bytes@)),
            r@.len() == 64,
    {
        let hash = blake3_bytes(bytes);
        proof {
            lemma_hex_len(hash@);
        }
        Digest::from_hash(hash.as_slice())
    }

    /// The digest whose hash bytes are `hash`.
    pub fn from_hash(hash: &[u8]) -> (r: Digest)
        ensures
            r@ == hex_lower(hash@),
    {
        let mut out = String::new();
        let mut i: usize = 0;
        while i < hash.len()
            invariant
                i <= hash@.len(),
                out@ == hex_lower(hash@.take(i as int)),
            decreases hash@.len() - i,
        {
            let b = hash[i];
            push_char(&mut out, hex_char(b / 16));
            push_char(&mut out, hex_char(b % 16));
            proof {
                let next = hash@.take(i + 1);
                assert(next.drop_last() =~= hash@.take(i as int));
                assert(next.last() == b);
            }
            i += 1;
        }
        assert(hash@.take(hash@.len() as int) =~= hash@);
        Digest(out)
    }

    /// A digest recorded earlier, given by its hex text.
    pub fn recorded(hex: String) -> (r: Digest)
        ensures
            r@ == hex@,
    {
        Digest(hex)
    }

    /// The digest as hex.
    pub fn as_str(&self) -> (r: &str)
        ensures
            r@ == self@,
    {
        self.0.as_str()
    }

    /// Whether two digests are the same.
    pub fn matches(&self, other: &Digest) -> (r: bool)
        ensures
            r == (self@ == other@),
    {
        same_text(self.0.as_str(), other.0.as_str())
    }
}

/// Whether a write actually changed anything.
///
/// `No` is what keeps a full refetch from rebuilding a whole site: an unchanged digest dirties
/// nothing downstream.
#[derive(Debug, Clone, Copy, PartialEq, Eq, Structural)]
pub enum Changed {
    /// The entry was written.
    Yes,
    /// The digest matched; nothing was written.
    No,
}

/// Whether `recorded`, the digest a store holds for a key, is the one of `incoming`.
pub open spec fn up_to_date(recorded: Option<Digest>, incoming: Digest) -> bool {
    recorded matches Some(d) && d@ == incoming@
}

impl Changed {
    /// What writing content with digest `incoming` under a key does, when the store holds
    /// `recorded` for it: nothing when the digests are the same, a write otherwise.
    pub fn decide(recorded: &Option<Digest>, incoming: &Digest) -> (r: Changed)
        ensures
            r == (if up_to_date(*recorded, *incoming) {
                Changed::No
            } else {
                Changed::Yes
            }),
    {
        match recorded {
            Some(d) => {
                if d.matches(incoming) {
                    Changed::No
                } else {
                    Changed::Yes
                }
            },
            None => Changed::Yes,
        }
    }
}

/// The same bytes always have the same digest, so loading unchanged content again finds it up
/// to date and writes nothing.
pub proof fn lemma_unchanged_content_is_up_to_date(recorded: Digest, incoming: Digest, bytes: Seq<u8>)
    requires
        recorded@ == hex_lower(blake3_hash(bytes)),
        incoming@ == hex_lower(blake3_hash(bytes)),
    ensures
        up_to_date(Some(recorded), incoming),
{
}

} // verus!
