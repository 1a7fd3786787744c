//! The digest of one file's bytes.

use crate::hex_codec::{decode, encode, encoded, read, DecodeError};
use crate::laws::law_hex_round_trip;
use std::cmp::Ordering;
use vstd::prelude::*;
use vstd::string::*;
use vstd::utf8::encode_utf8;

verus! {

/// The length of a SHA-384 digest, in bytes.
pub const DIGEST_LENGTH: usize = 48;

/// `sha2::Sha384`, the hasher that files are streamed through. Nothing of
/// its state is known here but the two names below.
#[verifier::external_type_specification]
#[verifier::external_body]
pub struct ExSha384(sha2::Sha384);

/// What a hasher holds: the bytes that it has taken in since it was made or
/// last reset, in the order in which they came. Nothing here is proved of
/// it; it is what `finalize_reset` of `sha2::Sha384` digests and empties.
pub uninterp spec fn absorbed(hasher: sha2::Sha384) -> Seq<u8>;

/// The SHA-384 digest of a byte string: what `finalize_reset` of
/// `sha2::Sha384` gives for a hasher that has taken in `content`. It is a
/// name only: nothing here says which bytes it is.
pub uninterp spec fn sha384(content: Seq<u8>) -> Seq<u8>;

/// `Digest::finalize_reset` of `sha2::Sha384`: gives the digest, 48 bytes
/// long, of the bytes taken in so far, and leaves the hasher as a new one
/// is, with nothing taken in.
#[verifier::external_body]
fn finalize_reset(hasher: &mut sha2::Sha384) -> (digest: Vec<u8>)
    ensures
        digest@ == sha384(absorbed(*old(hasher))),
        digest@.len() == DIGEST_LENGTH,
        absorbed(*final(hasher)) == Seq::<u8>::empty(),
{
    sha2::Digest::finalize_reset(hasher).to_vec()
}

/// The digest of one file: a byte string whose length the algorithm fixes.
/// One that was read from text is as long as the text makes it.
pub struct FileHash {
    hash: Vec<u8>,
}

impl View for FileHash {
    type V = Seq<u8>;

    /// The bytes of the digest.
    closed spec fn view(&self) -> Seq<u8> {
        self.hash@
    }
}

impl FileHash {
    /// The digest of the bytes that `hasher` has taken in: those of one
    /// file, streamed through it. The hasher is left reset, ready for the
    /// next file.
    pub fn new(hasher: &mut sha2::Sha384) -> (r: FileHash)
        ensures
            r@ == sha384(absorbed(*old(hasher))),
            r@.len() == DIGEST_LENGTH,
            absorbed(*final(hasher)) == Seq::<u8>::empty(),
    {
        FileHash::from_bytes(finalize_reset(hasher))
    }

    /// The digest that holds the bytes `bytes`, as a hasher of any kind has
    /// given them.
    pub fn from_bytes(bytes: Vec<u8>) -> (r: FileHash)
        ensures
            r@ == bytes@,
    {
        FileHash { hash: bytes }
    }

    /// The bytes of the digest.
    pub fn as_bytes(&self) -> (r: &[u8])
        ensures
            r@ == self@,
    {
        self.hash.as_slice()
    }

    /// The digest as lower-case hexadecimal text, two digits for each byte:
    /// a text that `from_hex` reads back as this digest.
    pub fn to_hex(&self) -> (text: String)
        ensures
            text@ == encoded(self@),
            read(encode_utf8(text@)) == Ok::<Seq<u8>, DecodeError>(self@),
    {
        proof {
            law_hex_round_trip(self@);
        }
        encode(self.hash.as_slice())
    }

    /// The digest that `text` spells in hexadecimal digits of either case, or
    /// the fault of `text` where it spells none.
    pub fn from_hex(text: &str) -> (r: Result<FileHash, DecodeError>)
        ensures
            match r {
                Ok(hash) => read(text.spec_bytes()) == Ok::<Seq<u8>, DecodeError>(hash@),
                Err(e) => read(text.spec_bytes()) == Err::<Seq<u8>, DecodeError>(e),
            },
    {
        match decode(text) {
            Ok(hash) => Ok(FileHash { hash }),
            Err(e) => Err(e),
        }
    }
}

impl Clone for FileHash {
    /// A digest of the same bytes.
    fn clone(&self) -> (r: FileHash)
        ensures
            r@ == self@,
    {
        FileHash { hash: self.hash.clone() }
    }
}

impl PartialEq for FileHash {
    /// Two digests are equal where they hold the same bytes.
    fn eq(&self, other: &FileHash) -> (r: bool) {
        if self.hash.len() != other.hash.len() {
            return false;
        }
        let mut i: usize = 0;
        while i < self.hash.len()
            invariant
                i <= self.hash@.len(),
                self.hash@.len() == other.hash@.len(),
                forall|j: int| 0 <= j < i ==> self.hash@[j] == other.hash@[j],
            decreases self.hash@.len() - i,
        {
            if self.hash[i] != other.hash[i] {
                return false;
            }
            i += 1;
        }
        assert(self.hash@ =~= other.hash@);
        true
    }
}

impl Eq for FileHash {

}

impl vstd::std_specs::cmp::PartialEqSpecImpl for FileHash {
    open spec fn obeys_eq_spec() -> bool {
        true
    }

    open spec fn eq_spec(&self, other: &FileHash) -> bool {
        self@ == other@
    }
}

/// How two byte strings stand to each other, byte by byte from the front:
/// below zero where `a` comes first, zero where they are the same, above
/// zero where `b` comes first. A string comes before every longer string
/// that begins with it.
pub open spec fn byte_order(a: Seq<u8>, b: Seq<u8>) -> int
    decreases a.len(),
{
    if a.len() == 0 && b.len() == 0 {
        0
    } else if a.len() == 0 {
        -1
    } else if b.len() == 0 {
        1
    } else if a[0] < b[0] {
        -1
    } else if a[0] > b[0] {
        1
    } else {
        byte_order(a.drop_first(), b.drop_first())
    }
}

/// The order of two byte strings, as `byte_order` tells it.
fn order_of(a: &[u8], b: &[u8]) -> (sign: i8)
    ensures
        sign == byte_order(a@, b@),
{
    let mut i: usize = 0;
    assert(a@.skip(0) =~= a@ && b@.skip(0) =~= b@);
    while i < a.len() && i < b.len()
        invariant
            i <= a@.len(),
            i <= b@.len(),
            byte_order(a@, b@) == byte_order(a@.skip(i as int), b@.skip(i as int)),
        decreases a@.len() - i,
    {
        if a[i] < b[i] {
            return -1;
        }
        if a[i] > b[i] {
            return 1;
        }
        proof {
            assert(a@.skip(i as int).drop_first() =~= a@.skip(i + 1));
            assert(b@.skip(i as int).drop_first() =~= b@.skip(i + 1));
        }
        i += 1;
    }
    if i < b.len() {
        -1
    } else if i < a.len() {
        1
    } else {
        0
    }
}

impl PartialOrd for FileHash {
    /// Digests are ordered byte by byte.
    fn partial_cmp(&self, other: &FileHash) -> (r: Option<Ordering>) {
        let sign = order_of(self.hash.as_slice(), other.hash.as_slice());
        if sign < 0 {
            Some(Ordering::Less)
        } else if sign == 0 {
            Some(Ordering::Equal)
        } else {
            Some(Ordering::Greater)
        }
    }
}

impl vstd::std_specs::cmp::PartialOrdSpecImpl for FileHash {
    open spec fn obeys_partial_cmp_spec() -> bool {
        true
    }

    open spec fn partial_cmp_spec(&self, other: &FileHash) -> Option<Ordering> {
        let sign = byte_order(self@, other@);
        if sign < 0 {
            Some(Ordering::Less)
        } else if sign == 0 {
            Some(Ordering::Equal)
        } else {
            Some(Ordering::Greater)
        }
    }
}

} // verus!
