//! SHA-256 fingerprints.
//!
//! The digest is computed by `rust-crypto`. Verus does not look inside a
//! hasher: the bytes it has been fed are named by `sha256_fed`, and what it
//! makes of them by `sha256_hex_digest`.

use vstd::prelude::*;
use vstd::string::StringSliceAdditionalSpecFns;
use crypto::digest::Digest;

verus! {

/// `crypto::sha2::Sha256`, taken as opaque.
#[verifier::external_type_specification]
#[verifier::external_body]
pub struct ExSha256(crypto::sha2::Sha256);

/// The bytes that a hasher has been fed, in order.
pub uninterp spec fn sha256_fed(hasher: crypto::sha2::Sha256) -> Seq<u8>;

/// The SHA-256 digest of `bytes`, as 64 lower-case hexadecimal digits.
pub uninterp spec fn sha256_hex_digest(bytes: Seq<u8>) -> Seq<char>;

/// One more byte than a hasher takes: it counts its input in bits, in
/// 64 bits.
pub const DIGEST_LIMIT: u64 = 0x2000_0000_0000_0000;

/// No bytes.
pub open spec fn no_bytes() -> Seq<u8> {
    Seq::empty()
}

/// `Sha256::new`: a hasher that has been fed nothing.
#[verifier::external_body]
fn sha256_new() -> (fresh: crypto::sha2::Sha256)
    ensures
        sha256_fed(fresh) == no_bytes(),
{
    crypto::sha2::Sha256::new()
}

/// `Digest::input_str`: feeds the UTF-8 bytes of `text` to the hasher. The
/// call panics where the hasher would have been fed 2^61 bytes or more,
/// which `requires` leaves out.
#[verifier::external_body]
fn sha256_input_str(hasher: &mut crypto::sha2::Sha256, text: &str)
    requires
        sha256_fed(*old(hasher)).len() + text.spec_bytes().len() < DIGEST_LIMIT,
    ensures
        sha256_fed(*final(hasher)) == sha256_fed(*old(hasher)) + text.spec_bytes(),
{
    hasher.input_str(text);
}

/// `Digest::input`: feeds `bytes` to the hasher. The call panics where the
/// hasher would have been fed 2^61 bytes or more, which `requires` leaves
/// out.
#[verifier::external_body]
fn sha256_input(hasher: &mut crypto::sha2::Sha256, bytes: &[u8])
    requires
        sha256_fed(*old(hasher)).len() + bytes@.len() < DIGEST_LIMIT,
    ensures
        sha256_fed(*final(hasher)) == sha256_fed(*old(hasher)) + bytes@,
{
    hasher.input(bytes);
}

/// `Digest::result_str`: the digest of what the hasher has been fed, in
/// hexadecimal. The digest depends on those bytes alone and is named, not
/// spelled out.
#[verifier::external_body]
fn sha256_result_str(hasher: crypto::sha2::Sha256) -> (hex: String)
    ensures
        hex@ == sha256_hex_digest(sha256_fed(hasher)),
{
    let mut hasher = hasher;
    hasher.result_str()
}

/// Computes the SHA-256 digest of the texts fed to it, one after the
/// other.
pub struct Fingerprinter {
    pub hasher: crypto::sha2::Sha256,
    /// How many bytes have been fed.
    pub fed: u64,
}

impl Fingerprinter {
    /// The bytes fed so far.
    pub open spec fn bytes(&self) -> Seq<u8> {
        sha256_fed(self.hasher)
    }

    /// The count of bytes is right, and the hasher can take them.
    pub open spec fn wf(&self) -> bool {
        self.fed == self.bytes().len() && self.fed < DIGEST_LIMIT
    }

    /// A fingerprinter that has been fed nothing.
    pub fn new() -> (fresh: Fingerprinter)
        ensures
            fresh.wf(),
            fresh.bytes() == no_bytes(),
    {
        Fingerprinter { hasher: sha256_new(), fed: 0 }
    }

    /// Feeds the UTF-8 bytes of `text`. Returns false, and feeds nothing,
    /// exactly when that would be more than the hasher takes.
    pub fn feed(&mut self, text: &str) -> (fed: bool)
        requires
            old(self).wf(),
        ensures
            final(self).wf(),
            fed == (old(self).bytes().len() + text.spec_bytes().len() < DIGEST_LIMIT),
            fed ==> final(self).bytes() == old(self).bytes() + text.spec_bytes(),
            !fed ==> *final(self) == *old(self),
    {
        let more = text.as_bytes().len() as u64;
        if more >= DIGEST_LIMIT - self.fed {
            return false;
        }
        sha256_input_str(&mut self.hasher, text);
        self.fed = self.fed + more;
        true
    }

    /// Feeds `bytes`. Returns false, and feeds nothing, exactly when that
    /// would be more than the hasher takes.
    pub fn feed_bytes(&mut self, bytes: &[u8]) -> (fed: bool)
        requires
            old(self).wf(),
        ensures
            final(self).wf(),
            fed == (old(self).bytes().len() + bytes@.len() < DIGEST_LIMIT),
            fed ==> final(self).bytes() == old(self).bytes() + bytes@,
            !fed ==> *final(self) == *old(self),
    {
        let more = bytes.len() as u64;
        if more >= DIGEST_LIMIT - self.fed {
            return false;
        }
        sha256_input(&mut self.hasher, bytes);
        self.fed = self.fed + more;
        true
    }

    /// The digest of the bytes fed, in hexadecimal.
    pub fn finish(self) -> (hex: String)
        ensures
            hex@ == sha256_hex_digest(self.bytes()),
    {
        sha256_result_str(self.hasher)
    }
}

/// The SHA-256 digest of the UTF-8 bytes of `text`, in hexadecimal; `None`
/// exactly when the text is too long for the digest.
pub fn fingerprint(text: &str) -> (hex: Option<String>)
    ensures
        match hex {
            Some(h) => text.spec_bytes().len() < DIGEST_LIMIT && h@ == sha256_hex_digest(
                text.spec_bytes(),
            ),
            None => text.spec_bytes().len() >= DIGEST_LIMIT,
        },
{
    let mut printer = Fingerprinter::new();
    if printer.feed(text) {
        proof {
            assert(no_bytes() + text.spec_bytes() =~= text.spec_bytes());
        }
        Some(printer.finish())
    } else {
        None
    }
}

} // verus!
