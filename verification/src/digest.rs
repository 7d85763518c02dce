//! Content digests: a fingerprint plus the length of the fingerprinted bytes.

use vstd::prelude::*;

verus! {

/// The result of hashing a byte sequence with SHA-256. The hash itself is a
/// function of the input bytes alone; its value is not stated here.
pub uninterp spec fn sha256_of(bytes: Seq<u8>) -> Seq<u8>;

/// Relies on sha2::Sha256 (the `Digest::digest` one-shot): the 32-byte SHA-256
/// hash, determined by the input bytes alone.
#[verifier::external_body]
pub(crate) fn sha256(bytes: &[u8]) -> (r: Vec<u8>)
    ensures
        r@ == sha256_of(bytes@),
        r@.len() == 32,
{
    <sha2::Sha256 as sha2::Digest>::digest(bytes).to_vec()
}

/// The decimal digits of a number, as ASCII bytes.
pub open spec fn spec_dec_bytes(n: nat) -> Seq<u8>
    decreases n,
{
    if n < 10 {
        seq![(48 + n) as u8]
    } else {
        spec_dec_bytes(n / 10).push((48 + n % 10) as u8)
    }
}

/// Render a number in decimal, as ASCII bytes.
pub fn dec_bytes(n: u64) -> (r: Vec<u8>)
    ensures
        r@ == spec_dec_bytes(n as nat),
    decreases n,
{
    if n < 10 {
        let mut v: Vec<u8> = Vec::new();
        v.push(48 + n as u8);
        proof {
            assert(v@ =~= spec_dec_bytes(n as nat));
        }
        v
    } else {
        let mut v = dec_bytes(n / 10);
        v.push(48 + (n % 10) as u8);
        v
    }
}

/// Mathematical model of a [`Digest`].
pub struct DigestModel {
    pub fingerprint: Seq<u8>,
    pub size_bytes: nat,
}

/// A content fingerprint identifying a byte sequence, together with the
/// length of that sequence. Equal content always yields an equal digest.
#[derive(Debug, Clone, PartialEq, Eq, Hash)]
pub struct Digest {
    pub fingerprint: Vec<u8>,
    pub size_bytes: u64,
}

impl View for Digest {
    type V = DigestModel;

    open spec fn view(&self) -> DigestModel {
        DigestModel { fingerprint: self.fingerprint@, size_bytes: self.size_bytes as nat }
    }
}

impl Digest {
    /// A digest is well formed when its fingerprint has the SHA-256 width.
    pub open spec fn wf(&self) -> bool {
        self.fingerprint@.len() == 32
    }

    /// The digest of a byte sequence: its SHA-256 fingerprint and its length.
    pub open spec fn spec_of_bytes(bytes: Seq<u8>) -> DigestModel {
        DigestModel { fingerprint: sha256_of(bytes), size_bytes: bytes.len() }
    }

    /// Digest raw bytes: fingerprint them and record their length.
    pub fn of_bytes(bytes: &[u8]) -> (r: Digest)
        requires
            bytes@.len() <= u64::MAX,
        ensures
            r@ == Self::spec_of_bytes(bytes@),
            r.wf(),
    {
        let fingerprint = sha256(bytes);
        Digest { fingerprint, size_bytes: bytes.len() as u64 }
    }

    /// A copy of the digest whose model is known to be the same.
    pub fn duplicate(&self) -> (r: Digest)
        ensures
            r@ == self@,
    {
        let mut fp: Vec<u8> = Vec::new();
        let mut i: usize = 0;
        while i < self.fingerprint.len()
            invariant
                i <= self.fingerprint@.len(),
                fp@ == self.fingerprint@.subrange(0, i as int),
            decreases self.fingerprint@.len() - i,
        {
            fp.push(self.fingerprint[i]);
            proof {
                assert(fp@ =~= self.fingerprint@.subrange(0, i + 1));
            }
            i += 1;
        }
        proof {
            assert(fp@ =~= self.fingerprint@);
        }
        Digest { fingerprint: fp, size_bytes: self.size_bytes }
    }

    /// Field-wise equality, usable in verified code.
    pub fn equals(&self, other: &Digest) -> (r: bool)
        ensures
            r == (self@ == other@),
    {
        if self.size_bytes != other.size_bytes {
            proof {
                assert(self@ != other@);
            }
            return false;
        }
        if self.fingerprint.len() != other.fingerprint.len() {
            proof {
                assert(self@.fingerprint.len() != other@.fingerprint.len());
                assert(self@ != other@);
            }
            return false;
        }
        let n = self.fingerprint.len();
        let mut i: usize = 0;
        while i < n
            invariant
                n == self.fingerprint@.len(),
                n == other.fingerprint@.len(),
                i <= n,
                forall|j: int| 0 <= j < i ==> self.fingerprint@[j] == other.fingerprint@[j],
            decreases n - i,
        {
            if self.fingerprint[i] != other.fingerprint[i] {
                proof {
                    assert(self@.fingerprint[i as int] != other@.fingerprint[i as int]);
                    assert(self@ != other@);
                }
                return false;
            }
            i += 1;
        }
        proof {
            assert(self@.fingerprint =~= other@.fingerprint);
        }
        true
    }
}

} // verus!
