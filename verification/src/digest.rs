//! The hash stage's digest accumulator: a streaming 160-bit content digest.
//! The hashing itself is done by the sha1 crate behind trusted wrappers; the
//! accumulator tracks what has been fed and how much, and the chunk loop
//! over a buffer is verified.

use vstd::prelude::*;
use vstd::slice::slice_subrange;

verus! {

#[verifier::external_type_specification]
#[verifier::external_body]
pub struct ExSha1(sha1::Sha1);

/// The byte stream a hasher has been fed so far.
pub uninterp spec fn sha1_fed(h: sha1::Sha1) -> Seq<u8>;

/// The 160-bit digest of a byte string, a function of the bytes alone.
pub uninterp spec fn sha1_of(data: Seq<u8>) -> Seq<u8>;

/// Relies on sha1::Sha1::new: a fresh hasher has seen no input.
#[verifier::external_body]
fn sha1_new() -> (r: sha1::Sha1)
    ensures
        sha1_fed(r) == Seq::<u8>::empty(),
{
    sha1::Sha1::new()
}

/// Relies on sha1::Sha1::update: it appends the chunk to the hashed stream.
#[verifier::external_body]
fn sha1_update(h: &mut sha1::Sha1, chunk: &[u8])
    ensures
        sha1_fed(*final(h)) == sha1_fed(*old(h)) + chunk@,
{
    h.update(chunk)
}

/// Relies on sha1::Sha1::digest and sha1::Digest::bytes: the 20-byte digest
/// of everything fed so far, depending on those bytes alone.
#[verifier::external_body]
fn sha1_digest_bytes(h: &sha1::Sha1) -> (r: Vec<u8>)
    ensures
        r@ == sha1_of(sha1_fed(*h)),
        r@.len() == 20,
{
    h.digest().bytes().to_vec()
}

/// A streaming digest with a byte count: the hash stage feeds file content
/// through it chunk by chunk and reads the digest and the size at the end.
pub struct HashAccum {
    h: sha1::Sha1,
    size: u64,
}

impl HashAccum {
    /// The bytes fed so far.
    pub closed spec fn fed(&self) -> Seq<u8> {
        sha1_fed(self.h)
    }

    /// The byte count kept alongside.
    pub closed spec fn total(&self) -> u64 {
        self.size
    }

    /// The count matches what was fed.
    pub open spec fn wf(&self) -> bool {
        self.total() == self.fed().len()
    }

    pub fn new() -> (r: HashAccum)
        ensures
            r.fed() == Seq::<u8>::empty(),
            r.total() == 0,
            r.wf(),
    {
        HashAccum { h: sha1_new(), size: 0 }
    }

    /// Feed one chunk.
    pub fn update(&mut self, chunk: &[u8])
        requires
            old(self).wf(),
            old(self).total() + chunk@.len() <= u64::MAX,
        ensures
            final(self).wf(),
            final(self).fed() == old(self).fed() + chunk@,
            final(self).total() == old(self).total() + chunk@.len(),
    {
        sha1_update(&mut self.h, chunk);
        self.size = self.size + chunk.len() as u64;
    }

    /// The digest of everything fed so far.
    pub fn finish(&self) -> (r: Vec<u8>)
        ensures
            r@ == sha1_of(self.fed()),
            r@.len() == 20,
    {
        sha1_digest_bytes(&self.h)
    }

    /// How many bytes were fed.
    pub fn total_bytes(&self) -> (r: u64)
        ensures
            r == self.total(),
    {
        self.size
    }
}

/// Digest a whole in-memory buffer, feeding it through the accumulator in
/// bounded chunks as the hash stage does, and return digest and byte count.
pub fn hash_bytes(data: &[u8]) -> (r: (Vec<u8>, u64))
    requires
        data@.len() <= u64::MAX,
    ensures
        r.0@ == sha1_of(data@),
        r.0@.len() == 20,
        r.1 == data@.len(),
{
    let mut acc = HashAccum::new();
    let mut i: usize = 0;
    proof {
        assert(acc.fed() =~= data@.take(0));
    }
    while i < data.len()
        invariant
            i <= data@.len(),
            data@.len() <= u64::MAX,
            acc.wf(),
            acc.fed() == data@.take(i as int),
            acc.total() == i,
        decreases data@.len() - i,
    {
        let end = if data.len() - i > 0x100000 {
            i + 0x100000
        } else {
            data.len()
        };
        let chunk = slice_subrange(data, i, end);
        acc.update(chunk);
        proof {
            assert(data@.take(i as int) + data@.subrange(i as int, end as int) =~= data@.take(
                end as int,
            ));
        }
        i = end;
    }
    proof {
        assert(data@.take(data@.len() as int) =~= data@);
    }
    let digest = acc.finish();
    let size = acc.total_bytes();
    (digest, size)
}

} // verus!
