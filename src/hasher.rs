use vstd::prelude::*;
use crate::algorithm::{HashAlgorithm, output_len};

verus! {

#[verifier::external_type_specification]
#[verifier::external_body]
pub struct ExContext(ring::digest::Context);

/// The bytes that a digest context has taken in so far, in order.
pub uninterp spec fn absorbed(c: ring::digest::Context) -> Seq<u8>;

/// The algorithm that a digest context was made with.
pub uninterp spec fn context_algorithm(c: ring::digest::Context) -> HashAlgorithm;

/// The digest that `alg` gives for `data`.
pub uninterp spec fn digest_of(alg: HashAlgorithm, data: Seq<u8>) -> Seq<u8>;

/// The most bytes that a context can take in and still finish: the length in
/// bits must fit in 64 bits.
pub const MAX_INPUT_BYTES: u64 = 0x1FFF_FFFF_FFFF_FFFF;

/// Relies on `ring::digest::Context::new`: a fresh context for the algorithm,
/// having taken in nothing.
#[verifier::external_body]
fn context_new(alg: HashAlgorithm) -> (r: ring::digest::Context)
    ensures
        absorbed(r) == Seq::<u8>::empty(),
        context_algorithm(r) == alg,
{
    ring::digest::Context::new(match alg {
        HashAlgorithm::Sha256 => &ring::digest::SHA256,
        HashAlgorithm::Sha384 => &ring::digest::SHA384,
        HashAlgorithm::Sha512 => &ring::digest::SHA512,
        HashAlgorithm::Sha512_256 => &ring::digest::SHA512_256,
    })
}

/// Relies on `ring::digest::Context::update`: the context takes in all of
/// `data`, after what it held, and keeps its algorithm.
#[verifier::external_body]
fn context_update(c: &mut ring::digest::Context, data: &[u8])
    ensures
        absorbed(*final(c)) == absorbed(*old(c)) + data@,
        context_algorithm(*final(c)) == context_algorithm(*old(c)),
{
    c.update(data)
}

/// Relies on `ring::digest::Context::finish` and `Digest::as_ref`: the digest
/// of all that the context took in, as many bytes as the algorithm's output.
/// `finish` panics once the length in bits overflows 64 bits.
#[verifier::external_body]
fn context_finish(c: ring::digest::Context) -> (r: Vec<u8>)
    requires
        absorbed(c).len() <= MAX_INPUT_BYTES,
    ensures
        r@ == digest_of(context_algorithm(c), absorbed(c)),
        r@.len() == output_len(context_algorithm(c)),
{
    c.finish().as_ref().to_vec()
}

/// A digest computation in progress: bytes are fed in chunks, in order, and
/// the digest of their concatenation comes out at the end.
pub struct Hasher {
    ctx: ring::digest::Context,
    alg: HashAlgorithm,
    /// How many bytes were fed, saturating at `u64::MAX`.
    fed: u64,
}

impl Hasher {
    /// The algorithm this hasher computes.
    pub closed spec fn algorithm(&self) -> HashAlgorithm {
        self.alg
    }

    /// The bytes fed so far, in order.
    pub closed spec fn data(&self) -> Seq<u8> {
        absorbed(self.ctx)
    }

    /// The hasher's invariant: the context belongs to the algorithm, and the
    /// count of fed bytes is exact until it saturates.
    pub closed spec fn wf(&self) -> bool {
        &&& context_algorithm(self.ctx) == self.alg
        &&& if absorbed(self.ctx).len() < u64::MAX {
            self.fed as nat == absorbed(self.ctx).len()
        } else {
            self.fed == u64::MAX
        }
    }

    /// A hasher for `alg` that has been fed nothing.
    pub fn new(alg: HashAlgorithm) -> (r: Hasher)
        ensures
            r.wf(),
            r.algorithm() == alg,
            r.data() == Seq::<u8>::empty(),
    {
        Hasher { ctx: context_new(alg), alg, fed: 0 }
    }

    /// Feeds one chunk of bytes, after those fed before.
    pub fn update(&mut self, chunk: &[u8])
        requires
            old(self).wf(),
        ensures
            final(self).wf(),
            final(self).algorithm() == old(self).algorithm(),
            final(self).data() == old(self).data() + chunk@,
    {
        context_update(&mut self.ctx, chunk);
        let n = chunk.len() as u64;
        if self.fed <= u64::MAX - n {
            self.fed = self.fed + n;
        } else {
            self.fed = u64::MAX;
        }
    }

    /// The digest of all bytes fed, or `None` where they are too many for
    /// the algorithm to finish (more than `MAX_INPUT_BYTES`).
    pub fn finish(self) -> (r: Option<Vec<u8>>)
        requires
            self.wf(),
        ensures
            self.data().len() <= MAX_INPUT_BYTES <==> r is Some,
            r matches Some(d) ==> d@ == digest_of(self.algorithm(), self.data()),
            r matches Some(d) ==> d@.len() == output_len(self.algorithm()),
    {
        if self.fed <= MAX_INPUT_BYTES {
            Some(context_finish(self.ctx))
        } else {
            None
        }
    }
}

/// Hashing is deterministic: two hashers of one algorithm that were fed the
/// same bytes, whatever the chunks, give the same digest.
pub proof fn lemma_same_content_same_digest(a: Hasher, b: Hasher)
    requires
        a.algorithm() == b.algorithm(),
        a.data() == b.data(),
    ensures
        digest_of(a.algorithm(), a.data()) == digest_of(b.algorithm(), b.data()),
{
}

} // verus!
