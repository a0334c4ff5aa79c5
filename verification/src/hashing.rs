use vstd::prelude::*;

verus! {

/// The incremental BLAKE3 hasher of the `blake3` crate, opaque to the
/// verifier.
#[verifier::external_type_specification]
#[verifier::external_body]
pub struct ExHasher(blake3::Hasher);

/// The byte stream a hasher has absorbed so far.
pub uninterp spec fn hasher_stream(h: blake3::Hasher) -> Seq<u8>;

/// The 32-byte BLAKE3 digest of a byte sequence. The digest of a file's
/// content depends on that content alone, so the result is named rather than
/// written out.
pub uninterp spec fn blake3_digest(bytes: Seq<u8>) -> Seq<u8>;

/// Relies on blake3::Hasher::new: a fresh hasher has absorbed nothing.
#[verifier::external_body]
fn hasher_new() -> (r: blake3::Hasher)
    ensures
        hasher_stream(r) == Seq::<u8>::empty(),
{
    blake3::Hasher::new()
}

/// Relies on blake3::Hasher::update: appends the chunk to the absorbed
/// stream.
#[verifier::external_body]
fn hasher_update(h: &mut blake3::Hasher, chunk: &Vec<u8>)
    ensures
        hasher_stream(*final(h)) == hasher_stream(*old(h)) + chunk@,
{
    h.update(chunk.as_slice());
}

/// Relies on blake3::Hasher::finalize and blake3::Hash::as_bytes: the
/// 32-byte digest of exactly the absorbed bytes.
#[verifier::external_body]
fn hasher_finalize(h: &blake3::Hasher) -> (r: Vec<u8>)
    ensures
        r@ == blake3_digest(hasher_stream(*h)),
        r@.len() == 32,
{
    h.finalize().as_bytes().to_vec()
}

/// The mathematical form of a list of byte chunks.
pub open spec fn chunks_view(chunks: Seq<Vec<u8>>) -> Seq<Seq<u8>> {
    Seq::new(chunks.len(), |i: int| chunks[i]@)
}

/// All chunks joined into the single byte stream they were read from.
pub open spec fn concat_bytes(chunks: Seq<Seq<u8>>) -> Seq<u8>
    decreases chunks.len(),
{
    if chunks.len() == 0 {
        Seq::empty()
    } else {
        concat_bytes(chunks.drop_last()) + chunks.last()
    }
}

/// Digest of a file's content handed over as successive read chunks, in the
/// order a hashing worker read them.
pub fn digest_of_chunks(chunks: &Vec<Vec<u8>>) -> (r: Vec<u8>)
    ensures
        r@ == blake3_digest(concat_bytes(chunks_view(chunks@))),
        r@.len() == 32,
{
    let mut h = hasher_new();
    let mut i: usize = 0;
    while i < chunks.len()
        invariant
            i <= chunks@.len(),
            hasher_stream(h) == concat_bytes(chunks_view(chunks@).take(i as int)),
        decreases chunks@.len() - i,
    {
        hasher_update(&mut h, &chunks[i]);
        proof {
            let cv = chunks_view(chunks@);
            assert(cv.take(i + 1).drop_last() =~= cv.take(i as int));
            assert(cv.take(i + 1).last() == chunks@[i as int]@);
        }
        i += 1;
    }
    proof {
        assert(chunks_view(chunks@).take(chunks@.len() as int) =~= chunks_view(chunks@));
    }
    hasher_finalize(&h)
}

/// Content determines digest: two files whose byte streams are equal receive
/// equal recorded digests.
pub proof fn lemma_digest_content_determined(b1: Seq<u8>, b2: Seq<u8>)
    requires
        b1 == b2,
    ensures
        blake3_digest(b1) == blake3_digest(b2),
{
}

} // verus!
