use vstd::prelude::*;

verus! {

/// Buffer size for reading files in bytes
pub const BUFFER_SIZE: usize = 8192;

#[verifier::external_type_specification]
#[verifier::external_body]
pub struct ExHasher(blake3::Hasher);

/// The BLAKE3 digest of `content`, written as 64 lowercase hexadecimal
/// digits.
pub uninterp spec fn blake3_hex(content: Seq<u8>) -> Seq<char>;

/// The bytes that a hasher has been fed since it was made, in order.
pub uninterp spec fn absorbed(hasher: blake3::Hasher) -> Seq<u8>;

/// `blake3::Hasher::new`: a hasher for the regular hash function, which has
/// been fed nothing yet.
#[verifier::external_body]
fn hasher_new() -> (hasher: blake3::Hasher)
    ensures
        absorbed(hasher) == Seq::<u8>::empty(),
{
    blake3::Hasher::new()
}

/// `blake3::Hasher::update`: feeds `input` to the hasher, after what it was
/// fed before. Trusted for hashers that `hasher_new` made, the only ones
/// that this crate holds.
#[verifier::external_body]
fn hasher_update(hasher: &mut blake3::Hasher, input: &[u8])
    ensures
        absorbed(*final(hasher)) == absorbed(*old(hasher)) + input@,
{
    hasher.update(input);
}

/// `blake3::Hasher::finalize`, then `Hash::to_hex`: the digest of all that
/// the hasher was fed, however it was cut into pieces. The hasher is left as
/// it was. Trusted for hashers that `hasher_new` made.
#[verifier::external_body]
fn hasher_finalize_hex(hasher: &blake3::Hasher) -> (hex: String)
    ensures
        hex@ == blake3_hex(absorbed(*hasher)),
{
    hasher.finalize().to_hex().to_string()
}

/// Hashes content that arrives in pieces, such as a file read through a
/// buffer of [`BUFFER_SIZE`] bytes, in memory that does not grow with the
/// content.
pub struct ContentHasher {
    inner: blake3::Hasher,
}

impl ContentHasher {
    /// All the bytes fed so far.
    pub closed spec fn content(&self) -> Seq<u8> {
        absorbed(self.inner)
    }

    pub fn new() -> (hasher: Self)
        ensures
            hasher.content() == Seq::<u8>::empty(),
    {
        ContentHasher { inner: hasher_new() }
    }

    /// Feeds the next piece of the content.
    pub fn update(&mut self, chunk: &[u8])
        ensures
            final(self).content() == old(self).content() + chunk@,
    {
        hasher_update(&mut self.inner, chunk);
    }

    /// The hash of the content fed so far.
    pub fn finish(&self) -> (hex: String)
        ensures
            hex@ == blake3_hex(self.content()),
    {
        hasher_finalize_hex(&self.inner)
    }
}

/// Compute a BLAKE3 hash of a byte slice, returned as a hex string
pub fn hash_content(content: &[u8]) -> (hex: String)
    ensures
        hex@ == blake3_hex(content@),
{
    let mut hasher = ContentHasher::new();
    hasher.update(content);
    assert(Seq::<u8>::empty() + content@ =~= content@);
    hasher.finish()
}

/// Compute the BLAKE3 hash of content given in pieces: the hash of the
/// pieces joined, wherever the cuts are.
pub fn hash_chunks(chunks: &[Vec<u8>]) -> (hex: String)
    ensures
        hex@ == blake3_hex(chunks.deep_view().flatten()),
{
    let ghost pieces = chunks.deep_view();
    let mut hasher = ContentHasher::new();
    let mut i: usize = 0;
    assert(pieces.take(0) =~= Seq::<Seq<u8>>::empty());
    while i < chunks.len()
        invariant
            i <= chunks.len(),
            pieces == chunks.deep_view(),
            hasher.content() == pieces.take(i as int).flatten(),
        decreases chunks.len() - i,
    {
        hasher.update(chunks[i].as_slice());
        proof {
            let fed = pieces.take(i as int);
            assert(chunks[i as int].deep_view() =~= chunks[i as int]@);
            assert(pieces.take(i as int + 1) =~= fed.push(chunks[i as int]@));
            fed.lemma_flatten_push(chunks[i as int]@);
        }
        i += 1;
    }
    assert(pieces.take(i as int) =~= pieces);
    hasher.finish()
}

} // verus!
