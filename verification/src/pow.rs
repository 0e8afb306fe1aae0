use vstd::prelude::*;

use rayon::iter::{IntoParallelIterator, ParallelIterator};

verus! {

/// A block of data to find a proof of work for: a nonce whose hash, taken
/// together with the data, starts with `difficult` zero bytes.
pub struct Block {
    pub data: Vec<u8>,
    pub difficult: u32,
}

/// A block's data with the nonce found for it and the resulting hash.
pub struct BlockHash {
    pub data: Vec<u8>,
    pub nonce: u32,
    pub hash: Vec<u8>,
}

#[verifier::external_type_specification]
#[verifier::external_body]
pub struct ExHasher(blake3::Hasher);

/// The BLAKE3 hash of `data`.
pub uninterp spec fn blake3_digest(data: Seq<u8>) -> Seq<u8>;

/// The bytes fed to a hasher so far.
pub uninterp spec fn hasher_input(h: blake3::Hasher) -> Seq<u8>;

/// Calls `blake3::Hasher::new`: a hasher that has been fed nothing.
#[verifier::external_body]
fn hasher_new() -> (h: blake3::Hasher)
    ensures
        hasher_input(h) == Seq::<u8>::empty(),
{
    blake3::Hasher::new()
}

/// Calls `blake3::Hasher::update`: feeds `data` after what came before.
#[verifier::external_body]
fn hasher_update(h: &mut blake3::Hasher, data: &[u8])
    ensures
        hasher_input(*final(h)) == hasher_input(*old(h)) + data@,
{
    h.update(data);
}

/// Calls `Clone::clone` on a hasher: a hasher fed the same bytes.
#[verifier::external_body]
fn hasher_clone(h: &blake3::Hasher) -> (r: blake3::Hasher)
    ensures
        hasher_input(r) == hasher_input(*h),
{
    h.clone()
}

/// Calls `blake3::Hasher::finalize`: the 32-byte BLAKE3 hash of all the
/// bytes fed so far (an incremental hash equals the hash of the whole input).
#[verifier::external_body]
fn hasher_finalize(h: &blake3::Hasher) -> (r: Vec<u8>)
    ensures
        r@ == blake3_digest(hasher_input(*h)),
        r@.len() == 32,
{
    h.finalize().as_bytes().to_vec()
}

/// The four bytes of `n`, most significant first.
pub open spec fn u32_be_bytes(n: u32) -> Seq<u8> {
    seq![(n >> 24u32) as u8, (n >> 16u32) as u8, (n >> 8u32) as u8, n as u8]
}

/// Whether `hash` starts with `difficult` zero bytes.
pub open spec fn leading_zeros(hash: Seq<u8>, difficult: nat) -> bool {
    difficult <= hash.len() && forall|i: int| 0 <= i < difficult ==> hash[i] == 0
}

/// Whether `nonce` proves work for `data` at difficulty `difficult`.
pub open spec fn nonce_ok(data: Seq<u8>, nonce: u32, difficult: nat) -> bool {
    leading_zeros(blake3_digest(data + u32_be_bytes(nonce)), difficult)
}

/// A nonce proves work exactly when the hash of the data followed by the
/// nonce has a zero byte at each of the first `difficult` positions.
pub proof fn law_nonce_ok_zero_prefix(data: Seq<u8>, nonce: u32, difficult: nat)
    ensures
        nonce_ok(data, nonce, difficult) <==> {
            let h = blake3_digest(data + u32_be_bytes(nonce));
            &&& difficult <= h.len()
            &&& forall|i: int| 0 <= i < difficult ==> h[i] == 0
        },
{
}

/// A hasher fed `data`.
fn blake3_hash_data(data: &[u8]) -> (h: blake3::Hasher)
    ensures
        hasher_input(h) == data@,
{
    let mut hasher = hasher_new();
    hasher_update(&mut hasher, data);
    assert(Seq::<u8>::empty() + data@ =~= data@);
    hasher
}

/// The hash of what `hasher` was fed followed by the big-endian `nonce`.
fn blake3_hash(hasher: blake3::Hasher, nonce: u32) -> (r: Vec<u8>)
    ensures
        r@ == blake3_digest(hasher_input(hasher) + u32_be_bytes(nonce)),
        r@.len() == 32,
{
    let mut hasher = hasher;
    let bytes: [u8; 4] = [(nonce >> 24u32) as u8, (nonce >> 16u32) as u8, (nonce >> 8u32) as u8, nonce as u8];
    let b: &[u8] = &bytes;
    assert(b@ =~= u32_be_bytes(nonce));
    hasher_update(&mut hasher, b);
    hasher_finalize(&hasher)
}

/// Whether `nonce` proves work for what `hasher` was fed.
pub(crate) fn nonce_meets(hasher: &blake3::Hasher, nonce: u32, difficult: u32) -> (r: bool)
    requires
        difficult <= 32,
    ensures
        r == nonce_ok(hasher_input(*hasher), nonce, difficult as nat),
{
    let hash = blake3_hash(hasher_clone(hasher), nonce);
    let mut i: usize = 0;
    while i < difficult as usize
        invariant
            difficult <= 32,
            hash@.len() == 32,
            hash@ == blake3_digest(hasher_input(*hasher) + u32_be_bytes(nonce)),
            i <= difficult,
            forall|j: int| 0 <= j < i ==> hash@[j] == 0,
        decreases difficult - i,
    {
        if hash[i] != 0 {
            assert(!leading_zeros(hash@, difficult as nat)) by {
                assert(hash@[i as int] != 0);
            }
            return false;
        }
        i = i + 1;
    }
    true
}

/// Calls rayon's `find_any` over the nonces `lo..hi` in parallel, testing
/// each with `nonce_meets`. Which matching nonce comes back depends on how
/// the threads run; any that comes back is in the range and matches, and
/// `None` comes back only when none in the range does.
#[verifier::external_body]
fn find_any_nonce(hasher: &blake3::Hasher, lo: u32, hi: u32, difficult: u32) -> (r: Option<u32>)
    requires
        difficult <= 32,
    ensures
        r matches Some(n) ==> lo <= n < hi && nonce_ok(hasher_input(*hasher), n, difficult as nat),
        r is None ==> forall|n: u32|
            lo <= n < hi ==> !nonce_ok(hasher_input(*hasher), n, difficult as nat),
{
    (lo..hi).into_par_iter().find_any(|n| nonce_meets(hasher, *n, difficult))
}

/// Searches for a nonce that proves work for `block`; the result carries the
/// block's data, the nonce and the hash of the data followed by the nonce.
/// `None` where no nonce below `u32::MAX` does.
pub fn do_pow(block: Block) -> (r: Option<BlockHash>)
    requires
        block.difficult <= 32,
    ensures
        r matches Some(bh) ==> {
            &&& bh.data == block.data
            &&& bh.nonce < u32::MAX
            &&& bh.hash@ == blake3_digest(block.data@ + u32_be_bytes(bh.nonce))
            &&& leading_zeros(bh.hash@, block.difficult as nat)
            &&& bh.hash@.len() == 32
            &&& forall|i: int| 0 <= i < block.difficult ==> bh.hash@[i] == 0
        },
        r is None ==> forall|n: u32| n < u32::MAX ==> !nonce_ok(block.data@, n, block.difficult as nat),
{
    let hasher = blake3_hash_data(block.data.as_slice());
    let nonce = find_any_nonce(&hasher, 0, u32::MAX, block.difficult);
    match nonce {
        Some(nonce) => {
            let hash = blake3_hash(hasher_clone(&hasher), nonce);
            Some(BlockHash { data: block.data, nonce, hash })
        },
        None => None,
    }
}

} // verus!
