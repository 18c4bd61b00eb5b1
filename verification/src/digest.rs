//! Content digests: what byte sequence is hashed for a file's leading block
//! and for its whole content, and the verified padding that produces it.

use vstd::prelude::*;

verus! {

/// Size in bytes of the hashing block: the partial digest covers exactly one
/// block, and the full digest processes the content block by block.
pub const BLOCK_LEN: usize = 65536;

/// The SHA-256 digest of a byte sequence, determined by the bytes alone.
/// The digest itself is computed by outside code; nothing here states what
/// its value is, only that equal inputs give equal digests.
pub uninterp spec fn sha256_of(data: Seq<u8>) -> Seq<u8>;

/// Relies on sha2::Sha256 through digest's `Digest::digest`: computes the
/// SHA-256 digest of `data`, always 32 bytes, a function of the input alone.
#[verifier::external_body]
fn sha256(data: &[u8]) -> (r: Vec<u8>)
    ensures
        r@ == sha256_of(data@),
        r@.len() == 32,
{
    let out: sha2::digest::Output<sha2::Sha256> = <sha2::Sha256 as sha2::Digest>::digest(data);
    out.to_vec()
}

/// `data` extended with zero bytes up to length `n` (or unchanged if already longer).
pub open spec fn zero_pad(data: Seq<u8>, n: int) -> Seq<u8> {
    if data.len() >= n {
        data
    } else {
        data + Seq::new((n - data.len()) as nat, |i: int| 0u8)
    }
}

/// The byte sequence actually hashed for the partial digest: the leading
/// block of the content, zero-padded to a whole block when the content is
/// shorter. A full block is hashed even for short or empty content, so
/// trailing bytes beyond the real content count as zeros.
pub open spec fn partial_input(content: Seq<u8>) -> Seq<u8> {
    if content.len() <= BLOCK_LEN {
        zero_pad(content, BLOCK_LEN as int)
    } else {
        content.take(BLOCK_LEN as int)
    }
}

/// The digest the hasher assigns to a file's leading block.
pub open spec fn spec_partial_digest(content: Seq<u8>) -> Seq<u8> {
    sha256_of(partial_input(content))
}

/// The byte sequence actually hashed for the full digest: the whole content,
/// zero-padded up to the next multiple of the block size. Empty content hashes
/// as the empty sequence (no block is processed at all).
pub open spec fn full_input(content: Seq<u8>) -> Seq<u8> {
    zero_pad(content, ((content.len() + BLOCK_LEN - 1) / (BLOCK_LEN as int)) * (BLOCK_LEN as int))
}

/// The digest the hasher assigns to a file's entire content.
pub open spec fn spec_full_digest(content: Seq<u8>) -> Seq<u8> {
    sha256_of(full_input(content))
}

/// Digest of the leading block of `content`: the first `BLOCK_LEN` bytes,
/// zero-padded to a whole block when fewer are available.
pub fn partial_digest(content: &[u8]) -> (r: Vec<u8>)
    ensures
        r@ == spec_partial_digest(content@),
        r@.len() == 32,
{
    let n: usize = if content.len() <= BLOCK_LEN {
        content.len()
    } else {
        BLOCK_LEN
    };
    let mut buf: Vec<u8> = Vec::new();
    let mut i: usize = 0;
    while i < n
        invariant
            i <= n,
            n <= content@.len(),
            n == (if content@.len() <= BLOCK_LEN { content@.len() as int } else { BLOCK_LEN as int }),
            buf@ == content@.take(i as int),
        decreases n - i,
    {
        buf.push(content[i]);
        i += 1;
        proof {
            assert(buf@ =~= content@.take(i as int));
        }
    }
    while buf.len() < BLOCK_LEN
        invariant
            n <= buf@.len() <= BLOCK_LEN,
            n == (if content@.len() <= BLOCK_LEN { content@.len() as int } else { BLOCK_LEN as int }),
            buf@ == zero_pad(content@.take(n as int), buf@.len() as int),
        decreases BLOCK_LEN - buf@.len(),
    {
        buf.push(0u8);
        proof {
            assert(buf@ =~= zero_pad(content@.take(n as int), buf@.len() as int));
        }
    }
    proof {
        if content@.len() <= BLOCK_LEN {
            assert(content@.take(n as int) =~= content@);
            assert(buf@ =~= partial_input(content@));
        } else {
            assert(buf@ =~= partial_input(content@));
        }
    }
    sha256(buf.as_slice())
}

/// Digest of the entire `content`, processed in whole blocks with the final
/// short block zero-padded, exactly as `spec_full_digest` states.
pub fn full_digest(content: &[u8]) -> (r: Vec<u8>)
    requires
        content@.len() + BLOCK_LEN <= usize::MAX,
    ensures
        r@ == spec_full_digest(content@),
        r@.len() == 32,
{
    let len = content.len();
    let rem = len % BLOCK_LEN;
    let target: usize = if rem == 0 { len } else { len + (BLOCK_LEN - rem) };
    proof {
        assert(target == ((content@.len() + BLOCK_LEN - 1) / (BLOCK_LEN as int)) * (BLOCK_LEN as int))
            by (nonlinear_arith)
            requires
                target == (if content@.len() as int % (BLOCK_LEN as int) == 0 {
                    content@.len() as int
                } else {
                    content@.len() as int + (BLOCK_LEN as int - content@.len() as int % (BLOCK_LEN as int))
                }),
                BLOCK_LEN == 65536,
        ;
    }
    let mut buf: Vec<u8> = Vec::new();
    let mut i: usize = 0;
    while i < len
        invariant
            i <= len,
            len == content@.len(),
            buf@ == content@.take(i as int),
        decreases len - i,
    {
        buf.push(content[i]);
        i += 1;
        proof {
            assert(buf@ =~= content@.take(i as int));
        }
    }
    proof {
        assert(content@.take(len as int) =~= content@);
    }
    while buf.len() < target
        invariant
            content@.len() <= buf@.len() <= target,
            buf@ == zero_pad(content@, buf@.len() as int),
        decreases target - buf@.len(),
    {
        buf.push(0u8);
        proof {
            assert(buf@ =~= zero_pad(content@, buf@.len() as int));
        }
    }
    proof {
        assert(buf@ =~= full_input(content@));
    }
    sha256(buf.as_slice())
}

} // verus!
