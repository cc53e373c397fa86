use vstd::prelude::*;
use sha2::{Digest, Sha256};
use crate::searcher::checker::Checker;

verus! {

/// The SHA-256 digest of `data` as computed by the `sha2` crate.
pub uninterp spec fn sha256(data: Seq<u8>) -> Seq<u8>;

/// `<sha2::Sha256 as Digest>::digest`: hashes `data` in one call. Its output
/// type has 32 bytes (the output size of `Sha256` is `U32`); the bytes are
/// named by `sha256` and not stated further.
#[verifier::external_body]
fn sha256_digest(data: &Vec<u8>) -> (r: Vec<u8>)
    ensures
        r@ == sha256(data@),
        r@.len() == 32,
{
    Sha256::digest(data.as_slice()).to_vec()
}

/// Lexicographic order on byte strings, as `<` on `Vec<u8>` orders them:
/// the first differing byte decides, and a proper prefix is smaller.
pub open spec fn bytes_lt(a: Seq<u8>, b: Seq<u8>) -> bool
    decreases a.len(),
{
    if a.len() == 0 {
        b.len() > 0
    } else if b.len() == 0 {
        false
    } else if a[0] < b[0] {
        true
    } else if a[0] > b[0] {
        false
    } else {
        bytes_lt(a.drop_first(), b.drop_first())
    }
}

proof fn lemma_bytes_lt_step(a: Seq<u8>, b: Seq<u8>, i: int)
    requires
        0 <= i < a.len(),
        i < b.len(),
        a[i] == b[i],
    ensures
        bytes_lt(a.skip(i), b.skip(i)) == bytes_lt(a.skip(i + 1), b.skip(i + 1)),
{
    assert(a.skip(i).drop_first() =~= a.skip(i + 1));
    assert(b.skip(i).drop_first() =~= b.skip(i + 1));
}

/// No digest of 32 bytes lies below the limit of 32 zero bytes, so a
/// checker with that limit accepts no nonce.
pub proof fn law_nothing_below_zero_limit(digest: Seq<u8>)
    requires
        digest.len() == 32,
    ensures
        !bytes_lt(digest, Seq::new(32, |_i: int| 0u8)),
{
    lemma_not_below_zeros(digest, 32);
}

proof fn lemma_not_below_zeros(a: Seq<u8>, n: nat)
    requires
        a.len() >= n,
    ensures
        !bytes_lt(a, Seq::new(n, |_i: int| 0u8)),
    decreases n,
{
    let z = Seq::new(n, |_i: int| 0u8);
    if n > 0 {
        assert(z.drop_first() =~= Seq::new((n - 1) as nat, |_i: int| 0u8));
        lemma_not_below_zeros(a.drop_first(), (n - 1) as nat);
    }
}

/// Whether `a` is lexicographically smaller than `b`.
pub fn bytes_less(a: &Vec<u8>, b: &Vec<u8>) -> (r: bool)
    ensures
        r == bytes_lt(a@, b@),
{
    let mut i: usize = 0;
    assert(a@.skip(0) =~= a@);
    assert(b@.skip(0) =~= b@);
    while i < a.len() && i < b.len()
        invariant
            i <= a@.len(),
            i <= b@.len(),
            bytes_lt(a@, b@) == bytes_lt(a@.skip(i as int), b@.skip(i as int)),
        decreases a@.len() - i,
    {
        if a[i] < b[i] {
            return true;
        } else if a[i] > b[i] {
            return false;
        }
        proof {
            lemma_bytes_lt_step(a@, b@, i as int);
        }
        i += 1;
    }
    i < b.len()
}

/// Whether `hash` lies below `limit` in the order of `<` on byte vectors.
pub fn hash_below_limit(hash: &Vec<u8>, limit: &[u8; 32]) -> (r: bool)
    ensures
        r == bytes_lt(hash@, limit@),
{
    let mut l: Vec<u8> = Vec::new();
    let mut i: usize = 0;
    while i < 32
        invariant
            i <= 32,
            l@ == limit@.take(i as int),
        decreases 32 - i,
    {
        l.push(limit[i]);
        assert(l@ =~= limit@.take(i + 1));
        i += 1;
    }
    assert(l@ =~= limit@);
    bytes_less(hash, &l)
}

/// Accepts a nonce when the SHA-256 digest of the stored data followed by the
/// nonce is below the limit.
pub struct SHA256Checker {
    data: Vec<u8>,
    limit: [u8; 32],
}

impl SHA256Checker {
    /// The data that the nonce is appended to.
    pub closed spec fn data_view(&self) -> Seq<u8> {
        self.data@
    }

    /// The limit that the digest must stay below.
    pub closed spec fn limit_view(&self) -> Seq<u8> {
        self.limit@
    }

    pub fn init(data: Vec<u8>, limit: [u8; 32]) -> (r: SHA256Checker)
        ensures
            r.data_view() == data@,
            r.limit_view() == limit@,
    {
        SHA256Checker { data, limit }
    }
}

impl Checker for SHA256Checker {
    /// The digest of the data followed by the result is below the limit.
    open spec fn accepts(&self, result: Seq<u8>) -> bool {
        bytes_lt(sha256(self.data_view() + result), self.limit_view())
    }

    fn check_nonce(&self, result: Vec<u8>) -> (r: bool)
        ensures
            sha256(self.data_view() + result@).len() == 32,
            self.limit_view() == Seq::new(32, |_i: int| 0u8) ==> !r,
    {
        let mut result = result;
        let mut data: Vec<u8> = Vec::new();
        let mut i: usize = 0;
        while i < self.data.len()
            invariant
                i <= self.data@.len(),
                data@ == self.data@.take(i as int),
            decreases self.data@.len() - i,
        {
            data.push(self.data[i]);
            assert(data@ =~= self.data@.take(i + 1));
            i += 1;
        }
        assert(data@ =~= self.data@);
        data.append(&mut result);
        let hash = sha256_digest(&data);
        proof {
            if self.limit_view() == Seq::new(32, |_i: int| 0u8) {
                law_nothing_below_zero_limit(hash@);
            }
        }
        hash_below_limit(&hash, &self.limit)
    }
}

} // verus!
