use vstd::prelude::*;

use vstd::bytes::{lemma_auto_spec_u128_to_from_le_bytes, spec_u128_to_le_bytes, u128_to_le_bytes};

use crate::types::AccountId;

verus! {

/// The 64-bit xxHash (seed 0) of `data`, as 8 little-endian bytes.
pub uninterp spec fn twox_64_of(data: Seq<u8>) -> Seq<u8>;

/// `sp_crypto_hashing::twox_64`: the xxHash64 of `data` with seed 0, as 8
/// little-endian bytes. The contract only names the result; its 8 bytes
/// come from the return type.
#[verifier::external_body]
fn twox_64(data: &[u8]) -> (h: [u8; 8])
    ensures
        h@ == twox_64_of(data@),
{
    sp_crypto_hashing::twox_64(data)
}

/// The storage-key part that a `Twox64Concat` hasher makes of an account:
/// the xxHash64 of its SCALE encoding (16 little-endian bytes), then the
/// encoding itself.
pub open spec fn account_key(who: AccountId) -> Seq<u8> {
    twox_64_of(spec_u128_to_le_bytes(who)) + spec_u128_to_le_bytes(who)
}

/// `x` and `y` agree on their first `i` bytes.
pub open spec fn agree_below(x: Seq<u8>, y: Seq<u8>, i: int) -> bool {
    forall|j: int| 0 <= j < i ==> #[trigger] x[j] == y[j]
}

/// `x` and `y` first differ at `i`, where `x` has the smaller byte.
pub open spec fn first_smaller_at(x: Seq<u8>, y: Seq<u8>, i: int) -> bool {
    &&& 0 <= i < x.len()
    &&& i < y.len()
    &&& x[i] < y[i]
    &&& agree_below(x, y, i)
}

/// Byte-wise lexicographic order, the order in which storage keys are
/// walked.
#[verifier::opaque]
pub open spec fn key_less(x: Seq<u8>, y: Seq<u8>) -> bool {
    exists|i: int| #[trigger] first_smaller_at(x, y, i)
}

pub proof fn lemma_key_less_irreflexive(x: Seq<u8>)
    ensures
        !key_less(x, x),
{
    reveal(key_less);
}

pub proof fn lemma_key_less_transitive(x: Seq<u8>, y: Seq<u8>, z: Seq<u8>)
    requires
        key_less(x, y),
        key_less(y, z),
    ensures
        key_less(x, z),
{
    reveal(key_less);
    let i = choose|i: int| #[trigger] first_smaller_at(x, y, i);
    let k = choose|k: int| #[trigger] first_smaller_at(y, z, k);
    if i < k {
        assert(y[i] == z[i]);
        assert(first_smaller_at(x, z, i));
    } else if k < i {
        assert(x[k] == y[k]);
        assert(first_smaller_at(x, z, k));
    } else {
        assert(first_smaller_at(x, z, i));
    }
}

/// Two different keys of the same length are ordered one way or the other.
pub proof fn lemma_key_less_total(x: Seq<u8>, y: Seq<u8>)
    requires
        x.len() == y.len(),
        x != y,
    ensures
        key_less(x, y) || key_less(y, x),
{
    lemma_key_less_total_from(x, y, 0);
}

proof fn lemma_key_less_total_from(x: Seq<u8>, y: Seq<u8>, i: int)
    requires
        x.len() == y.len(),
        x != y,
        0 <= i <= x.len(),
        agree_below(x, y, i),
    ensures
        key_less(x, y) || key_less(y, x),
    decreases x.len() - i,
{
    reveal(key_less);
    if i == x.len() {
        assert(x =~= y);
    } else if x[i] < y[i] {
        assert(first_smaller_at(x, y, i));
    } else if y[i] < x[i] {
        assert(first_smaller_at(y, x, i));
    } else {
        lemma_key_less_total_from(x, y, i + 1);
    }
}

/// Different accounts have different keys, of the same length once their
/// hashes are 8 bytes long.
pub proof fn lemma_account_key_injective(a: AccountId, b: AccountId)
    requires
        twox_64_of(spec_u128_to_le_bytes(a)).len() == 8,
        twox_64_of(spec_u128_to_le_bytes(b)).len() == 8,
    ensures
        account_key(a).len() == 24,
        account_key(b).len() == 24,
        a != b ==> account_key(a) != account_key(b),
{
    lemma_auto_spec_u128_to_from_le_bytes();
    if a != b && account_key(a) == account_key(b) {
        assert(account_key(a).subrange(8, 24) =~= spec_u128_to_le_bytes(a));
        assert(account_key(b).subrange(8, 24) =~= spec_u128_to_le_bytes(b));
    }
}

/// The storage key of `who`, with its hash part of 8 bytes.
pub fn account_storage_key(who: AccountId) -> (k: Vec<u8>)
    ensures
        k@ == account_key(who),
        k@.len() == 24,
        twox_64_of(spec_u128_to_le_bytes(who)).len() == 8,
{
    proof {
        lemma_auto_spec_u128_to_from_le_bytes();
    }
    let encoded: Vec<u8> = u128_to_le_bytes(who);
    let hash: [u8; 8] = twox_64(encoded.as_slice());
    let mut k: Vec<u8> = Vec::new();
    let mut i: usize = 0;
    while i < 8
        invariant
            i <= 8,
            hash@.len() == 8,
            k@ == hash@.subrange(0, i as int),
        decreases 8 - i,
    {
        k.push(hash[i]);
        i = i + 1;
        assert(k@ =~= hash@.subrange(0, i as int));
    }
    let mut j: usize = 0;
    while j < 16
        invariant
            j <= 16,
            hash@.len() == 8,
            encoded@.len() == 16,
            k@ == hash@ + encoded@.subrange(0, j as int),
        decreases 16 - j,
    {
        k.push(encoded[j]);
        j = j + 1;
        assert(k@ =~= hash@ + encoded@.subrange(0, j as int));
    }
    assert(encoded@.subrange(0, 16) =~= encoded@);
    k
}

/// Whether key `x` comes before key `y` of the same length.
pub fn key_precedes(x: &Vec<u8>, y: &Vec<u8>) -> (r: bool)
    requires
        x@.len() == y@.len(),
    ensures
        r == key_less(x@, y@),
{
    reveal(key_less);
    let n: usize = x.len();
    let mut i: usize = 0;
    while i < n
        invariant
            n == x@.len(),
            n == y@.len(),
            i <= n,
            agree_below(x@, y@, i as int),
        decreases n - i,
    {
        if x[i] != y[i] {
            if x[i] < y[i] {
                assert(first_smaller_at(x@, y@, i as int));
                proof {
                    reveal(key_less);
                }
                return true;
            } else {
                assert forall|k: int| !#[trigger] first_smaller_at(x@, y@, k) by {
                    if first_smaller_at(x@, y@, k) && k > i {
                        assert(x@[i as int] == y@[i as int]);
                    }
                }
                proof {
                    reveal(key_less);
                }
                return false;
            }
        }
        i = i + 1;
    }
    assert forall|k: int| !#[trigger] first_smaller_at(x@, y@, k) by {
        if first_smaller_at(x@, y@, k) {
            assert(x@[k] == y@[k]);
        }
    }
    proof {
        reveal(key_less);
    }
    false
}

} // verus!
