use vstd::prelude::*;

verus! {

/// Cost of executing a call: reference time and proof size.
#[derive(Clone, Copy, Debug, PartialEq, Eq, Structural)]
pub struct Weight {
    pub ref_time: u64,
    pub proof_size: u64,
}

pub open spec fn saturating_add_u64(a: u64, b: u64) -> u64 {
    if a + b > u64::MAX {
        u64::MAX
    } else {
        (a + b) as u64
    }
}

pub open spec fn saturating_mul_u64(a: u64, b: u64) -> u64 {
    if a * b > u64::MAX {
        u64::MAX
    } else {
        (a * b) as u64
    }
}

impl Weight {
    pub fn from_parts(ref_time: u64, proof_size: u64) -> (w: Weight)
        ensures
            w == (Weight { ref_time, proof_size }),
    {
        Weight { ref_time, proof_size }
    }

    /// Component-wise saturating sum, computed by `sp_weights::Weight::saturating_add`:
    /// each component is the sum, capped at `u64::MAX`.
    #[verifier::external_body]
    pub(crate) fn saturating_add(self, rhs: Weight) -> (w: Weight)
        ensures
            w == (Weight {
                ref_time: saturating_add_u64(self.ref_time, rhs.ref_time),
                proof_size: saturating_add_u64(self.proof_size, rhs.proof_size),
            }),
    {
        let w = sp_weights::Weight::from_parts(self.ref_time, self.proof_size).saturating_add(
            sp_weights::Weight::from_parts(rhs.ref_time, rhs.proof_size),
        );
        Weight { ref_time: w.ref_time(), proof_size: w.proof_size() }
    }
}

/// Reference time of one storage read and of one storage write.
#[derive(Clone, Copy, Debug, PartialEq, Eq, Structural)]
pub struct RuntimeDbWeight {
    pub read: u64,
    pub write: u64,
}

impl RuntimeDbWeight {
    /// Weight of `r` reads, computed by `sp_weights::RuntimeDbWeight::reads`:
    /// `read * r` reference time, capped at `u64::MAX`, and no proof size.
    #[verifier::external_body]
    pub(crate) fn reads(self, r: u64) -> (w: Weight)
        ensures
            w == (Weight { ref_time: saturating_mul_u64(self.read, r), proof_size: 0 }),
    {
        let w = sp_weights::RuntimeDbWeight { read: self.read, write: self.write }.reads(r);
        Weight { ref_time: w.ref_time(), proof_size: w.proof_size() }
    }

    /// Weight of `w` writes, computed by `sp_weights::RuntimeDbWeight::writes`:
    /// `write * w` reference time, capped at `u64::MAX`, and no proof size.
    #[verifier::external_body]
    pub(crate) fn writes(self, w: u64) -> (r: Weight)
        ensures
            r == (Weight { ref_time: saturating_mul_u64(self.write, w), proof_size: 0 }),
    {
        let r = sp_weights::RuntimeDbWeight { read: self.read, write: self.write }.writes(w);
        Weight { ref_time: r.ref_time(), proof_size: r.proof_size() }
    }
}

/// Storage costs of RocksDB: 25 microseconds per read and 100 microseconds
/// per write, in reference-time units of a picosecond.
pub fn rocks_db_weight() -> (d: RuntimeDbWeight)
    ensures
        d == (RuntimeDbWeight { read: 25_000_000, write: 100_000_000 }),
{
    RuntimeDbWeight { read: 25_000 * 1_000, write: 100_000 * 1_000 }
}

/// Weight of a benchmarked call: its measured reference time plus the cost
/// of its storage reads and writes (each sum and product capped at
/// `u64::MAX`), and its measured proof size.
pub open spec fn benchmarked(ref_time: u64, proof_size: u64, reads: u64, writes: u64, db: RuntimeDbWeight) -> Weight {
    Weight {
        ref_time: saturating_add_u64(
            saturating_add_u64(ref_time, saturating_mul_u64(db.read, reads)),
            saturating_mul_u64(db.write, writes),
        ),
        proof_size,
    }
}

/// Weights of the calls of the NFT pallet.
pub trait WeightInfo {
    /// The storage costs the weights are computed with.
    spec fn db_weight(&self) -> RuntimeDbWeight;

    fn db(&self) -> (d: RuntimeDbWeight)
        ensures
            d == self.db_weight(),
    ;

    /// Creating a group collection.
    fn create_group(&self) -> (w: Weight)
        ensures
            w == benchmarked(12_179_000, 1317, 2, 3, self.db_weight()),
    ;
    /// Creating an NFT class.
    fn create_class(&self) -> (w: Weight)
        ensures
            w == benchmarked(27_797_000, 7417, 3, 4, self.db_weight()),
    ;
    /// Minting NFTs.
    fn mint(&self) -> (w: Weight)
        ensures
            w == benchmarked(54_185_000, 23976, 8, 10, self.db_weight()),
    ;
    /// Minting a stackable NFT.
    fn mint_stackable_nft(&self) -> (w: Weight)
        ensures
            w == benchmarked(41_846_000, 15931, 5, 8, self.db_weight()),
    ;
    /// Transferring an NFT.
    fn transfer(&self) -> (w: Weight)
        ensures
            w == benchmarked(32_122_000, 17187, 5, 3, self.db_weight()),
    ;
    /// Transferring a stackable NFT.
    fn transfer_stackable_nft(&self) -> (w: Weight)
        ensures
            w == benchmarked(28_373_000, 11790, 4, 2, self.db_weight()),
    ;
    /// Transferring a batch of NFTs.
    fn transfer_batch(&self) -> (w: Weight)
        ensures
            w == benchmarked(112_127_000, 25680, 8, 6, self.db_weight()),
    ;
    /// Signing (supporting) an asset.
    fn sign_asset(&self) -> (w: Weight)
        ensures
            w == benchmarked(38_782_000, 11890, 4, 3, self.db_weight()),
    ;
    /// Setting the hard limit of a class.
    fn set_hard_limit(&self) -> (w: Weight)
        ensures
            w == benchmarked(15_065_000, 2757, 1, 1, self.db_weight()),
    ;
    /// Withdrawing funds from a class fund.
    fn withdraw_funds_from_class_fund(&self) -> (w: Weight)
        ensures
            w == benchmarked(25_576_000, 8268, 3, 2, self.db_weight()),
    ;
    /// Forcing an update of a class's total issuance.
    fn force_update_total_issuance(&self) -> (w: Weight)
        ensures
            w == benchmarked(11_211_000, 2757, 1, 1, self.db_weight()),
    ;
}

/// Weights measured on the reference hardware, with the storage costs of
/// the runtime.
#[derive(Clone, Copy, Debug, PartialEq, Eq, Structural)]
pub struct SubstrateWeight {
    pub db_weight: RuntimeDbWeight,
}

impl WeightInfo for SubstrateWeight {
    open spec fn db_weight(&self) -> RuntimeDbWeight {
        self.db_weight
    }

    fn db(&self) -> (d: RuntimeDbWeight) {
        self.db_weight
    }

    fn create_group(&self) -> (w: Weight) {
        Weight::from_parts(12_179_000, 1317).saturating_add(self.db().reads(2)).saturating_add(
            self.db().writes(3),
        )
    }
    fn create_class(&self) -> (w: Weight) {
        Weight::from_parts(27_797_000, 7417).saturating_add(self.db().reads(3)).saturating_add(
            self.db().writes(4),
        )
    }
    fn mint(&self) -> (w: Weight) {
        Weight::from_parts(54_185_000, 23976).saturating_add(self.db().reads(8)).saturating_add(
            self.db().writes(10),
        )
    }
    fn mint_stackable_nft(&self) -> (w: Weight) {
        Weight::from_parts(41_846_000, 15931).saturating_add(self.db().reads(5)).saturating_add(
            self.db().writes(8),
        )
    }
    fn transfer(&self) -> (w: Weight) {
        Weight::from_parts(32_122_000, 17187).saturating_add(self.db().reads(5)).saturating_add(
            self.db().writes(3),
        )
    }
    fn transfer_stackable_nft(&self) -> (w: Weight) {
        Weight::from_parts(28_373_000, 11790).saturating_add(self.db().reads(4)).saturating_add(
            self.db().writes(2),
        )
    }
    fn transfer_batch(&self) -> (w: Weight) {
        Weight::from_parts(112_127_000, 25680).saturating_add(self.db().reads(8)).saturating_add(
            self.db().writes(6),
        )
    }
    fn sign_asset(&self) -> (w: Weight) {
        Weight::from_parts(38_782_000, 11890).saturating_add(self.db().reads(4)).saturating_add(
            self.db().writes(3),
        )
    }
    fn set_hard_limit(&self) -> (w: Weight) {
        Weight::from_parts(15_065_000, 2757).saturating_add(self.db().reads(1)).saturating_add(
            self.db().writes(1),
        )
    }
    fn withdraw_funds_from_class_fund(&self) -> (w: Weight) {
        Weight::from_parts(25_576_000, 8268).saturating_add(self.db().reads(3)).saturating_add(
            self.db().writes(2),
        )
    }
    fn force_update_total_issuance(&self) -> (w: Weight) {
        Weight::from_parts(11_211_000, 2757).saturating_add(self.db().reads(1)).saturating_add(
            self.db().writes(1),
        )
    }
}

/// The same weights with the storage costs of RocksDB.
impl WeightInfo for () {
    open spec fn db_weight(&self) -> RuntimeDbWeight {
        RuntimeDbWeight { read: 25_000_000, write: 100_000_000 }
    }

    fn db(&self) -> (d: RuntimeDbWeight) {
        rocks_db_weight()
    }

    fn create_group(&self) -> (w: Weight) {
        Weight::from_parts(12_179_000, 1317).saturating_add(self.db().reads(2)).saturating_add(
            self.db().writes(3),
        )
    }
    fn create_class(&self) -> (w: Weight) {
        Weight::from_parts(27_797_000, 7417).saturating_add(self.db().reads(3)).saturating_add(
            self.db().writes(4),
        )
    }
    fn mint(&self) -> (w: Weight) {
        Weight::from_parts(54_185_000, 23976).saturating_add(self.db().reads(8)).saturating_add(
            self.db().writes(10),
        )
    }
    fn mint_stackable_nft(&self) -> (w: Weight) {
        Weight::from_parts(41_846_000, 15931).saturating_add(self.db().reads(5)).saturating_add(
            self.db().writes(8),
        )
    }
    fn transfer(&self) -> (w: Weight) {
        Weight::from_parts(32_122_000, 17187).saturating_add(self.db().reads(5)).saturating_add(
            self.db().writes(3),
        )
    }
    fn transfer_stackable_nft(&self) -> (w: Weight) {
        Weight::from_parts(28_373_000, 11790).saturating_add(self.db().reads(4)).saturating_add(
            self.db().writes(2),
        )
    }
    fn transfer_batch(&self) -> (w: Weight) {
        Weight::from_parts(112_127_000, 25680).saturating_add(self.db().reads(8)).saturating_add(
            self.db().writes(6),
        )
    }
    fn sign_asset(&self) -> (w: Weight) {
        Weight::from_parts(38_782_000, 11890).saturating_add(self.db().reads(4)).saturating_add(
            self.db().writes(3),
        )
    }
    fn set_hard_limit(&self) -> (w: Weight) {
        Weight::from_parts(15_065_000, 2757).saturating_add(self.db().reads(1)).saturating_add(
            self.db().writes(1),
        )
    }
    fn withdraw_funds_from_class_fund(&self) -> (w: Weight) {
        Weight::from_parts(25_576_000, 8268).saturating_add(self.db().reads(3)).saturating_add(
            self.db().writes(2),
        )
    }
    fn force_update_total_issuance(&self) -> (w: Weight) {
        Weight::from_parts(11_211_000, 2757).saturating_add(self.db().reads(1)).saturating_add(
            self.db().writes(1),
        )
    }
}

} // verus!
