use metaverse_pallets::weights::{rocks_db_weight, RuntimeDbWeight, SubstrateWeight, Weight, WeightInfo};

#[test]
fn rocks_db_weights() {
    let w = ();
    assert_eq!(
        w.create_group(),
        Weight { ref_time: 12_179_000 + 2 * 25_000_000 + 3 * 100_000_000, proof_size: 1317 }
    );
    assert_eq!(
        w.mint(),
        Weight { ref_time: 54_185_000 + 8 * 25_000_000 + 10 * 100_000_000, proof_size: 23976 }
    );
    assert_eq!(
        w.force_update_total_issuance(),
        Weight { ref_time: 11_211_000 + 25_000_000 + 100_000_000, proof_size: 2757 }
    );
    assert_eq!(rocks_db_weight(), RuntimeDbWeight { read: 25_000_000, write: 100_000_000 });
}

#[test]
fn substrate_weights_use_runtime_db_weight() {
    let w = SubstrateWeight { db_weight: RuntimeDbWeight { read: 1, write: 2 } };
    assert_eq!(w.transfer_batch(), Weight { ref_time: 112_127_000 + 8 + 12, proof_size: 25680 });
    assert_eq!(w.sign_asset(), Weight { ref_time: 38_782_000 + 4 + 6, proof_size: 11890 });
    let zero = SubstrateWeight { db_weight: RuntimeDbWeight { read: 0, write: 0 } };
    assert_eq!(zero.create_class(), Weight::from_parts(27_797_000, 7417));
}

#[test]
fn weights_saturate() {
    let w = SubstrateWeight { db_weight: RuntimeDbWeight { read: u64::MAX, write: 1 } };
    assert_eq!(w.set_hard_limit(), Weight { ref_time: u64::MAX, proof_size: 2757 });
    assert_eq!(w.transfer(), Weight { ref_time: u64::MAX, proof_size: 17187 });
}

#[test]
fn every_call_has_its_measured_proof_size() {
    let w = ();
    assert_eq!(w.create_class().proof_size, 7417);
    assert_eq!(w.mint_stackable_nft().proof_size, 15931);
    assert_eq!(w.transfer().proof_size, 17187);
    assert_eq!(w.transfer_stackable_nft().proof_size, 11790);
    assert_eq!(w.transfer_batch().proof_size, 25680);
    assert_eq!(w.sign_asset().proof_size, 11890);
    assert_eq!(w.set_hard_limit().proof_size, 2757);
    assert_eq!(w.withdraw_funds_from_class_fund().proof_size, 8268);
    assert_eq!(
        w.withdraw_funds_from_class_fund().ref_time,
        25_576_000 + 3 * 25_000_000 + 2 * 100_000_000
    );
}
