# metaverse_pallets

Verified staking logic of the Metaverse.Network chain, with the NFT pallet's
benchmarked weight table.

- `src/types.rs`: identifiers, origins, configuration, events and errors.
- `src/storage.rs`: key-value storage maps (insert, remove, lookup, prefix drain).
- `src/hashing.rs`: storage keys of accounts (`twox_64` through `sp-crypto-hashing`) and
  their byte order, the order in which storage walks a block's unstake requests.
- `src/balances.rs`: the currency ledger stakes are reserved in (free and reserved funds).
- `src/model.rs`: the pallet's state as mathematical values and each call as a
  function of that state.
- `src/pallet.rs`: the executable pallet; every call is proved to follow `model.rs`.
- `src/laws.rs`: properties across calls (stake/unstake round trip, conservation of
  funds, reserved funds covering stakes and requests, era payout and rollover over a run of
  blocks from genesis, release of unstaked funds after the lock period, refused calls change nothing).
- `src/weights.rs`: call weights of the NFT pallet, computed with `sp-weights`.
