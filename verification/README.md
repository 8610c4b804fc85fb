# object_storage

The bookkeeping side of the immutable object storage protocol for Internet
Computer canisters: which blobs (named by `sha256:<hex>` hashes) are
recorded, which are marked for deletion, which principals are authorized
gateways, and every answer the protocol endpoints give about them.

- `src/` is the library, verified with Verus: hash keys and their byte
  order, hash strings, a key-sorted map, the gateway set, the protocol state
  and its operations, and the laws that relate them.
- `app/` is the canister around it: Candid types, the system API (caller,
  time, controller check, traps), the call to the Cashier canister, and a
  snapshot of the state in stable memory across upgrades.
- `tests/` runs the library on the protocol's scenarios.
