use candid::Principal;
use object_storage::{BlobInfo, StorageError, StorageState};

const NOW: u64 = 1_700_000_000_000_000_000;

fn principal_bytes(text: &str) -> Vec<u8> {
    Principal::from_text(text).unwrap().as_slice().to_vec()
}

fn anonymous_bytes() -> Vec<u8> {
    Principal::anonymous().as_slice().to_vec()
}

fn hash_string_to_32_bytes(hash: &str) -> Vec<u8> {
    let hex_part = hash
        .strip_prefix("sha256:")
        .expect("hash must start with sha256:");
    assert_eq!(hex_part.len(), 64, "hash must be 64 hex chars");
    hex::decode(hex_part).expect("hash must be valid hex")
}

fn blob_is_live(state: &StorageState, hash_bytes: Vec<u8>) -> bool {
    let results = state.blobs_are_live(&vec![hash_bytes]);
    results.into_iter().next().unwrap_or(false)
}

/// The state of a freshly installed canister, without init arguments.
fn deploy() -> StorageState {
    StorageState::init(None)
}

#[test]
fn rust_backend_test_create_certificate_valid() {
    let mut state = deploy();
    let hash = "sha256:".to_string() + &"a".repeat(64);
    let result = state.create_certificate(hash.clone(), NOW).expect("create_certificate");
    assert_eq!(result.method, "upload");
    assert_eq!(result.blob_hash, hash);
}

#[test]
fn rust_backend_test_create_certificate_invalid_hash() {
    let mut state = deploy();
    let err = state
        .create_certificate("not-a-hash".to_string(), NOW)
        .err()
        .unwrap();
    assert!(err.message().contains("hash must be"));
}

#[test]
fn rust_backend_test_create_certificate_empty_hash() {
    let mut state = deploy();
    let err = state.create_certificate(String::new(), NOW).err().unwrap();
    assert!(!err.message().is_empty());
}

#[test]
fn rust_backend_test_blob_is_live() {
    let mut state = deploy();
    let hash = "sha256:".to_string() + &"b".repeat(64);
    state.create_certificate(hash.clone(), NOW).expect("create_certificate");
    let hash_bytes = hash_string_to_32_bytes(&hash);
    let live = blob_is_live(&state, hash_bytes);
    assert!(live);

    let unknown_hash_bytes = vec![0u8; 32];
    let live_unknown = blob_is_live(&state, unknown_hash_bytes);
    assert!(!live_unknown);
}

#[test]
fn test_blobs_are_live_batch() {
    let mut state = deploy();
    let hash_a = "sha256:".to_string() + &"a".repeat(64);
    let hash_b = "sha256:".to_string() + &"b".repeat(64);
    state.create_certificate(hash_a.clone(), NOW).expect("create_certificate");

    let results = state.blobs_are_live(&vec![
        hash_string_to_32_bytes(&hash_a),
        hash_string_to_32_bytes(&hash_b),
        vec![0u8; 32],
    ]);

    assert_eq!(results, vec![true, false, false]);
}

#[test]
fn rust_backend_test_gateway_auth() {
    let mut state = deploy();
    let gateway = principal_bytes("rrkah-fqaaa-aaaaa-aaaaq-cai");

    let list = state.blobs_to_delete(&gateway);
    assert!(list.is_empty());

    // The gateway principal is also the canister's controller.
    state
        .add_gateway_principal(true, gateway.clone())
        .expect("add_gateway_principal");

    let hash = "sha256:".to_string() + &"c".repeat(64);
    state.create_certificate(hash.clone(), NOW).expect("create_certificate");
    state.mark_for_deletion(&hash).expect("delete_blob");

    let list_after = state.blobs_to_delete(&gateway);
    assert_eq!(list_after, vec![hash]);
}

#[test]
fn rust_backend_test_add_gateway_principal_not_controller() {
    let mut state = deploy();
    let gateway_principal = principal_bytes("aaaaa-aa");
    let err = state
        .add_gateway_principal(false, gateway_principal)
        .unwrap_err();
    let text = err.message();
    assert!(
        text.contains("only a canister controller")
            || text.contains("reject")
            || text.contains("error")
    );
}

#[test]
fn rust_backend_test_deletion_flow() {
    let mut state = deploy();
    let gateway = principal_bytes("rrkah-fqaaa-aaaaa-aaaaq-cai");
    state
        .add_gateway_principal(true, gateway.clone())
        .expect("add_gateway_principal");

    let hash = "sha256:".to_string() + &"d".repeat(64);
    state.create_certificate(hash.clone(), NOW).expect("create_certificate");
    let blobs_before = state.list_blobs();
    assert_eq!(blobs_before.len(), 1);

    state.mark_for_deletion(&hash).expect("delete_blob");
    let to_delete = state.blobs_to_delete(&gateway);
    assert_eq!(to_delete, vec![hash.clone()]);

    let hash_bytes = hash_string_to_32_bytes(&hash);
    state.confirm_blob_deletion(&gateway, &vec![hash_bytes]);

    let blobs_after = state.list_blobs();
    assert!(blobs_after.is_empty());
}

#[test]
fn rust_backend_test_list_blobs_and_set_blob_info() {
    let mut state = deploy();
    let hash = "sha256:".to_string() + &"e".repeat(64);
    state.create_certificate(hash.clone(), NOW).expect("create_certificate");
    state.set_blob_info(&hash, "myfile.txt".to_string(), 1234, "text/plain".to_string());

    let blobs = state.list_blobs();
    assert_eq!(blobs.len(), 1);
    assert_eq!(blobs[0].hash, hash);
    assert_eq!(blobs[0].name, "myfile.txt");
    assert_eq!(blobs[0].size, 1234);
    assert_eq!(blobs[0].content_type, "text/plain");
}

#[test]
fn test_init_with_gateway_principals() {
    let gateway = principal_bytes("rrkah-fqaaa-aaaaa-aaaaq-cai");
    let mut state = StorageState::init(Some(vec![gateway.clone()]));

    let hash = "sha256:".to_string() + &"1".repeat(64);
    state.create_certificate(hash.clone(), NOW).expect("create_certificate");
    state.mark_for_deletion(&hash).expect("deleteBlob");

    let list = state.blobs_to_delete(&gateway);
    assert_eq!(list, vec![hash]);
}

#[test]
fn rust_backend_test_blob_is_live_after_delete() {
    let mut state = deploy();
    let hash = "sha256:".to_string() + &"f".repeat(64);
    state.create_certificate(hash.clone(), NOW).expect("create_certificate");
    let hash_bytes = hash_string_to_32_bytes(&hash);
    assert!(blob_is_live(&state, hash_bytes.clone()));

    state.mark_for_deletion(&hash).expect("delete_blob");
    let live_after = blob_is_live(&state, hash_bytes);
    assert!(!live_after);
}

#[test]
fn error_variants_and_messages() {
    let mut state = deploy();
    assert_eq!(
        state.create_certificate(String::new(), NOW).err(),
        Some(StorageError::EmptyHash)
    );
    assert_eq!(StorageError::EmptyHash.message(), "hash must not be empty");
    assert_eq!(
        state.create_certificate("sha256:abc".to_string(), NOW).err(),
        Some(StorageError::MalformedHash)
    );
    assert_eq!(
        StorageError::MalformedHash.message(),
        "hash must be 'sha256:<64-hex-chars>'"
    );
    assert_eq!(
        state.mark_for_deletion("sha256:missing"),
        Err(StorageError::BlobNotFound)
    );
    assert_eq!(StorageError::BlobNotFound.message(), "blob not found");
    assert_eq!(
        state.add_gateway_principal(false, vec![1, 2, 3]),
        Err(StorageError::NotController)
    );
    assert_eq!(
        state.cashier_canister_id(),
        Err(StorageError::CashierNotConfigured)
    );
    assert_eq!(
        StorageError::CashierNotConfigured.message(),
        "cashier canister ID not configured"
    );
    // Refused requests change nothing.
    assert!(state.list_blobs().is_empty());
}

#[test]
fn cashier_id_is_kept() {
    let mut state = deploy();
    let cashier = principal_bytes("rrkah-fqaaa-aaaaa-aaaaq-cai");
    state.set_cashier_canister_id(cashier.clone());
    assert_eq!(state.cashier_canister_id(), Ok(cashier));
}

#[test]
fn certificate_again_keeps_record_and_unmarks() {
    let mut state = deploy();
    let hash = "sha256:".to_string() + &"2".repeat(64);
    state.create_certificate(hash.clone(), 10).unwrap();
    state.set_blob_info(&hash, "a.txt".to_string(), 5, "text/plain".to_string());
    state.mark_for_deletion(&hash).unwrap();
    assert!(state.list_live_blobs().is_empty());
    state.create_certificate(hash.clone(), 99).unwrap();
    let blob = state.get_blob(&hash).unwrap();
    assert_eq!(blob.created_at, 10);
    assert_eq!(blob.name, "a.txt");
    assert_eq!(state.list_live_blobs().len(), 1);
    assert!(state.blobs_to_delete(&anonymous_bytes()).is_empty());
}

#[test]
fn fresh_record_contents() {
    let mut state = deploy();
    let hash = "sha256:".to_string() + &"3".repeat(64);
    state.create_certificate(hash.clone(), 42).unwrap();
    let blob = state.get_blob(&hash).unwrap();
    assert_eq!(blob.hash, hash);
    assert_eq!(blob.name, "");
    assert_eq!(blob.size, 0);
    assert_eq!(blob.content_type, "");
    assert_eq!(blob.created_at, 42);
    assert!(state.get_blob("sha256:other").is_none());
}

#[test]
fn list_blobs_newest_first_ties_in_key_order() {
    let mut state = deploy();
    let h = |c: &str| "sha256:".to_string() + &c.repeat(64);
    state.create_certificate(h("c"), 5).unwrap();
    state.create_certificate(h("a"), 5).unwrap();
    state.create_certificate(h("b"), 9).unwrap();
    state.create_certificate(h("d"), 1).unwrap();
    let order: Vec<String> = state.list_blobs().into_iter().map(|b| b.hash).collect();
    assert_eq!(order, vec![h("b"), h("a"), h("c"), h("d")]);
    let live: Vec<String> = state.list_live_blobs().into_iter().map(|b| b.hash).collect();
    assert_eq!(live, vec![h("a"), h("b"), h("c"), h("d")]);
}

#[test]
fn blobs_to_delete_in_key_order() {
    let mut state = StorageState::init(Some(vec![vec![9, 9]]));
    let h = |c: &str| "sha256:".to_string() + &c.repeat(64);
    for c in ["e", "b", "d"] {
        state.create_certificate(h(c), 1).unwrap();
        state.mark_for_deletion(&h(c)).unwrap();
    }
    assert_eq!(state.blobs_to_delete(&[9, 9]), vec![h("b"), h("d"), h("e")]);
    assert!(state.blobs_to_delete(&[9]).is_empty());
}

#[test]
fn non_gateway_confirmation_changes_nothing() {
    let mut state = deploy();
    let hash = "sha256:".to_string() + &"4".repeat(64);
    state.create_certificate(hash.clone(), 1).unwrap();
    state.mark_for_deletion(&hash).unwrap();
    state.confirm_blob_deletion(&[1, 2, 3], &vec![hash_string_to_32_bytes(&hash)]);
    assert!(state.get_blob(&hash).is_some());
}

#[test]
fn anonymous_is_never_gateway() {
    let mut state = deploy();
    let anonymous = anonymous_bytes();
    assert_eq!(anonymous, vec![4u8]);
    state.add_gateway_principal(true, anonymous.clone()).unwrap();
    assert!(!state.caller_is_gateway(&anonymous));
    let gateway = principal_bytes("rrkah-fqaaa-aaaaa-aaaaq-cai");
    assert!(!state.caller_is_gateway(&gateway));
    state.replace_gateway_principals(vec![gateway.clone(), gateway.clone()]);
    assert!(state.caller_is_gateway(&gateway));
    state.replace_gateway_principals(vec![]);
    assert!(!state.caller_is_gateway(&gateway));
}

#[test]
fn confirmation_ignores_other_lengths_and_unknown_digests() {
    let mut state = StorageState::init(Some(vec![vec![7]]));
    let hash = "sha256:".to_string() + &"5".repeat(64);
    let other = "sha256:".to_string() + &"6".repeat(64);
    state.create_certificate(hash.clone(), 1).unwrap();
    state.create_certificate(other.clone(), 2).unwrap();
    state.mark_for_deletion(&hash).unwrap();
    state.confirm_blob_deletion(
        &[7],
        &vec![vec![1, 2, 3], hash_string_to_32_bytes(&hash), vec![0u8; 32]],
    );
    assert!(state.get_blob(&hash).is_none());
    assert!(state.blobs_to_delete(&[7]).is_empty());
    assert!(state.get_blob(&other).is_some());
}

#[test]
fn update_blob_replaces_record() {
    let mut state = deploy();
    let info = BlobInfo {
        hash: "x".to_string(),
        name: "n".to_string(),
        size: 3,
        content_type: "c".to_string(),
        created_at: 4,
    };
    state.update_blob("sha256:k", info.clone());
    let got = state.get_blob("sha256:k").unwrap();
    assert_eq!(got.hash, "x");
    assert_eq!(got.size, 3);
    state.set_blob_info("sha256:missing", "m".to_string(), 1, "t".to_string());
    assert!(state.get_blob("sha256:missing").is_none());
}

#[test]
fn certificate_refused_for_non_hex_hash() {
    let mut state = deploy();
    let hash = "sha256:".to_string() + &"z".repeat(64);
    let err = state.create_certificate(hash.clone(), NOW).err().unwrap();
    assert_eq!(err, StorageError::MalformedHash);
    assert_eq!(err.message(), "hash must be 'sha256:<64-hex-chars>'");
    assert!(state.get_blob(&hash).is_none());
    assert!(state.list_live_blobs().is_empty());
}

#[test]
fn certificate_issued_for_uppercase_hex_hash() {
    let mut state = deploy();
    let hash = "sha256:".to_string() + &"AB".repeat(32);
    let result = state.create_certificate(hash.clone(), NOW).expect("create_certificate");
    assert_eq!(result.blob_hash, hash);
    assert!(state.get_blob(&hash).is_some());
    assert!(state.is_blob_live(&hash));
}

#[test]
fn restore_rebuilds_state() {
    let info = BlobInfo {
        hash: "sha256:x".to_string(),
        name: "n".to_string(),
        size: 1,
        content_type: "t".to_string(),
        created_at: 7,
    };
    let gateway = vec![9u8];
    let state = StorageState::restore(
        vec![
            ("sha256:b".to_string(), info.clone()),
            ("sha256:a".to_string(), info.clone()),
        ],
        vec!["sha256:b".to_string()],
        vec![gateway.clone()],
    )
    .expect("restore");
    assert!(state.get_blob("sha256:a").is_some());
    assert!(!state.is_blob_live("sha256:b"));
    assert_eq!(state.blobs_to_delete(&gateway), vec!["sha256:b".to_string()]);
    let keys: Vec<String> = state.blob_records().into_iter().map(|(k, _)| k).collect();
    assert_eq!(keys, vec!["sha256:a".to_string(), "sha256:b".to_string()]);

    let refused = StorageState::restore(
        vec![("sha256:a".to_string(), info)],
        vec!["sha256:c".to_string()],
        vec![],
    );
    assert_eq!(refused.err(), Some(StorageError::BlobNotFound));
}
