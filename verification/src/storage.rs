//! The protocol state of a canister that stores immutable objects, and the
//! operations of the protocol on it.
//!
//! The state holds a record per blob (keyed by its `sha256:<hex>` hash),
//! the set of blobs marked for deletion, the set of authorized gateway
//! principals and, optionally, the principal of the Cashier canister that
//! publishes the gateway list.  A blob is *live* when it is recorded and not
//! marked for deletion.
use crate::blob::{fresh_record, BlobInfo, CreateCertificateResult};
use crate::hash_text::{bytes_to_sha256_string, is_well_formed_hash, sha256_text, well_formed_hash};
use crate::keyed_map::{keys_of, keys_sorted, lemma_sorted_entries_determined, KeyedMap};
use crate::keys::key_lt;
use crate::keys::HashKey;
use crate::listing::{newest_first, sort_newest_first};
use crate::principals::{anonymous_principal, is_anonymous, principal_set, PrincipalSet};
use vstd::prelude::*;
use vstd::slice::slice_to_vec;
use vstd::string::*;

verus! {

/// Why a request on the protocol state is refused.
#[derive(Clone, Copy, Debug, PartialEq, Eq)]
pub enum StorageError {
    /// An upload certificate was asked for the empty string.
    EmptyHash,
    /// An upload certificate was asked for a string that is not
    /// `sha256:` followed by exactly 64 hex digits.
    MalformedHash,
    /// A blob that is not recorded was to be marked for deletion.
    BlobNotFound,
    /// A caller that does not control the canister tried to add a gateway.
    NotController,
    /// The gateway list was to be refreshed before a Cashier was configured.
    CashierNotConfigured,
}

impl StorageError {
    /// The text that reports the error.
    pub open spec fn message_text(self) -> Seq<char> {
        match self {
            StorageError::EmptyHash => "hash must not be empty"@,
            StorageError::MalformedHash => "hash must be 'sha256:<64-hex-chars>'"@,
            StorageError::BlobNotFound => "blob not found"@,
            StorageError::NotController => "only a canister controller can add gateway principals"@,
            StorageError::CashierNotConfigured => "cashier canister ID not configured"@,
        }
    }

    /// The text that reports the error.
    pub fn message(&self) -> (r: String)
        ensures
            r@ == self.message_text(),
    {
        match self {
            StorageError::EmptyHash => String::from_str("hash must not be empty"),
            StorageError::MalformedHash => String::from_str("hash must be 'sha256:<64-hex-chars>'"),
            StorageError::BlobNotFound => String::from_str("blob not found"),
            StorageError::NotController => String::from_str(
                "only a canister controller can add gateway principals",
            ),
            StorageError::CashierNotConfigured => String::from_str(
                "cashier canister ID not configured",
            ),
        }
    }
}

/// The protocol state, seen as sets and maps.
pub struct StorageView {
    pub blobs: Map<Seq<char>, BlobInfo>,
    pub pending_delete: Set<Seq<char>>,
    pub gateway_principals: Set<Seq<u8>>,
    pub cashier_canister_id: Option<Seq<u8>>,
}

/// A blob is live when it is recorded and not marked for deletion.
pub open spec fn is_live(v: StorageView, hash: Seq<char>) -> bool {
    v.blobs.contains_key(hash) && !v.pending_delete.contains(hash)
}

/// Liveness of the blob named by a raw digest; a digest that is not 32
/// bytes long names no blob.
pub open spec fn is_live_digest(v: StorageView, digest: Seq<u8>) -> bool {
    match sha256_text(digest) {
        Some(hash) => is_live(v, hash),
        None => false,
    }
}

/// Whether the caller is an authorized gateway: the anonymous principal
/// never is.
pub open spec fn is_gateway(v: StorageView, caller: Seq<u8>) -> bool {
    caller != anonymous_principal() && v.gateway_principals.contains(caller)
}

/// The hash strings named by a list of raw digests (those of 32 bytes).
pub open spec fn named_hashes(digests: Seq<Vec<u8>>) -> Set<Seq<char>> {
    Set::new(
        |h: Seq<char>| exists|i: int| 0 <= i < digests.len() && sha256_text(#[trigger] digests[i]@) == Some(h),
    )
}

/// The state after an upload certificate was issued for `hash` at `now`:
/// the blob is unmarked, and recorded with a fresh record unless it already
/// was; gateways and Cashier are unchanged.
pub open spec fn certificate_issued(before: StorageView, after: StorageView, hash: Seq<char>, now: u64) -> bool {
    &&& after.pending_delete == before.pending_delete.remove(hash)
    &&& before.blobs.contains_key(hash) ==> after.blobs == before.blobs
    &&& !before.blobs.contains_key(hash) ==> {
        &&& after.blobs == before.blobs.insert(hash, after.blobs[hash])
        &&& fresh_record(after.blobs[hash], hash, now)
    }
    &&& after.gateway_principals == before.gateway_principals
    &&& after.cashier_canister_id == before.cashier_canister_id
}

/// The state after the recorded blob `hash` was marked for deletion.
pub open spec fn marked_for_deletion(before: StorageView, after: StorageView, hash: Seq<char>) -> bool {
    &&& before.blobs.contains_key(hash)
    &&& after.pending_delete == before.pending_delete.insert(hash)
    &&& after.blobs == before.blobs
    &&& after.gateway_principals == before.gateway_principals
    &&& after.cashier_canister_id == before.cashier_canister_id
}

/// The state after `caller` confirmed the deletion of the blobs named by
/// `digests`: a gateway's confirmation drops their records and marks, any
/// other caller's changes nothing.
pub open spec fn deletion_confirmed(before: StorageView, after: StorageView, caller: Seq<u8>, digests: Seq<Vec<u8>>) -> bool {
    &&& !is_gateway(before, caller) ==> after == before
    &&& is_gateway(before, caller) ==> {
        &&& after.blobs == before.blobs.remove_keys(named_hashes(digests))
        &&& after.pending_delete == before.pending_delete.difference(named_hashes(digests))
        &&& after.gateway_principals == before.gateway_principals
        &&& after.cashier_canister_id == before.cashier_canister_id
    }
}

/// The records a list of (hash, record) pairs gives: each hash with the
/// last record listed for it.
pub open spec fn records_of(list: Seq<(String, BlobInfo)>) -> Map<Seq<char>, BlobInfo>
    decreases list.len(),
{
    if list.len() == 0 {
        Map::empty()
    } else {
        records_of(list.drop_last()).insert(list.last().0@, list.last().1)
    }
}

/// The hash strings of a list.
pub open spec fn hashes_of(list: Seq<String>) -> Set<Seq<char>> {
    list.map_values(|s: String| s@).to_set()
}

/// The records of the entries whose key is not marked, in entry order.
pub open spec fn unmarked_values(entries: Seq<(Seq<char>, BlobInfo)>, marked: Set<Seq<char>>) -> Seq<
    BlobInfo,
>
    decreases entries.len(),
{
    if entries.len() == 0 {
        Seq::empty()
    } else {
        let rest = unmarked_values(entries.drop_last(), marked);
        if marked.contains(entries.last().0) {
            rest
        } else {
            rest.push(entries.last().1)
        }
    }
}

/// The protocol state.
pub struct StorageState {
    blobs: KeyedMap<BlobInfo>,
    pending_delete: KeyedMap<()>,
    gateway_principals: PrincipalSet,
    cashier_canister_id: Option<Vec<u8>>,
}

impl View for StorageState {
    type V = StorageView;

    closed spec fn view(&self) -> StorageView {
        StorageView {
            blobs: self.blobs@,
            pending_delete: self.pending_delete@.dom(),
            gateway_principals: self.gateway_principals@,
            cashier_canister_id: match self.cashier_canister_id {
                Some(id) => Some(id@),
                None => None,
            },
        }
    }
}

impl StorageState {
    /// The blob records with their keys, in increasing key order.
    pub closed spec fn blob_entries(&self) -> Seq<(Seq<char>, BlobInfo)> {
        self.blobs.entries()
    }

    /// The hashes marked for deletion, in increasing key order.
    pub closed spec fn pending_keys(&self) -> Seq<Seq<char>> {
        keys_of(self.pending_delete.entries())
    }

    /// Well-formedness: both maps sorted, and only recorded blobs marked
    /// for deletion.
    pub closed spec fn wf(&self) -> bool {
        &&& self.blobs.wf()
        &&& self.pending_delete.wf()
        &&& self@.pending_delete.subset_of(self@.blobs.dom())
    }

    /// The live blob records, in increasing key order.
    pub open spec fn live_records(&self) -> Seq<BlobInfo> {
        unmarked_values(self.blob_entries(), self@.pending_delete)
    }

    /// What the listings are made from: the blob entries are sorted by key
    /// and are exactly the recorded blobs; the marked hashes are sorted and
    /// are exactly the marks; only recorded blobs are marked.
    pub proof fn lemma_state_shape(&self)
        requires
            self.wf(),
        ensures
            keys_sorted(self.blob_entries()),
            forall|k: Seq<char>| #[trigger]
                self@.blobs.contains_key(k) <==> keys_of(self.blob_entries()).contains(k),
            forall|i: int|
                0 <= i < self.blob_entries().len() ==> #[trigger] self@.blobs[self.blob_entries()[i].0]
                    == self.blob_entries()[i].1,
            forall|i: int, j: int|
                0 <= i < j < self.pending_keys().len() ==> key_lt(
                    #[trigger] self.pending_keys()[i],
                    #[trigger] self.pending_keys()[j],
                ),
            forall|k: Seq<char>| #[trigger]
                self@.pending_delete.contains(k) <==> self.pending_keys().contains(k),
            self@.pending_delete.subset_of(self@.blobs.dom()),
    {
        self.blobs.lemma_entries_view();
        self.pending_delete.lemma_entries_view();
        let e = self.pending_delete.entries();
        assert forall|i: int, j: int| 0 <= i < j < self.pending_keys().len() implies key_lt(
            #[trigger] self.pending_keys()[i],
            #[trigger] self.pending_keys()[j],
        ) by {
            assert(self.pending_keys()[i] == e[i].0);
            assert(self.pending_keys()[j] == e[j].0);
        }
    }

    /// The listings depend on the view alone: two well-formed states with
    /// the same records hold them in the same order, and with the same marks
    /// too they list the same live records and the same marked hashes.
    pub proof fn lemma_view_determines_listings(&self, other: &StorageState)
        requires
            self.wf(),
            other.wf(),
            self@.blobs == other@.blobs,
        ensures
            self.blob_entries() == other.blob_entries(),
            self@.pending_delete == other@.pending_delete ==> {
                &&& self.pending_keys() == other.pending_keys()
                &&& self.live_records() == other.live_records()
            },
    {
        self.blobs.lemma_view_is_map_of_entries();
        other.blobs.lemma_view_is_map_of_entries();
        lemma_sorted_entries_determined(self.blobs.entries(), other.blobs.entries());
        if self@.pending_delete == other@.pending_delete {
            self.pending_delete.lemma_view_is_map_of_entries();
            other.pending_delete.lemma_view_is_map_of_entries();
            assert(self.pending_delete@ =~= other.pending_delete@);
            lemma_sorted_entries_determined(
                self.pending_delete.entries(),
                other.pending_delete.entries(),
            );
        }
    }

    /// An empty state: no blobs, no gateways, no Cashier.
    pub fn new() -> (r: Self)
        ensures
            r.wf(),
            r@.blobs == Map::<Seq<char>, BlobInfo>::empty(),
            r@.pending_delete == Set::<Seq<char>>::empty(),
            r@.gateway_principals == Set::<Seq<u8>>::empty(),
            r@.cashier_canister_id is None,
            r.blob_entries() == Seq::<(Seq<char>, BlobInfo)>::empty(),
            r.pending_keys() == Seq::<Seq<char>>::empty(),
    {
        let r = StorageState {
            blobs: KeyedMap::new(),
            pending_delete: KeyedMap::new(),
            gateway_principals: PrincipalSet::new(),
            cashier_canister_id: None,
        };
        assert(r@.pending_delete =~= Set::<Seq<char>>::empty());
        assert(r.pending_keys() =~= Seq::<Seq<char>>::empty());
        r
    }

    /// The state at installation: no blobs, the given gateways if any.
    pub fn init(gateway_principals: Option<Vec<Vec<u8>>>) -> (r: Self)
        ensures
            r.wf(),
            r@.blobs == Map::<Seq<char>, BlobInfo>::empty(),
            r@.pending_delete == Set::<Seq<char>>::empty(),
            r@.gateway_principals == match gateway_principals {
                Some(list) => principal_set(list@),
                None => Set::<Seq<u8>>::empty(),
            },
            r@.cashier_canister_id is None,
            r.blob_entries() == Seq::<(Seq<char>, BlobInfo)>::empty(),
            r.pending_keys() == Seq::<Seq<char>>::empty(),
    {
        let mut r = StorageState::new();
        if let Some(list) = gateway_principals {
            r.gateway_principals.replace_all(list);
        }
        r
    }

    /// Rebuilds a state from saved records, marks and gateways, as after an
    /// upgrade.  A mark on a hash that no record carries is refused.
    pub fn restore(
        records: Vec<(String, BlobInfo)>,
        marks: Vec<String>,
        gateway_principals: Vec<Vec<u8>>,
    ) -> (r: Result<StorageState, StorageError>)
        ensures
            r is Ok <==> hashes_of(marks@).subset_of(records_of(records@).dom()),
            r is Err ==> r == Err::<StorageState, StorageError>(StorageError::BlobNotFound),
            r matches Ok(st) ==> {
                &&& st.wf()
                &&& st@.blobs == records_of(records@)
                &&& st@.pending_delete == hashes_of(marks@)
                &&& st@.gateway_principals == principal_set(gateway_principals@)
                &&& st@.cashier_canister_id is None
            },
    {
        let mut state = StorageState::init(Some(gateway_principals));
        let ghost gateways = state@.gateway_principals;
        let mut i: usize = 0;
        assert(records@.take(0) =~= Seq::<(String, BlobInfo)>::empty());
        assert(records_of(records@.take(0)) =~= Map::<Seq<char>, BlobInfo>::empty());
        while i < records.len()
            invariant
                state.wf(),
                i <= records@.len(),
                state@.blobs == records_of(records@.take(i as int)),
                state@.pending_delete == Set::<Seq<char>>::empty(),
                state@.gateway_principals == gateways,
                state@.cashier_canister_id is None,
            decreases records.len() - i,
        {
            let record = records[i].1.clone();
            state.update_blob(records[i].0.as_str(), record);
            assert(records@.take(i + 1).drop_last() =~= records@.take(i as int));
            assert(records@.take(i + 1).last() == records@[i as int]);
            i = i + 1;
        }
        assert(records@.take(records@.len() as int) =~= records@);
        let ghost recorded = records_of(records@);
        let mut j: usize = 0;
        assert(hashes_of(marks@.take(0)) =~= Set::<Seq<char>>::empty());
        while j < marks.len()
            invariant
                state.wf(),
                j <= marks@.len(),
                recorded == records_of(records@),
                state@.blobs == recorded,
                state@.pending_delete == hashes_of(marks@.take(j as int)),
                hashes_of(marks@.take(j as int)).subset_of(recorded.dom()),
                state@.gateway_principals == gateways,
                state@.cashier_canister_id is None,
            decreases marks.len() - j,
        {
            let ghost before = marks@.take(j as int);
            let ghost after = marks@.take(j + 1);
            assert(after =~= before.push(marks@[j as int]));
            assert(after.map_values(|s: String| s@) =~= before.map_values(|s: String| s@).push(
                marks@[j as int]@,
            ));
            assert(hashes_of(after) =~= hashes_of(before).insert(marks@[j as int]@)) by {
                let va = after.map_values(|s: String| s@);
                let vb = before.map_values(|s: String| s@);
                assert forall|x: Seq<char>| #[trigger] va.contains(x) <==> vb.contains(x) || x
                    == marks@[j as int]@ by {
                    if va.contains(x) {
                        let k = choose|k: int| 0 <= k < va.len() && va[k] == x;
                        if k < vb.len() {
                            assert(vb[k] == x);
                        }
                    }
                    if vb.contains(x) {
                        let k = choose|k: int| 0 <= k < vb.len() && vb[k] == x;
                        assert(va[k] == x);
                    }
                    if x == marks@[j as int]@ {
                        assert(va[vb.len() as int] == x);
                    }
                }
            }
            match state.mark_for_deletion(marks[j].as_str()) {
                Ok(()) => {},
                Err(e) => {
                    let ghost x = marks@[j as int]@;
                    assert(!recorded.contains_key(x));
                    assert(hashes_of(marks@).contains(x)) by {
                        let v = marks@.map_values(|s: String| s@);
                        assert(v[j as int] == x);
                        assert(v.contains(x));
                    }
                    assert(!hashes_of(marks@).subset_of(recorded.dom()));
                    assert(e == StorageError::BlobNotFound);
                    return Err(e);
                },
            }
            j = j + 1;
        }
        assert(marks@.take(marks@.len() as int) =~= marks@);
        Ok(state)
    }

    /// Records the principal of the Cashier canister.
    pub fn set_cashier_canister_id(&mut self, id: Vec<u8>)
        requires
            old(self).wf(),
        ensures
            final(self).wf(),
            final(self)@.cashier_canister_id == Some(id@),
            final(self)@.blobs == old(self)@.blobs,
            final(self)@.pending_delete == old(self)@.pending_delete,
            final(self)@.gateway_principals == old(self)@.gateway_principals,
            final(self).blob_entries() == old(self).blob_entries(),
            final(self).pending_keys() == old(self).pending_keys(),
    {
        self.cashier_canister_id = Some(id);
    }

    /// The Cashier to ask for the gateway list; refused when none is set.
    pub fn cashier_canister_id(&self) -> (r: Result<Vec<u8>, StorageError>)
        ensures
            match self@.cashier_canister_id {
                Some(id) => r matches Ok(v) && v@ == id,
                None => r == Err::<Vec<u8>, StorageError>(StorageError::CashierNotConfigured),
            },
    {
        match &self.cashier_canister_id {
            Some(id) => Ok(slice_to_vec(id.as_slice())),
            None => Err(StorageError::CashierNotConfigured),
        }
    }

    /// Whether the caller is an authorized gateway.
    pub fn caller_is_gateway(&self, caller: &[u8]) -> (r: bool)
        ensures
            r == is_gateway(self@, caller@),
    {
        if is_anonymous(caller) {
            return false;
        }
        self.gateway_principals.contains(caller)
    }

    /// Authorizes a gateway; only a controller of the canister may.
    pub fn add_gateway_principal(&mut self, caller_is_controller: bool, principal: Vec<u8>) -> (r:
        Result<(), StorageError>)
        requires
            old(self).wf(),
        ensures
            final(self).wf(),
            caller_is_controller ==> r is Ok && final(self)@.gateway_principals == old(
                self,
            )@.gateway_principals.insert(principal@),
            !caller_is_controller ==> r == Err::<(), StorageError>(StorageError::NotController)
                && final(self)@.gateway_principals == old(self)@.gateway_principals,
            final(self)@.blobs == old(self)@.blobs,
            final(self)@.pending_delete == old(self)@.pending_delete,
            final(self)@.cashier_canister_id == old(self)@.cashier_canister_id,
            final(self).blob_entries() == old(self).blob_entries(),
            final(self).pending_keys() == old(self).pending_keys(),
    {
        if !caller_is_controller {
            return Err(StorageError::NotController);
        }
        self.gateway_principals.insert(principal);
        Ok(())
    }

    /// Makes the authorized gateways exactly the given principals.
    pub fn replace_gateway_principals(&mut self, principals: Vec<Vec<u8>>)
        requires
            old(self).wf(),
        ensures
            final(self).wf(),
            final(self)@.gateway_principals == principal_set(principals@),
            final(self)@.blobs == old(self)@.blobs,
            final(self)@.pending_delete == old(self)@.pending_delete,
            final(self)@.cashier_canister_id == old(self)@.cashier_canister_id,
            final(self).blob_entries() == old(self).blob_entries(),
            final(self).pending_keys() == old(self).pending_keys(),
    {
        self.gateway_principals.replace_all(principals);
    }

    /// Whether the blob recorded under the hash string is live.
    pub fn is_blob_live(&self, hash: &str) -> (r: bool)
        requires
            self.wf(),
        ensures
            r == is_live(self@, hash@),
    {
        self.blobs.contains_key(hash) && !self.pending_delete.contains_key(hash)
    }

    /// For each raw digest, whether the blob it names is live; the answers
    /// come in the order of the digests.
    pub fn blobs_are_live(&self, hash_bytes_list: &Vec<Vec<u8>>) -> (r: Vec<bool>)
        requires
            self.wf(),
        ensures
            r@.len() == hash_bytes_list@.len(),
            forall|i: int|
                0 <= i < r@.len() ==> #[trigger] r@[i] == is_live_digest(
                    self@,
                    hash_bytes_list@[i]@,
                ),
    {
        let mut out: Vec<bool> = Vec::new();
        let mut i: usize = 0;
        while i < hash_bytes_list.len()
            invariant
                self.wf(),
                i <= hash_bytes_list@.len(),
                out@.len() == i,
                forall|j: int|
                    0 <= j < i ==> #[trigger] out@[j] == is_live_digest(
                        self@,
                        hash_bytes_list@[j]@,
                    ),
            decreases hash_bytes_list.len() - i,
        {
            let live = match bytes_to_sha256_string(hash_bytes_list[i].as_slice()) {
                Some(hash) => self.is_blob_live(hash.as_str()),
                None => false,
            };
            out.push(live);
            i = i + 1;
        }
        out
    }

    /// The hashes marked for deletion, in key order.
    pub fn marked_hashes(&self) -> (r: Vec<String>)
        requires
            self.wf(),
        ensures
            r@.map_values(|s: String| s@) == self.pending_keys(),
    {
        let mut out: Vec<String> = Vec::new();
        let n = self.pending_delete.len();
        let mut i: usize = 0;
        while i < n
            invariant
                n == self.pending_delete.entries().len(),
                i <= n,
                out@.map_values(|s: String| s@) == self.pending_keys().take(i as int),
            decreases n - i,
        {
            let key = self.pending_delete.key_at(i);
            let text = key.0.clone();
            proof {
                assert(self.pending_keys()[i as int] == key@);
            }
            let ghost before = out@;
            out.push(text);
            assert(out@.map_values(|s: String| s@) =~= before.map_values(|s: String| s@).push(
                text@,
            ));
            assert(self.pending_keys().take(i + 1) =~= self.pending_keys().take(i as int).push(
                self.pending_keys()[i as int],
            ));
            i = i + 1;
        }
        assert(self.pending_keys().take(n as int) =~= self.pending_keys());
        out
    }

    /// The hashes marked for deletion, in key order; only a gateway is told.
    pub fn blobs_to_delete(&self, caller: &[u8]) -> (r: Vec<String>)
        requires
            self.wf(),
        ensures
            !is_gateway(self@, caller@) ==> r@.len() == 0,
            is_gateway(self@, caller@) ==> r@.map_values(|s: String| s@) == self.pending_keys(),
    {
        if !self.caller_is_gateway(caller) {
            return Vec::new();
        }
        self.marked_hashes()
    }

    /// Every blob record with its key, in increasing key order.
    pub fn blob_records(&self) -> (r: Vec<(String, BlobInfo)>)
        requires
            self.wf(),
        ensures
            r@.map_values(|e: (String, BlobInfo)| (e.0@, e.1)) == self.blob_entries(),
    {
        let mut out: Vec<(String, BlobInfo)> = Vec::new();
        let n = self.blobs.len();
        let mut i: usize = 0;
        while i < n
            invariant
                n == self.blobs.entries().len(),
                i <= n,
                out@.map_values(|e: (String, BlobInfo)| (e.0@, e.1)) == self.blob_entries().take(
                    i as int,
                ),
            decreases n - i,
        {
            let key = self.blobs.key_at(i).0.clone();
            let value = self.blobs.value_at(i).clone();
            let ghost before = out@;
            let ghost entry = (key@, value);
            out.push((key, value));
            assert(out@.map_values(|e: (String, BlobInfo)| (e.0@, e.1)) =~= before.map_values(
                |e: (String, BlobInfo)| (e.0@, e.1),
            ).push(entry));
            assert(self.blob_entries().take(i + 1) =~= self.blob_entries().take(i as int).push(
                self.blob_entries()[i as int],
            ));
            i = i + 1;
        }
        assert(self.blob_entries().take(n as int) =~= self.blob_entries());
        out
    }

    /// The authorized gateways, as a list.
    pub fn gateway_principal_list(&self) -> (r: Vec<Vec<u8>>)
        ensures
            principal_set(r@) == self@.gateway_principals,
    {
        self.gateway_principals.to_vec()
    }

    /// A gateway confirms that the named blobs are gone from object
    /// storage: their records and deletion marks are dropped.  Calls from
    /// any other principal change nothing.
    pub fn confirm_blob_deletion(&mut self, caller: &[u8], hash_bytes_list: &Vec<Vec<u8>>)
        requires
            old(self).wf(),
        ensures
            final(self).wf(),
            deletion_confirmed(old(self)@, final(self)@, caller@, hash_bytes_list@),
            !is_gateway(old(self)@, caller@) ==> final(self).blob_entries() == old(
                self,
            ).blob_entries() && final(self).pending_keys() == old(self).pending_keys(),
    {
        if !self.caller_is_gateway(caller) {
            return;
        }
        let ghost start = self@;
        let ghost list = hash_bytes_list@;
        let mut i: usize = 0;
        assert(named_hashes(list.take(0)) =~= Set::<Seq<char>>::empty());
        assert(start.blobs.remove_keys(Set::<Seq<char>>::empty()) =~= start.blobs);
        assert(start.pending_delete.difference(Set::<Seq<char>>::empty()) =~= start.pending_delete);
        while i < hash_bytes_list.len()
            invariant
                self.wf(),
                list == hash_bytes_list@,
                i <= list.len(),
                self@.blobs == start.blobs.remove_keys(named_hashes(list.take(i as int))),
                self@.pending_delete == start.pending_delete.difference(
                    named_hashes(list.take(i as int)),
                ),
                self@.gateway_principals == start.gateway_principals,
                self@.cashier_canister_id == start.cashier_canister_id,
            decreases list.len() - i,
        {
            let ghost done = named_hashes(list.take(i as int));
            let ghost next = named_hashes(list.take(i + 1));
            match bytes_to_sha256_string(hash_bytes_list[i].as_slice()) {
                Some(hash) => {
                    self.pending_delete.remove(hash.as_str());
                    self.blobs.remove(hash.as_str());
                    proof {
                        assert forall|h: Seq<char>| #[trigger] next.contains(h) <==> done.contains(h)
                            || h == hash@ by {
                            if next.contains(h) {
                                let j = choose|j: int|
                                    0 <= j < i + 1 && sha256_text(
                                        #[trigger] list.take(i + 1)[j]@,
                                    ) == Some(h);
                                if j < i {
                                    assert(list.take(i as int)[j] == list.take(i + 1)[j]);
                                }
                            }
                            if done.contains(h) {
                                let j = choose|j: int|
                                    0 <= j < i && sha256_text(#[trigger] list.take(i as int)[j]@)
                                        == Some(h);
                                assert(list.take(i + 1)[j] == list.take(i as int)[j]);
                            }
                            if h == hash@ {
                                assert(list.take(i + 1)[i as int] == list[i as int]);
                            }
                        }
                        assert(self@.blobs =~= start.blobs.remove_keys(next));
                        assert(self@.pending_delete =~= start.pending_delete.difference(next));
                        assert(self@.pending_delete.subset_of(self@.blobs.dom()));
                    }
                },
                None => {
                    proof {
                        assert forall|h: Seq<char>| #[trigger] next.contains(h) <==> done.contains(
                            h,
                        ) by {
                            if next.contains(h) {
                                let j = choose|j: int|
                                    0 <= j < i + 1 && sha256_text(
                                        #[trigger] list.take(i + 1)[j]@,
                                    ) == Some(h);
                                if j < i {
                                    assert(list.take(i as int)[j] == list.take(i + 1)[j]);
                                } else {
                                    assert(list.take(i + 1)[j] == list[i as int]);
                                }
                            }
                            if done.contains(h) {
                                let j = choose|j: int|
                                    0 <= j < i && sha256_text(#[trigger] list.take(i as int)[j]@)
                                        == Some(h);
                                assert(list.take(i + 1)[j] == list.take(i as int)[j]);
                            }
                        }
                        assert(next =~= done);
                    }
                },
            }
            i = i + 1;
        }
        assert(list.take(list.len() as int) =~= list);
    }

    /// Issues an upload certificate for the hash string at time `now`: the
    /// blob is recorded (unless it already is) and unmarked for deletion.
    pub fn create_certificate(&mut self, hash: String, now: u64) -> (r: Result<
        CreateCertificateResult,
        StorageError,
    >)
        requires
            old(self).wf(),
        ensures
            final(self).wf(),
            hash@.len() == 0 ==> r == Err::<CreateCertificateResult, StorageError>(
                StorageError::EmptyHash,
            ),
            hash@.len() != 0 && !well_formed_hash(hash@) ==> r == Err::<
                CreateCertificateResult,
                StorageError,
            >(StorageError::MalformedHash),
            r is Err ==> final(self)@ == old(self)@ && final(self).blob_entries() == old(
                self,
            ).blob_entries() && final(self).pending_keys() == old(self).pending_keys(),
            well_formed_hash(hash@) ==> {
                &&& r matches Ok(c) && c.method@ == "upload"@ && c.blob_hash@ == hash@
                &&& certificate_issued(old(self)@, final(self)@, hash@, now)
            },
    {
        if hash.as_str().is_empty() {
            return Err(StorageError::EmptyHash);
        }
        if !is_well_formed_hash(hash.as_str()) {
            return Err(StorageError::MalformedHash);
        }
        self.pending_delete.remove(hash.as_str());
        assert(self@.pending_delete =~= old(self)@.pending_delete.remove(hash@));
        if !self.blobs.contains_key(hash.as_str()) {
            let record = BlobInfo {
                hash: hash.clone(),
                name: String::new(),
                size: 0,
                content_type: String::new(),
                created_at: now,
            };
            self.blobs.insert(HashKey::new(hash.as_str()), record);
        }
        let method = String::from_str("upload");
        Ok(CreateCertificateResult { method, blob_hash: hash })
    }

    /// The record of the blob under the hash string, if any.
    pub fn get_blob(&self, hash: &str) -> (r: Option<BlobInfo>)
        requires
            self.wf(),
        ensures
            match r {
                Some(b) => self@.blobs.contains_key(hash@) && self@.blobs[hash@] == b,
                None => !self@.blobs.contains_key(hash@),
            },
    {
        match self.blobs.get(hash) {
            Some(b) => Some(b.clone()),
            None => None,
        }
    }

    /// Records `info` under the hash string, replacing any earlier record.
    pub fn update_blob(&mut self, hash: &str, info: BlobInfo)
        requires
            old(self).wf(),
        ensures
            final(self).wf(),
            final(self)@.blobs == old(self)@.blobs.insert(hash@, info),
            final(self)@.pending_delete == old(self)@.pending_delete,
            final(self)@.gateway_principals == old(self)@.gateway_principals,
            final(self)@.cashier_canister_id == old(self)@.cashier_canister_id,
            final(self).pending_keys() == old(self).pending_keys(),
    {
        self.blobs.insert(HashKey::new(hash), info);
    }

    /// Attaches display metadata to a recorded blob; a hash with no record
    /// changes nothing.
    pub fn set_blob_info(&mut self, hash: &str, name: String, size: u64, content_type: String)
        requires
            old(self).wf(),
        ensures
            final(self).wf(),
            !old(self)@.blobs.contains_key(hash@) ==> final(self)@ == old(self)@
                && final(self).blob_entries() == old(self).blob_entries(),
            final(self).pending_keys() == old(self).pending_keys(),
            old(self)@.blobs.contains_key(hash@) ==> final(self)@.blobs == old(self)@.blobs.insert(
                hash@,
                BlobInfo { name: name, size: size, content_type: content_type, ..old(self)@.blobs[hash@] },
            ),
            final(self)@.pending_delete == old(self)@.pending_delete,
            final(self)@.gateway_principals == old(self)@.gateway_principals,
            final(self)@.cashier_canister_id == old(self)@.cashier_canister_id,
    {
        if let Some(mut info) = self.get_blob(hash) {
            info.name = name;
            info.size = size;
            info.content_type = content_type;
            self.update_blob(hash, info);
        }
    }

    /// The live blob records, in increasing key order.
    pub fn list_live_blobs(&self) -> (r: Vec<BlobInfo>)
        requires
            self.wf(),
        ensures
            r@ == self.live_records(),
    {
        let mut out: Vec<BlobInfo> = Vec::new();
        let n = self.blobs.len();
        let mut i: usize = 0;
        let ghost entries = self.blob_entries();
        let ghost marked = self@.pending_delete;
        while i < n
            invariant
                self.wf(),
                entries == self.blob_entries(),
                marked == self@.pending_delete,
                n == entries.len(),
                i <= n,
                out@ == unmarked_values(entries.take(i as int), marked),
            decreases n - i,
        {
            let key = self.blobs.key_at(i);
            let keep = !self.pending_delete.contains_key(key.as_str());
            proof {
                assert(entries.take(i + 1).drop_last() =~= entries.take(i as int));
                assert(entries.take(i + 1).last() == entries[i as int]);
            }
            if keep {
                out.push(self.blobs.value_at(i).clone());
            }
            i = i + 1;
        }
        assert(entries.take(n as int) =~= entries);
        out
    }

    /// The live blob records, newest first; records created at the same
    /// time come in key order.
    pub fn list_blobs(&self) -> (r: Vec<BlobInfo>)
        requires
            self.wf(),
        ensures
            r@ == newest_first(self.live_records()),
    {
        let live = self.list_live_blobs();
        sort_newest_first(&live)
    }

    /// Marks a recorded blob for deletion; a hash with no record is refused.
    pub fn mark_for_deletion(&mut self, hash: &str) -> (r: Result<(), StorageError>)
        requires
            old(self).wf(),
        ensures
            final(self).wf(),
            old(self)@.blobs.contains_key(hash@) ==> r is Ok && marked_for_deletion(
                old(self)@,
                final(self)@,
                hash@,
            ),
            !old(self)@.blobs.contains_key(hash@) ==> r == Err::<(), StorageError>(
                StorageError::BlobNotFound,
            ) && final(self)@ == old(self)@ && final(self).pending_keys() == old(
                self,
            ).pending_keys(),
            final(self).blob_entries() == old(self).blob_entries(),
    {
        if !self.blobs.contains_key(hash) {
            return Err(StorageError::BlobNotFound);
        }
        self.pending_delete.insert(HashKey::new(hash), ());
        assert(self@.pending_delete =~= old(self)@.pending_delete.insert(hash@));
        Ok(())
    }
}

} // verus!
