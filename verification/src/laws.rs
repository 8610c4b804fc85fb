//! Properties of the protocol that relate several operations.
use crate::hash_text::{
    hex_bytes, is_lower_hex_digit, lemma_hex_text_injective, lemma_sha256_text_well_formed,
    lemma_well_formed_hash_names_digest, lowercase_hash, sha256_text, well_formed_hash,
};
use crate::listing::{created_at_time, lemma_newest_first_stable, newest_first};
use crate::principals::anonymous_principal;
use crate::blob::BlobInfo;
use crate::keyed_map::{keys_of, keys_sorted};
use crate::keys::key_lt;
use crate::storage::{
    certificate_issued, deletion_confirmed, is_gateway, is_live, is_live_digest,
    marked_for_deletion, named_hashes, unmarked_values, StorageState, StorageView,
};
use vstd::prelude::*;
use vstd::utf8::{decode_utf8, encode_utf8, encode_utf8_decode_utf8, encode_utf8_valid_utf8, valid_utf8};

verus! {

/// A key read back from its byte form is the key that was written.
pub proof fn law_hash_key_bytes_round_trip(key: Seq<char>)
    ensures
        valid_utf8(encode_utf8(key)),
        decode_utf8(encode_utf8(key)) == key,
{
    encode_utf8_valid_utf8(key);
    encode_utf8_decode_utf8(key);
}

/// The hash string made from a 32-byte digest is one that upload
/// certificates are issued for: `sha256:` and 64 hex digits, 71 bytes.
pub proof fn law_digest_hash_is_certifiable(digest: Seq<u8>)
    requires
        digest.len() == 32,
    ensures
        sha256_text(digest) matches Some(h) && well_formed_hash(h) && lowercase_hash(h) && h.len()
            == 71 && (forall|i: int| 7 <= i < 71 ==> is_lower_hex_digit(#[trigger] h[i])),
{
    lemma_sha256_text_well_formed(digest);
}

/// Distinct digests are named by distinct hash strings.
pub proof fn law_distinct_digests_distinct_hashes(a: Seq<u8>, b: Seq<u8>)
    requires
        sha256_text(a) is Some,
        sha256_text(a) == sha256_text(b),
    ensures
        a == b,
{
    assert((sha256_text(a)->0).skip(7) =~= crate::hash_text::hex_text(a));
    assert((sha256_text(b)->0).skip(7) =~= crate::hash_text::hex_text(b));
    lemma_hex_text_injective(a, b);
}

/// Every lowercase hash string names exactly one 32-byte digest, the one
/// its hex digits spell.
pub proof fn law_certifiable_hash_names_one_digest(hash: Seq<char>, digest: Seq<u8>)
    requires
        lowercase_hash(hash),
    ensures
        hex_bytes(hash.skip(7)).len() == 32,
        sha256_text(hex_bytes(hash.skip(7))) == Some(hash),
        sha256_text(digest) == Some(hash) <==> digest == hex_bytes(hash.skip(7)),
{
    lemma_well_formed_hash_names_digest(hash);
}

/// After an upload certificate is issued for a hash, the blob is live, and
/// a liveness query by any digest naming that hash answers yes.
pub proof fn law_certified_blob_is_live(
    before: StorageView,
    after: StorageView,
    hash: Seq<char>,
    now: u64,
    digest: Seq<u8>,
)
    requires
        certificate_issued(before, after, hash, now),
    ensures
        is_live(after, hash),
        sha256_text(digest) == Some(hash) ==> is_live_digest(after, digest),
{
}

/// A blob certified under a lowercase hash is found live by the digest its
/// hex digits spell.
pub proof fn law_certified_blob_found_by_digest(
    before: StorageView,
    after: StorageView,
    hash: Seq<char>,
    now: u64,
)
    requires
        certificate_issued(before, after, hash, now),
        lowercase_hash(hash),
    ensures
        is_live_digest(after, hex_bytes(hash.skip(7))),
{
    lemma_well_formed_hash_names_digest(hash);
}

/// Issuing a certificate again for a recorded blob keeps its record (its
/// creation time among it).
pub proof fn law_certificate_keeps_record(
    before: StorageView,
    after: StorageView,
    hash: Seq<char>,
    now: u64,
)
    requires
        certificate_issued(before, after, hash, now),
        before.blobs.contains_key(hash),
    ensures
        after.blobs[hash] == before.blobs[hash],
{
}

/// Issuing a certificate touches no other blob.
pub proof fn law_certificate_is_local(
    before: StorageView,
    after: StorageView,
    hash: Seq<char>,
    now: u64,
    other: Seq<char>,
)
    requires
        certificate_issued(before, after, hash, now),
        other != hash,
    ensures
        after.blobs.contains_key(other) == before.blobs.contains_key(other),
        before.blobs.contains_key(other) ==> after.blobs[other] == before.blobs[other],
        after.pending_delete.contains(other) == before.pending_delete.contains(other),
{
}

/// A blob marked for deletion is no longer live, stays recorded, and is
/// among the hashes the gateway is told to delete.
pub proof fn law_marked_blob_is_not_live(before: StorageView, after: StorageView, hash: Seq<char>)
    requires
        marked_for_deletion(before, after, hash),
    ensures
        !is_live(after, hash),
        after.blobs.contains_key(hash),
        after.pending_delete.contains(hash),
{
}

/// A gateway's confirmation drops each blob it names, record and mark.
pub proof fn law_confirmed_blob_is_forgotten(
    before: StorageView,
    after: StorageView,
    caller: Seq<u8>,
    digests: Seq<Vec<u8>>,
    i: int,
    hash: Seq<char>,
)
    requires
        deletion_confirmed(before, after, caller, digests),
        is_gateway(before, caller),
        0 <= i < digests.len(),
        sha256_text(digests[i]@) == Some(hash),
    ensures
        !after.blobs.contains_key(hash),
        !after.pending_delete.contains(hash),
        !is_live(after, hash),
{
    assert(named_hashes(digests).contains(hash));
}

/// A confirmation leaves every blob it does not name as it was.
pub proof fn law_confirmation_is_local(
    before: StorageView,
    after: StorageView,
    caller: Seq<u8>,
    digests: Seq<Vec<u8>>,
    hash: Seq<char>,
)
    requires
        deletion_confirmed(before, after, caller, digests),
        forall|i: int| 0 <= i < digests.len() ==> sha256_text(#[trigger] digests[i]@) != Some(hash),
    ensures
        after.blobs.contains_key(hash) == before.blobs.contains_key(hash),
        before.blobs.contains_key(hash) ==> after.blobs[hash] == before.blobs[hash],
        after.pending_delete.contains(hash) == before.pending_delete.contains(hash),
{
    assert(!named_hashes(digests).contains(hash));
}

/// Only a gateway's confirmation changes anything.
pub proof fn law_only_gateways_confirm(
    before: StorageView,
    after: StorageView,
    caller: Seq<u8>,
    digests: Seq<Vec<u8>>,
)
    requires
        deletion_confirmed(before, after, caller, digests),
        !is_gateway(before, caller),
    ensures
        after == before,
{
}

/// The anonymous principal is never an authorized gateway.
pub proof fn law_anonymous_is_never_gateway(v: StorageView)
    ensures
        !is_gateway(v, anonymous_principal()),
{
}

/// Marking a blob and then having a gateway confirm its deletion leaves no
/// trace of the blob.
pub proof fn law_mark_then_confirm_forgets(
    s0: StorageView,
    s1: StorageView,
    s2: StorageView,
    hash: Seq<char>,
    gateway: Seq<u8>,
    digests: Seq<Vec<u8>>,
    i: int,
)
    requires
        marked_for_deletion(s0, s1, hash),
        deletion_confirmed(s1, s2, gateway, digests),
        is_gateway(s1, gateway),
        0 <= i < digests.len(),
        sha256_text(digests[i]@) == Some(hash),
    ensures
        !s2.blobs.contains_key(hash),
        !s2.pending_delete.contains(hash),
        s2.gateway_principals == s0.gateway_principals,
{
    law_confirmed_blob_is_forgotten(s1, s2, gateway, digests, i, hash);
}

/// In the newest-first listing, records created at the same time keep the
/// order of the live listing, which is key order.
pub proof fn law_listing_ties_keep_key_order(live: Seq<crate::blob::BlobInfo>, t: u64)
    ensures
        created_at_time(newest_first(live), t) == created_at_time(live, t),
{
    lemma_newest_first_stable(live, t);
}

/// Marking a hash for deletion marks that hash and no other: every other
/// hash is marked afterwards exactly when it was before, and the records
/// stay as they were.
pub proof fn law_marking_is_local(before: StorageView, after: StorageView, hash: Seq<char>)
    requires
        marked_for_deletion(before, after, hash),
    ensures
        after.pending_delete.contains(hash),
        before.blobs.contains_key(hash),
        forall|k: Seq<char>|
            k != hash ==> (#[trigger] after.pending_delete.contains(k) <==> before.pending_delete.contains(k)),
        after.blobs == before.blobs,
{
}

/// A blob is live exactly when it is recorded and not marked for deletion.
pub proof fn law_liveness_meaning(v: StorageView, hash: Seq<char>)
    ensures
        is_live(v, hash) <==> (v.blobs.contains_key(hash) && !v.pending_delete.contains(hash)),
{
}

/// The liveness answer for a digest is the liveness of the hash it names:
/// true exactly when that hash is recorded and not marked; a digest that
/// names no hash (not 32 bytes long) answers false.
pub proof fn law_digest_answer_is_liveness(v: StorageView, digest: Seq<u8>, hash: Seq<char>)
    ensures
        sha256_text(digest) == Some(hash) ==> (is_live_digest(v, digest) <==> (v.blobs.contains_key(
            hash,
        ) && !v.pending_delete.contains(hash))),
        digest.len() != 32 ==> !is_live_digest(v, digest),
        v.pending_delete.contains(hash) && sha256_text(digest) == Some(hash) ==> !is_live_digest(
            v,
            digest,
        ),
{
}

/// A record made by issuing a certificate carries the hash, an empty name
/// and content type, size zero, and exactly the time of issue.
pub proof fn law_new_record_carries_issue_time(
    before: StorageView,
    after: StorageView,
    hash: Seq<char>,
    now: u64,
)
    requires
        certificate_issued(before, after, hash, now),
        !before.blobs.contains_key(hash),
    ensures
        after.blobs.contains_key(hash),
        after.blobs[hash].created_at == now,
        after.blobs[hash].hash@ == hash,
        after.blobs[hash].name@.len() == 0,
        after.blobs[hash].size == 0,
        after.blobs[hash].content_type@.len() == 0,
        !after.pending_delete.contains(hash),
{
}

/// Every authorized principal other than the anonymous one (the single
/// byte 4) is a gateway, whatever its length; no other principal is.
pub proof fn law_gateways_are_the_authorized_principals(v: StorageView, p: Seq<u8>)
    ensures
        is_gateway(v, p) <==> (p != seq![4u8] && v.gateway_principals.contains(p)),
{
    assert(anonymous_principal() =~= seq![4u8]);
}

/// The keys of the entries whose key is not marked, in entry order.
pub open spec fn unmarked_keys(entries: Seq<(Seq<char>, BlobInfo)>, marked: Set<Seq<char>>) -> Seq<
    Seq<char>,
>
    decreases entries.len(),
{
    if entries.len() == 0 {
        Seq::empty()
    } else {
        let rest = unmarked_keys(entries.drop_last(), marked);
        if marked.contains(entries.last().0) {
            rest
        } else {
            rest.push(entries.last().0)
        }
    }
}

proof fn lemma_unmarked(entries: Seq<(Seq<char>, BlobInfo)>, marked: Set<Seq<char>>)
    requires
        keys_sorted(entries),
    ensures
        unmarked_keys(entries, marked).len() == unmarked_values(entries, marked).len(),
        forall|i: int, j: int|
            0 <= i < j < unmarked_keys(entries, marked).len() ==> key_lt(
                #[trigger] unmarked_keys(entries, marked)[i],
                #[trigger] unmarked_keys(entries, marked)[j],
            ),
        forall|i: int|
            0 <= i < unmarked_keys(entries, marked).len() ==> exists|j: int|
                0 <= j < entries.len() && (#[trigger] entries[j]).0 == #[trigger] unmarked_keys(
                    entries,
                    marked,
                )[i] && entries[j].1 == unmarked_values(entries, marked)[i],
        forall|i: int|
            0 <= i < unmarked_keys(entries, marked).len() ==> !marked.contains(
                #[trigger] unmarked_keys(entries, marked)[i],
            ),
        forall|j: int|
            0 <= j < entries.len() && !marked.contains(#[trigger] entries[j].0) ==> unmarked_keys(
                entries,
                marked,
            ).contains(entries[j].0),
    decreases entries.len(),
{
    if entries.len() > 0 {
        let e = entries.drop_last();
        let last = entries.last();
        assert(keys_sorted(e)) by {
            assert forall|i: int, j: int| 0 <= i < j < e.len() implies key_lt(
                #[trigger] e[i].0,
                #[trigger] e[j].0,
            ) by {
                assert(e[i] == entries[i] && e[j] == entries[j]);
            }
        }
        lemma_unmarked(e, marked);
        let ks0 = unmarked_keys(e, marked);
        let vs0 = unmarked_values(e, marked);
        let ks = unmarked_keys(entries, marked);
        let vs = unmarked_values(entries, marked);
        let n = entries.len() - 1;
        assert(last == entries[n]);
        // every key kept so far comes before the last key
        assert forall|i: int| 0 <= i < ks0.len() implies key_lt(#[trigger] ks0[i], last.0) by {
            let j = choose|j: int|
                0 <= j < e.len() && (#[trigger] e[j]).0 == ks0[i] && e[j].1 == vs0[i];
            assert(e[j] == entries[j]);
            assert(key_lt(entries[j].0, entries[n].0));
        }
        if !marked.contains(last.0) {
            assert(ks == ks0.push(last.0));
            assert(vs == vs0.push(last.1));
            assert forall|i: int| 0 <= i < ks.len() implies exists|j: int|
                0 <= j < entries.len() && (#[trigger] entries[j]).0 == #[trigger] ks[i]
                    && entries[j].1 == vs[i] by {
                if i < ks0.len() {
                    let j = choose|j: int|
                        0 <= j < e.len() && (#[trigger] e[j]).0 == ks0[i] && e[j].1 == vs0[i];
                    assert(e[j] == entries[j]);
                    assert(ks[i] == ks0[i] && vs[i] == vs0[i]);
                } else {
                    assert(entries[n].0 == ks[i] && entries[n].1 == vs[i]);
                }
            }
            assert forall|i: int, j: int| 0 <= i < j < ks.len() implies key_lt(
                #[trigger] ks[i],
                #[trigger] ks[j],
            ) by {
                if j < ks0.len() {
                    assert(ks[i] == ks0[i] && ks[j] == ks0[j]);
                } else {
                    assert(ks[i] == ks0[i]);
                }
            }
            assert forall|j: int| 0 <= j < entries.len() && !marked.contains(
                #[trigger] entries[j].0,
            ) implies ks.contains(entries[j].0) by {
                if j < n {
                    assert(e[j] == entries[j]);
                    let i = choose|i: int| 0 <= i < ks0.len() && ks0[i] == entries[j].0;
                    assert(ks[i] == ks0[i]);
                } else {
                    assert(ks[ks0.len() as int] == entries[j].0);
                }
            }
            assert forall|i: int| 0 <= i < ks.len() implies !marked.contains(#[trigger] ks[i]) by {
                if i < ks0.len() {
                    assert(ks[i] == ks0[i]);
                }
            }
        } else {
            assert(ks == ks0);
            assert(vs == vs0);
            assert forall|i: int| 0 <= i < ks.len() implies exists|j: int|
                0 <= j < entries.len() && (#[trigger] entries[j]).0 == #[trigger] ks[i]
                    && entries[j].1 == vs[i] by {
                let j = choose|j: int|
                    0 <= j < e.len() && (#[trigger] e[j]).0 == ks0[i] && e[j].1 == vs0[i];
                assert(e[j] == entries[j]);
            }
            assert forall|j: int| 0 <= j < entries.len() && !marked.contains(
                #[trigger] entries[j].0,
            ) implies ks.contains(entries[j].0) by {
                assert(j < n);
                assert(e[j] == entries[j]);
            }
        }
    }
}

/// `keys` is a strictly increasing sequence of hashes, each recorded and
/// not marked, whose records are `listing`, and every recorded hash that is
/// not marked is among them.
pub open spec fn lists_live_records(v: StorageView, listing: Seq<BlobInfo>, keys: Seq<Seq<char>>) -> bool {
    &&& keys.len() == listing.len()
    &&& forall|i: int, j: int| 0 <= i < j < keys.len() ==> key_lt(#[trigger] keys[i], #[trigger] keys[j])
    &&& forall|i: int|
        0 <= i < keys.len() ==> {
            &&& v.blobs.contains_key(#[trigger] keys[i])
            &&& !v.pending_delete.contains(keys[i])
            &&& listing[i] == v.blobs[keys[i]]
        }
    &&& forall|k: Seq<char>|
        v.blobs.contains_key(k) && !v.pending_delete.contains(k) ==> #[trigger] keys.contains(k)
}

/// The live listing is the records of the live blobs, each once, in
/// increasing key order.
pub proof fn law_live_listing_is_the_live_records(s: &StorageState)
    requires
        s.wf(),
    ensures
        exists|ks: Seq<Seq<char>>| #[trigger] lists_live_records(s@, s.live_records(), ks),
{
    s.lemma_state_shape();
    let entries = s.blob_entries();
    let marked = s@.pending_delete;
    lemma_unmarked(entries, marked);
    let ks = unmarked_keys(entries, marked);
    assert forall|i: int| 0 <= i < ks.len() implies {
        &&& s@.blobs.contains_key(#[trigger] ks[i])
        &&& !s@.pending_delete.contains(ks[i])
        &&& s.live_records()[i] == s@.blobs[ks[i]]
    } by {
        let j = choose|j: int|
            0 <= j < entries.len() && (#[trigger] entries[j]).0 == ks[i] && entries[j].1
                == unmarked_values(entries, marked)[i];
        assert(keys_of(entries)[j] == ks[i]);
        assert(keys_of(entries).contains(ks[i]));
        assert(s@.blobs[entries[j].0] == entries[j].1);
    }
    assert forall|k: Seq<char>|
        s@.blobs.contains_key(k) && !s@.pending_delete.contains(k) implies #[trigger] ks.contains(k) by {
        assert(keys_of(entries).contains(k));
        let j = choose|j: int| 0 <= j < keys_of(entries).len() && keys_of(entries)[j] == k;
        assert(entries[j].0 == k);
    }
    assert(lists_live_records(s@, s.live_records(), ks));
}

} // verus!
