//! What is recorded per blob, and what an upload certificate carries.
use vstd::prelude::*;

verus! {

/// Display metadata kept for a blob.
#[derive(Debug)]
pub struct BlobInfo {
    pub hash: String,
    pub name: String,
    pub size: u64,
    pub content_type: String,
    pub created_at: u64,
}

impl Clone for BlobInfo {
    fn clone(&self) -> (r: Self)
        ensures
            r == *self,
    {
        BlobInfo {
            hash: self.hash.clone(),
            name: self.name.clone(),
            size: self.size,
            content_type: self.content_type.clone(),
            created_at: self.created_at,
        }
    }
}

/// The record made for a blob when its upload certificate is issued: the
/// hash, empty name and content type, size zero, and the time of issue.
pub open spec fn fresh_record(b: BlobInfo, hash: Seq<char>, now: u64) -> bool {
    &&& b.hash@ == hash
    &&& b.name@ == Seq::<char>::empty()
    &&& b.size == 0
    &&& b.content_type@ == Seq::<char>::empty()
    &&& b.created_at == now
}

/// The answer to an upload certificate request.
#[derive(Debug)]
pub struct CreateCertificateResult {
    pub method: String,
    pub blob_hash: String,
}

} // verus!
