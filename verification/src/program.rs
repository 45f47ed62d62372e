//! The rules of the on-chain collection registry: who may create, update,
//! share and freeze a collection, and what each instruction records.
//!
//! Account keys are 32-byte public keys; clock readings are passed in.

use vstd::prelude::*;
use vstd::string::*;
use vstd::utf8::encode_utf8;
use crate::digest::digest_eq;

verus! {

/// Longest collection name, in bytes.
pub const MAX_NAME_LEN: usize = 64;

/// Largest vector dimension a collection may declare.
pub const MAX_DIMENSIONS: u32 = 4096;

/// The on-chain collection account.
#[derive(Debug, Clone)]
pub struct Collection {
    pub owner: [u8; 32],
    pub name: String,
    pub dimensions: u32,
    pub metric: u8,
    pub vector_count: u64,
    pub merkle_root: [u8; 32],
    pub created_at: i64,
    pub last_updated: i64,
    pub is_frozen: bool,
    pub bump: u8,
}

/// Access control record, one per (collection, grantee) pair.
#[derive(Debug, Clone, Copy)]
pub struct AccessRecord {
    pub collection: [u8; 32],
    pub grantee: [u8; 32],
    pub access_level: u8,
    pub granted_at: i64,
    pub granted_by: [u8; 32],
    pub bump: u8,
}

/// Emitted when a collection is created.
#[derive(Debug, Clone)]
pub struct CollectionCreated {
    pub owner: [u8; 32],
    pub name: String,
    pub dimensions: u32,
    pub created_at: i64,
}

/// Emitted when a collection's Merkle root changes.
#[derive(Debug, Clone, Copy)]
pub struct MerkleRootUpdated {
    pub collection: [u8; 32],
    pub old_root: [u8; 32],
    pub new_root: [u8; 32],
    pub vector_count: u64,
    pub updated_at: i64,
}

/// Emitted when access is granted.
#[derive(Debug, Clone, Copy)]
pub struct AccessGranted {
    pub collection: [u8; 32],
    pub grantee: [u8; 32],
    pub access_level: u8,
    pub granted_by: [u8; 32],
}

/// Emitted when access is revoked.
#[derive(Debug, Clone, Copy)]
pub struct AccessRevoked {
    pub collection: [u8; 32],
    pub grantee: [u8; 32],
    pub revoked_by: [u8; 32],
}

/// Why an instruction is refused.
#[derive(Debug, Clone, Copy, PartialEq, Eq)]
pub enum SolVecError {
    Unauthorized,
    NameEmpty,
    NameTooLong,
    InvalidDimensions,
    InvalidMetric,
    InvalidAccessLevel,
    CannotGrantToSelf,
    CollectionFrozen,
}

/// The error, if any, with which a collection of this name, dimension and
/// metric is refused.
pub open spec fn create_error(name_bytes: nat, name_chars: nat, dimensions: u32, metric: u8) -> Option<SolVecError> {
    if name_bytes > 64 {
        Some(SolVecError::NameTooLong)
    } else if name_chars == 0 {
        Some(SolVecError::NameEmpty)
    } else if !(0 < dimensions <= 4096) {
        Some(SolVecError::InvalidDimensions)
    } else if metric > 2 {
        Some(SolVecError::InvalidMetric)
    } else {
        None
    }
}

/// A name is refused as too long exactly when it takes more than 64 bytes,
/// whatever its characters; a name of 1 to 64 bytes with a dimension in
/// `1..=4096` and a metric code up to 2 is accepted.
pub proof fn lemma_name_limit_is_bytes(name_bytes: nat, name_chars: nat, dimensions: u32, metric: u8)
    ensures
        create_error(name_bytes, name_chars, dimensions, metric) == Some(SolVecError::NameTooLong) <==> name_bytes > 64,
        name_bytes <= 64 && name_chars > 0 && 0 < dimensions <= 4096 && metric <= 2 ==> create_error(
            name_bytes,
            name_chars,
            dimensions,
            metric,
        ) is None,
{
}

/// Creates a collection owned by `owner`, with a zero root and no vectors,
/// created and updated at `now`; refused for a name longer than 64 bytes,
/// an empty name, a dimension outside `1..=4096` or a metric code above 2.
pub fn create_collection(
    owner: [u8; 32],
    name: String,
    dimensions: u32,
    metric: u8,
    now: i64,
    bump: u8,
) -> (r: Result<(Collection, CollectionCreated), SolVecError>)
    ensures
        create_error(encode_utf8(name@).len() as usize as nat, name@.len(), dimensions, metric) matches Some(e)
            ==> r == Err::<(Collection, CollectionCreated), SolVecError>(e),
        create_error(encode_utf8(name@).len() as usize as nat, name@.len(), dimensions, metric) is None ==> (r matches Ok(
            (c, ev),
        ) && {
            &&& c.owner == owner
            &&& c.name@ == name@
            &&& c.dimensions == dimensions
            &&& c.metric == metric
            &&& c.vector_count == 0
            &&& c.merkle_root@ == Seq::new(32, |i: int| 0u8)
            &&& c.created_at == now
            &&& c.last_updated == now
            &&& !c.is_frozen
            &&& c.bump == bump
            &&& ev.owner == owner
            &&& ev.name@ == name@
            &&& ev.dimensions == dimensions
            &&& ev.created_at == now
        }),
        r matches Err(SolVecError::NameTooLong) <==> encode_utf8(name@).len() > 64,
        0 < encode_utf8(name@).len() <= 64 && 0 < dimensions <= 4096 && metric <= 2 ==> r is Ok,
{
    let byte_len = name.as_str().as_bytes().len();
    if byte_len > MAX_NAME_LEN {
        return Err(SolVecError::NameTooLong);
    }
    if name.as_str().is_empty() {
        return Err(SolVecError::NameEmpty);
    }
    if !(dimensions > 0 && dimensions <= MAX_DIMENSIONS) {
        return Err(SolVecError::InvalidDimensions);
    }
    if metric > 2 {
        return Err(SolVecError::InvalidMetric);
    }
    let zero: [u8; 32] = [0u8; 32];
    assert(zero@ =~= Seq::new(32, |i: int| 0u8));
    let event = CollectionCreated { owner, name: name.clone(), dimensions, created_at: now };
    let collection = Collection {
        owner,
        name,
        dimensions,
        metric,
        vector_count: 0,
        merkle_root: zero,
        created_at: now,
        last_updated: now,
        is_frozen: false,
        bump,
    };
    Ok((collection, event))
}

/// Records a new Merkle root and vector count, signed by `authority`.
/// Only the owner may update (checked first), and never a frozen collection.
pub fn update_merkle_root(
    collection: &mut Collection,
    collection_key: [u8; 32],
    authority: [u8; 32],
    new_root: [u8; 32],
    new_vector_count: u64,
    now: i64,
) -> (r: Result<MerkleRootUpdated, SolVecError>)
    ensures
        old(collection).owner@ != authority@ ==> r == Err::<MerkleRootUpdated, SolVecError>(
            SolVecError::Unauthorized,
        ) && *final(collection) == *old(collection),
        old(collection).owner@ == authority@ && old(collection).is_frozen ==> r == Err::<
            MerkleRootUpdated,
            SolVecError,
        >(SolVecError::CollectionFrozen) && *final(collection) == *old(collection),
        old(collection).owner@ == authority@ && !old(collection).is_frozen ==> r == Ok::<
            MerkleRootUpdated,
            SolVecError,
        >(
            MerkleRootUpdated {
                collection: collection_key,
                old_root: old(collection).merkle_root,
                new_root,
                vector_count: new_vector_count,
                updated_at: now,
            },
        ) && *final(collection) == (Collection {
            merkle_root: new_root,
            vector_count: new_vector_count,
            last_updated: now,
            ..*old(collection)
        }),
{
    if !digest_eq(&collection.owner, &authority) {
        return Err(SolVecError::Unauthorized);
    }
    if collection.is_frozen {
        return Err(SolVecError::CollectionFrozen);
    }
    let old_root = collection.merkle_root;
    collection.merkle_root = new_root;
    collection.vector_count = new_vector_count;
    collection.last_updated = now;
    Ok(
        MerkleRootUpdated {
            collection: collection_key,
            old_root,
            new_root,
            vector_count: new_vector_count,
            updated_at: now,
        },
    )
}

/// Grants `grantee` read (0) or read+write (1) access, signed by `owner`.
/// Refused unless the signer owns the collection, for another level, and
/// for the owner itself.
pub fn grant_access(
    collection: &Collection,
    collection_key: [u8; 32],
    owner: [u8; 32],
    grantee: [u8; 32],
    access_level: u8,
    now: i64,
    bump: u8,
) -> (r: Result<(AccessRecord, AccessGranted), SolVecError>)
    ensures
        collection.owner@ != owner@ ==> r == Err::<(AccessRecord, AccessGranted), SolVecError>(
            SolVecError::Unauthorized,
        ),
        collection.owner@ == owner@ && access_level > 1 ==> r == Err::<
            (AccessRecord, AccessGranted),
            SolVecError,
        >(SolVecError::InvalidAccessLevel),
        collection.owner@ == owner@ && access_level <= 1 && grantee@ == owner@ ==> r == Err::<
            (AccessRecord, AccessGranted),
            SolVecError,
        >(SolVecError::CannotGrantToSelf),
        collection.owner@ == owner@ && access_level <= 1 && grantee@ != owner@ ==> r == Ok::<
            (AccessRecord, AccessGranted),
            SolVecError,
        >(
            (
                AccessRecord {
                    collection: collection_key,
                    grantee,
                    access_level,
                    granted_at: now,
                    granted_by: owner,
                    bump,
                },
                AccessGranted { collection: collection_key, grantee, access_level, granted_by: owner },
            ),
        ),
{
    if !digest_eq(&collection.owner, &owner) {
        return Err(SolVecError::Unauthorized);
    }
    if access_level > 1 {
        return Err(SolVecError::InvalidAccessLevel);
    }
    if digest_eq(&grantee, &owner) {
        return Err(SolVecError::CannotGrantToSelf);
    }
    Ok(
        (
            AccessRecord {
                collection: collection_key,
                grantee,
                access_level,
                granted_at: now,
                granted_by: owner,
                bump,
            },
            AccessGranted { collection: collection_key, grantee, access_level, granted_by: owner },
        ),
    )
}

/// Revokes `grantee`'s access, signed by `owner`; only the owner may.
pub fn revoke_access(
    collection: &Collection,
    collection_key: [u8; 32],
    owner: [u8; 32],
    grantee: [u8; 32],
) -> (r: Result<AccessRevoked, SolVecError>)
    ensures
        collection.owner@ != owner@ ==> r == Err::<AccessRevoked, SolVecError>(SolVecError::Unauthorized),
        collection.owner@ == owner@ ==> r == Ok::<AccessRevoked, SolVecError>(
            AccessRevoked { collection: collection_key, grantee, revoked_by: owner },
        ),
{
    if !digest_eq(&collection.owner, &owner) {
        return Err(SolVecError::Unauthorized);
    }
    Ok(AccessRevoked { collection: collection_key, grantee, revoked_by: owner })
}

/// Freezes a collection so that its root can no longer change; only the
/// owner may.
pub fn freeze_collection(collection: &mut Collection, owner: [u8; 32]) -> (r: Result<(), SolVecError>)
    ensures
        old(collection).owner@ != owner@ ==> r == Err::<(), SolVecError>(SolVecError::Unauthorized)
            && *final(collection) == *old(collection),
        old(collection).owner@ == owner@ ==> r is Ok && *final(collection) == (Collection {
            is_frozen: true,
            ..*old(collection)
        }),
{
    if !digest_eq(&collection.owner, &owner) {
        return Err(SolVecError::Unauthorized);
    }
    collection.is_frozen = true;
    Ok(())
}

/// Once frozen, a collection's root never changes: every update is refused
/// and leaves the collection as it was.
pub proof fn lemma_frozen_root_is_final(before: Collection, after: Collection, r: Result<MerkleRootUpdated, SolVecError>, authority: [u8; 32])
    requires
        before.is_frozen,
        before.owner@ != authority@ ==> r == Err::<MerkleRootUpdated, SolVecError>(SolVecError::Unauthorized) && after == before,
        before.owner@ == authority@ && before.is_frozen ==> r == Err::<MerkleRootUpdated, SolVecError>(SolVecError::CollectionFrozen) && after == before,
    ensures
        r is Err,
        after.merkle_root == before.merkle_root,
        after.vector_count == before.vector_count,
{
}

} // verus!
