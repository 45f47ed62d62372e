use solvec_core::program::{
    create_collection, freeze_collection, grant_access, revoke_access, update_merkle_root,
    SolVecError,
};

const OWNER: [u8; 32] = [7u8; 32];
const OTHER: [u8; 32] = [9u8; 32];
const KEY: [u8; 32] = [3u8; 32];

#[test]
fn create_collection_rules() {
    let (c, ev) = create_collection(OWNER, "docs".to_string(), 384, 0, 100, 255).unwrap();
    assert_eq!(c.owner, OWNER);
    assert_eq!(c.name, "docs");
    assert_eq!(c.dimensions, 384);
    assert_eq!(c.metric, 0);
    assert_eq!(c.vector_count, 0);
    assert_eq!(c.merkle_root, [0u8; 32]);
    assert_eq!(c.created_at, 100);
    assert_eq!(c.last_updated, 100);
    assert!(!c.is_frozen);
    assert_eq!(c.bump, 255);
    assert_eq!(ev.name, "docs");
    assert_eq!(ev.created_at, 100);

    assert_eq!(create_collection(OWNER, "x".repeat(65), 3, 0, 0, 0).err(), Some(SolVecError::NameTooLong));
    assert!(create_collection(OWNER, "x".repeat(64), 3, 0, 0, 0).is_ok());
    // 22 three-byte characters are 66 bytes.
    assert_eq!(create_collection(OWNER, "€".repeat(22), 3, 0, 0, 0).err(), Some(SolVecError::NameTooLong));
    assert_eq!(create_collection(OWNER, String::new(), 3, 0, 0, 0).err(), Some(SolVecError::NameEmpty));
    assert_eq!(create_collection(OWNER, "a".to_string(), 0, 0, 0, 0).err(), Some(SolVecError::InvalidDimensions));
    assert_eq!(create_collection(OWNER, "a".to_string(), 4097, 0, 0, 0).err(), Some(SolVecError::InvalidDimensions));
    assert!(create_collection(OWNER, "a".to_string(), 4096, 2, 0, 0).is_ok());
    assert_eq!(create_collection(OWNER, "a".to_string(), 3, 3, 0, 0).err(), Some(SolVecError::InvalidMetric));
}

#[test]
fn update_root_rules() {
    let (mut c, _) = create_collection(OWNER, "docs".to_string(), 3, 1, 10, 1).unwrap();
    assert_eq!(update_merkle_root(&mut c, KEY, OTHER, [5u8; 32], 4, 20).err(), Some(SolVecError::Unauthorized));
    let ev = update_merkle_root(&mut c, KEY, OWNER, [5u8; 32], 4, 20).unwrap();
    assert_eq!(ev.old_root, [0u8; 32]);
    assert_eq!(ev.new_root, [5u8; 32]);
    assert_eq!(ev.vector_count, 4);
    assert_eq!(ev.updated_at, 20);
    assert_eq!(ev.collection, KEY);
    assert_eq!(c.merkle_root, [5u8; 32]);
    assert_eq!(c.vector_count, 4);
    assert_eq!(c.last_updated, 20);
    assert_eq!(c.created_at, 10);

    assert_eq!(freeze_collection(&mut c, OTHER), Err(SolVecError::Unauthorized));
    assert!(!c.is_frozen);
    freeze_collection(&mut c, OWNER).unwrap();
    assert!(c.is_frozen);
    assert_eq!(update_merkle_root(&mut c, KEY, OWNER, [6u8; 32], 5, 30).err(), Some(SolVecError::CollectionFrozen));
    assert_eq!(update_merkle_root(&mut c, KEY, OTHER, [6u8; 32], 5, 30).err(), Some(SolVecError::Unauthorized));
    assert_eq!(c.merkle_root, [5u8; 32]);
    assert_eq!(c.vector_count, 4);
}

#[test]
fn access_rules() {
    let (c, _) = create_collection(OWNER, "docs".to_string(), 3, 1, 10, 1).unwrap();
    assert_eq!(grant_access(&c, KEY, OTHER, [1u8; 32], 0, 5, 2).err(), Some(SolVecError::Unauthorized));
    assert_eq!(grant_access(&c, KEY, OWNER, [1u8; 32], 2, 5, 2).err(), Some(SolVecError::InvalidAccessLevel));
    assert_eq!(grant_access(&c, KEY, OWNER, OWNER, 1, 5, 2).err(), Some(SolVecError::CannotGrantToSelf));
    let (rec, ev) = grant_access(&c, KEY, OWNER, [1u8; 32], 1, 5, 2).unwrap();
    assert_eq!(rec.collection, KEY);
    assert_eq!(rec.grantee, [1u8; 32]);
    assert_eq!(rec.access_level, 1);
    assert_eq!(rec.granted_at, 5);
    assert_eq!(rec.granted_by, OWNER);
    assert_eq!(rec.bump, 2);
    assert_eq!(ev.access_level, 1);

    assert_eq!(revoke_access(&c, KEY, OTHER, [1u8; 32]).err(), Some(SolVecError::Unauthorized));
    let rv = revoke_access(&c, KEY, OWNER, [1u8; 32]).unwrap();
    assert_eq!(rv.grantee, [1u8; 32]);
    assert_eq!(rv.revoked_by, OWNER);
}
