use light_magic::doc::Doc;
use light_magic::encrypted::{EncryptedAtomicDatabase, EncryptedData, EncryptedDataStore};
use light_magic::DbError;

#[derive(Default, Debug, PartialEq)]
struct TestData {
    items: Vec<String>,
}

impl EncryptedDataStore for TestData {
    fn fresh() -> Self {
        TestData::default()
    }

    fn to_doc(&self, _human: bool) -> Doc {
        Doc::Object(vec![(
            String::from("items"),
            Doc::List(self.items.iter().map(|s| Doc::Text(s.clone())).collect()),
        )])
    }

    fn from_doc(d: &Doc, _human: bool) -> Option<Self> {
        let entries = match d {
            Doc::Object(entries) => entries,
            _ => return None,
        };
        let mut data = TestData::default();
        for (k, v) in entries {
            match (k.as_str(), v) {
                ("items", Doc::List(items)) => {
                    for item in items {
                        match item {
                            Doc::Text(s) => data.items.push(s.clone()),
                            _ => return None,
                        }
                    }
                }
                _ => return None,
            }
        }
        Some(data)
    }
}

const PASSWORD: &'static str = "securepassword";

#[test]
fn creation() {
    let path = "./tests/creation.db";

    // Create and populate the database
    let (mut db, _initial) = EncryptedAtomicDatabase::<TestData>::create_new(path, false, false, PASSWORD)
        .expect("Failed to create database");
    db.write()
        .items
        .extend(vec!["Item 1".to_string(), "Item 2".to_string()]);
    let plan = db.commit();

    // Ensure a snapshot was produced
    assert!(!plan.bytes.is_empty(), "Database file was not created");

    // Load and verify the database content
    let db = EncryptedAtomicDatabase::<TestData>::load(path, &plan.bytes, false, PASSWORD)
        .expect("Failed to load database");
    assert_eq!(
        *db.read(),
        TestData {
            items: vec!["Item 1".to_string(), "Item 2".to_string()]
        },
        "Data was not saved and loaded correctly"
    );
}

#[test]
fn multiple_saves() {
    let path = "./tests/multiple_saves.db";

    let (db, plan) = EncryptedAtomicDatabase::<TestData>::create_new(path, false, false, PASSWORD)
        .expect("Failed to open database for multiple saves");
    let mut disk = plan.bytes;
    let mut db = db;
    for i in 1..=3 {
        db.write().items.push(format!("Item {}", i));
        disk = db.commit().bytes;
    }

    let db = EncryptedAtomicDatabase::<TestData>::load(path, &disk, false, PASSWORD)
        .expect("Failed to load database after multiple saves");
    let expected_items: Vec<String> = (1..=3).map(|i| format!("Item {}", i)).collect();
    assert_eq!(
        *db.read(),
        TestData {
            items: expected_items
        },
        "Not all items were saved correctly"
    );
}

#[test]
fn password_change() {
    let path = "./tests/password_change.db";

    // Define new password
    let new_password = "newsecurepassword";

    // Open the database
    let (mut db, _initial) = EncryptedAtomicDatabase::<TestData>::create_new(path, false, false, PASSWORD)
        .expect("Failed to open database for password change");

    // Perform password change: persist the rotated snapshot, then install
    // the new key material
    let (plan, rekey) = db.change_password(new_password).expect("Failed to change password");
    let disk = plan.bytes;
    db.apply_rekey(rekey);

    // Verify that the database can be opened with the new password
    let db_new = EncryptedAtomicDatabase::<TestData>::load(path, &disk, false, new_password)
        .expect("Failed to load database with new password");
    let expected_items: Vec<String> = vec![];
    assert_eq!(
        *db_new.read(),
        TestData {
            items: expected_items
        },
        "Data was not preserved after password change"
    );

    // Attempt to load the database with the old password (should fail)
    let result = EncryptedAtomicDatabase::<TestData>::load(path, &disk, false, PASSWORD);
    assert!(
        result.is_err(),
        "Loading with old password should have failed after password change"
    );
    if let Err(e) = result {
        assert_eq!(e, DbError::AuthenticationFailure);
        assert!(
            e.message().contains("decryption failed"),
            "Error message does not indicate decryption failure"
        );
    }
}

#[test]
fn wrong_password() {
    let path = "./tests/wrong_password.db";
    let wrong_password = "wrongpassword";

    // Create and populate the database
    let (mut db, _plan) = EncryptedAtomicDatabase::<TestData>::create_new(path, false, false, PASSWORD)
        .expect("Failed to create database");
    db.write().items.push("Valid Item".to_string());
    let disk = db.commit().bytes;

    // Attempt to load with the wrong password
    let result = EncryptedAtomicDatabase::<TestData>::load(path, &disk, false, wrong_password);
    assert!(
        result.is_err(),
        "Loading with wrong password should have failed"
    );
    if let Err(e) = result {
        assert_eq!(e, DbError::AuthenticationFailure);
        assert!(
            e.message().contains("decryption failed"),
            "Error message does not indicate decryption failure"
        );
    }

    // Ensure data integrity by loading with the right password again
    let db = EncryptedAtomicDatabase::<TestData>::load(path, &disk, false, PASSWORD)
        .expect("Failed to load database with new password again");
    let expected_items = vec![String::from("Valid Item")];
    assert_eq!(
        *db.read(),
        TestData {
            items: expected_items
        },
        "Data was not preserved on subsequent loads after password change"
    );
}

#[test]
fn file_corruption() {
    let path = "./tests/file_corruption.db";

    // create db
    let (_db, _plan) = EncryptedAtomicDatabase::<TestData>::create_new(path, false, false, PASSWORD)
        .expect("Failed to create database");

    // Corrupt the database file
    let corrupted = b"corrupted data";

    // Attempt to load the corrupted file
    let corrupted_result =
        EncryptedAtomicDatabase::<TestData>::load(path, corrupted, false, PASSWORD);
    assert!(
        corrupted_result.is_err(),
        "Loading a corrupted file should have failed"
    );
    if let Err(e) = corrupted_result {
        assert_eq!(e, DbError::CorruptData);
        assert!(
            e.message().contains("failed to deserialize"),
            "Error message does not indicate corruption"
        );
    }
}

#[test]
fn orphaned_staging_aborts_encrypted_open() {
    let path = "./tests/orphan.db";
    let (_db, plan) = EncryptedAtomicDatabase::<TestData>::create_new(path, false, false, PASSWORD)
        .expect("Failed to create database");
    let refused = EncryptedAtomicDatabase::<TestData>::load(path, &plan.bytes, true, PASSWORD);
    assert!(matches!(refused, Err(DbError::AlreadyExists)));
    let refused_create = EncryptedAtomicDatabase::<TestData>::create_new(path, true, false, PASSWORD);
    assert!(matches!(refused_create, Err(DbError::AlreadyExists)));
}

#[test]
fn tampered_envelope_is_rejected() {
    let path = "./tests/tamper.db";
    let (mut db, _plan) = EncryptedAtomicDatabase::<TestData>::create_new(path, false, false, PASSWORD)
        .expect("Failed to create database");
    db.write().items.push("Valid Item".to_string());
    let mut disk = db.commit().bytes;

    // flip one ciphertext bit: the tag check must catch it
    let last = disk.len() - 1;
    disk[last] ^= 1;
    let r = EncryptedAtomicDatabase::<TestData>::load(path, &disk, false, PASSWORD);
    assert_eq!(r.err(), Some(DbError::AuthenticationFailure));
}

#[test]
fn ciphertext_hides_plaintext() {
    let path = "./tests/hide.db";
    let (mut db, _plan) = EncryptedAtomicDatabase::<TestData>::create_new(path, false, false, PASSWORD)
        .expect("Failed to create database");
    db.write().items.push("Valid Item".to_string());
    let disk = db.commit().bytes;
    let needle = b"Valid Item";
    let visible = disk
        .windows(needle.len())
        .any(|w| w == needle);
    assert!(!visible, "the snapshot must not expose the plaintext");
}

#[test]
fn every_save_uses_a_fresh_nonce() {
    let path = "./tests/nonce.db";
    let (db, _plan) = EncryptedAtomicDatabase::<TestData>::create_new(path, false, false, PASSWORD)
        .expect("Failed to create database");
    let a = db.commit().bytes;
    let b = db.commit().bytes;
    // the nonce occupies bytes 16..32 of the envelope
    assert_ne!(&a[16..32], &b[16..32]);
}

#[test]
fn wiping_keys_ends_the_session() {
    let path = "./tests/wipe.db";
    let (mut db, _plan) = EncryptedAtomicDatabase::<TestData>::create_new(path, false, false, PASSWORD)
        .expect("Failed to create database");
    db.write().items.push("Item 1".to_string());
    let disk = db.commit().bytes;
    db.wipe_keys();
    // the snapshot taken before the wipe still opens with the password
    let back = EncryptedAtomicDatabase::<TestData>::load(path, &disk, false, PASSWORD)
        .expect("Failed to load database");
    assert_eq!(back.read().items, vec![String::from("Item 1")]);
}

#[test]
fn envelope_needs_its_fixed_fields() {
    assert!(EncryptedData::decode(&[0u8; 63]).is_none());
    assert!(EncryptedData::decode(&[0u8; 64]).is_some());
}

#[test]
fn adopting_a_blob_checks_its_shape() {
    // an envelope travels as a string of its bytes; a blob too short to
    // hold the fixed fields is corrupt, and an occupied staging path
    // aborts the adoption before anything is read
    let refused = EncryptedAtomicDatabase::<TestData>::create_from_str(
        "corrupted data",
        "./tests/adopt.db",
        false,
        false,
        PASSWORD,
    );
    assert!(matches!(refused, Err(DbError::CorruptData)));
    let aborted = EncryptedAtomicDatabase::<TestData>::create_from_str(
        "corrupted data",
        "./tests/adopt.db",
        true,
        false,
        PASSWORD,
    );
    assert!(matches!(aborted, Err(DbError::AlreadyExists)));
    let occupied = EncryptedAtomicDatabase::<TestData>::create_from_str(
        "corrupted data",
        "./tests/adopt.db",
        false,
        true,
        PASSWORD,
    );
    assert!(matches!(occupied, Err(DbError::AlreadyExists)));
}
