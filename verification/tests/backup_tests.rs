//! Backup export/import round trips.

use brainbox::backup::{export_vaults, import_vaults, ExportData, ExportedItem, ExportedVault};
use brainbox::crypto::derive_key_from_password;
use brainbox::decimal::i64_to_string;
use brainbox::errors::VaultError;
use brainbox::ops::{add_vault_item, list_vault_items, verify_vault_password};
use brainbox::vault::{Vault, VaultStore};

const T0: &str = "2024-01-01T00:00:00+00:00";
const T1: &str = "2024-01-02T00:00:00+00:00";

#[test]
fn backup_round_trip() {
    let mut store = VaultStore::new();
    let v = store.create_vault("docs", "pw", true, T0, "uuid-v1").unwrap();
    let key = derive_key_from_password("pw", &i64_to_string(v.id), 100_000);
    add_vault_item(&mut store, v.id, "note a", "alpha", &key, T0, "u-a").unwrap();
    add_vault_item(&mut store, v.id, "note b", "beta", &key, T0, "u-b").unwrap();

    let data = export_vaults(&store, &vec![v.id], &vec![key.clone()], T1).unwrap();
    assert_eq!(data.version, "1.0");
    assert_eq!(data.exported_at, T1);
    assert_eq!(data.vaults.len(), 1);
    assert_eq!(data.vaults[0].name, "docs");
    let mut contents: Vec<String> = data.vaults[0].items.iter().map(|i| i.content.clone()).collect();
    contents.sort();
    assert_eq!(contents, vec!["alpha".to_string(), "beta".to_string()]);

    // import into another store under a different password
    let mut other = VaultStore::new();
    let ids = import_vaults(&mut other, &data, "fresh pw", T1).unwrap();
    assert_eq!(ids.len(), 1);
    let new_key = derive_key_from_password("fresh pw", &i64_to_string(ids[0]), 100_000);
    assert!(verify_vault_password(&other, ids[0], &new_key).is_ok());
    let listed = list_vault_items(&other, ids[0], &new_key).unwrap();
    let mut got: Vec<(String, String)> =
        listed.iter().map(|o| (o.title.clone(), o.content.clone())).collect();
    got.sort();
    assert_eq!(
        got,
        vec![
            ("note a".to_string(), "alpha".to_string()),
            ("note b".to_string(), "beta".to_string()),
        ]
    );
    // the imported vault row was created at import time
    let row = Vault::get_by_id(&other, ids[0]).unwrap();
    assert_eq!(row.created_at, T1);
    assert!(row.has_password);
}

#[test]
fn backup_export_checks_inputs() {
    let mut store = VaultStore::new();
    let v = store.create_vault("docs", "", false, T0, "uuid-v1").unwrap();
    let key = derive_key_from_password("", &i64_to_string(v.id), 100_000);
    // mismatched lists
    assert_eq!(
        export_vaults(&store, &vec![v.id, 99], &vec![key.clone()], T1).err(),
        Some(VaultError::KeyLengthInvalid)
    );
    // unknown vault
    assert_eq!(
        export_vaults(&store, &vec![99], &vec![key.clone()], T1).err(),
        Some(VaultError::NotFound(99))
    );
    // bad key length
    assert_eq!(
        export_vaults(&store, &vec![v.id], &vec![vec![1u8; 4]], T1).err(),
        Some(VaultError::KeyLengthInvalid)
    );
}

#[test]
fn backup_import_builds_document_vaults() {
    let data = ExportData {
        version: "1.0".to_string(),
        exported_at: T0.to_string(),
        vaults: vec![ExportedVault {
            name: "from doc".to_string(),
            created_at: T0.to_string(),
            cover_image: Some("c.png".to_string()),
            items: vec![ExportedItem {
                title: "t".to_string(),
                content: "body".to_string(),
                created_at: T0.to_string(),
                updated_at: T0.to_string(),
                image: None,
                summary: Some("s".to_string()),
            }],
        }],
    };
    let mut store = VaultStore::new();
    let ids = import_vaults(&mut store, &data, "pw", T1).unwrap();
    let row = Vault::get_by_id(&store, ids[0]).unwrap();
    assert_eq!(row.name, "from doc");
    assert_eq!(row.cover_image.as_deref(), Some("c.png"));
    let key = derive_key_from_password("pw", &i64_to_string(ids[0]), 100_000);
    let listed = list_vault_items(&store, ids[0], &key).unwrap();
    assert_eq!(listed.len(), 1);
    assert_eq!(listed[0].content, "body");
    assert_eq!(listed[0].summary.as_deref(), Some("s"));
}
