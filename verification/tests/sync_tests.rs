//! Export/import round trips, merge decisions, tombstones and purging.

use brainbox::crypto::derive_key_from_password;
use brainbox::decimal::i64_to_string;
use brainbox::errors::VaultError;
use brainbox::ops::{add_vault_item, list_vault_items};
use brainbox::sync::{check_sync_status, get_locked_vaults, get_purge_days, import_item,
    is_check_sync_on_startup_enabled, is_sync_on_close_enabled, purge_before,
    purge_deleted_items, set_purge_days, set_sync_folder, should_auto_purge, sync_export,
    sync_format_version, sync_import, sync_preview_of, ImportItemResult, SyncFile, SyncItem,
    SyncVault};
use brainbox::vault::{SyncSettings, Vault, VaultItem, VaultStore};

const T0: &str = "2024-01-01T00:00:00+00:00";
const T1: &str = "2024-01-02T00:00:00+00:00";
const T2: &str = "2024-01-03T00:00:00+00:00";
const T3: &str = "2024-01-04T00:00:00+00:00";
const T4: &str = "2024-01-05T00:00:00+00:00";

fn key_for(vault_id: i64) -> Vec<u8> {
    derive_key_from_password("", &i64_to_string(vault_id), 100_000)
}

fn export_file(store: &mut VaultStore, now: &str) -> SyncFile {
    let (file, _res) = sync_export(store, &Vec::new(), "deviceA", Vec::new(), now).unwrap();
    file
}

#[test]
fn export_then_import_reproduces_items() {
    // device A: one passwordless vault with two items
    let mut a = VaultStore::new();
    let v = a.create_vault("shared", "", false, T0, "uuid-v1").unwrap();
    let key = key_for(v.id);
    add_vault_item(&mut a, v.id, "first", "content one", &key, T0, "u-1").unwrap();
    add_vault_item(&mut a, v.id, "second", "content two", &key, T1, "u-2").unwrap();
    let file = export_file(&mut a, T2);
    assert_eq!(file.format_version, sync_format_version());
    assert_eq!(file.vaults.len(), 1);
    assert_eq!(file.vaults[0].items.len(), 2);

    // device B: empty store
    let mut b = VaultStore::new();
    let res = sync_import(&mut b, &file, &Vec::new(), T3).unwrap();
    assert_eq!(res.imported_vaults, 1);
    assert_eq!(res.imported_items, 2);
    assert!(res.conflicts.is_empty());

    let bv = Vault::get_by_uuid(&b, "uuid-v1").unwrap();
    let bkey = key_for(bv.id);
    let listed = list_vault_items(&b, bv.id, &bkey).unwrap();
    let mut got: Vec<(String, String)> = listed
        .iter()
        .map(|o| (o.title.clone(), o.content.clone()))
        .collect();
    got.sort();
    assert_eq!(
        got,
        vec![
            ("first".to_string(), "content one".to_string()),
            ("second".to_string(), "content two".to_string()),
        ]
    );
    assert!(VaultItem::get_by_uuid(&b, "u-1").is_some());
    assert!(VaultItem::get_by_uuid(&b, "u-2").is_some());

    // re-importing the same file creates no duplicates
    let res2 = sync_import(&mut b, &file, &Vec::new(), T4).unwrap();
    assert_eq!(res2.imported_items, 0);
    let listed2 = list_vault_items(&b, bv.id, &bkey).unwrap();
    assert_eq!(listed2.len(), 2);
    assert_eq!(SyncSettings::get(&b, "last_sync_at").as_deref(), Some(T4));
    assert_eq!(SyncSettings::get(&b, "last_sync_device").as_deref(), Some("deviceA"));
}

#[test]
fn concurrent_edits_create_one_conflict_copy() {
    // vault V exists on both devices with item I at t0
    let mut a = VaultStore::new();
    let va = a.create_vault("shared", "", false, T0, "uuid-v1").unwrap();
    let keya = key_for(va.id);
    add_vault_item(&mut a, va.id, "note", "original", &keya, T0, "u-i").unwrap();
    let file0 = export_file(&mut a, T0);

    let mut b = VaultStore::new();
    sync_import(&mut b, &file0, &Vec::new(), T1).unwrap(); // B's watermark: T1
    let vb = Vault::get_by_uuid(&b, "uuid-v1").unwrap();
    let keyb = key_for(vb.id);

    // A edits at T2, B edits independently at T3 (both after B's watermark T1)
    let ia = VaultItem::get_by_uuid(&a, "u-i").unwrap();
    VaultItem::update_content(&mut a, ia.id, "edit from A", keya.as_slice(), T2).unwrap();
    let ib = VaultItem::get_by_uuid(&b, "u-i").unwrap();
    VaultItem::update_content(&mut b, ib.id, "edit from B", keyb.as_slice(), T3).unwrap();

    let file_a = export_file(&mut a, T3);
    let res = sync_import(&mut b, &file_a, &Vec::new(), T4).unwrap();
    assert_eq!(res.conflicts, vec!["note".to_string()]);

    let listed = list_vault_items(&b, vb.id, &keyb).unwrap();
    assert_eq!(listed.len(), 2);
    let mut titles: Vec<String> = listed.iter().map(|o| o.title.clone()).collect();
    titles.sort();
    assert_eq!(titles, vec!["note".to_string(), "note [Conflict]".to_string()]);
    // B's own edit is untouched; the conflict copy carries A's edit
    let local = listed.iter().find(|o| o.title == "note").unwrap();
    assert_eq!(local.content, "edit from B");
    let copy = listed.iter().find(|o| o.title == "note [Conflict]").unwrap();
    assert_eq!(copy.content, "edit from A");
}

#[test]
fn tombstone_propagates_and_hides_item() {
    let mut a = VaultStore::new();
    let va = a.create_vault("shared", "", false, T0, "uuid-v1").unwrap();
    let keya = key_for(va.id);
    let ia = add_vault_item(&mut a, va.id, "doomed", "x", &keya, T0, "u-i").unwrap();
    let file0 = export_file(&mut a, T0);

    let mut b = VaultStore::new();
    sync_import(&mut b, &file0, &Vec::new(), T1).unwrap();
    let vb = Vault::get_by_uuid(&b, "uuid-v1").unwrap();

    VaultItem::delete(&mut a, ia.id, T2).unwrap();
    let file1 = export_file(&mut a, T3);
    sync_import(&mut b, &file1, &Vec::new(), T4).unwrap();

    let row = VaultItem::get_by_uuid(&b, "u-i").unwrap();
    assert_eq!(row.deleted_at.as_deref(), Some(T2));
    assert!(VaultItem::list_by_vault(&b, vb.id).is_empty());
}

#[test]
fn vault_tombstone_propagates() {
    let mut a = VaultStore::new();
    let va = a.create_vault("shared", "", false, T0, "uuid-v1").unwrap();
    let keya = key_for(va.id);
    add_vault_item(&mut a, va.id, "x", "y", &keya, T0, "u-i").unwrap();
    let file0 = export_file(&mut a, T0);
    let mut b = VaultStore::new();
    sync_import(&mut b, &file0, &Vec::new(), T1).unwrap();

    Vault::delete(&mut a, va.id, T2).unwrap();
    let file1 = export_file(&mut a, T3);
    sync_import(&mut b, &file1, &Vec::new(), T4).unwrap();
    let vb = Vault::get_by_uuid(&b, "uuid-v1").unwrap();
    assert_eq!(vb.deleted_at.as_deref(), Some(T2));
    assert!(Vault::list(&b).is_empty());
}

#[test]
fn deleted_vault_never_seen_is_ignored() {
    let mut b = VaultStore::new();
    let file = SyncFile {
        format_version: sync_format_version().to_string(),
        device_id: "d".to_string(),
        device_name: "deviceA".to_string(),
        exported_at: T1.to_string(),
        vaults: vec![SyncVault {
            uuid: "ghost".to_string(),
            name: "ghost vault".to_string(),
            created_at: T0.to_string(),
            updated_at: T0.to_string(),
            deleted_at: Some(T1.to_string()),
            cover_image: None,
            has_password: false,
            items: Vec::new(),
        }],
        captures: Vec::new(),
    };
    let res = sync_import(&mut b, &file, &Vec::new(), T2).unwrap();
    assert_eq!(res.imported_vaults, 0);
    assert!(Vault::get_by_uuid(&b, "ghost").is_none());
}

#[test]
fn version_mismatch_is_fatal() {
    let mut b = VaultStore::new();
    let file = SyncFile {
        format_version: "2.0".to_string(),
        device_id: "d".to_string(),
        device_name: "deviceA".to_string(),
        exported_at: T1.to_string(),
        vaults: Vec::new(),
        captures: Vec::new(),
    };
    let r = sync_import(&mut b, &file, &Vec::new(), T2);
    assert_eq!(r.err(), Some(VaultError::SyncFormatMismatch));
}

#[test]
fn import_item_merge_decisions() {
    let mut store = VaultStore::new();
    let v = store.create_vault("shared", "", false, T0, "uuid-v1").unwrap();
    let key = key_for(v.id);
    let si = |updated: &str, deleted: Option<&str>| SyncItem {
        uuid: "u-i".to_string(),
        title: "note".to_string(),
        content: "remote text".to_string(),
        created_at: T0.to_string(),
        updated_at: updated.to_string(),
        deleted_at: deleted.map(|s| s.to_string()),
        image: None,
        summary: None,
        sort_order: None,
    };
    // no local match, live remote: imported
    let r = import_item(&mut store, v.id, &si(T1, None), key.as_slice(), &None).unwrap();
    assert!(matches!(r, ImportItemResult::Imported));
    // identical again: skipped
    let r = import_item(&mut store, v.id, &si(T1, None), key.as_slice(), &None).unwrap();
    assert!(matches!(r, ImportItemResult::Skipped));
    // strictly newer remote, no watermark: overwrite
    let r = import_item(&mut store, v.id, &si(T2, None), key.as_slice(), &None).unwrap();
    assert!(matches!(r, ImportItemResult::Updated));
    // remote older than local: skipped
    let r = import_item(&mut store, v.id, &si(T1, None), key.as_slice(), &None).unwrap();
    assert!(matches!(r, ImportItemResult::Skipped));
    // both sides newer than the watermark and different: conflict
    let r = import_item(
        &mut store,
        v.id,
        &si(T3, None),
        key.as_slice(),
        &Some(T1.to_string()),
    )
    .unwrap();
    assert!(matches!(r, ImportItemResult::Conflict(t) if t == "note"));
    // remote tombstone on a live local item: deleted
    let r = import_item(
        &mut store,
        v.id,
        &si(T4, Some(T4)),
        key.as_slice(),
        &None,
    )
    .unwrap();
    assert!(matches!(r, ImportItemResult::Deleted));
    // remote tombstone again: skipped
    let r = import_item(&mut store, v.id, &si(T4, Some(T4)), key.as_slice(), &None).unwrap();
    assert!(matches!(r, ImportItemResult::Skipped));
    // tombstoned remote of an unknown item: skipped
    let ghost = SyncItem {
        uuid: "u-ghost".to_string(),
        ..si(T4, Some(T4))
    };
    let r = import_item(&mut store, v.id, &ghost, key.as_slice(), &None).unwrap();
    assert!(matches!(r, ImportItemResult::Skipped));
}

#[test]
fn protected_vault_skipped_without_password() {
    let mut a = VaultStore::new();
    let va = a.create_vault("locked", "pw", true, T0, "uuid-v1").unwrap();
    let keya = derive_key_from_password("pw", &i64_to_string(va.id), 100_000);
    add_vault_item(&mut a, va.id, "s", "secret", &keya, T0, "u-i").unwrap();

    // export without the key: the vault is skipped, nothing fails
    let (file, res) = sync_export(&mut a, &Vec::new(), "deviceA", Vec::new(), T1).unwrap();
    assert_eq!(res.skipped_vaults, vec!["locked".to_string()]);
    assert_eq!(file.vaults.len(), 0);

    // export with the key
    let (file, res) = sync_export(
        &mut a,
        &vec![(va.id, keya.clone())],
        "deviceA",
        Vec::new(),
        T1,
    )
    .unwrap();
    assert!(res.skipped_vaults.is_empty());
    assert_eq!(file.vaults.len(), 1);
    assert!(file.vaults[0].has_password);
    assert_eq!(file.vaults[0].items[0].content, "secret");

    // import into an empty store without the password: skipped whole
    let mut b = VaultStore::new();
    let res = sync_import(&mut b, &file, &Vec::new(), T2).unwrap();
    assert_eq!(res.skipped_vaults, vec!["locked".to_string()]);
    assert!(Vault::get_by_uuid(&b, "uuid-v1").is_none());

    // with the password: created, items re-encrypted under a fresh key
    let res = sync_import(
        &mut b,
        &file,
        &vec![("uuid-v1".to_string(), "pw".to_string())],
        T2,
    )
    .unwrap();
    assert_eq!(res.imported_vaults, 1);
    let vb = Vault::get_by_uuid(&b, "uuid-v1").unwrap();
    let keyb = derive_key_from_password("pw", &i64_to_string(vb.id), 100_000);
    let listed = list_vault_items(&b, vb.id, &keyb).unwrap();
    assert_eq!(listed.len(), 1);
    assert_eq!(listed[0].content, "secret");
}

#[test]
fn newer_remote_metadata_wins() {
    let mut a = VaultStore::new();
    a.create_vault("old name", "", false, T0, "uuid-v1").unwrap();
    let file0 = export_file(&mut a, T0);
    let mut b = VaultStore::new();
    sync_import(&mut b, &file0, &Vec::new(), T1).unwrap();

    let va = Vault::get_by_uuid(&a, "uuid-v1").unwrap();
    Vault::rename(&mut a, va.id, "new name", T2).unwrap();
    let file1 = export_file(&mut a, T3);
    sync_import(&mut b, &file1, &Vec::new(), T4).unwrap();
    let vb = Vault::get_by_uuid(&b, "uuid-v1").unwrap();
    assert_eq!(vb.name, "new name");
    assert_eq!(vb.updated_at.as_deref(), Some(T2));
}

#[test]
fn purge_respects_cutoff() {
    let mut store = VaultStore::new();
    let v = store.create_vault("notes", "", false, T0, "uuid-v1").unwrap();
    let key = key_for(v.id);
    let old_item = add_vault_item(&mut store, v.id, "old", "1", &key, T0, "u-old").unwrap();
    let fresh_item = add_vault_item(&mut store, v.id, "fresh", "2", &key, T0, "u-new").unwrap();
    // tombstones: one before the cutoff, one after
    VaultItem::delete(&mut store, old_item.id, "2024-02-01T00:00:00+00:00").unwrap();
    VaultItem::delete(&mut store, fresh_item.id, "2024-03-10T00:00:00+00:00").unwrap();
    let res = purge_before(&mut store, "2024-03-01T00:00:00+00:00");
    assert_eq!(res.purged_items, 1);
    assert_eq!(res.purged_vaults, 0);
    assert!(VaultItem::get_by_id(&store, old_item.id).is_err());
    assert!(VaultItem::get_by_id(&store, fresh_item.id).is_ok());
}

#[test]
fn purge_removes_expired_vault_with_items() {
    let mut store = VaultStore::new();
    let v = store.create_vault("gone", "", false, T0, "uuid-v1").unwrap();
    let key = key_for(v.id);
    add_vault_item(&mut store, v.id, "x", "1", &key, T0, "u-x").unwrap();
    Vault::delete(&mut store, v.id, T1).unwrap();
    let res = purge_before(&mut store, T2);
    assert_eq!(res.purged_vaults, 1);
    assert!(Vault::get_by_id(&store, v.id).is_none());
    assert!(store.items.is_empty());
}

#[test]
fn purge_by_days_window() {
    let mut store = VaultStore::new();
    let v = store.create_vault("notes", "", false, T0, "uuid-v1").unwrap();
    let key = key_for(v.id);
    let ancient = add_vault_item(&mut store, v.id, "ancient", "1", &key, T0, "u-a").unwrap();
    let future = add_vault_item(&mut store, v.id, "future", "2", &key, T0, "u-f").unwrap();
    // tombstoned far in the past and far in the future of any 30-day cutoff
    VaultItem::delete(&mut store, ancient.id, "2000-01-01T00:00:00+00:00").unwrap();
    VaultItem::delete(&mut store, future.id, "9999-01-01T00:00:00+00:00").unwrap();
    let res = purge_deleted_items(&mut store, 30).unwrap();
    assert_eq!(res.purged_items, 1);
    assert!(VaultItem::get_by_id(&store, ancient.id).is_err());
    assert!(VaultItem::get_by_id(&store, future.id).is_ok());
}

#[test]
fn settings_toggles_and_defaults() {
    let mut store = VaultStore::new();
    assert!(!should_auto_purge(&store));
    set_sync_folder(&mut store, "/shared/folder");
    assert!(should_auto_purge(&store));
    assert_eq!(get_purge_days(&store), Ok(30));
    set_purge_days(&mut store, 45);
    assert_eq!(get_purge_days(&store), Ok(45));
    SyncSettings::set(&mut store, "purge_deleted_after_days", "not a number");
    assert_eq!(get_purge_days(&store), Err(VaultError::IoFailure));
    assert!(!is_sync_on_close_enabled(&store));
    brainbox::sync::set_sync_on_close(&mut store, true);
    assert!(is_sync_on_close_enabled(&store));
    assert!(is_check_sync_on_startup_enabled(&store));
    brainbox::sync::set_check_sync_on_startup(&mut store, false);
    assert!(!is_check_sync_on_startup_enabled(&store));
}

#[test]
fn status_reports_remote_changes() {
    let mut store = VaultStore::new();
    set_sync_folder(&mut store, "/shared");
    let file = SyncFile {
        format_version: sync_format_version().to_string(),
        device_id: "d".to_string(),
        device_name: "other".to_string(),
        exported_at: T2.to_string(),
        vaults: Vec::new(),
        captures: Vec::new(),
    };
    // never synced: any remote file counts as changed
    let st = check_sync_status(&store, true, Some(&file), "host");
    assert!(st.sync_enabled);
    assert!(st.has_changes);
    assert_eq!(st.device_name, "host");
    // synced after the remote export: no changes
    brainbox::sync::record_sync_success(&mut store, T3, "other");
    let st = check_sync_status(&store, true, Some(&file), "host");
    assert!(!st.has_changes);
    assert_eq!(st.last_sync_at.as_deref(), Some(T3));
    // no remote file at all
    let st = check_sync_status(&store, false, None, "host");
    assert!(!st.remote_file_exists);
    assert!(!st.has_changes);
}

#[test]
fn preview_counts_and_password_needs() {
    let mut store = VaultStore::new();
    store.create_vault("mine", "pw", true, T0, "uuid-local").unwrap();
    let file = SyncFile {
        format_version: sync_format_version().to_string(),
        device_id: "d".to_string(),
        device_name: "other".to_string(),
        exported_at: T2.to_string(),
        vaults: vec![
            SyncVault {
                uuid: "uuid-local".to_string(),
                name: "mine".to_string(),
                created_at: T0.to_string(),
                updated_at: T1.to_string(),
                deleted_at: None,
                cover_image: None,
                has_password: true,
                items: vec![SyncItem {
                    uuid: "u-1".to_string(),
                    title: "t".to_string(),
                    content: "c".to_string(),
                    created_at: T0.to_string(),
                    updated_at: T0.to_string(),
                    deleted_at: None,
                    image: None,
                    summary: None,
                    sort_order: None,
                }],
            },
            SyncVault {
                uuid: "uuid-gone".to_string(),
                name: "gone".to_string(),
                created_at: T0.to_string(),
                updated_at: T1.to_string(),
                deleted_at: Some(T1.to_string()),
                cover_image: None,
                has_password: true,
                items: Vec::new(),
            },
        ],
        captures: Vec::new(),
    };
    let p = sync_preview_of(&file, &store);
    assert_eq!(p.device_name, "other");
    assert_eq!(p.vault_count, 1); // tombstoned remote vault not counted
    assert_eq!(p.item_count, 1);
    assert_eq!(p.capture_count, 0);
    assert_eq!(p.vaults_needing_password, vec!["mine".to_string()]);
}

#[test]
fn locked_vaults_are_listed() {
    let mut store = VaultStore::new();
    let v = store.create_vault("locked", "pw", true, T0, "uuid-1").unwrap();
    store.create_vault("open", "", false, T0, "uuid-2").unwrap();
    let locked = get_locked_vaults(&store);
    assert_eq!(locked.len(), 1);
    assert_eq!(locked[0].0, v.id);
    assert_eq!(locked[0].1, "locked");
}

#[test]
fn export_backfills_missing_uuids_with_warning() {
    let mut store = VaultStore::new();
    store.vaults.push(Vault {
        id: 1,
        name: "legacy".to_string(),
        encrypted_password: Vec::new(),
        created_at: T0.to_string(),
        cover_image: None,
        has_password: false,
        uuid: None,
        updated_at: None,
        deleted_at: None,
    });
    store.next_vault_id = 2;
    let (file, res) = sync_export(&mut store, &Vec::new(), "deviceA", Vec::new(), T1).unwrap();
    assert_eq!(file.vaults.len(), 1);
    assert_eq!(file.vaults[0].uuid.len(), 36); // a fresh uuid was assigned in the file
    assert_eq!(file.vaults[0].updated_at, T1); // missing updated_at falls back to now
    assert!(!res.warnings.is_empty());
    // the store row itself is untouched by export
    assert!(store.vaults[0].uuid.is_none());
}

#[test]
fn device_id_is_stable_once_created() {
    let mut store = VaultStore::new();
    let a = brainbox::sync::get_or_create_device_id(&mut store);
    let b = brainbox::sync::get_or_create_device_id(&mut store);
    assert_eq!(a, b);
    assert_eq!(a.len(), 36);
    assert_eq!(SyncSettings::get(&store, "device_id").as_deref(), Some(a.as_str()));
}

#[test]
fn conflict_copy_gets_fresh_uuid() {
    let mut store = VaultStore::new();
    let v = store.create_vault("shared", "", false, T0, "uuid-v1").unwrap();
    let key = key_for(v.id);
    let base = SyncItem {
        uuid: "u-i".to_string(),
        title: "note".to_string(),
        content: "x".to_string(),
        created_at: T0.to_string(),
        updated_at: T1.to_string(),
        deleted_at: None,
        image: None,
        summary: None,
        sort_order: None,
    };
    import_item(&mut store, v.id, &base, key.as_slice(), &None).unwrap();
    let newer = SyncItem { updated_at: T3.to_string(), ..base };
    let r = import_item(&mut store, v.id, &newer, key.as_slice(), &Some(T2.to_string()));
    // local T1 is not after the watermark T2, so this overwrites rather than conflicts
    assert!(matches!(r, Ok(ImportItemResult::Updated)));
    let even_newer = SyncItem {
        updated_at: T4.to_string(),
        uuid: "u-i".to_string(),
        title: "note".to_string(),
        content: "y".to_string(),
        created_at: T0.to_string(),
        deleted_at: None,
        image: None,
        summary: None,
        sort_order: None,
    };
    let r = import_item(&mut store, v.id, &even_newer, key.as_slice(), &Some(T2.to_string()));
    assert!(matches!(r, Ok(ImportItemResult::Conflict(_))));
    let copies = VaultItem::list_by_vault(&store, v.id);
    assert_eq!(copies.len(), 2);
    let uuids: Vec<Option<String>> = copies.iter().map(|i| i.uuid.clone()).collect();
    assert!(uuids.iter().all(|u| u.is_some()));
    assert_ne!(uuids[0], uuids[1]);
}

#[test]
fn older_remote_metadata_loses() {
    let mut a = VaultStore::new();
    a.create_vault("original name", "", false, T0, "uuid-v1").unwrap();
    let file0 = export_file(&mut a, T0);
    let mut b = VaultStore::new();
    sync_import(&mut b, &file0, &Vec::new(), T1).unwrap();

    // B renames at T3; A's file still carries the older stamp
    let vb = Vault::get_by_uuid(&b, "uuid-v1").unwrap();
    Vault::rename(&mut b, vb.id, "newer local name", T3).unwrap();
    let file_old = export_file(&mut a, T2);
    sync_import(&mut b, &file_old, &Vec::new(), T4).unwrap();
    let vb = Vault::get_by_uuid(&b, "uuid-v1").unwrap();
    assert_eq!(vb.name, "newer local name"); // the older remote did not win
    assert_eq!(vb.updated_at.as_deref(), Some(T3));
}

#[test]
fn tombstoned_unknown_vault_stays_unknown_after_roundtrip() {
    // a vault deleted on A before B ever saw it leaves no trace on B
    let mut a = VaultStore::new();
    let va = a.create_vault("ephemeral", "", false, T0, "uuid-eph").unwrap();
    Vault::delete(&mut a, va.id, T1).unwrap();
    let file = export_file(&mut a, T2);
    assert_eq!(file.vaults.len(), 1);
    assert!(file.vaults[0].deleted_at.is_some());
    let mut b = VaultStore::new();
    let res = sync_import(&mut b, &file, &Vec::new(), T3).unwrap();
    assert_eq!(res.imported_vaults, 0);
    assert!(b.vaults.is_empty());
    assert!(b.items.is_empty());
}
