//! Store CRUD, ordering, password changes and settings.

use brainbox::crypto::derive_key_from_password;
use brainbox::decimal::{i64_to_string, parse_i32};
use brainbox::errors::VaultError;
use brainbox::ops::{add_vault_item, change_vault_password, get_vault_item, list_vault_items,
    vault_has_password, verify_vault_password};
use brainbox::textorder::{str_eq, str_lt};
use brainbox::vault::{SyncSettings, Vault, VaultItem, VaultStore};

const T0: &str = "2024-01-01T00:00:00+00:00";
const T1: &str = "2024-01-02T00:00:00+00:00";
const T2: &str = "2024-01-03T00:00:00+00:00";

fn key_for(password: &str, vault_id: i64) -> Vec<u8> {
    derive_key_from_password(password, &i64_to_string(vault_id), 100_000)
}

#[test]
fn create_vault_assigns_ids_and_payload() {
    let mut store = VaultStore::new();
    let v = store.create_vault("notes", "pw", true, T0, "uuid-v1").unwrap();
    assert_eq!(v.id, 1);
    assert_eq!(v.name, "notes");
    assert!(v.has_password);
    assert_eq!(v.uuid.as_deref(), Some("uuid-v1"));
    assert_eq!(v.created_at, T0);
    assert_eq!(v.updated_at.as_deref(), Some(T0));
    assert!(v.deleted_at.is_none());
    assert!(!v.encrypted_password.is_empty());

    let w = store.create_vault("open", "", false, T0, "uuid-v2").unwrap();
    assert_eq!(w.id, 2);
    assert!(!w.has_password);
    assert!(w.encrypted_password.is_empty());
}

#[test]
fn duplicate_vault_uuid_is_rejected() {
    let mut store = VaultStore::new();
    store.create_vault("a", "", false, T0, "same-uuid").unwrap();
    let r = store.create_vault("b", "", false, T1, "same-uuid");
    assert_eq!(r.err(), Some(VaultError::DuplicateUuid));
}

#[test]
fn verify_password_accepts_right_key_only() {
    let mut store = VaultStore::new();
    let v = store.create_vault("locked", "hunter2", true, T0, "uuid-v1").unwrap();
    let good = key_for("hunter2", v.id);
    let bad = key_for("wrong", v.id);
    assert!(verify_vault_password(&store, v.id, &good).is_ok());
    assert_eq!(verify_vault_password(&store, v.id, &bad), Err(VaultError::InvalidPassword));
    assert_eq!(verify_vault_password(&store, 99, &good), Err(VaultError::NotFound(99)));
    assert_eq!(
        verify_vault_password(&store, v.id, &vec![0u8; 16]),
        Err(VaultError::KeyLengthInvalid)
    );
}

#[test]
fn passwordless_vault_accepts_any_key() {
    let mut store = VaultStore::new();
    let v = store.create_vault("open", "", false, T0, "uuid-v1").unwrap();
    assert_eq!(vault_has_password(&store, v.id), Ok(false));
    assert!(verify_vault_password(&store, v.id, &vec![7u8; 32]).is_ok());
}

#[test]
fn item_round_trip_through_store() {
    let mut store = VaultStore::new();
    let v = store.create_vault("notes", "pw", true, T0, "uuid-v1").unwrap();
    let key = key_for("pw", v.id);
    let it = add_vault_item(&mut store, v.id, "first", "the content", &key, T1, "uuid-i1")
        .unwrap();
    assert_eq!(it.id, 1);
    assert_eq!(it.vault_id, v.id);
    let out = get_vault_item(&store, it.id, &key).unwrap();
    assert_eq!(out.title, "first");
    assert_eq!(out.content, "the content");
    // the owning vault's updated_at was bumped
    let v2 = Vault::get_by_id(&store, v.id).unwrap();
    assert_eq!(v2.updated_at.as_deref(), Some(T1));
}

#[test]
fn listing_is_ordered_and_decrypted() {
    let mut store = VaultStore::new();
    let v = store.create_vault("notes", "pw", true, T0, "uuid-v1").unwrap();
    let key = key_for("pw", v.id);
    // created later first when no custom order exists
    add_vault_item(&mut store, v.id, "older", "a", &key, T0, "uuid-i1").unwrap();
    add_vault_item(&mut store, v.id, "newer", "b", &key, T2, "uuid-i2").unwrap();
    let listed = list_vault_items(&store, v.id, &key).unwrap();
    assert_eq!(listed.len(), 2);
    assert_eq!(listed[0].title, "newer");
    assert_eq!(listed[1].title, "older");
    assert_eq!(listed[0].content, "b");
}

#[test]
fn reorder_fixes_listing_order() {
    let mut store = VaultStore::new();
    let v = store.create_vault("notes", "", false, T0, "uuid-v1").unwrap();
    let key = derive_key_from_password("", &i64_to_string(v.id), 100_000);
    let a = add_vault_item(&mut store, v.id, "a", "1", &key, T0, "u-a").unwrap();
    let b = add_vault_item(&mut store, v.id, "b", "2", &key, T1, "u-b").unwrap();
    let c = add_vault_item(&mut store, v.id, "c", "3", &key, T2, "u-c").unwrap();
    VaultItem::update_order(&mut store, v.id, &vec![b.id, c.id, a.id], T2).unwrap();
    let listed = list_vault_items(&store, v.id, &key).unwrap();
    let ids: Vec<i64> = listed.iter().map(|o| o.id).collect();
    assert_eq!(ids, vec![b.id, c.id, a.id]);
}

#[test]
fn reorder_with_foreign_id_changes_nothing() {
    let mut store = VaultStore::new();
    let v = store.create_vault("notes", "", false, T0, "uuid-v1").unwrap();
    let w = store.create_vault("other", "", false, T0, "uuid-v2").unwrap();
    let key = derive_key_for(v.id);
    let a = add_vault_item(&mut store, v.id, "a", "1", &key, T0, "u-a").unwrap();
    let b = add_vault_item(&mut store, v.id, "b", "2", &key, T1, "u-b").unwrap();
    let keyw = derive_key_for(w.id);
    let x = add_vault_item(&mut store, w.id, "x", "9", &keyw, T0, "u-x").unwrap();
    let r = VaultItem::update_order(&mut store, v.id, &vec![b.id, x.id, a.id], T2);
    assert!(r.is_err());
    // no sort_order was assigned at all
    let ai = VaultItem::get_by_id(&store, a.id).unwrap();
    let bi = VaultItem::get_by_id(&store, b.id).unwrap();
    assert!(ai.sort_order.is_none());
    assert!(bi.sort_order.is_none());
}

fn derive_key_for(vault_id: i64) -> Vec<u8> {
    derive_key_from_password("", &i64_to_string(vault_id), 100_000)
}

#[test]
fn soft_delete_cascades_and_hides() {
    let mut store = VaultStore::new();
    let v = store.create_vault("notes", "", false, T0, "uuid-v1").unwrap();
    let key = derive_key_for(v.id);
    let it = add_vault_item(&mut store, v.id, "a", "1", &key, T0, "u-a").unwrap();
    Vault::delete(&mut store, v.id, T1).unwrap();
    let vrow = Vault::get_by_id(&store, v.id).unwrap();
    assert_eq!(vrow.deleted_at.as_deref(), Some(T1));
    let irow = VaultItem::get_by_id(&store, it.id).unwrap();
    assert_eq!(irow.deleted_at.as_deref(), Some(T1));
    assert!(Vault::list(&store).is_empty());
    assert!(VaultItem::list_by_vault(&store, v.id).is_empty());
    // rows persist for sync until purged
    assert_eq!(Vault::list_all_for_sync(&store).len(), 1);
    assert_eq!(VaultItem::list_all_by_vault_for_sync(&store, v.id).len(), 1);
}

#[test]
fn item_soft_delete_counts_rows() {
    let mut store = VaultStore::new();
    let v = store.create_vault("notes", "", false, T0, "uuid-v1").unwrap();
    let key = derive_key_for(v.id);
    let it = add_vault_item(&mut store, v.id, "a", "1", &key, T0, "u-a").unwrap();
    assert_eq!(VaultItem::delete(&mut store, it.id, T1), Ok(1));
    assert_eq!(VaultItem::delete(&mut store, it.id, T2), Ok(0));
    assert_eq!(VaultItem::delete(&mut store, 99, T2), Ok(0));
}

#[test]
fn hard_delete_removes_rows() {
    let mut store = VaultStore::new();
    let v = store.create_vault("notes", "", false, T0, "uuid-v1").unwrap();
    let key = derive_key_for(v.id);
    let it = add_vault_item(&mut store, v.id, "a", "1", &key, T0, "u-a").unwrap();
    assert_eq!(VaultItem::hard_delete(&mut store, it.id), Ok(1));
    assert!(VaultItem::get_by_id(&store, it.id).is_err());
    Vault::hard_delete(&mut store, v.id).unwrap();
    assert!(Vault::get_by_id(&store, v.id).is_none());
}

#[test]
fn rename_and_cover_bump_updated_at() {
    let mut store = VaultStore::new();
    let v = store.create_vault("old name", "", false, T0, "uuid-v1").unwrap();
    Vault::rename(&mut store, v.id, "new name", T1).unwrap();
    let r = Vault::get_by_id(&store, v.id).unwrap();
    assert_eq!(r.name, "new name");
    assert_eq!(r.updated_at.as_deref(), Some(T1));
    Vault::update_cover_image(&mut store, v.id, Some("cover.png"), T2).unwrap();
    let r = Vault::get_by_id(&store, v.id).unwrap();
    assert_eq!(r.cover_image.as_deref(), Some("cover.png"));
    assert_eq!(r.updated_at.as_deref(), Some(T2));
}

#[test]
fn item_field_updates() {
    let mut store = VaultStore::new();
    let v = store.create_vault("notes", "", false, T0, "uuid-v1").unwrap();
    let key = derive_key_for(v.id);
    let it = add_vault_item(&mut store, v.id, "a", "1", &key, T0, "u-a").unwrap();
    VaultItem::update_title(&mut store, it.id, "renamed", T1).unwrap();
    VaultItem::update_summary(&mut store, it.id, "a summary", T1).unwrap();
    VaultItem::update_image(&mut store, it.id, Some("img.png"), T1).unwrap();
    VaultItem::update_content(&mut store, it.id, "new text", key.as_slice(), T2).unwrap();
    let row = VaultItem::get_by_id(&store, it.id).unwrap();
    assert_eq!(row.title, "renamed");
    assert_eq!(row.summary.as_deref(), Some("a summary"));
    assert_eq!(row.image.as_deref(), Some("img.png"));
    assert_eq!(row.updated_at, T2);
    let out = get_vault_item(&store, it.id, &key).unwrap();
    assert_eq!(out.content, "new text");
}

#[test]
fn move_to_vault_clears_order() {
    let mut store = VaultStore::new();
    let v = store.create_vault("src", "", false, T0, "uuid-v1").unwrap();
    let w = store.create_vault("dst", "", false, T0, "uuid-v2").unwrap();
    let key = derive_key_for(v.id);
    let it = add_vault_item(&mut store, v.id, "a", "1", &key, T0, "u-a").unwrap();
    VaultItem::update_order(&mut store, v.id, &vec![it.id], T1).unwrap();
    VaultItem::move_to_vault(&mut store, it.id, w.id, T2).unwrap();
    let row = VaultItem::get_by_id(&store, it.id).unwrap();
    assert_eq!(row.vault_id, w.id);
    assert!(row.sort_order.is_none());
}

#[test]
fn change_password_reencrypts_everything() {
    let mut store = VaultStore::new();
    let v = store.create_vault("locked", "old pw", true, T0, "uuid-v1").unwrap();
    let old_key = key_for("old pw", v.id);
    add_vault_item(&mut store, v.id, "a", "plain a", &old_key, T0, "u-a").unwrap();
    add_vault_item(&mut store, v.id, "b", "plain b", &old_key, T0, "u-b").unwrap();
    change_vault_password(&mut store, v.id, &old_key, "new pw", Some(true), T1).unwrap();
    let new_key = key_for("new pw", v.id);
    assert!(verify_vault_password(&store, v.id, &new_key).is_ok());
    assert_eq!(verify_vault_password(&store, v.id, &old_key), Err(VaultError::InvalidPassword));
    let listed = list_vault_items(&store, v.id, &new_key).unwrap();
    let mut contents: Vec<String> = listed.iter().map(|o| o.content.clone()).collect();
    contents.sort();
    assert_eq!(contents, vec!["plain a".to_string(), "plain b".to_string()]);
}

#[test]
fn change_password_can_remove_protection() {
    let mut store = VaultStore::new();
    let v = store.create_vault("locked", "pw", true, T0, "uuid-v1").unwrap();
    let old_key = key_for("pw", v.id);
    change_vault_password(&mut store, v.id, &old_key, "", Some(false), T1).unwrap();
    assert_eq!(vault_has_password(&store, v.id), Ok(false));
    let row = Vault::get_by_id(&store, v.id).unwrap();
    assert!(row.encrypted_password.is_empty());
}

#[test]
fn lookup_by_uuid() {
    let mut store = VaultStore::new();
    let v = store.create_vault("notes", "", false, T0, "uuid-v1").unwrap();
    let key = derive_key_for(v.id);
    let it = add_vault_item(&mut store, v.id, "a", "1", &key, T0, "u-a").unwrap();
    assert_eq!(Vault::get_by_uuid(&store, "uuid-v1").unwrap().id, v.id);
    assert!(Vault::get_by_uuid(&store, "nope").is_none());
    assert_eq!(VaultItem::get_by_uuid(&store, "u-a").unwrap().id, it.id);
    assert!(VaultItem::get_by_uuid(&store, "nope").is_none());
}

#[test]
fn migrate_backfills_legacy_rows() {
    let mut store = VaultStore::new();
    store.vaults.push(Vault {
        id: 1,
        name: "legacy".to_string(),
        encrypted_password: Vec::new(),
        created_at: T0.to_string(),
        cover_image: None,
        has_password: true,
        uuid: None,
        updated_at: None,
        deleted_at: None,
    });
    store.next_vault_id = 2;
    store.items.push(VaultItem {
        id: 1,
        vault_id: 1,
        title: "old".to_string(),
        content: vec![1, 2, 3],
        created_at: T0.to_string(),
        updated_at: T0.to_string(),
        image: None,
        summary: None,
        sort_order: None,
        uuid: None,
        deleted_at: None,
    });
    store.next_item_id = 2;
    store.migrate().unwrap();
    let v = Vault::get_by_id(&store, 1).unwrap();
    assert!(v.uuid.is_some());
    assert_eq!(v.updated_at.as_deref(), Some(T0));
    let it = VaultItem::get_by_id(&store, 1).unwrap();
    assert!(it.uuid.is_some());
    assert_eq!(it.content, vec![1, 2, 3]);
}

#[test]
fn settings_store_and_remove() {
    let mut store = VaultStore::new();
    assert!(SyncSettings::get(&store, "device_id").is_none());
    SyncSettings::set(&mut store, "device_id", "abc");
    SyncSettings::set(&mut store, "device_name", "laptop");
    SyncSettings::set(&mut store, "device_id", "def");
    assert_eq!(SyncSettings::get(&store, "device_id").as_deref(), Some("def"));
    assert_eq!(SyncSettings::get(&store, "device_name").as_deref(), Some("laptop"));
    let all = SyncSettings::get_all(&store);
    assert_eq!(all.len(), 2);
    SyncSettings::delete(&mut store, "device_id");
    assert!(SyncSettings::get(&store, "device_id").is_none());
}

#[test]
fn decimal_text_round_trip() {
    assert_eq!(i64_to_string(0), "0");
    assert_eq!(i64_to_string(42), "42");
    assert_eq!(i64_to_string(-7), "-7");
    assert_eq!(parse_i32("30"), Some(30));
    assert_eq!(parse_i32("+30"), Some(30));
    assert_eq!(parse_i32("-365"), Some(-365));
    assert_eq!(parse_i32("0"), Some(0));
    assert_eq!(parse_i32("00000000030"), Some(30));
    assert_eq!(parse_i32(""), None);
    assert_eq!(parse_i32("-"), None);
    assert_eq!(parse_i32("+"), None);
    assert_eq!(parse_i32("12x"), None);
    assert_eq!(parse_i32("1000000000"), Some(1_000_000_000));
    assert_eq!(parse_i32("2147483647"), Some(i32::MAX));
    assert_eq!(parse_i32("2147483648"), None);
    assert_eq!(parse_i32("-2147483648"), Some(i32::MIN));
    assert_eq!(parse_i32("-2147483649"), None);
    assert_eq!(parse_i32("99999999999"), None);
}

#[test]
fn change_password_reencrypts_tombstoned_items_too() {
    let mut store = VaultStore::new();
    let v = store.create_vault("locked", "old pw", true, T0, "uuid-v1").unwrap();
    let old_key = key_for("old pw", v.id);
    let live = add_vault_item(&mut store, v.id, "live", "keep me", &old_key, T0, "u-live").unwrap();
    let dead = add_vault_item(&mut store, v.id, "dead", "tombstoned", &old_key, T0, "u-dead")
        .unwrap();
    VaultItem::delete(&mut store, dead.id, T1).unwrap();
    change_vault_password(&mut store, v.id, &old_key, "new pw", Some(true), T2).unwrap();
    let new_key = key_for("new pw", v.id);
    // the tombstoned row decrypts under the new key, so a later export of
    // this protected vault (which carries tombstones) still works
    let row = VaultItem::get_by_id(&store, dead.id).unwrap();
    assert_eq!(
        brainbox::crypto::decrypt_content(new_key.as_slice(), row.content.as_slice()).unwrap(),
        "tombstoned"
    );
    let (file, res) = brainbox::sync::sync_export(
        &mut store,
        &vec![(v.id, new_key.clone())],
        "deviceA",
        Vec::new(),
        T2,
    )
    .unwrap();
    assert!(res.skipped_vaults.is_empty());
    assert_eq!(file.vaults[0].items.len(), 2);
    let _ = live;
}

#[test]
fn capture_fallback_names_placeholder() {
    let info = brainbox::capture::get_focused_window_info().unwrap();
    assert_eq!(info.0, "Unknown App");
    assert_eq!(info.1, "Unknown Window");
}

#[test]
fn text_order_is_bytewise() {
    assert!(str_lt("2024-01-01T00:00:00+00:00", "2024-01-02T00:00:00+00:00"));
    assert!(!str_lt("2024-01-02T00:00:00+00:00", "2024-01-01T00:00:00+00:00"));
    assert!(str_lt("", "a"));
    assert!(!str_lt("a", ""));
    assert!(str_lt("abc", "abd"));
    assert!(str_lt("ab", "abc"));
    assert!(str_eq("same", "same"));
    assert!(!str_eq("same", "sameish"));
}

#[test]
fn listing_uses_sort_order_before_creation_time() {
    let mut store = VaultStore::new();
    let v = store.create_vault("notes", "", false, T0, "uuid-v1").unwrap();
    let key = derive_key_from_password("", &i64_to_string(v.id), 100_000);
    let a = add_vault_item(&mut store, v.id, "a", "1", &key, T0, "u-a").unwrap();
    let b = add_vault_item(&mut store, v.id, "b", "2", &key, T1, "u-b").unwrap();
    let c = add_vault_item(&mut store, v.id, "c", "3", &key, T2, "u-c").unwrap();
    // only a and b get explicit positions; c sorts after them by creation time
    VaultItem::update_order(&mut store, v.id, &vec![b.id, a.id], T2).unwrap();
    let listed = list_vault_items(&store, v.id, &key).unwrap();
    let ids: Vec<i64> = listed.iter().map(|o| o.id).collect();
    assert_eq!(ids, vec![b.id, a.id, c.id]);
}
