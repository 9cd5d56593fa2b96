//! The sync engine: export to and import from the shared sync file, the
//! sync settings, and retention purging of tombstones.
//!
//! State is exchanged through one serialized file per shared folder. This
//! module holds the exchange records and every merge decision; reading and
//! writing the file itself is the application shell's concern.

use vstd::prelude::*;

use crate::errors::VaultError;
use crate::textorder::{str_eq, str_lt, text_lt};
use crate::crypto::{blob_plaintext, encrypt_content, decrypt_content, derive_key_from_password, sealable,
    encrypt_password, pbkdf2_sha256, string_from_utf8_lossy};
use crate::decimal::{dec_int, i64_to_string};
use vstd::utf8::encode_utf8;
use vstd::relations::sorted_by;
use crate::vault::{Vault, VaultItem, VaultStore, VaultV, ItemV, SyncSettings, opt_view,
    opt_str_clone, setting_val, has_vault_uuid, vault_by_uuid, has_vault_id, vault_by_id, vault_idx_by_id,
    items_view, vaults_view,
    settings_view, lemma_filter_items_unique, lemma_filter_vaults_unique, lemma_wf_same_idents, has_item_uuid, item_by_uuid,
    item_idx_by_uuid, find_item_index_by_uuid, lemma_item_uuid_idx, lemma_wf_item_push,
    lemma_wf_vault_push,
    live_in_vault, in_vault, lemma_filter_subset};

verus! {

/// One device's full exportable state, as placed in the shared folder.
#[derive(Debug, Clone)]
pub struct SyncFile {
    pub format_version: String,
    pub device_id: String,
    pub device_name: String,
    pub exported_at: String,
    pub vaults: Vec<SyncVault>,
    pub captures: Vec<SyncCapture>,
}

/// A vault in the exchange format, carrying its items.
#[derive(Debug, Clone)]
pub struct SyncVault {
    pub uuid: String,
    pub name: String,
    pub created_at: String,
    pub updated_at: String,
    pub deleted_at: Option<String>,
    pub cover_image: Option<String>,
    pub has_password: bool,
    pub items: Vec<SyncItem>,
}

/// An item in the exchange format. Its content is plaintext: the exchange
/// file is protected only by access to the shared folder.
#[derive(Debug, Clone)]
pub struct SyncItem {
    pub uuid: String,
    pub title: String,
    pub content: String,
    pub created_at: String,
    pub updated_at: String,
    pub deleted_at: Option<String>,
    pub image: Option<String>,
    pub summary: Option<String>,
    pub sort_order: Option<i64>,
}

/// A loose attachment file, referenced by name only.
#[derive(Debug, Clone)]
pub struct SyncCapture {
    pub filename: String,
    pub created_at: String,
    pub size_bytes: u64,
}

/// The abstract value of a [`SyncItem`].
pub struct SyncItemV {
    pub uuid: Seq<char>,
    pub title: Seq<char>,
    pub content: Seq<char>,
    pub created_at: Seq<char>,
    pub updated_at: Seq<char>,
    pub deleted_at: Option<Seq<char>>,
    pub image: Option<Seq<char>>,
    pub summary: Option<Seq<char>>,
    pub sort_order: Option<i64>,
}

impl View for SyncItem {
    type V = SyncItemV;

    open spec fn view(&self) -> SyncItemV {
        SyncItemV {
            uuid: self.uuid@,
            title: self.title@,
            content: self.content@,
            created_at: self.created_at@,
            updated_at: self.updated_at@,
            deleted_at: opt_view(self.deleted_at),
            image: opt_view(self.image),
            summary: opt_view(self.summary),
            sort_order: self.sort_order,
        }
    }
}

/// The abstract value of a [`SyncVault`].
pub struct SyncVaultV {
    pub uuid: Seq<char>,
    pub name: Seq<char>,
    pub created_at: Seq<char>,
    pub updated_at: Seq<char>,
    pub deleted_at: Option<Seq<char>>,
    pub cover_image: Option<Seq<char>>,
    pub has_password: bool,
    pub items: Seq<SyncItemV>,
}

/// The abstract values of a sequence of exchange items.
pub open spec fn sync_items_view(s: Seq<SyncItem>) -> Seq<SyncItemV> {
    Seq::new(s.len(), |i: int| s[i]@)
}

impl View for SyncVault {
    type V = SyncVaultV;

    open spec fn view(&self) -> SyncVaultV {
        SyncVaultV {
            uuid: self.uuid@,
            name: self.name@,
            created_at: self.created_at@,
            updated_at: self.updated_at@,
            deleted_at: opt_view(self.deleted_at),
            cover_image: opt_view(self.cover_image),
            has_password: self.has_password,
            items: sync_items_view(self.items@),
        }
    }
}

/// The counts and skip lists an export reports.
#[derive(Debug)]
pub struct SyncExportResult {
    pub exported_vaults: usize,
    pub exported_items: usize,
    pub exported_captures: usize,
    /// Names of vaults skipped for want of a usable key.
    pub skipped_vaults: Vec<String>,
    pub warnings: Vec<String>,
}

/// The counts, conflicts and skip lists an import reports.
#[derive(Debug)]
pub struct SyncImportResult {
    pub imported_vaults: usize,
    pub imported_items: usize,
    pub imported_captures: usize,
    /// Titles of items duplicated as conflict copies.
    pub conflicts: Vec<String>,
    pub warnings: Vec<String>,
    /// Names of vaults skipped for want of a password.
    pub skipped_vaults: Vec<String>,
}

/// What a device knows about the shared folder and the remote file.
#[derive(Debug)]
pub struct SyncStatus {
    pub sync_enabled: bool,
    pub sync_folder: Option<String>,
    pub device_name: String,
    pub last_sync_at: Option<String>,
    pub last_sync_device: Option<String>,
    pub remote_file_exists: bool,
    pub remote_exported_at: Option<String>,
    pub remote_device_name: Option<String>,
    pub has_changes: bool,
}

/// A look at the remote file before importing it.
#[derive(Debug)]
pub struct SyncPreview {
    pub device_name: String,
    pub exported_at: String,
    pub vault_count: usize,
    pub item_count: usize,
    pub capture_count: usize,
    /// Names of vaults that will need a password to import.
    pub vaults_needing_password: Vec<String>,
}

/// How many rows a purge removed.
#[derive(Debug)]
pub struct PurgeResult {
    pub purged_vaults: usize,
    pub purged_items: usize,
}

/// The one sync-file format version this engine reads and writes.
pub fn sync_format_version() -> (r: &'static str)
    ensures
        r@ == "1.0"@,
{
    "1.0"
}

/// Read the configured sync folder, if any.
pub fn get_sync_folder(store: &VaultStore) -> (r: Option<String>)
    requires
        store@.wf(),
    ensures
        opt_view(r) == setting_val(store@.settings, "sync_folder"@),
{
    SyncSettings::get(store, "sync_folder")
}

/// Configure the sync folder path.
pub fn set_sync_folder(store: &mut VaultStore, path: &str)
    requires
        old(store)@.wf(),
    ensures
        final(store)@.wf(),
        setting_val(final(store)@.settings, "sync_folder"@) == Some(path@),
        forall|k: Seq<char>|
            k != "sync_folder"@ ==> setting_val(final(store)@.settings, k) == setting_val(
                old(store)@.settings,
                k,
            ),
        final(store)@.vaults == old(store)@.vaults,
        final(store)@.items == old(store)@.items,
        final(store)@.next_vault_id == old(store)@.next_vault_id,
        final(store)@.next_item_id == old(store)@.next_item_id,
{
    SyncSettings::set(store, "sync_folder", path)
}

/// Store one sync setting.
pub fn set_sync_setting(store: &mut VaultStore, key: &str, value: &str)
    requires
        old(store)@.wf(),
    ensures
        final(store)@.wf(),
        setting_val(final(store)@.settings, key@) == Some(value@),
        forall|k: Seq<char>|
            k != key@ ==> setting_val(final(store)@.settings, k) == setting_val(
                old(store)@.settings,
                k,
            ),
        final(store)@.vaults == old(store)@.vaults,
        final(store)@.items == old(store)@.items,
        final(store)@.next_vault_id == old(store)@.next_vault_id,
        final(store)@.next_item_id == old(store)@.next_item_id,
{
    SyncSettings::set(store, key, value)
}

/// All sync settings as key/value pairs.
pub fn get_sync_settings(store: &VaultStore) -> (r: Vec<(String, String)>)
    requires
        store@.wf(),
    ensures
        settings_view(r@) == store@.settings,
{
    SyncSettings::get_all(store)
}

/// This device's stable random id, created on first use.
pub fn get_or_create_device_id(store: &mut VaultStore) -> (r: String)
    requires
        old(store)@.wf(),
    ensures
        final(store)@.wf(),
        setting_val(final(store)@.settings, "device_id"@) == Some(r@),
        setting_val(old(store)@.settings, "device_id"@) matches Some(v) ==> r@ == v
            && final(store)@ == old(store)@,
        forall|k: Seq<char>|
            k != "device_id"@ ==> setting_val(final(store)@.settings, k) == setting_val(
                old(store)@.settings,
                k,
            ),
        final(store)@.vaults == old(store)@.vaults,
        final(store)@.items == old(store)@.items,
        final(store)@.next_vault_id == old(store)@.next_vault_id,
        final(store)@.next_item_id == old(store)@.next_item_id,
{
    match SyncSettings::get(store, "device_id") {
        Some(id) => id,
        None => {
            let id = crate::fresh::generate_uuid();
            SyncSettings::set(store, "device_id", id.as_str());
            id
        },
    }
}

/// This device's name: the stored setting, or the given fallback (the
/// hostname, in practice).
pub fn device_name_or(store: &VaultStore, fallback: &str) -> (r: String)
    requires
        store@.wf(),
    ensures
        r@ == match setting_val(store@.settings, "device_name"@) {
            Some(v) => v,
            None => fallback@,
        },
{
    match SyncSettings::get(store, "device_name") {
        Some(n) => n,
        None => String::from_str(fallback),
    }
}

/// Set this device's name.
pub fn set_device_name(store: &mut VaultStore, name: &str)
    requires
        old(store)@.wf(),
    ensures
        final(store)@.wf(),
        setting_val(final(store)@.settings, "device_name"@) == Some(name@),
        forall|k: Seq<char>|
            k != "device_name"@ ==> setting_val(final(store)@.settings, k) == setting_val(
                old(store)@.settings,
                k,
            ),
        final(store)@.vaults == old(store)@.vaults,
        final(store)@.items == old(store)@.items,
        final(store)@.next_vault_id == old(store)@.next_vault_id,
        final(store)@.next_item_id == old(store)@.next_item_id,
{
    SyncSettings::set(store, "device_name", name)
}

/// Is this settings text a stored "yes"?
pub open spec fn is_truthy(v: Seq<char>) -> bool {
    v == "true"@ || v == "1"@
}

/// Is "sync on close" enabled? Off by default.
pub fn is_sync_on_close_enabled(store: &VaultStore) -> (r: bool)
    requires
        store@.wf(),
    ensures
        r == match setting_val(store@.settings, "sync_on_close"@) {
            Some(v) => is_truthy(v),
            None => false,
        },
{
    match SyncSettings::get(store, "sync_on_close") {
        Some(v) => str_eq(v.as_str(), "true") || str_eq(v.as_str(), "1"),
        None => false,
    }
}

/// Enable or disable "sync on close".
pub fn set_sync_on_close(store: &mut VaultStore, enabled: bool)
    requires
        old(store)@.wf(),
    ensures
        final(store)@.wf(),
        setting_val(final(store)@.settings, "sync_on_close"@) == Some(
            if enabled {
                "true"@
            } else {
                "false"@
            },
        ),
        forall|k: Seq<char>|
            k != "sync_on_close"@ ==> setting_val(final(store)@.settings, k) == setting_val(
                old(store)@.settings,
                k,
            ),
        final(store)@.vaults == old(store)@.vaults,
        final(store)@.items == old(store)@.items,
        final(store)@.next_vault_id == old(store)@.next_vault_id,
        final(store)@.next_item_id == old(store)@.next_item_id,
{
    SyncSettings::set(
        store,
        "sync_on_close",
        if enabled {
            "true"
        } else {
            "false"
        },
    )
}

/// Is "check for sync on startup" enabled? On by default.
pub fn is_check_sync_on_startup_enabled(store: &VaultStore) -> (r: bool)
    requires
        store@.wf(),
    ensures
        r == match setting_val(store@.settings, "check_sync_on_startup"@) {
            Some(v) => is_truthy(v),
            None => true,
        },
{
    match SyncSettings::get(store, "check_sync_on_startup") {
        Some(v) => str_eq(v.as_str(), "true") || str_eq(v.as_str(), "1"),
        None => true,
    }
}

/// Enable or disable "check for sync on startup".
pub fn set_check_sync_on_startup(store: &mut VaultStore, enabled: bool)
    requires
        old(store)@.wf(),
    ensures
        final(store)@.wf(),
        setting_val(final(store)@.settings, "check_sync_on_startup"@) == Some(
            if enabled {
                "true"@
            } else {
                "false"@
            },
        ),
        forall|k: Seq<char>|
            k != "check_sync_on_startup"@ ==> setting_val(final(store)@.settings, k) == setting_val(
                old(store)@.settings,
                k,
            ),
        final(store)@.vaults == old(store)@.vaults,
        final(store)@.items == old(store)@.items,
        final(store)@.next_vault_id == old(store)@.next_vault_id,
        final(store)@.next_item_id == old(store)@.next_item_id,
{
    SyncSettings::set(
        store,
        "check_sync_on_startup",
        if enabled {
            "true"
        } else {
            "false"
        },
    )
}

/// The configured purge window in days, 30 when unset; malformed text is
/// an error.
pub fn get_purge_days(store: &VaultStore) -> (r: Result<i32, VaultError>)
    requires
        store@.wf(),
    ensures
        match setting_val(store@.settings, "purge_deleted_after_days"@) {
            None => r == Ok::<i32, VaultError>(30i32),
            Some(v) => match crate::decimal::parse_decimal(v) {
                Some(n) => if i32::MIN <= n <= i32::MAX {
                    r matches Ok(d) && d == n
                } else {
                    r == Err::<i32, VaultError>(VaultError::IoFailure)
                },
                None => r == Err::<i32, VaultError>(VaultError::IoFailure),
            },
        },
{
    match SyncSettings::get(store, "purge_deleted_after_days") {
        Some(v) => match crate::decimal::parse_i32(v.as_str()) {
            Some(d) => Ok(d),
            None => Err(VaultError::IoFailure),
        },
        None => Ok(30),
    }
}

/// Store the purge window in days.
pub fn set_purge_days(store: &mut VaultStore, days: i32)
    requires
        old(store)@.wf(),
    ensures
        final(store)@.wf(),
        setting_val(final(store)@.settings, "purge_deleted_after_days"@) == Some(
            crate::decimal::dec_int(days as int),
        ),
        forall|k: Seq<char>|
            k != "purge_deleted_after_days"@ ==> setting_val(final(store)@.settings, k)
                == setting_val(old(store)@.settings, k),
        final(store)@.vaults == old(store)@.vaults,
        final(store)@.items == old(store)@.items,
        final(store)@.next_vault_id == old(store)@.next_vault_id,
        final(store)@.next_item_id == old(store)@.next_item_id,
{
    let text = crate::decimal::i64_to_string(days as i64);
    SyncSettings::set(store, "purge_deleted_after_days", text.as_str())
}

/// Tombstones only matter while a sync folder is configured, so auto-purge
/// runs exactly then.
pub fn should_auto_purge(store: &VaultStore) -> (r: bool)
    requires
        store@.wf(),
    ensures
        r == (setting_val(store@.settings, "sync_folder"@) is Some),
{
    let f = SyncSettings::get(store, "sync_folder");
    f.is_some()
}

/// Is this tombstone older than the cutoff?
pub open spec fn expired(ts: Option<Seq<char>>, cutoff: Seq<char>) -> bool {
    ts matches Some(t) && text_lt(t, cutoff)
}

/// Does some vault row with this id carry an expired tombstone?
pub open spec fn vault_purged(vs: Seq<VaultV>, vid: i64, cutoff: Seq<char>) -> bool {
    exists|k: int|
        0 <= k < vs.len() && (#[trigger] vs[k]).id == vid && expired(vs[k].deleted_at, cutoff)
}

/// Hard-delete rows whose tombstones are older than `cutoff`: first items
/// tombstoned before the cutoff, then vaults tombstoned before the cutoff
/// together with any items they still own. Counts report the rows removed
/// in each of the two steps, as the underlying deletes do.
pub fn purge_before(store: &mut VaultStore, cutoff: &str) -> (r: PurgeResult)
    requires
        old(store)@.wf(),
    ensures
        final(store)@.wf(),
        final(store)@.vaults == old(store)@.vaults.filter(
            (|v: VaultV| !expired(v.deleted_at, cutoff@)),
        ),
        final(store)@.items == old(store)@.items.filter(
            (|it: ItemV| !expired(it.deleted_at, cutoff@) && !vault_purged(
                old(store)@.vaults,
                it.vault_id,
                cutoff@,
            )),
        ),
        r.purged_items == old(store)@.items.filter(
            (|it: ItemV| expired(it.deleted_at, cutoff@)),
        ).len(),
        r.purged_vaults == old(store)@.vaults.filter(
            (|v: VaultV| expired(v.deleted_at, cutoff@)),
        ).len(),
        final(store)@.settings == old(store)@.settings,
        final(store)@.next_vault_id == old(store)@.next_vault_id,
        final(store)@.next_item_id == old(store)@.next_item_id,
{
    let ghost vs0 = store@.vaults;
    let ghost is0 = store@.items;
    let ghost keep_item = (|it: ItemV| !expired(it.deleted_at, cutoff@) && !vault_purged(
        vs0,
        it.vault_id,
        cutoff@,
    ));
    let ghost gone_item = (|it: ItemV| expired(it.deleted_at, cutoff@));
    let mut new_items: Vec<crate::vault::VaultItem> = Vec::new();
    let mut purged_items: usize = 0;
    let mut i: usize = 0;
    while i < store.items.len()
        invariant
            i <= store.items@.len(),
            store@ == old(store)@,
            store@.wf(),
            vs0 == store@.vaults,
            is0 == items_view(store.items@),
            keep_item == (|it: ItemV| !expired(it.deleted_at, cutoff@) && !vault_purged(
                vs0,
                it.vault_id,
                cutoff@,
            )),
            gone_item == (|it: ItemV| expired(it.deleted_at, cutoff@)),
            items_view(new_items@) =~= is0.take(i as int).filter(keep_item),
            purged_items == is0.take(i as int).filter(gone_item).len(),
        decreases store.items@.len() - i,
    {
        proof {
            reveal(Seq::filter);
            assert(is0.take(i + 1 as int).drop_last() =~= is0.take(i as int));
            assert(is0.take(i + 1 as int).last() == is0[i as int]);
        }
        let it = &store.items[i];
        let item_expired = match &it.deleted_at {
            Some(d) => str_lt(d.as_str(), cutoff),
            None => false,
        };
        if item_expired {
            purged_items = purged_items + 1;
            proof {
                assert(gone_item(is0[i as int]));
                assert(!keep_item(is0[i as int]));
            }
        } else {
            let owner_gone = match crate::vault::find_vault_index(&store.vaults, it.vault_id) {
                Some(k) => {
                    proof {
                        crate::vault::lemma_vault_idx(store@.vaults, k as int, it.vault_id);
                    }
                    match &store.vaults[k].deleted_at {
                        Some(d) => str_lt(d.as_str(), cutoff),
                        None => false,
                    }
                },
                None => false,
            };
            proof {
                if owner_gone {
                    assert(vault_purged(vs0, is0[i as int].vault_id, cutoff@));
                } else {
                    if vault_purged(vs0, is0[i as int].vault_id, cutoff@) {
                        let k = choose|k: int|
                            0 <= k < vs0.len() && (#[trigger] vs0[k]).id == is0[i as int].vault_id
                                && expired(vs0[k].deleted_at, cutoff@);
                        crate::vault::lemma_vault_idx(vs0, k, is0[i as int].vault_id);
                        assert(false);
                    }
                }
            }
            if !owner_gone {
                new_items.push(it.duplicate());
            }
        }
        proof {
            assert(items_view(new_items@) =~= is0.take(i + 1 as int).filter(keep_item));
            assert(is0.take(i + 1 as int).filter(gone_item).len() == purged_items);
        }
        i = i + 1;
    }
    let ghost keep_vault = (|v: VaultV| !expired(v.deleted_at, cutoff@));
    let mut new_vaults: Vec<Vault> = Vec::new();
    let mut purged_vaults: usize = 0;
    let mut k: usize = 0;
    while k < store.vaults.len()
        invariant
            k <= store.vaults@.len(),
            vs0 == vaults_view(store.vaults@),
            keep_vault == (|v: VaultV| !expired(v.deleted_at, cutoff@)),
            vaults_view(new_vaults@) =~= vs0.take(k as int).filter(keep_vault),
            purged_vaults + vs0.take(k as int).filter(keep_vault).len() == k,
        decreases store.vaults@.len() - k,
    {
        proof {
            reveal(Seq::filter);
            assert(vs0.take(k + 1 as int).drop_last() =~= vs0.take(k as int));
            assert(vs0.take(k + 1 as int).last() == vs0[k as int]);
        }
        let v = &store.vaults[k];
        let gone = match &v.deleted_at {
            Some(d) => str_lt(d.as_str(), cutoff),
            None => false,
        };
        if gone {
            purged_vaults = purged_vaults + 1;
        } else {
            new_vaults.push(v.duplicate());
        }
        proof {
            assert(vaults_view(new_vaults@) =~= vs0.take(k + 1 as int).filter(keep_vault));
        }
        k = k + 1;
    }
    store.items = new_items;
    store.vaults = new_vaults;
    proof {
        assert(is0.take(is0.len() as int) =~= is0);
        assert(vs0.take(vs0.len() as int) =~= vs0);
        lemma_filter_items_unique(is0, keep_item);
        lemma_filter_vaults_unique(vs0, keep_vault);
        let fi = is0.filter(keep_item);
        let fv = vs0.filter(keep_vault);
        assert forall|j: int| 0 <= j < fi.len() implies 1 <= (#[trigger] fi[j]).id < old(
            store,
        )@.next_item_id by {
            let w = choose|w: int| 0 <= w < is0.len() && #[trigger] is0[w] == fi[j];
        }
        assert forall|j: int| 0 <= j < fv.len() implies 1 <= (#[trigger] fv[j]).id < old(
            store,
        )@.next_vault_id by {
            let w = choose|w: int| 0 <= w < vs0.len() && #[trigger] vs0[w] == fv[j];
        }
        // the count of kept plus purged vaults splits the whole sequence
        crate::vault::lemma_filter_vaults_unique(vs0, (|v: VaultV| expired(v.deleted_at, cutoff@)));
        lemma_filter_counts_split(vs0, keep_vault, (|v: VaultV| expired(v.deleted_at, cutoff@)));
    }
    PurgeResult { purged_vaults, purged_items }
}

/// Two complementary predicates split a sequence's length.
proof fn lemma_filter_counts_split(
    s: Seq<VaultV>,
    p: spec_fn(VaultV) -> bool,
    q: spec_fn(VaultV) -> bool,
)
    requires
        forall|v: VaultV| #[trigger] p(v) <==> !q(v),
    ensures
        s.filter(p).len() + s.filter(q).len() == s.len(),
    decreases s.len(),
{
    reveal(Seq::filter);
    if s.len() > 0 {
        lemma_filter_counts_split(s.drop_last(), p, q);
    }
}

/// Did the step from `pre` to `post` purge exactly the rows tombstoned
/// before `cutoff`, with `res` reporting the two removal steps?
pub open spec fn purged_with(
    pre: crate::vault::StoreV,
    post: crate::vault::StoreV,
    res: PurgeResult,
    cutoff: Seq<char>,
) -> bool {
    &&& post.vaults == pre.vaults.filter((|v: VaultV| !expired(v.deleted_at, cutoff)))
    &&& post.items == pre.items.filter(
        (|it: ItemV| !expired(it.deleted_at, cutoff) && !vault_purged(
            pre.vaults,
            it.vault_id,
            cutoff,
        )),
    )
    &&& res.purged_items == pre.items.filter((|it: ItemV| expired(it.deleted_at, cutoff))).len()
    &&& res.purged_vaults == pre.vaults.filter((|v: VaultV| expired(v.deleted_at, cutoff))).len()
}

/// Purge tombstones older than `days` days, measured from now.
pub fn purge_deleted_items(store: &mut VaultStore, days: i32) -> (r: Result<
    PurgeResult,
    VaultError,
>)
    requires
        old(store)@.wf(),
        -1_000_000 <= days <= 1_000_000,
    ensures
        final(store)@.wf(),
        r is Ok,
        exists|cutoff: Seq<char>|
            #[trigger] purged_with(old(store)@, final(store)@, r->Ok_0, cutoff),
        final(store)@.settings == old(store)@.settings,
        final(store)@.next_vault_id == old(store)@.next_vault_id,
        final(store)@.next_item_id == old(store)@.next_item_id,
{
    let cutoff = crate::fresh::rfc3339_days_ago(days);
    let res = purge_before(store, cutoff.as_str());
    let r: Result<PurgeResult, VaultError> = Ok(res);
    proof {
        assert(r->Ok_0 == res);
        assert(purged_with(old(store)@, store@, r->Ok_0, cutoff@));
        assert(exists|cut: Seq<char>| #[trigger] purged_with(old(store)@, store@, r->Ok_0, cut));
    }
    r
}

/// What importing one exchange item did.
#[derive(Debug)]
pub enum ImportItemResult {
    /// A brand-new local item was created.
    Imported,
    /// The local item was overwritten by a newer remote version.
    Updated,
    /// Both sides changed since the last sync: the remote version was
    /// added as a new sibling item, the local one left untouched.
    Conflict(String),
    /// Nothing to do.
    Skipped,
    /// The remote tombstone was applied locally.
    Deleted,
}

/// The five possible decisions of the per-item merge.
pub enum MergePlan {
    ApplyTombstone,
    SkipIt,
    MakeConflict,
    Overwrite,
    InsertNew,
}

/// The per-item merge decision: given the local item with the remote's
/// uuid (if any), the remote item, and the last-sync watermark.
///
/// A remote tombstone lands on a live local item and skips otherwise. A
/// genuine conflict needs both sides changed strictly after the watermark
/// with different stamps; then the remote is duplicated rather than either
/// edit discarded. Otherwise last-write-wins: a strictly newer remote
/// overwrites, anything else is skipped. Without a local match, live
/// remote items are inserted and tombstones ignored.
pub open spec fn merge_plan(local: Option<ItemV>, si: SyncItemV, last: Option<Seq<char>>)
    -> MergePlan {
    match local {
        Some(loc) => {
            if si.deleted_at is Some && loc.deleted_at is None {
                MergePlan::ApplyTombstone
            } else if si.deleted_at is Some {
                MergePlan::SkipIt
            } else if (last matches Some(l) && text_lt(l, loc.updated_at) && text_lt(
                l,
                si.updated_at,
            ) && loc.updated_at != si.updated_at) {
                MergePlan::MakeConflict
            } else if text_lt(loc.updated_at, si.updated_at) {
                MergePlan::Overwrite
            } else {
                MergePlan::SkipIt
            }
        },
        None => {
            if si.deleted_at is Some {
                MergePlan::SkipIt
            } else {
                MergePlan::InsertNew
            }
        },
    }
}

/// A remote item that does not exist locally and is not a tombstone is
/// inserted: importing into an empty store reproduces the record.
pub proof fn lemma_fresh_item_imported(si: SyncItemV, last: Option<Seq<char>>)
    requires
        si.deleted_at is None,
    ensures
        merge_plan(None, si, last) == MergePlan::InsertNew,
{
}

/// Re-importing a record the local side already mirrors (same update
/// stamp, tombstones agreeing) changes nothing: repeated import of the
/// same file creates no duplicates.
pub proof fn lemma_reimport_identical_skips(loc: ItemV, si: SyncItemV, last: Option<Seq<char>>)
    requires
        loc.updated_at == si.updated_at,
        si.deleted_at is Some ==> loc.deleted_at is Some,
    ensures
        merge_plan(Some(loc), si, last) == MergePlan::SkipIt,
{
    crate::textorder::lemma_text_lt_trichotomy(loc.updated_at, si.updated_at);
}

/// Two edits of the same item, both strictly after the last-sync
/// watermark and with different stamps, are a conflict: the remote copy
/// is duplicated, so neither device's edit is silently discarded.
pub proof fn lemma_concurrent_edits_conflict(loc: ItemV, si: SyncItemV, l: Seq<char>)
    requires
        si.deleted_at is None,
        text_lt(l, loc.updated_at),
        text_lt(l, si.updated_at),
        loc.updated_at != si.updated_at,
    ensures
        merge_plan(Some(loc), si, Some(l)) == MergePlan::MakeConflict,
{
}

/// A remote tombstone always lands on a live local item, whatever the
/// timestamps: deletions propagate.
pub proof fn lemma_tombstone_propagates(loc: ItemV, si: SyncItemV, last: Option<Seq<char>>)
    requires
        si.deleted_at is Some,
        loc.deleted_at is None,
    ensures
        merge_plan(Some(loc), si, last) == MergePlan::ApplyTombstone,
{
}

/// A tombstoned row never appears in the live listing filter.
pub proof fn lemma_tombstoned_not_listed(items: Seq<ItemV>, vault_id: i64, it: ItemV)
    requires
        it.deleted_at is Some,
    ensures
        !items.filter((|x: ItemV| live_in_vault(x, vault_id))).contains(it),
{
    let f = items.filter((|x: ItemV| live_in_vault(x, vault_id)));
    if f.contains(it) {
        let j = choose|j: int| 0 <= j < f.len() && f[j] == it;
        items.lemma_filter_pred((|x: ItemV| live_in_vault(x, vault_id)), j);
    }
}

/// Does the local store already mirror this remote item: same update
/// stamp, and tombstoned wherever the remote is?
pub open spec fn item_mirrored(s: crate::vault::StoreV, si: SyncItemV) -> bool {
    &&& has_item_uuid(s.items, si.uuid)
    &&& ({
        let it = item_by_uuid(s.items, si.uuid);
        &&& it.updated_at == si.updated_at
        &&& (si.deleted_at is Some ==> it.deleted_at is Some)
    })
}

/// Does the local store already mirror this remote vault: present by
/// uuid, same update stamp, tombstoned wherever the remote is, and every
/// remote item mirrored?
pub open spec fn vault_mirrored(s: crate::vault::StoreV, sv: SyncVaultV) -> bool {
    &&& has_vault_uuid(s.vaults, sv.uuid)
    &&& ({
        let v = vault_by_uuid(s.vaults, sv.uuid);
        &&& (sv.deleted_at is Some ==> v.deleted_at is Some)
        &&& v.updated_at == Some(sv.updated_at)
    })
    &&& forall|ii: int| 0 <= ii < sv.items.len() ==> item_mirrored(s, #[trigger] sv.items[ii])
}

/// Does the local store already mirror the whole exchange file? Importing
/// such a file changes no row: re-import of identical data is a no-op.
pub open spec fn file_mirrored(s: crate::vault::StoreV, fv: Seq<SyncVaultV>) -> bool {
    forall|q: int| 0 <= q < fv.len() ==> vault_mirrored(s, #[trigger] fv[q])
}

/// Import a single exchange item into the given local vault, following
/// [`merge_plan`]. Incoming plaintext is re-encrypted under `key`.
pub fn import_item(
    store: &mut VaultStore,
    vault_id: i64,
    sync_item: &SyncItem,
    key: &[u8],
    last_sync_at: &Option<String>,
) -> (r: Result<ImportItemResult, VaultError>)
    requires
        old(store)@.wf(),
        key@.len() == 32,
        old(store)@.next_item_id < i64::MAX,
    ensures
        final(store)@.wf(),
        r matches Err(e) ==> final(store)@ == old(store)@ && (e == VaultError::CryptoFailure || e
            == VaultError::DuplicateUuid),
        ({
            let is0 = old(store)@.items;
            let si = sync_item@;
            let last = opt_view(*last_sync_at);
            let local = if has_item_uuid(is0, si.uuid) {
                Some(item_by_uuid(is0, si.uuid))
            } else {
                Option::<ItemV>::None
            };
            let plan = merge_plan(local, si, last);
            &&& ((plan == MergePlan::ApplyTombstone || plan == MergePlan::SkipIt) ==> r is Ok)
            &&& ((plan == MergePlan::Overwrite || plan == MergePlan::InsertNew) && sealable(
                encode_utf8(si.content),
            ) ==> r is Ok)
            &&& (plan == MergePlan::MakeConflict && sealable(encode_utf8(si.content)) ==> (r
                is Ok || r == Err::<ImportItemResult, VaultError>(VaultError::DuplicateUuid)))
        }),
        r matches Ok(res) ==> ({
            let is0 = old(store)@.items;
            let si = sync_item@;
            let last = opt_view(*last_sync_at);
            let local = if has_item_uuid(is0, si.uuid) {
                Some(item_by_uuid(is0, si.uuid))
            } else {
                Option::<ItemV>::None
            };
            &&& final(store)@.vaults == old(store)@.vaults
            &&& final(store)@.settings == old(store)@.settings
            &&& final(store)@.next_vault_id == old(store)@.next_vault_id
            &&& match merge_plan(local, si, last) {
                MergePlan::ApplyTombstone => {
                    &&& res is Deleted
                    &&& final(store)@.items == is0.update(
                        item_idx_by_uuid(is0, si.uuid),
                        (ItemV {
                            deleted_at: si.deleted_at,
                            updated_at: si.updated_at,
                            ..local->0
                        }),
                    )
                    &&& final(store)@.next_item_id == old(store)@.next_item_id
                },
                MergePlan::SkipIt => {
                    &&& res is Skipped
                    &&& final(store)@.items == is0
                    &&& final(store)@.next_item_id == old(store)@.next_item_id
                },
                MergePlan::MakeConflict => ({
                    let ni = final(store)@.items.last();
                    &&& res matches ImportItemResult::Conflict(t) && t@ == si.title
                    &&& final(store)@.items == is0.push(ni)
                    &&& ni.id == old(store)@.next_item_id
                    &&& ni.vault_id == vault_id
                    &&& ni.title == si.title + " [Conflict]"@
                    &&& blob_plaintext(key@, ni.content) == Some(si.content)
                    &&& ni.created_at == si.created_at
                    &&& ni.updated_at == si.updated_at
                    &&& ni.image == si.image
                    &&& ni.summary == si.summary
                    &&& ni.sort_order == si.sort_order
                    &&& ni.uuid is Some
                    &&& !has_item_uuid(is0, ni.uuid->0)
                    &&& ni.deleted_at is None
                    &&& final(store)@.next_item_id == old(store)@.next_item_id + 1
                }),
                MergePlan::Overwrite => ({
                    let idx = item_idx_by_uuid(is0, si.uuid);
                    let ni = final(store)@.items[idx];
                    &&& res is Updated
                    &&& final(store)@.items == is0.update(idx, ni)
                    &&& ni == (ItemV {
                        title: si.title,
                        content: ni.content,
                        updated_at: si.updated_at,
                        image: si.image,
                        summary: si.summary,
                        sort_order: si.sort_order,
                        ..local->0
                    })
                    &&& blob_plaintext(key@, ni.content) == Some(si.content)
                    &&& final(store)@.next_item_id == old(store)@.next_item_id
                }),
                MergePlan::InsertNew => ({
                    let ni = final(store)@.items.last();
                    &&& res is Imported
                    &&& final(store)@.items == is0.push(ni)
                    &&& ni.id == old(store)@.next_item_id
                    &&& ni.vault_id == vault_id
                    &&& ni.title == si.title
                    &&& blob_plaintext(key@, ni.content) == Some(si.content)
                    &&& ni.created_at == si.created_at
                    &&& ni.updated_at == si.updated_at
                    &&& ni.image == si.image
                    &&& ni.summary == si.summary
                    &&& ni.sort_order == si.sort_order
                    &&& ni.uuid == Some(si.uuid)
                    &&& ni.deleted_at is None
                    &&& final(store)@.next_item_id == old(store)@.next_item_id + 1
                }),
            }
        }),
{
    let ghost si = sync_item@;
    match find_item_index_by_uuid(&store.items, sync_item.uuid.as_str()) {
        Some(i) => {
            proof {
                lemma_item_uuid_idx(store@.items, i as int, si.uuid);
            }
            let local_deleted = store.items[i].deleted_at.is_some();
            if sync_item.deleted_at.is_some() {
                if !local_deleted {
                    let mut it = store.items.remove(i);
                    it.deleted_at = opt_str_clone(&sync_item.deleted_at);
                    it.updated_at = sync_item.updated_at.clone();
                    store.items.insert(i, it);
                    proof {
                        assert(store@.items =~= old(store)@.items.update(
                            i as int,
                            (ItemV {
                                deleted_at: si.deleted_at,
                                updated_at: si.updated_at,
                                ..item_by_uuid(old(store)@.items, si.uuid)
                            }),
                        ));
                        lemma_wf_same_idents(old(store)@, store@);
                    }
                    Ok(ImportItemResult::Deleted)
                } else {
                    Ok(ImportItemResult::Skipped)
                }
            } else {
                let is_conflict = match last_sync_at {
                    Some(l) => str_lt(l.as_str(), store.items[i].updated_at.as_str()) && str_lt(
                        l.as_str(),
                        sync_item.updated_at.as_str(),
                    ) && !str_eq(store.items[i].updated_at.as_str(), sync_item.updated_at.as_str()),
                    None => false,
                };
                if is_conflict {
                    let enc = match encrypt_content(key, sync_item.content.as_str()) {
                        Ok(e) => e,
                        Err(_) => {
                            return Err(VaultError::CryptoFailure);
                        },
                    };
                    let cuuid = crate::fresh::generate_uuid();
                    match find_item_index_by_uuid(&store.items, cuuid.as_str()) {
                        Some(_) => {
                            return Err(VaultError::DuplicateUuid);
                        },
                        None => {},
                    }
                    let id = store.next_item_id;
                    let it = VaultItem {
                        id,
                        vault_id,
                        title: sync_item.title.clone().concat(" [Conflict]"),
                        content: enc,
                        created_at: sync_item.created_at.clone(),
                        updated_at: sync_item.updated_at.clone(),
                        image: opt_str_clone(&sync_item.image),
                        summary: opt_str_clone(&sync_item.summary),
                        sort_order: sync_item.sort_order,
                        uuid: Some(cuuid),
                        deleted_at: None,
                    };
                    let ghost ni = it@;
                    store.items.push(it);
                    store.next_item_id = id + 1;
                    proof {
                        assert(store@.items =~= old(store)@.items.push(ni));
                        lemma_wf_item_push(old(store)@, store@, ni);
                    }
                    Ok(ImportItemResult::Conflict(sync_item.title.clone()))
                } else {
                    let is_newer = str_lt(
                        store.items[i].updated_at.as_str(),
                        sync_item.updated_at.as_str(),
                    );
                    if is_newer {
                        let enc = match encrypt_content(key, sync_item.content.as_str()) {
                            Ok(e) => e,
                            Err(_) => {
                                return Err(VaultError::CryptoFailure);
                            },
                        };
                        let ghost encv = enc@;
                        let mut it = store.items.remove(i);
                        it.title = sync_item.title.clone();
                        it.content = enc;
                        it.updated_at = sync_item.updated_at.clone();
                        it.image = opt_str_clone(&sync_item.image);
                        it.summary = opt_str_clone(&sync_item.summary);
                        it.sort_order = sync_item.sort_order;
                        store.items.insert(i, it);
                        proof {
                            assert(store@.items =~= old(store)@.items.update(
                                i as int,
                                (ItemV {
                                    title: si.title,
                                    content: encv,
                                    updated_at: si.updated_at,
                                    image: si.image,
                                    summary: si.summary,
                                    sort_order: si.sort_order,
                                    ..item_by_uuid(old(store)@.items, si.uuid)
                                }),
                            ));
                            lemma_wf_same_idents(old(store)@, store@);
                        }
                        Ok(ImportItemResult::Updated)
                    } else {
                        Ok(ImportItemResult::Skipped)
                    }
                }
            }
        },
        None => {
            if sync_item.deleted_at.is_some() {
                Ok(ImportItemResult::Skipped)
            } else {
                let enc = match encrypt_content(key, sync_item.content.as_str()) {
                    Ok(e) => e,
                    Err(_) => {
                        return Err(VaultError::CryptoFailure);
                    },
                };
                let id = store.next_item_id;
                let it = VaultItem {
                    id,
                    vault_id,
                    title: sync_item.title.clone(),
                    content: enc,
                    created_at: sync_item.created_at.clone(),
                    updated_at: sync_item.updated_at.clone(),
                    image: opt_str_clone(&sync_item.image),
                    summary: opt_str_clone(&sync_item.summary),
                    sort_order: sync_item.sort_order,
                    uuid: Some(sync_item.uuid.clone()),
                    deleted_at: None,
                };
                let ghost ni = it@;
                store.items.push(it);
                store.next_item_id = id + 1;
                proof {
                    assert(store@.items =~= old(store)@.items.push(ni));
                    lemma_wf_item_push(old(store)@, store@, ni);
                }
                Ok(ImportItemResult::Imported)
            }
        },
    }
}

/// The abstract values of the exchange file's vaults.
pub open spec fn sync_vaults_view(s: Seq<SyncVault>) -> Seq<SyncVaultV> {
    Seq::new(s.len(), |i: int| s[i]@)
}

/// The names in a list of strings.
pub open spec fn strings_view(s: Seq<String>) -> Seq<Seq<char>> {
    Seq::new(s.len(), |i: int| s[i]@)
}

/// Record a completed exchange: the last-sync watermark and the device
/// that produced the file last.
pub fn record_sync_success(store: &mut VaultStore, now: &str, device_name: &str)
    requires
        old(store)@.wf(),
    ensures
        final(store)@.wf(),
        setting_val(final(store)@.settings, "last_sync_at"@) == Some(now@),
        setting_val(final(store)@.settings, "last_sync_device"@) == Some(device_name@),
        forall|k: Seq<char>|
            k != "last_sync_at"@ && k != "last_sync_device"@ ==> setting_val(
                final(store)@.settings,
                k,
            ) == setting_val(old(store)@.settings, k),
        final(store)@.vaults == old(store)@.vaults,
        final(store)@.items == old(store)@.items,
        final(store)@.next_vault_id == old(store)@.next_vault_id,
        final(store)@.next_item_id == old(store)@.next_item_id,
{
    SyncSettings::set(store, "last_sync_at", now);
    SyncSettings::set(store, "last_sync_device", device_name);
    proof {
        broadcast use vstd::string::group_string_axioms;

        reveal_strlit("last_sync_at");
        reveal_strlit("last_sync_device");
        assert("last_sync_at"@.len() != "last_sync_device"@.len());
    }
}

/// The abstract values of an `(id, name)` pair list.
pub open spec fn pairs_view(s: Seq<(i64, String)>) -> Seq<(i64, Seq<char>)> {
    Seq::new(s.len(), |i: int| (s[i].0, s[i].1@))
}

/// The password-protected vaults a key must be supplied for, as
/// `(local id, name)` pairs: exactly the protected members of the live
/// listing, in listing order.
pub fn get_locked_vaults(store: &VaultStore) -> (r: Vec<(i64, String)>)
    requires
        store@.wf(),
    ensures
        exists|lv: Seq<VaultV>|
            {
                &&& #[trigger] lv.to_multiset() == store@.vaults.filter(
                    (|v: VaultV| v.deleted_at is None),
                ).to_multiset()
                &&& sorted_by(lv, (|a: VaultV, b: VaultV| crate::vault::vault_order_le(a, b)))
                &&& pairs_view(r@) == lv.filter((|v: VaultV| v.has_password)).map_values(
                    (|v: VaultV| (v.id, v.name)),
                )
            },
{
    let vaults = Vault::list(store);
    let ghost lv = vaults_view(vaults@);
    let ghost pred = (|v: VaultV| v.has_password);
    let ghost nm = (|v: VaultV| (v.id, v.name));
    let mut out: Vec<(i64, String)> = Vec::new();
    let mut i: usize = 0;
    while i < vaults.len()
        invariant
            i <= vaults@.len(),
            lv == vaults_view(vaults@),
            pred == (|v: VaultV| v.has_password),
            nm == (|v: VaultV| (v.id, v.name)),
            pairs_view(out@) =~= lv.take(i as int).filter(pred).map_values(nm),
        decreases vaults@.len() - i,
    {
        proof {
            reveal(Seq::filter);
            assert(lv.take(i + 1 as int).drop_last() =~= lv.take(i as int));
            assert(lv.take(i + 1 as int).last() == lv[i as int]);
        }
        let ghost prev = out@;
        let v = &vaults[i];
        if v.has_password {
            out.push((v.id, v.name.clone()));
        }
        proof {
            let pc = lv.take(i as int).filter(pred);
            let pp = lv.take(i + 1 as int).filter(pred);
            if pred(lv[i as int]) {
                assert(pp =~= pc.push(lv[i as int]));
            } else {
                assert(pp =~= pc);
            }
            assert(pairs_view(prev) =~= pc.map_values(nm));
            assert(pairs_view(prev).len() == prev.len());
            assert(pairs_view(out@).len() == pp.map_values(nm).len());
            assert forall|j: int| 0 <= j < pp.len() implies #[trigger] pairs_view(out@)[j]
                == #[trigger] pp.map_values(nm)[j] by {
                if j < pc.len() {
                    assert(out@[j] == prev[j]);
                    assert(pairs_view(prev)[j] == pc.map_values(nm)[j]);
                    assert(pp[j] == pc[j]);
                } else {
                    assert(pp[j] == lv[i as int]);
                }
            }
            assert(pairs_view(out@) =~= pp.map_values(nm));
        }
        i = i + 1;
    }
    proof {
        assert(lv.take(vaults@.len() as int) =~= lv);
    }
    out
}

/// What this device knows about the shared folder and the remote file:
/// the remote has changes exactly when its export stamp is later than the
/// local last-sync watermark (or nothing was ever synced).
pub fn check_sync_status(
    store: &VaultStore,
    remote_exists: bool,
    remote: Option<&SyncFile>,
    fallback_device_name: &str,
) -> (r: SyncStatus)
    requires
        store@.wf(),
    ensures
        r.sync_enabled == (setting_val(store@.settings, "sync_folder"@) is Some),
        opt_view(r.sync_folder) == setting_val(store@.settings, "sync_folder"@),
        r.device_name@ == (match setting_val(store@.settings, "device_name"@) {
            Some(v) => v,
            None => fallback_device_name@,
        }),
        opt_view(r.last_sync_at) == setting_val(store@.settings, "last_sync_at"@),
        opt_view(r.last_sync_device) == setting_val(store@.settings, "last_sync_device"@),
        r.remote_file_exists == remote_exists,
        match remote {
            Some(f) => {
                &&& opt_view(r.remote_exported_at) == Some(f.exported_at@)
                &&& opt_view(r.remote_device_name) == Some(f.device_name@)
                &&& r.has_changes == (match setting_val(store@.settings, "last_sync_at"@) {
                    Some(l) => text_lt(l, f.exported_at@),
                    None => true,
                })
            },
            None => {
                &&& r.remote_exported_at is None
                &&& r.remote_device_name is None
                &&& !r.has_changes
            },
        },
{
    let sync_folder = get_sync_folder(store);
    let device_name = device_name_or(store, fallback_device_name);
    let last_sync_at = SyncSettings::get(store, "last_sync_at");
    let last_sync_device = SyncSettings::get(store, "last_sync_device");
    let (remote_exported_at, remote_device_name, has_changes): (
        Option<String>,
        Option<String>,
        bool,
    ) = match remote {
        Some(f) => {
            let changed = match &last_sync_at {
                Some(l) => str_lt(l.as_str(), f.exported_at.as_str()),
                None => true,
            };
            (Some(f.exported_at.clone()), Some(f.device_name.clone()), changed)
        },
        None => (None, None, false),
    };
    SyncStatus {
        sync_enabled: sync_folder.is_some(),
        sync_folder,
        device_name,
        last_sync_at,
        last_sync_device,
        remote_file_exists: remote_exists,
        remote_exported_at,
        remote_device_name,
        has_changes,
    }
}

/// Does a vault of this name in the remote file need a password to
/// import: it is protected, live, and either new here or locally
/// protected too.
pub open spec fn needs_password(sv: SyncVaultV, vaults: Seq<VaultV>) -> bool {
    sv.has_password && sv.deleted_at is None && (!has_vault_uuid(vaults, sv.uuid) || vault_by_uuid(
        vaults,
        sv.uuid,
    ).has_password)
}

/// The number of items the remote file carries.
pub open spec fn sum_items(vs: Seq<SyncVaultV>) -> int
    decreases vs.len(),
{
    if vs.len() == 0 {
        0int
    } else {
        sum_items(vs.drop_last()) + vs.last().items.len()
    }
}

proof fn lemma_sum_items_nonneg(vs: Seq<SyncVaultV>)
    ensures
        sum_items(vs) >= 0,
    decreases vs.len(),
{
    if vs.len() > 0 {
        lemma_sum_items_nonneg(vs.drop_last());
    }
}

proof fn lemma_sum_items_take_le(vs: Seq<SyncVaultV>, i: int)
    requires
        0 <= i <= vs.len(),
    ensures
        sum_items(vs.take(i)) <= sum_items(vs),
    decreases vs.len() - i,
{
    if i < vs.len() {
        lemma_sum_items_take_le(vs, i + 1);
        assert(vs.take(i + 1).drop_last() =~= vs.take(i));
        assert(vs.take(i + 1).last().items.len() >= 0);
    } else {
        assert(vs.take(i) =~= vs);
    }
}

/// Summarise the remote file before an import: counts of live vaults,
/// items and captures, and the names of vaults that will need a password.
pub fn sync_preview_of(file: &SyncFile, store: &VaultStore) -> (r: SyncPreview)
    requires
        store@.wf(),
        sum_items(sync_vaults_view(file.vaults@)) < usize::MAX,
    ensures
        r.device_name@ == file.device_name@,
        r.exported_at@ == file.exported_at@,
        r.vault_count == sync_vaults_view(file.vaults@).filter(
            (|sv: SyncVaultV| sv.deleted_at is None),
        ).len(),
        r.item_count == sum_items(sync_vaults_view(file.vaults@)),
        r.capture_count == file.captures@.len(),
        strings_view(r.vaults_needing_password@) == sync_vaults_view(file.vaults@).filter(
            (|sv: SyncVaultV| needs_password(sv, store@.vaults)),
        ).map_values((|sv: SyncVaultV| sv.name)),
{
    let ghost fv = sync_vaults_view(file.vaults@);
    let ghost pred = (|sv: SyncVaultV| needs_password(sv, store@.vaults));
    let ghost nm = (|sv: SyncVaultV| sv.name);
    let mut vault_count: usize = 0;
    let mut item_count: usize = 0;
    let mut needing: Vec<String> = Vec::new();
    let mut i: usize = 0;
    while i < file.vaults.len()
        invariant
            i <= file.vaults@.len(),
            store@.wf(),
            fv == sync_vaults_view(file.vaults@),
            sum_items(fv) < usize::MAX,
            vault_count == fv.take(i as int).filter(
                (|sv: SyncVaultV| sv.deleted_at is None),
            ).len(),
            item_count == sum_items(fv.take(i as int)),
            pred == (|sv: SyncVaultV| needs_password(sv, store@.vaults)),
            nm == (|sv: SyncVaultV| sv.name),
            strings_view(needing@) =~= fv.take(i as int).filter(pred).map_values(nm),
        decreases file.vaults@.len() - i,
    {
        proof {
            reveal(Seq::filter);
            assert(fv.take(i + 1 as int).drop_last() =~= fv.take(i as int));
            assert(fv.take(i + 1 as int).last() == fv[i as int]);
            lemma_sum_items_take_le(fv, i + 1);
            lemma_sum_items_nonneg(fv.take(i as int));
            fv.take(i as int).lemma_filter_len((|sv: SyncVaultV| sv.deleted_at is None));
        }
        let ghost prev = needing@;
        let sv = &file.vaults[i];
        if sv.deleted_at.is_none() {
            vault_count = vault_count + 1;
        }
        item_count = item_count + sv.items.len();
        let needs = if sv.has_password && sv.deleted_at.is_none() {
            match crate::vault::find_vault_index_by_uuid(&store.vaults, sv.uuid.as_str()) {
                Some(k) => {
                    proof {
                        crate::vault::lemma_vault_uuid_idx(store@.vaults, k as int, sv.uuid@);
                    }
                    store.vaults[k].has_password
                },
                None => true,
            }
        } else {
            false
        };
        if needs {
            needing.push(sv.name.clone());
        }
        proof {
            let pc = fv.take(i as int).filter(pred);
            let pp = fv.take(i + 1 as int).filter(pred);
            assert(needs == pred(fv[i as int]));
            if needs {
                assert(pp =~= pc.push(fv[i as int]));
            } else {
                assert(pp =~= pc);
            }
            assert(strings_view(prev) =~= pc.map_values(nm));
            assert(strings_view(prev).len() == prev.len());
            assert(strings_view(needing@).len() == pp.map_values(nm).len());
            assert forall|j: int| 0 <= j < pp.len() implies #[trigger] strings_view(needing@)[j]
                == #[trigger] pp.map_values(nm)[j] by {
                if j < pc.len() {
                    assert(needing@[j] == prev[j]);
                    assert(strings_view(prev)[j] == pc.map_values(nm)[j]);
                    assert(pp[j] == pc[j]);
                } else {
                    assert(pp[j] == fv[i as int]);
                }
            }
            assert(strings_view(needing@) =~= pp.map_values(nm));
        }
        i = i + 1;
    }
    proof {
        assert(fv.take(file.vaults@.len() as int) =~= fv);
        assert(strings_view(needing@) =~= fv.filter(pred).map_values(nm));
    }
    SyncPreview {
        device_name: file.device_name.clone(),
        exported_at: file.exported_at.clone(),
        vault_count,
        item_count,
        capture_count: file.captures.len(),
        vaults_needing_password: needing,
    }
}

/// The abstract values of a key table, `(vault id, key bytes)`.
pub open spec fn keys_view(ps: Seq<(i64, Vec<u8>)>) -> Seq<(i64, Seq<u8>)> {
    Seq::new(ps.len(), |i: int| (ps[i].0, ps[i].1@))
}

/// The first key listed for this vault id, if any.
pub open spec fn key_lookup(ps: Seq<(i64, Seq<u8>)>, id: i64) -> Option<Seq<u8>>
    decreases ps.len(),
{
    if ps.len() == 0 {
        None
    } else if ps[0].0 == id {
        Some(ps[0].1)
    } else {
        key_lookup(ps.drop_first(), id)
    }
}

/// With no match among the first `i` entries, the lookup is decided by
/// the rest.
proof fn lemma_key_lookup_skip(ps: Seq<(i64, Seq<u8>)>, id: i64, i: int)
    requires
        0 <= i <= ps.len(),
        forall|j: int| 0 <= j < i ==> (#[trigger] ps[j]).0 != id,
    ensures
        key_lookup(ps, id) == key_lookup(ps.skip(i), id),
    decreases i,
{
    if i > 0 && ps.len() > 0 {
        assert(ps.drop_first().skip(i - 1) =~= ps.skip(i));
        lemma_key_lookup_skip(ps.drop_first(), id, i - 1);
    } else {
        assert(ps.skip(0) =~= ps);
    }
}

/// Find the first key supplied for this vault id.
fn lookup_key<'a>(passwords: &'a Vec<(i64, Vec<u8>)>, id: i64) -> (r: Option<&'a Vec<u8>>)
    ensures
        match r {
            Some(k) => key_lookup(keys_view(passwords@), id) == Some(k@),
            None => key_lookup(keys_view(passwords@), id) is None,
        },
{
    let ghost ps = keys_view(passwords@);
    let mut i: usize = 0;
    while i < passwords.len()
        invariant
            i <= passwords@.len(),
            ps == keys_view(passwords@),
            forall|j: int| 0 <= j < i ==> (#[trigger] ps[j]).0 != id,
        decreases passwords@.len() - i,
    {
        if passwords[i].0 == id {
            proof {
                lemma_key_lookup_skip(ps, id, i as int);
                assert(ps.skip(i as int)[0] == ps[i as int]);
            }
            return Some(&passwords[i].1);
        }
        i = i + 1;
    }
    proof {
        lemma_key_lookup_skip(ps, id, i as int);
        assert(ps.skip(i as int).len() == 0);
    }
    None
}

/// The key the export resolves for a vault: the caller-supplied key for a
/// protected vault, or the empty-password derivation for a passwordless
/// one (a convention preserved for backward compatibility, not a security
/// boundary).
pub open spec fn export_key(ps: Seq<(i64, Seq<u8>)>, v: VaultV) -> Seq<u8> {
    if v.has_password {
        match key_lookup(ps, v.id) {
            Some(k) => k,
            None => Seq::empty(),
        }
    } else {
        pbkdf2_sha256(
            encode_utf8(Seq::<char>::empty()),
            encode_utf8(dec_int(v.id as int)),
            100000,
        )
    }
}

/// Can the export resolve a key for this vault: it is passwordless, or a
/// 32-byte key was supplied for its id?
pub open spec fn vault_exportable(v: VaultV, ps: Seq<(i64, Seq<u8>)>) -> bool {
    !v.has_password || (key_lookup(ps, v.id) matches Some(k) && k.len() == 32)
}

/// Does the exchange file carry this vault: same name and creation stamp,
/// and the vault's own uuid where it has one?
pub open spec fn vault_exported(svs: Seq<SyncVaultV>, v: VaultV) -> bool {
    exists|i: int|
        0 <= i < svs.len() && ((#[trigger] svs[i]).name == v.name && svs[i].created_at
            == v.created_at && (v.uuid matches Some(u) ==> svs[i].uuid == u))
}

/// One skipped vault extends the skip-name list by exactly its name.
proof fn lemma_skip_list_step(
    sk1: Seq<String>,
    sk0: Seq<String>,
    lv: Seq<VaultV>,
    vi: int,
    ps: Seq<(i64, Seq<u8>)>,
)
    requires
        0 <= vi < lv.len(),
        sk1.len() == sk0.len() + 1,
        forall|j: int| 0 <= j < sk0.len() ==> #[trigger] sk1[j] == sk0[j],
        sk1[sk0.len() as int]@ == lv[vi].name,
        !vault_exportable(lv[vi], ps),
        strings_view(sk0) =~= lv.take(vi).filter(
            (|v: VaultV| !vault_exportable(v, ps)),
        ).map_values((|v: VaultV| v.name)),
    ensures
        strings_view(sk1) =~= lv.take(vi + 1).filter(
            (|v: VaultV| !vault_exportable(v, ps)),
        ).map_values((|v: VaultV| v.name)),
{
    let pred = (|v: VaultV| !vault_exportable(v, ps));
    let nm = (|v: VaultV| v.name);
    let pc = lv.take(vi).filter(pred);
    let pp = lv.take(vi + 1).filter(pred);
    reveal(Seq::filter);
    assert(lv.take(vi + 1).drop_last() =~= lv.take(vi));
    assert(lv.take(vi + 1).last() == lv[vi]);
    assert(pp =~= pc.push(lv[vi]));
    assert(strings_view(sk0).len() == sk0.len());
    assert forall|j: int| 0 <= j < pp.len() implies #[trigger] strings_view(sk1)[j]
        == #[trigger] pp.map_values(nm)[j] by {
        if j < pc.len() {
            assert(sk1[j] == sk0[j]);
            assert(strings_view(sk0)[j] == pc.map_values(nm)[j]);
            assert(pp[j] == pc[j]);
        } else {
            assert(pp[j] == lv[vi]);
        }
    }
    assert(strings_view(sk1) =~= pp.map_values(nm));
}

/// Do all items of every protected vault with a usable supplied key
/// decrypt under that key? Export fails exactly outside this condition.
pub open spec fn protected_vaults_open(s: crate::vault::StoreV, ps: Seq<(i64, Seq<u8>)>) -> bool {
    forall|j: int, i: int|
        0 <= j < s.vaults.len() && 0 <= i < s.items.len() && (#[trigger] s.vaults[j]).has_password
            && (#[trigger] s.items[i]).vault_id == s.vaults[j].id && key_lookup(
            ps,
            s.vaults[j].id,
        ) is Some && key_lookup(ps, s.vaults[j].id)->0.len() == 32 ==> blob_plaintext(
            key_lookup(ps, s.vaults[j].id)->0,
            s.items[i].content,
        ) is Some
}

/// Does this exchange item faithfully reflect some stored item of vault
/// `vid`, its content decrypted under `key` where the blob decrypts?
pub open spec fn export_item_sound(pre: crate::vault::StoreV, si: SyncItemV, vid: i64, key: Seq<u8>)
    -> bool {
    exists|it: ItemV|
        #[trigger] pre.items.contains(it) && {
            &&& it.vault_id == vid
            &&& (it.uuid matches Some(u) ==> si.uuid == u)
            &&& si.title == it.title
            &&& (blob_plaintext(key, it.content) matches Some(p) ==> si.content == p)
            &&& si.created_at == it.created_at
            &&& si.updated_at == it.updated_at
            &&& si.deleted_at == it.deleted_at
            &&& si.image == it.image
            &&& si.summary == it.summary
            &&& si.sort_order == it.sort_order
        }
}

/// Does this exchange vault faithfully reflect some stored vault, all its
/// exported items included?
pub open spec fn export_vault_sound(
    pre: crate::vault::StoreV,
    sv: SyncVaultV,
    ps: Seq<(i64, Seq<u8>)>,
) -> bool {
    exists|v: VaultV|
        #[trigger] pre.vaults.contains(v) && {
            &&& (v.uuid matches Some(u) ==> sv.uuid == u)
            &&& sv.name == v.name
            &&& sv.created_at == v.created_at
            &&& (v.updated_at matches Some(u) ==> sv.updated_at == u)
            &&& sv.deleted_at == v.deleted_at
            &&& sv.cover_image == v.cover_image
            &&& sv.has_password == v.has_password
            &&& (v.has_password ==> (key_lookup(ps, v.id) matches Some(k) && k.len() == 32))
            &&& sv.items.len() == pre.items.filter((|it: ItemV| in_vault(it, v.id))).len()
            &&& forall|ii: int|
                0 <= ii < sv.items.len() ==> export_item_sound(
                    pre,
                    #[trigger] sv.items[ii],
                    v.id,
                    export_key(ps, v),
                )
        }
}

/// Export the whole store into one exchange file: every vault whose key
/// can be resolved, tombstones included so deletions propagate, items
/// decrypted into plaintext. Vaults without a usable key are skipped and
/// named in the result, never failing the rest.
pub fn sync_export(
    store: &mut VaultStore,
    passwords: &Vec<(i64, Vec<u8>)>,
    fallback_device_name: &str,
    captures: Vec<SyncCapture>,
    now: &str,
) -> (r: Result<(SyncFile, SyncExportResult), VaultError>)
    requires
        old(store)@.wf(),
    ensures
        final(store)@.wf(),
        final(store)@.vaults == old(store)@.vaults,
        final(store)@.items == old(store)@.items,
        final(store)@.next_vault_id == old(store)@.next_vault_id,
        final(store)@.next_item_id == old(store)@.next_item_id,
        forall|k: Seq<char>|
            k != "device_id"@ ==> setting_val(final(store)@.settings, k) == setting_val(
                old(store)@.settings,
                k,
            ),
        r matches Err(e) ==> e == VaultError::CryptoFailure || e == VaultError::InvalidCiphertext,
        protected_vaults_open(old(store)@, keys_view(passwords@)) ==> r is Ok,
        r matches Ok(out) ==> ({
            let file = out.0;
            let res = out.1;
            &&& file.format_version@ == "1.0"@
            &&& file.exported_at@ == now@
            &&& file.device_name@ == (match setting_val(old(store)@.settings, "device_name"@) {
                Some(v) => v,
                None => fallback_device_name@,
            })
            &&& setting_val(final(store)@.settings, "device_id"@) == Some(file.device_id@)
            &&& file.captures == captures
            &&& res.exported_vaults == file.vaults@.len()
            &&& res.exported_captures == file.captures@.len()
            &&& forall|vi: int|
                0 <= vi < file.vaults@.len() ==> export_vault_sound(
                    old(store)@,
                    #[trigger] sync_vaults_view(file.vaults@)[vi],
                    keys_view(passwords@),
                )
            &&& forall|j: int|
                0 <= j < old(store)@.vaults.len() ==> (vault_exportable(
                    #[trigger] old(store)@.vaults[j],
                    keys_view(passwords@),
                ) ==> vault_exported(sync_vaults_view(file.vaults@), old(store)@.vaults[j]))
            &&& exists|lv: Seq<VaultV>|
                {
                    &&& #[trigger] lv.to_multiset() == old(store)@.vaults.to_multiset()
                    &&& sorted_by(lv, (|a: VaultV, b: VaultV| crate::vault::vault_order_le(a, b)))
                    &&& strings_view(res.skipped_vaults@) == lv.filter(
                        (|v: VaultV| !vault_exportable(v, keys_view(passwords@))),
                    ).map_values((|v: VaultV| v.name))
                }
        }),
{
    let ghost pre = old(store)@;
    let ghost ps = keys_view(passwords@);
    proof {
        broadcast use vstd::string::group_string_axioms;

        reveal_strlit("device_id");
        reveal_strlit("device_name");
        assert("device_id"@.len() != "device_name"@.len());
    }
    let device_id = get_or_create_device_id(store);
    let device_name = device_name_or(store, fallback_device_name);
    let vaults = Vault::list_all_for_sync(store);
    let ghost lv = vaults_view(vaults@);
    let ghost not_exportable = (|v: VaultV| !vault_exportable(v, ps));
    let ghost vname = (|v: VaultV| v.name);
    let mut sync_vaults: Vec<SyncVault> = Vec::new();
    let mut skipped_vaults: Vec<String> = Vec::new();
    let mut warnings: Vec<String> = Vec::new();
    let mut exported_items: usize = 0;
    let mut vi: usize = 0;
    while vi < vaults.len()
        invariant
            vi <= vaults@.len(),
            pre == old(store)@,
            pre.wf(),
            store@.wf(),
            store@.vaults == pre.vaults,
            store@.items == pre.items,
            lv == vaults_view(vaults@),
            lv.to_multiset() == pre.vaults.to_multiset(),
            ps == keys_view(passwords@),
            store@.next_vault_id == pre.next_vault_id,
            store@.next_item_id == pre.next_item_id,
            setting_val(store@.settings, "device_id"@) == Some(device_id@),
            forall|k: Seq<char>|
                k != "device_id"@ ==> setting_val(store@.settings, k) == setting_val(
                    pre.settings,
                    k,
                ),
            device_name@ == (match setting_val(pre.settings, "device_name"@) {
                Some(v) => v,
                None => fallback_device_name@,
            }),

            forall|j: int|
                0 <= j < sync_vaults@.len() ==> export_vault_sound(
                    pre,
                    #[trigger] sync_vaults_view(sync_vaults@)[j],
                    ps,
                ),
            forall|q: int|
                0 <= q < vi ==> (vault_exportable(#[trigger] lv[q], ps) ==> vault_exported(
                    sync_vaults_view(sync_vaults@),
                    lv[q],
                )),
            not_exportable == (|v: VaultV| !vault_exportable(v, ps)),
            vname == (|v: VaultV| v.name),
            sorted_by(lv, (|a: VaultV, b: VaultV| crate::vault::vault_order_le(a, b))),
            strings_view(skipped_vaults@) =~= lv.take(vi as int).filter(not_exportable).map_values(
                vname,
            ),
        decreases vaults@.len() - vi,
    {
        let ghost prev_sv = sync_vaults@;
        let v = &vaults[vi];
        proof {
            lv.to_multiset_ensures();
            pre.vaults.to_multiset_ensures();
            assert(lv.contains(lv[vi as int]));
            assert(lv.to_multiset().count(lv[vi as int]) > 0);
            assert(pre.vaults.contains(lv[vi as int]));
        }
        let vault_uuid: String = match &v.uuid {
            Some(u) => u.clone(),
            None => {
                warnings.push(
                    String::from_str("Vault '").concat(v.name.as_str()).concat(
                        "' has no UUID, generating one",
                    ),
                );
                crate::fresh::generate_uuid()
            },
        };
        let key: Vec<u8> = if v.has_password {
            match lookup_key(passwords, v.id) {
                Some(kv) => {
                    if kv.len() == 32 {
                        crate::vault::clone_bytes(kv)
                    } else {
                        let ghost prev_sk = skipped_vaults@;
                        skipped_vaults.push(v.name.clone());
                        warnings.push(
                            String::from_str("Skipped vault '").concat(v.name.as_str()).concat(
                                "': invalid key length",
                            ),
                        );
                        proof {
                            assert(!vault_exportable(lv[vi as int], ps));
                            lemma_skip_list_step(skipped_vaults@, prev_sk, lv, vi as int, ps);
                        }
                        vi = vi + 1;
                        continue;
                    }
                },
                None => {
                    let ghost prev_sk = skipped_vaults@;
                    skipped_vaults.push(v.name.clone());
                    warnings.push(
                        String::from_str("Skipped vault '").concat(v.name.as_str()).concat(
                            "': password required but not provided",
                        ),
                    );
                    proof {
                        assert(!vault_exportable(lv[vi as int], ps));
                        lemma_skip_list_step(skipped_vaults@, prev_sk, lv, vi as int, ps);
                    }
                    vi = vi + 1;
                    continue;
                },
            }
        } else {
            let salt = i64_to_string(v.id);
            let k = derive_key_from_password("", salt.as_str(), 100000);
            proof {
                broadcast use vstd::string::group_string_axioms;

                reveal_strlit("");
                assert(""@ =~= Seq::<char>::empty());
            }
            k
        };
        proof {
            assert(key@ == export_key(ps, lv[vi as int]));
            assert(key@.len() == 32);
        }
        let items = VaultItem::list_all_by_vault_for_sync(store, v.id);
        let ghost li = items_view(items@);
        let mut sync_items: Vec<SyncItem> = Vec::new();
        let mut ii: usize = 0;
        while ii < items.len()
            invariant
                ii <= items@.len(),
                pre == old(store)@,
                pre.wf(),
                store@.wf(),
                store@.vaults == pre.vaults,
                store@.items == pre.items,
                li == items_view(items@),
                li.to_multiset() == pre.items.filter(
                    (|it: ItemV| in_vault(it, lv[vi as int].id)),
                ).to_multiset(),
                store@.next_vault_id == pre.next_vault_id,
                store@.next_item_id == pre.next_item_id,
                setting_val(store@.settings, "device_id"@) == Some(device_id@),
                forall|k: Seq<char>|
                    k != "device_id"@ ==> setting_val(store@.settings, k) == setting_val(
                        pre.settings,
                        k,
                    ),
                device_name@ == (match setting_val(pre.settings, "device_name"@) {
                    Some(v) => v,
                    None => fallback_device_name@,
                }),

                vi < lv.len(),
                v@ == lv[vi as int],
                lv.to_multiset() == pre.vaults.to_multiset(),
                ps == keys_view(passwords@),
                sync_items@.len() == ii,
                key@ == export_key(ps, lv[vi as int]),
                key@.len() == 32,
                lv[vi as int].has_password ==> key_lookup(ps, lv[vi as int].id) == Some(key@),
                forall|j: int|
                    0 <= j < sync_items@.len() ==> export_item_sound(
                        pre,
                        #[trigger] sync_items_view(sync_items@)[j],
                        lv[vi as int].id,
                        export_key(ps, lv[vi as int]),
                    ),
            decreases items@.len() - ii,
        {
            let ghost prev_si = sync_items@;
            let it = &items[ii];
            proof {
                li.to_multiset_ensures();
                let f = pre.items.filter((|x: ItemV| in_vault(x, lv[vi as int].id)));
                f.to_multiset_ensures();
                assert(li.contains(li[ii as int]));
                assert(li.to_multiset().count(li[ii as int]) > 0);
                assert(f.contains(li[ii as int]));
                let w = choose|w: int| 0 <= w < f.len() && f[w] == li[ii as int];
                lemma_filter_subset(pre.items, (|x: ItemV| in_vault(x, lv[vi as int].id)), w);
                pre.items.lemma_filter_pred((|x: ItemV| in_vault(x, lv[vi as int].id)), w);
                assert(pre.items.contains(li[ii as int]));
                assert(li[ii as int].vault_id == lv[vi as int].id);
            }
            let item_uuid: String = match &it.uuid {
                Some(u) => u.clone(),
                None => {
                    warnings.push(
                        String::from_str("Item '").concat(it.title.as_str()).concat(
                            "' has no UUID, generating one",
                        ),
                    );
                    crate::fresh::generate_uuid()
                },
            };
            let content: String = if v.has_password {
                match decrypt_content(key.as_slice(), it.content.as_slice()) {
                    Ok(c) => c,
                    Err(e) => {
                        proof {
                            // a protected vault with a usable key holds an
                            // item that does not decrypt
                            lv.to_multiset_ensures();
                            pre.vaults.to_multiset_ensures();
                            assert(lv.contains(lv[vi as int]));
                            assert(lv.to_multiset().count(lv[vi as int]) > 0);
                            assert(pre.vaults.contains(lv[vi as int]));
                            let vj = choose|vj: int|
                                0 <= vj < pre.vaults.len() && pre.vaults[vj] == lv[vi as int];
                            let ik = choose|ik: int|
                                0 <= ik < pre.items.len() && #[trigger] pre.items[ik] == li[ii
                                    as int];
                            assert(pre.items[ik].vault_id == pre.vaults[vj].id);
                            assert(blob_plaintext(key@, pre.items[ik].content) is None);
                            assert(!protected_vaults_open(pre, ps));
                        }
                        return Err(e);
                    },
                }
            } else {
                match decrypt_content(key.as_slice(), it.content.as_slice()) {
                    Ok(c) => c,
                    Err(_) => string_from_utf8_lossy(it.content.as_slice()),
                }
            };
            sync_items.push(SyncItem {
                uuid: item_uuid,
                title: it.title.clone(),
                content,
                created_at: it.created_at.clone(),
                updated_at: it.updated_at.clone(),
                deleted_at: opt_str_clone(&it.deleted_at),
                image: opt_str_clone(&it.image),
                summary: opt_str_clone(&it.summary),
                sort_order: it.sort_order,
            });
            exported_items = if exported_items < usize::MAX {
                exported_items + 1
            } else {
                exported_items
            };
            proof {
                let nsi = sync_items_view(sync_items@)[prev_si.len() as int];
                assert(export_item_sound(pre, nsi, lv[vi as int].id, export_key(ps, lv[vi as int])));
                assert forall|j: int| 0 <= j < prev_si.len() implies #[trigger] sync_items_view(
                    sync_items@,
                )[j] == sync_items_view(prev_si)[j] by {
                    assert(sync_items@[j] == prev_si[j]);
                }
            }
            ii = ii + 1;
        }
        let ghost n_items = sync_items@.len();
        let ghost li_snapshot = li;
        sync_vaults.push(SyncVault {
            uuid: vault_uuid,
            name: v.name.clone(),
            created_at: v.created_at.clone(),
            updated_at: match &v.updated_at {
                Some(u) => u.clone(),
                None => String::from_str(now),
            },
            deleted_at: opt_str_clone(&v.deleted_at),
            cover_image: opt_str_clone(&v.cover_image),
            has_password: v.has_password,
            items: sync_items,
        });
        proof {
            let nsv = sync_vaults_view(sync_vaults@)[prev_sv.len() as int];
            // the pushed vault carries exactly the items listed for it
            assert(nsv.items.len() == n_items);
            assert(n_items == li_snapshot.len());
            li_snapshot.to_multiset_ensures();
            pre.items.filter((|it: ItemV| in_vault(it, lv[vi as int].id))).to_multiset_ensures();
            assert(nsv.items.len() == pre.items.filter(
                (|it: ItemV| in_vault(it, lv[vi as int].id)),
            ).len());
            assert(export_vault_sound(pre, nsv, ps));
            assert forall|j: int| 0 <= j < prev_sv.len() implies #[trigger] sync_vaults_view(
                sync_vaults@,
            )[j] == sync_vaults_view(prev_sv)[j] by {
                assert(sync_vaults@[j] == prev_sv[j]);
            }
            assert(nsv.name == lv[vi as int].name && nsv.created_at == lv[vi as int].created_at
                && (lv[vi as int].uuid matches Some(u) ==> nsv.uuid == u));
            assert(vault_exported(sync_vaults_view(sync_vaults@), lv[vi as int]));
            // this vault was not skipped
            assert(vault_exportable(lv[vi as int], ps));
            assert(strings_view(skipped_vaults@) =~= lv.take(vi + 1 as int).filter(
                not_exportable,
            ).map_values(vname)) by {
                reveal(Seq::filter);
                assert(lv.take(vi + 1 as int).drop_last() =~= lv.take(vi as int));
                assert(lv.take(vi + 1 as int).last() == lv[vi as int]);
            }
            assert forall|q: int| 0 <= q < vi + 1 implies (vault_exportable(
                #[trigger] lv[q],
                ps,
            ) ==> vault_exported(sync_vaults_view(sync_vaults@), lv[q])) by {
                if q < vi && vault_exportable(lv[q], ps) {
                    let pv = sync_vaults_view(prev_sv);
                    let i = choose|i: int|
                        0 <= i < pv.len() && ((#[trigger] pv[i]).name == lv[q].name
                            && pv[i].created_at == lv[q].created_at && (lv[q].uuid matches Some(u)
                            ==> pv[i].uuid == u));
                    assert(sync_vaults_view(sync_vaults@)[i] == pv[i]);
                }
            }
        }
        vi = vi + 1;
    }
    proof {
        assert(lv.take(vaults@.len() as int) =~= lv);
        lv.to_multiset_ensures();
        pre.vaults.to_multiset_ensures();
        assert forall|j: int| 0 <= j < pre.vaults.len() implies (vault_exportable(
            #[trigger] pre.vaults[j],
            ps,
        ) ==> vault_exported(sync_vaults_view(sync_vaults@), pre.vaults[j])) by {
            if vault_exportable(pre.vaults[j], ps) {
                assert(pre.vaults.contains(pre.vaults[j]));
                assert(pre.vaults.to_multiset().count(pre.vaults[j]) > 0);
                assert(lv.contains(pre.vaults[j]));
                let q = choose|q: int| 0 <= q < lv.len() && lv[q] == pre.vaults[j];
                assert(vault_exported(sync_vaults_view(sync_vaults@), lv[q]));
            }
        }
    }
    let exported_vaults = sync_vaults.len();
    let exported_captures = captures.len();
    let file = SyncFile {
        format_version: String::from_str(sync_format_version()),
        device_id,
        device_name,
        exported_at: String::from_str(now),
        vaults: sync_vaults,
        captures,
    };
    let res = SyncExportResult {
        exported_vaults,
        exported_items,
        exported_captures,
        skipped_vaults,
        warnings,
    };
    Ok((file, res))
}

/// The abstract values of a password table, `(vault uuid, password)`.
pub open spec fn passwords_view(ps: Seq<(String, String)>) -> Seq<(Seq<char>, Seq<char>)> {
    Seq::new(ps.len(), |i: int| (ps[i].0@, ps[i].1@))
}

/// The first password listed for this vault uuid, if any.
pub open spec fn pw_lookup(ps: Seq<(Seq<char>, Seq<char>)>, uuid: Seq<char>) -> Option<Seq<char>>
    decreases ps.len(),
{
    if ps.len() == 0 {
        None
    } else if ps[0].0 == uuid {
        Some(ps[0].1)
    } else {
        pw_lookup(ps.drop_first(), uuid)
    }
}

/// With no match among the first `i` entries, the lookup is decided by
/// the rest.
proof fn lemma_pw_lookup_skip(ps: Seq<(Seq<char>, Seq<char>)>, uuid: Seq<char>, i: int)
    requires
        0 <= i <= ps.len(),
        forall|j: int| 0 <= j < i ==> (#[trigger] ps[j]).0 != uuid,
    ensures
        pw_lookup(ps, uuid) == pw_lookup(ps.skip(i), uuid),
    decreases i,
{
    if i > 0 && ps.len() > 0 {
        assert(ps.drop_first().skip(i - 1) =~= ps.skip(i));
        lemma_pw_lookup_skip(ps.drop_first(), uuid, i - 1);
    } else {
        assert(ps.skip(0) =~= ps);
    }
}

/// Find the first password supplied for this vault uuid.
fn lookup_password(passwords: &Vec<(String, String)>, uuid: &str) -> (r: Option<String>)
    ensures
        match r {
            Some(p) => pw_lookup(passwords_view(passwords@), uuid@) == Some(p@),
            None => pw_lookup(passwords_view(passwords@), uuid@) is None,
        },
{
    let ghost ps = passwords_view(passwords@);
    let mut i: usize = 0;
    while i < passwords.len()
        invariant
            i <= passwords@.len(),
            ps == passwords_view(passwords@),
            forall|j: int| 0 <= j < i ==> (#[trigger] ps[j]).0 != uuid@,
        decreases passwords@.len() - i,
    {
        if str_eq(passwords[i].0.as_str(), uuid) {
            proof {
                lemma_pw_lookup_skip(ps, uuid@, i as int);
                assert(ps.skip(i as int)[0] == ps[i as int]);
            }
            return Some(passwords[i].1.clone());
        }
        i = i + 1;
    }
    proof {
        lemma_pw_lookup_skip(ps, uuid@, i as int);
        assert(ps.skip(i as int).len() == 0);
    }
    None
}

/// Was this remote vault due to be created here: live, unknown locally,
/// and importable (passwordless, or its password supplied)?
pub open spec fn vault_due(
    pre: crate::vault::StoreV,
    sv: SyncVaultV,
    ps: Seq<(Seq<char>, Seq<char>)>,
) -> bool {
    sv.deleted_at is None && !has_vault_uuid(pre.vaults, sv.uuid) && (!sv.has_password || pw_lookup(
        ps,
        sv.uuid,
    ) is Some)
}

/// A vault uuid stays present when rows keep their uuids and new rows are
/// only appended.
proof fn lemma_has_uuid_monotone(s0: Seq<VaultV>, s1: Seq<VaultV>, u: Seq<char>)
    requires
        has_vault_uuid(s0, u),
        s0.len() <= s1.len(),
        forall|j: int| 0 <= j < s0.len() ==> (#[trigger] s1[j]).uuid == s0[j].uuid,
    ensures
        has_vault_uuid(s1, u),
{
    let i = crate::vault::vault_idx_by_uuid(s0, u);
    assert(s0[i].uuid == Some(u));
    assert(s1[i].uuid == Some(u));
}

/// Add one, staying put at the numeric ceiling.
fn sat_inc(n: usize) -> (r: usize)
    ensures
        r == if n < usize::MAX {
            n + 1
        } else {
            n as int
        },
{
    if n < usize::MAX {
        n + 1
    } else {
        n
    }
}

/// Apply a remote vault tombstone locally: the vault row takes the remote
/// deletion stamp and a fresh `updated_at`; its live items take the
/// remote deletion stamp.
fn tombstone_vault_remote(store: &mut VaultStore, vault_id: i64, deleted_at: &str, now: &str)
    requires
        old(store)@.wf(),
    ensures
        final(store)@.wf(),
        final(store)@.settings == old(store)@.settings,
        final(store)@.next_vault_id == old(store)@.next_vault_id,
        final(store)@.next_item_id == old(store)@.next_item_id,
        final(store)@.vaults.len() == old(store)@.vaults.len(),
        forall|j: int|
            0 <= j < old(store)@.vaults.len() ==> (#[trigger] final(store)@.vaults[j]).uuid == old(
                store,
            )@.vaults[j].uuid,
        forall|j: int|
            0 <= j < old(store)@.vaults.len() && old(store)@.vaults[j].deleted_at is Some ==> (
            #[trigger] final(store)@.vaults[j]).deleted_at is Some,
        has_vault_id(old(store)@.vaults, vault_id) ==> final(store)@.vaults[vault_idx_by_id(
            old(store)@.vaults,
            vault_id,
        )].deleted_at is Some,
        forall|j: int|
            0 <= j < old(store)@.vaults.len() && (!has_vault_id(old(store)@.vaults, vault_id) || j
                != vault_idx_by_id(old(store)@.vaults, vault_id)) ==> (
            #[trigger] final(store)@.vaults[j]) == old(store)@.vaults[j],
        has_vault_id(old(store)@.vaults, vault_id) ==> final(store)@.vaults[vault_idx_by_id(
            old(store)@.vaults,
            vault_id,
        )] == (VaultV {
            deleted_at: Some(deleted_at@),
            updated_at: Some(now@),
            ..vault_by_id(old(store)@.vaults, vault_id)
        }),
        final(store)@.items.len() == old(store)@.items.len(),
        forall|j: int|
            0 <= j < old(store)@.items.len() ==> (#[trigger] final(store)@.items[j]).uuid == old(
                store,
            )@.items[j].uuid,
{
    let ghost is0 = store@.items;
    let mut new_items: Vec<VaultItem> = Vec::new();
    let mut i: usize = 0;
    while i < store.items.len()
        invariant
            i <= store.items@.len(),
            is0 == items_view(store.items@),
            new_items@.len() == i,
            forall|j: int|
                0 <= j < i ==> (#[trigger] items_view(new_items@)[j]).id == is0[j].id
                    && items_view(new_items@)[j].uuid == is0[j].uuid,
        decreases store.items@.len() - i,
    {
        let ghost prev = new_items@;
        let it = &store.items[i];
        if it.vault_id == vault_id && it.deleted_at.is_none() {
            let mut c = it.duplicate();
            c.deleted_at = Some(String::from_str(deleted_at));
            new_items.push(c);
        } else {
            new_items.push(it.duplicate());
        }
        proof {
            assert forall|j: int| 0 <= j < i implies (#[trigger] items_view(new_items@)[j]).id
                == is0[j].id && items_view(new_items@)[j].uuid == is0[j].uuid by {
                assert(new_items@[j] == prev[j]);
                assert(items_view(new_items@)[j] == items_view(prev)[j]);
            }
        }
        i = i + 1;
    }
    store.items = new_items;
    match crate::vault::find_vault_index(&store.vaults, vault_id) {
        Some(k) => {
            proof {
                crate::vault::lemma_vault_idx(store@.vaults, k as int, vault_id);
            }
            let mut v = store.vaults.remove(k);
            v.deleted_at = Some(String::from_str(deleted_at));
            v.updated_at = Some(String::from_str(now));
            store.vaults.insert(k, v);
            proof {
                assert forall|j: int| 0 <= j < store@.vaults.len() implies (
                #[trigger] store@.vaults[j]).id == old(store)@.vaults[j].id && store@.vaults[j].uuid
                    == old(store)@.vaults[j].uuid by {}
                lemma_wf_same_idents(old(store)@, store@);
                crate::vault::lemma_vault_idx(old(store)@.vaults, k as int, vault_id);
                assert(store@.vaults[k as int].deleted_at is Some);
                assert(store@.vaults[k as int] == (VaultV {
                    deleted_at: Some(deleted_at@),
                    updated_at: Some(now@),
                    ..vault_by_id(old(store)@.vaults, vault_id)
                }));
            }
        },
        None => {
            proof {
                lemma_wf_same_idents(old(store)@, store@);
                if has_vault_id(old(store)@.vaults, vault_id) {
                    let i = vault_idx_by_id(old(store)@.vaults, vault_id);
                    assert(false);  // the lookup would have found this row
                }
            }
        },
    }
}

/// Last-write-wins on vault metadata: take the remote name, cover image
/// and update stamp.
fn update_vault_meta(
    store: &mut VaultStore,
    vault_id: i64,
    name: &str,
    cover_image: &Option<String>,
    updated_at: &str,
)
    requires
        old(store)@.wf(),
    ensures
        final(store)@.wf(),
        final(store)@.items == old(store)@.items,
        final(store)@.settings == old(store)@.settings,
        final(store)@.next_vault_id == old(store)@.next_vault_id,
        final(store)@.next_item_id == old(store)@.next_item_id,
        final(store)@.vaults.len() == old(store)@.vaults.len(),
        forall|j: int|
            0 <= j < old(store)@.vaults.len() ==> (#[trigger] final(store)@.vaults[j]).uuid == old(
                store,
            )@.vaults[j].uuid,
        forall|j: int|
            0 <= j < old(store)@.vaults.len() ==> (#[trigger] final(store)@.vaults[j]).deleted_at
                == old(store)@.vaults[j].deleted_at,
        final(store)@.vaults == (if has_vault_id(old(store)@.vaults, vault_id) {
            old(store)@.vaults.update(
                vault_idx_by_id(old(store)@.vaults, vault_id),
                (VaultV {
                    name: name@,
                    cover_image: opt_view(*cover_image),
                    updated_at: Some(updated_at@),
                    ..vault_by_id(old(store)@.vaults, vault_id)
                }),
            )
        } else {
            old(store)@.vaults
        }),
{
    match crate::vault::find_vault_index(&store.vaults, vault_id) {
        Some(k) => {
            proof {
                crate::vault::lemma_vault_idx(store@.vaults, k as int, vault_id);
            }
            let mut v = store.vaults.remove(k);
            v.name = String::from_str(name);
            v.cover_image = opt_str_clone(cover_image);
            v.updated_at = Some(String::from_str(updated_at));
            store.vaults.insert(k, v);
            proof {
                assert(store@.vaults =~= old(store)@.vaults.update(
                    k as int,
                    (VaultV {
                        name: name@,
                        cover_image: opt_view(*cover_image),
                        updated_at: Some(updated_at@),
                        ..vault_by_id(old(store)@.vaults, vault_id)
                    }),
                ));
                lemma_wf_same_idents(old(store)@, store@);
            }
        },
        None => {},
    }
}

/// The merging pass of the import, which may stop midway on a failed
/// encryption or a uuid collision; [`sync_import`] wraps it so a failed
/// import is never partially visible.
#[verifier::rlimit(100)]
fn sync_import_apply(
    store: &mut VaultStore,
    file: &SyncFile,
    passwords: &Vec<(String, String)>,
    now: &str,
) -> (r: Result<SyncImportResult, VaultError>)
    requires
        old(store)@.wf(),
        old(store)@.next_vault_id + file.vaults@.len() < i64::MAX,
        old(store)@.next_item_id + sum_items(sync_vaults_view(file.vaults@)) < i64::MAX,
    ensures
        final(store)@.wf(),
        (file.format_version@ != "1.0"@) <==> r == Err::<SyncImportResult, VaultError>(
            VaultError::SyncFormatMismatch,
        ),
        r == Err::<SyncImportResult, VaultError>(VaultError::SyncFormatMismatch) ==> final(store)@
            == old(store)@,
        r matches Err(e) ==> (e == VaultError::SyncFormatMismatch || e == VaultError::CryptoFailure
            || e == VaultError::DuplicateUuid),
        r is Err ==> final(store)@.settings == old(store)@.settings,
        file.format_version@ == "1.0"@ && file.vaults@.len() == 0 ==> r is Ok,
        file.format_version@ == "1.0"@ && file_mirrored(
            old(store)@,
            sync_vaults_view(file.vaults@),
        ) ==> ({
            &&& r is Ok
            &&& final(store)@.vaults == old(store)@.vaults
            &&& final(store)@.items == old(store)@.items
            &&& final(store)@.next_vault_id == old(store)@.next_vault_id
            &&& final(store)@.next_item_id == old(store)@.next_item_id
        }),
        r matches Ok(res) ==> ({
            &&& setting_val(final(store)@.settings, "last_sync_at"@) == Some(now@)
            &&& setting_val(final(store)@.settings, "last_sync_device"@) == Some(
                file.device_name@,
            )
            &&& forall|k: Seq<char>|
                k != "last_sync_at"@ && k != "last_sync_device"@ ==> setting_val(
                    final(store)@.settings,
                    k,
                ) == setting_val(old(store)@.settings, k)
            &&& res.imported_captures == 0
            &&& forall|q: int|
                0 <= q < sync_vaults_view(file.vaults@).len() ==> (vault_due(
                    old(store)@,
                    #[trigger] sync_vaults_view(file.vaults@)[q],
                    passwords_view(passwords@),
                ) ==> has_vault_uuid(
                    final(store)@.vaults,
                    sync_vaults_view(file.vaults@)[q].uuid,
                ))
            &&& forall|q: int|
                0 <= q < sync_vaults_view(file.vaults@).len() ==> tombstone_landed(
                    old(store)@,
                    final(store)@,
                    #[trigger] sync_vaults_view(file.vaults@)[q],
                )
            &&& (sync_vault_uuids_distinct(sync_vaults_view(file.vaults@)) ==> forall|q: int|
                0 <= q < sync_vaults_view(file.vaults@).len() ==> due_items_present(
                    old(store)@,
                    final(store)@,
                    #[trigger] sync_vaults_view(file.vaults@)[q],
                    passwords_view(passwords@),
                ))
            &&& (sync_vault_uuids_distinct(sync_vaults_view(file.vaults@)) ==> forall|q: int|
                0 <= q < sync_vaults_view(file.vaults@).len() ==> unknown_tombstone_ignored(
                    old(store)@,
                    final(store)@,
                    #[trigger] sync_vaults_view(file.vaults@)[q],
                ))
            &&& (sync_vault_uuids_distinct(sync_vaults_view(file.vaults@)) ==> forall|q: int|
                0 <= q < sync_vaults_view(file.vaults@).len() ==> metadata_synced(
                    old(store)@,
                    final(store)@,
                    #[trigger] sync_vaults_view(file.vaults@)[q],
                ))
            &&& (sync_vault_uuids_distinct(sync_vaults_view(file.vaults@)) ==> forall|q: int|
                0 <= q < sync_vaults_view(file.vaults@).len() ==> tombstone_stamped(
                    old(store)@,
                    final(store)@,
                    #[trigger] sync_vaults_view(file.vaults@)[q],
                    now@,
                ))
        }),
{
    if !str_eq(file.format_version.as_str(), sync_format_version()) {
        return Err(VaultError::SyncFormatMismatch);
    }
    let ghost pre = old(store)@;
    let ghost fv = sync_vaults_view(file.vaults@);
    let ghost pws = passwords_view(passwords@);
    let last_sync_at = SyncSettings::get(store, "last_sync_at");
    let mut imported_vaults: usize = 0;
    let mut imported_items: usize = 0;
    let mut conflicts: Vec<String> = Vec::new();
    let mut warnings: Vec<String> = Vec::new();
    let mut skipped_vaults: Vec<String> = Vec::new();
    let mut vi: usize = 0;
    while vi < file.vaults.len()
        invariant
            vi <= file.vaults@.len(),
            pre == old(store)@,
            pre.wf(),
            store@.wf(),
            file.format_version@ == "1.0"@,
            fv == sync_vaults_view(file.vaults@),
            store@.settings == pre.settings,
            store@.next_vault_id <= pre.next_vault_id + vi,
            pre.next_vault_id + file.vaults@.len() < i64::MAX,
            store@.next_item_id <= pre.next_item_id + sum_items(fv.take(vi as int)),
            pre.next_item_id + sum_items(fv) < i64::MAX,
            pws == passwords_view(passwords@),
            forall|q: int|
                0 <= q < vi ==> (vault_due(pre, #[trigger] fv[q], pws) ==> has_vault_uuid(
                    store@.vaults,
                    fv[q].uuid,
                )),
            file_mirrored(pre, fv) ==> store@.vaults == pre.vaults && store@.items == pre.items
                && store@.next_vault_id == pre.next_vault_id && store@.next_item_id
                == pre.next_item_id,
            pre.vaults.len() <= store@.vaults.len(),
            forall|j: int|
                0 <= j < pre.vaults.len() ==> (#[trigger] store@.vaults[j]).uuid
                    == pre.vaults[j].uuid,
            forall|j: int|
                0 <= j < pre.vaults.len() && pre.vaults[j].deleted_at is Some ==> (
                #[trigger] store@.vaults[j]).deleted_at is Some,
            forall|q: int| 0 <= q < vi ==> tombstone_landed(pre, store@, #[trigger] fv[q]),
            pre.items.len() <= store@.items.len(),
            forall|j: int|
                0 <= j < pre.items.len() ==> (#[trigger] store@.items[j]).uuid
                    == pre.items[j].uuid,
            forall|q: int|
                0 <= q < fv.len() ==> (has_vault_uuid(store@.vaults, (#[trigger] fv[q]).uuid)
                    ==> has_vault_uuid(pre.vaults, fv[q].uuid) || (exists|w: int|
                    0 <= w < vi && (#[trigger] fv[w]).uuid == fv[q].uuid && fv[w].deleted_at is None)),
            sync_vault_uuids_distinct(fv) ==> forall|q: int|
                0 <= q < vi ==> due_items_present(pre, store@, #[trigger] fv[q], pws),
            sync_vault_uuids_distinct(fv) ==> (forall|q: int|
                vi <= q < fv.len() && has_vault_uuid(pre.vaults, (#[trigger] fv[q]).uuid)
                    ==> has_vault_uuid(store@.vaults, fv[q].uuid) && vault_by_uuid(
                    store@.vaults,
                    fv[q].uuid,
                ) == vault_by_uuid(pre.vaults, fv[q].uuid)),
            sync_vault_uuids_distinct(fv) ==> (forall|q: int|
                0 <= q < vi ==> metadata_synced(pre, store@, #[trigger] fv[q])),
            sync_vault_uuids_distinct(fv) ==> (forall|q: int|
                0 <= q < vi ==> tombstone_stamped(pre, store@, #[trigger] fv[q], now@)),
        decreases file.vaults@.len() - vi,
    {
        proof {
            assert(fv.take(vi + 1 as int).drop_last() =~= fv.take(vi as int));
            assert(fv.take(vi + 1 as int).last() == fv[vi as int]);
            lemma_sum_items_take_le(fv, vi + 1 as int);
            lemma_sum_items_nonneg(fv.take(vi as int));
        }
        let sv = &file.vaults[vi];
        let ghost entry = store@;
        let ghost entry_next_item = store@.next_item_id;
        proof {
            // under distinct uuids an existing row is the untouched
            // pre-import row, and the current vault's row is the only one
            // this step may change
            assert(sv@ == fv[vi as int]);
        }
        match crate::vault::find_vault_index_by_uuid(&store.vaults, sv.uuid.as_str()) {
            Some(k) => {
                proof {
                    crate::vault::lemma_vault_uuid_idx(store@.vaults, k as int, sv.uuid@);
                }
                let local_id = store.vaults[k].id;
                let local_deleted = store.vaults[k].deleted_at.is_some();
                let local_has_password = store.vaults[k].has_password;
                if sv.deleted_at.is_some() && !local_deleted {
                    proof {
                        assert(sv@ == fv[vi as int]);
                        if file_mirrored(pre, fv) {
                            // a mirrored tombstone is already applied locally
                            assert(vault_mirrored(pre, fv[vi as int]));
                            crate::vault::lemma_vault_uuid_idx(pre.vaults, k as int, sv.uuid@);
                            assert(false);
                        }
                    }
                    let ds = match &sv.deleted_at {
                        Some(d) => d.clone(),
                        None => String::from_str(now),
                    };
                    tombstone_vault_remote(store, local_id, ds.as_str(), now);
                    imported_vaults = sat_inc(imported_vaults);
                    proof {
                        if sync_vault_uuids_distinct(fv) {
                            // the pre-import row was still in place, so the
                            // helper stamped exactly it
                            crate::vault::lemma_vault_idx(entry.vaults, k as int, local_id);
                            crate::vault::lemma_vault_uuid_idx(entry.vaults, k as int,
                                fv[vi as int].uuid);
                            if has_vault_uuid(pre.vaults, fv[vi as int].uuid) {
                                assert(vault_by_uuid(pre.vaults, fv[vi as int].uuid)
                                    == entry.vaults[k as int]);
                                assert(store@.vaults[k as int].uuid == Some(fv[vi as int].uuid));
                                crate::vault::lemma_vault_uuid_idx(store@.vaults, k as int,
                                    fv[vi as int].uuid);
                                assert(Some(ds@) == fv[vi as int].deleted_at);
                                assert(tombstone_stamped(pre, store@, fv[vi as int], now@));
                            }
                            assert(metadata_synced(pre, store@, fv[vi as int]));
                            lemma_vault_claims_persist(pre, entry, store@, fv, vi as int, now@);
                        }
                    }
                    proof {
                        // frame: only this vault's row changed; items kept
                        // their uuids
                        assert(sv@ == fv[vi as int]);
                        assert(has_vault_uuid(entry.vaults, fv[vi as int].uuid));
                        crate::vault::lemma_vault_idx(entry.vaults, k as int, local_id);
                        assert forall|j: int| 0 <= j < entry.vaults.len() implies (
                        #[trigger] store@.vaults[j]) == entry.vaults[j] || entry.vaults[j].uuid
                            == Some(fv[vi as int].uuid) by {}
                        lemma_import_step_persists(pre, entry, store@, fv, pws, vi as int, now@);
                        // this vault: still present, tombstoned now, not due
                        lemma_has_uuid_monotone(entry.vaults, store@.vaults, fv[vi as int].uuid);
                        assert(store@.vaults[k as int].deleted_at is Some);
                        assert(store@.vaults[k as int].uuid == Some(fv[vi as int].uuid));
                        crate::vault::lemma_vault_uuid_idx(store@.vaults, k as int,
                            fv[vi as int].uuid);
                        if sync_vault_uuids_distinct(fv) && vault_due(pre, fv[vi as int], pws) {
                            let w = choose|w: int|
                                0 <= w < vi && (#[trigger] fv[w]).uuid == fv[vi as int].uuid
                                    && fv[w].deleted_at is None;
                            assert(false);
                        }
                    }
                } else {
                    let remote_newer = match &store.vaults[k].updated_at {
                        Some(u) => str_lt(u.as_str(), sv.updated_at.as_str()),
                        None => str_lt("", sv.updated_at.as_str()),
                    };
                    proof {
                        broadcast use vstd::string::group_string_axioms;

                        reveal_strlit("");
                        assert(""@ =~= Seq::<char>::empty());
                        assert(remote_newer == remote_newer_spec(entry.vaults[k as int],
                            fv[vi as int]));
                    }
                    if remote_newer {
                        proof {
                            assert(sv@ == fv[vi as int]);
                            if file_mirrored(pre, fv) {
                                assert(vault_mirrored(pre, fv[vi as int]));
                                crate::vault::lemma_vault_uuid_idx(pre.vaults, k as int, sv.uuid@);
                                crate::textorder::lemma_text_lt_trichotomy(
                                    fv[vi as int].updated_at,
                                    fv[vi as int].updated_at,
                                );
                                assert(false);
                            }
                        }
                        update_vault_meta(
                            store,
                            local_id,
                            sv.name.as_str(),
                            &sv.cover_image,
                            sv.updated_at.as_str(),
                        );
                        imported_vaults = sat_inc(imported_vaults);
                    }
                    proof {
                        // last-write-wins is settled for this vault
                        if sync_vault_uuids_distinct(fv) {
                            crate::vault::lemma_vault_idx(entry.vaults, k as int, local_id);
                            crate::vault::lemma_vault_uuid_idx(entry.vaults, k as int,
                                fv[vi as int].uuid);
                            if has_vault_uuid(pre.vaults, fv[vi as int].uuid) {
                                assert(vault_by_uuid(pre.vaults, fv[vi as int].uuid)
                                    == entry.vaults[k as int]);
                                assert(store@.vaults[k as int].uuid == Some(fv[vi as int].uuid));
                                crate::vault::lemma_vault_uuid_idx(store@.vaults, k as int,
                                    fv[vi as int].uuid);
                            }
                            assert(metadata_synced(pre, store@, fv[vi as int]));
                            assert(tombstone_stamped(pre, store@, fv[vi as int], now@));
                        }
                    }
                    let ghost vm = store@;
                    let key: Vec<u8> = if local_has_password {
                        match lookup_password(passwords, sv.uuid.as_str()) {
                            Some(pwd) => {
                                let salt = i64_to_string(local_id);
                                derive_key_from_password(pwd.as_str(), salt.as_str(), 100000)
                            },
                            None => {
                                skipped_vaults.push(sv.name.clone());
                                warnings.push(
                                    String::from_str("Skipped vault '").concat(
                                        sv.name.as_str(),
                                    ).concat("': password required but not provided"),
                                );
                                proof {
                                    // the metadata step is the only change
                                    assert(sv@ == fv[vi as int]);
                                    assert(has_vault_uuid(entry.vaults, fv[vi as int].uuid));
                                    crate::vault::lemma_vault_idx(entry.vaults, k as int,
                                        local_id);
                                    assert forall|j: int|
                                        0 <= j < entry.vaults.len() implies (
                                    #[trigger] store@.vaults[j]) == entry.vaults[j]
                                        || entry.vaults[j].uuid == Some(fv[vi as int].uuid) by {}
                                    lemma_import_step_persists(pre, entry, store@, fv, pws,
                                        vi as int, now@);
                                    lemma_has_uuid_monotone(entry.vaults, store@.vaults,
                                        fv[vi as int].uuid);
                                    assert(store@.vaults[k as int].uuid == Some(
                                        fv[vi as int].uuid,
                                    ));
                                    crate::vault::lemma_vault_uuid_idx(store@.vaults, k as int,
                                        fv[vi as int].uuid);
                                    if fv[vi as int].deleted_at is Some {
                                        assert(entry.vaults[k as int].deleted_at is Some);
                                        assert(store@.vaults[k as int].deleted_at is Some);
                                    }
                                    if sync_vault_uuids_distinct(fv) && vault_due(
                                        pre,
                                        fv[vi as int],
                                        pws,
                                    ) {
                                        let w = choose|w: int|
                                            0 <= w < vi && (#[trigger] fv[w]).uuid == fv[vi
                                                as int].uuid && fv[w].deleted_at is None;
                                        assert(false);
                                    }
                                }
                                vi = vi + 1;
                                continue;
                            },
                        }
                    } else {
                        let salt = i64_to_string(local_id);
                        derive_key_from_password("", salt.as_str(), 100000)
                    };
                    let mut ii: usize = 0;
                    while ii < sv.items.len()
                        invariant
                            ii <= sv.items@.len(),
                            pre == old(store)@,
                            pre.wf(),
                            store@.wf(),
                            file.format_version@ == "1.0"@,
                            key@.len() == 32,
                            vi < fv.len(),
                            sv.items@.len() == fv[vi as int].items.len(),
                            fv == sync_vaults_view(file.vaults@),
                            store@.settings == pre.settings,
                            store@.next_vault_id <= pre.next_vault_id + vi + 1,
                            pre.next_vault_id + file.vaults@.len() < i64::MAX,
                            vi < file.vaults@.len(),
                            store@.next_item_id <= entry_next_item + ii,
                            entry_next_item <= pre.next_item_id + sum_items(fv.take(vi as int)),
                            sum_items(fv.take(vi + 1 as int)) == sum_items(fv.take(vi as int))
                                + fv[vi as int].items.len(),
                            sum_items(fv.take(vi + 1 as int)) <= sum_items(fv),
                            pre.next_item_id + sum_items(fv) < i64::MAX,
                            store@.vaults == vm.vaults,
                            store@.vaults.len() == entry.vaults.len(),
                            forall|j: int|
                                0 <= j < entry.vaults.len() ==> (
                                #[trigger] store@.vaults[j]).uuid == entry.vaults[j].uuid,
                            forall|j: int|
                                0 <= j < entry.vaults.len() ==> (
                                #[trigger] store@.vaults[j]).deleted_at
                                    == entry.vaults[j].deleted_at,
                            entry.items.len() <= store@.items.len(),
                            forall|j: int|
                                0 <= j < entry.items.len() ==> (#[trigger] store@.items[j]).uuid
                                    == entry.items[j].uuid,
                            sv@ == fv[vi as int],
                            file_mirrored(pre, fv) ==> store@.vaults == pre.vaults && store@.items
                                == pre.items && store@.next_vault_id == pre.next_vault_id
                                && store@.next_item_id == pre.next_item_id,
                        decreases sv.items@.len() - ii,
                    {
                        proof {
                            lemma_sum_items_take_le(fv, vi + 1 as int);
                        }
                        let ghost before_call = store@.items;
                        let step = import_item(store, local_id, &sv.items[ii], key.as_slice(),
                            &last_sync_at);
                        proof {
                            if file_mirrored(pre, fv) {
                                // a mirrored item is skipped, leaving no trace
                                assert(vault_mirrored(pre, fv[vi as int]));
                                assert(item_mirrored(pre, fv[vi as int].items[ii as int]));
                                lemma_reimport_identical_skips(
                                    item_by_uuid(pre.items, fv[vi as int].items[ii as int].uuid),
                                    fv[vi as int].items[ii as int],
                                    opt_view(last_sync_at),
                                );
                            }
                        }
                        match step {
                            Ok(res) => match res {
                                ImportItemResult::Imported => {
                                    imported_items = sat_inc(imported_items);
                                },
                                ImportItemResult::Updated => {
                                    imported_items = sat_inc(imported_items);
                                },
                                ImportItemResult::Deleted => {
                                    imported_items = sat_inc(imported_items);
                                },
                                ImportItemResult::Conflict(t) => {
                                    conflicts.push(t);
                                    imported_items = sat_inc(imported_items);
                                },
                                ImportItemResult::Skipped => {},
                            },
                            Err(e) => {
                                return Err(e);
                            },
                        }
                        proof {
                            // row uuids survive the per-item merge
                            assert forall|j: int| 0 <= j < entry.items.len() implies (
                            #[trigger] store@.items[j]).uuid == entry.items[j].uuid by {
                                assert(before_call[j].uuid == entry.items[j].uuid);
                            }
                        }
                        ii = ii + 1;
                    }
                    proof {
                        // the metadata step was the only vault change in
                        // this iteration
                        assert(sv@ == fv[vi as int]);
                        assert(has_vault_uuid(entry.vaults, fv[vi as int].uuid));
                        crate::vault::lemma_vault_idx(entry.vaults, k as int, local_id);
                        assert forall|j: int| 0 <= j < entry.vaults.len() implies (
                        #[trigger] store@.vaults[j]) == entry.vaults[j] || entry.vaults[j].uuid
                            == Some(fv[vi as int].uuid) by {
                            assert(store@.vaults[j] == vm.vaults[j]);
                        }
                        lemma_import_step_persists(pre, entry, store@, fv, pws, vi as int, now@);
                        lemma_has_uuid_monotone(entry.vaults, store@.vaults, fv[vi as int].uuid);
                        assert(store@.vaults[k as int].uuid == Some(fv[vi as int].uuid));
                        crate::vault::lemma_vault_uuid_idx(store@.vaults, k as int,
                            fv[vi as int].uuid);
                        if fv[vi as int].deleted_at is Some {
                            assert(entry.vaults[k as int].deleted_at is Some);
                            assert(store@.vaults[k as int].deleted_at is Some);
                        }
                        if sync_vault_uuids_distinct(fv) {
                            assert(metadata_synced(pre, store@, fv[vi as int]));
                            assert(tombstone_stamped(pre, store@, fv[vi as int], now@));
                            if vault_due(pre, fv[vi as int], pws) {
                                let w = choose|w: int|
                                    0 <= w < vi && (#[trigger] fv[w]).uuid == fv[vi as int].uuid
                                        && fv[w].deleted_at is None;
                                assert(false);
                            }
                        }
                    }
                }
            },
            None => {
                proof {
                    assert(sv@ == fv[vi as int]);
                    if file_mirrored(pre, fv) {
                        // a mirrored vault would have been found by uuid
                        assert(vault_mirrored(pre, fv[vi as int]));
                        assert(false);
                    }
                }
                if sv.deleted_at.is_some() {
                    proof {
                        // nothing changed; a known tombstoned remote vault
                        // would have been found
                        assert(!vault_due(pre, fv[vi as int], pws));
                        assert forall|j: int| 0 <= j < entry.vaults.len() implies (
                        #[trigger] store@.vaults[j]) == entry.vaults[j] || entry.vaults[j].uuid
                            == Some(fv[vi as int].uuid) by {}
                        lemma_import_step_persists(pre, entry, store@, fv, pws, vi as int, now@);
                        if has_vault_uuid(pre.vaults, fv[vi as int].uuid) {
                            let i2 = crate::vault::vault_idx_by_uuid(pre.vaults,
                                fv[vi as int].uuid);
                            assert(pre.vaults[i2].uuid == Some(fv[vi as int].uuid));
                            assert(entry.vaults[i2].uuid == Some(fv[vi as int].uuid));
                            assert(has_vault_uuid(entry.vaults, fv[vi as int].uuid));
                            assert(false);
                        }
                    }
                    vi = vi + 1;
                    continue;
                }
                let id = store.next_vault_id;
                let salt = i64_to_string(id);
                let (key, enc): (Vec<u8>, Vec<u8>) = if sv.has_password {
                    match lookup_password(passwords, sv.uuid.as_str()) {
                        Some(pwd) => {
                            let k = derive_key_from_password(pwd.as_str(), salt.as_str(), 100000);
                            let e = match encrypt_password(k.as_slice(), pwd.as_str()) {
                                Ok(e) => e,
                                Err(_) => {
                                    return Err(VaultError::CryptoFailure);
                                },
                            };
                            (k, e)
                        },
                        None => {
                            skipped_vaults.push(sv.name.clone());
                            warnings.push(
                                String::from_str("Skipped vault '").concat(sv.name.as_str()).concat(
                                    "': password required for new vault",
                                ),
                            );
                            proof {
                                // nothing changed; the password is absent
                                assert(sv@ == fv[vi as int]);
                                assert(pw_lookup(pws, fv[vi as int].uuid) is None);
                                assert(!vault_due(pre, fv[vi as int], pws));
                                assert forall|j: int|
                                    0 <= j < entry.vaults.len() implies (
                                #[trigger] store@.vaults[j]) == entry.vaults[j]
                                    || entry.vaults[j].uuid == Some(fv[vi as int].uuid) by {}
                                lemma_import_step_persists(pre, entry, store@, fv, pws, vi as int,
                                    now@);
                                if has_vault_uuid(pre.vaults, fv[vi as int].uuid) {
                                    let i2 = crate::vault::vault_idx_by_uuid(pre.vaults,
                                        fv[vi as int].uuid);
                                    assert(pre.vaults[i2].uuid == Some(fv[vi as int].uuid));
                                    assert(entry.vaults[i2].uuid == Some(fv[vi as int].uuid));
                                    assert(has_vault_uuid(entry.vaults, fv[vi as int].uuid));
                                    assert(false);
                                }
                            }
                            vi = vi + 1;
                            continue;
                        },
                    }
                } else {
                    let k = derive_key_from_password("", salt.as_str(), 100000);
                    (k, Vec::new())
                };
                let v = Vault {
                    id,
                    name: sv.name.clone(),
                    encrypted_password: enc,
                    created_at: sv.created_at.clone(),
                    cover_image: opt_str_clone(&sv.cover_image),
                    has_password: sv.has_password,
                    uuid: Some(sv.uuid.clone()),
                    updated_at: Some(String::from_str(now)),
                    deleted_at: None,
                };
                let ghost nv = v@;
                let ghost before = store@;
                store.vaults.push(v);
                store.next_vault_id = id + 1;
                proof {
                    assert(store@.vaults =~= before.vaults.push(nv));
                    lemma_wf_vault_push(before, store@, nv);
                    assert(before == entry);
                    assert(sv@ == fv[vi as int]);
                    assert(store@.vaults[store@.vaults.len() - 1].uuid == Some(
                        fv[vi as int].uuid,
                    ));
                    assert(has_vault_uuid(store@.vaults, fv[vi as int].uuid));
                }
                imported_vaults = sat_inc(imported_vaults);
                let mut ii: usize = 0;
                while ii < sv.items.len()
                    invariant
                        ii <= sv.items@.len(),
                        pre == old(store)@,
                        pre.wf(),
                        store@.wf(),
                        file.format_version@ == "1.0"@,
                        key@.len() == 32,
                        vi < fv.len(),
                        vi < file.vaults@.len(),
                        sv.items@.len() == fv[vi as int].items.len(),
                        fv == sync_vaults_view(file.vaults@),
                        store@.settings == pre.settings,
                        store@.next_vault_id <= pre.next_vault_id + vi + 1,
                        pre.next_vault_id + file.vaults@.len() < i64::MAX,
                        store@.next_item_id <= entry_next_item + ii,
                        entry_next_item <= pre.next_item_id + sum_items(fv.take(vi as int)),
                        sum_items(fv.take(vi + 1 as int)) == sum_items(fv.take(vi as int))
                            + fv[vi as int].items.len(),
                        sum_items(fv.take(vi + 1 as int)) <= sum_items(fv),
                        pre.next_item_id + sum_items(fv) < i64::MAX,
                        !file_mirrored(pre, fv),
                        sv@ == fv[vi as int],
                        entry.vaults.len() <= store@.vaults.len(),
                        store@.vaults.len() == entry.vaults.len() + 1,
                        store@.vaults[entry.vaults.len() as int].uuid == Some(fv[vi as int].uuid),
                        forall|j: int|
                            0 <= j < entry.vaults.len() ==> #[trigger] store@.vaults[j]
                                == entry.vaults[j],
                        forall|j: int|
                            0 <= j < entry.vaults.len() ==> (#[trigger] store@.vaults[j]).uuid
                                == entry.vaults[j].uuid,
                        forall|j: int|
                            0 <= j < entry.vaults.len() ==> (
                            #[trigger] store@.vaults[j]).deleted_at == entry.vaults[j].deleted_at,
                        entry.items.len() <= store@.items.len(),
                        forall|j: int|
                            0 <= j < entry.items.len() ==> (#[trigger] store@.items[j]).uuid
                                == entry.items[j].uuid,
                        forall|q2: int|
                            0 <= q2 < ii && (#[trigger] fv[vi as int].items[q2]).deleted_at
                                is None ==> has_item_uuid(
                                store@.items,
                                fv[vi as int].items[q2].uuid,
                            ),
                        has_vault_uuid(store@.vaults, fv[vi as int].uuid),
                    decreases sv.items@.len() - ii,
                {
                    let si = &sv.items[ii];
                    if si.deleted_at.is_none() {
                        let enc = match encrypt_content(key.as_slice(), si.content.as_str()) {
                            Ok(e) => e,
                            Err(_) => {
                                return Err(VaultError::CryptoFailure);
                            },
                        };
                        match find_item_index_by_uuid(&store.items, si.uuid.as_str()) {
                            Some(_) => {
                                return Err(VaultError::DuplicateUuid);
                            },
                            None => {},
                        }
                        let iid = store.next_item_id;
                        let it = VaultItem {
                            id: iid,
                            vault_id: id,
                            title: si.title.clone(),
                            content: enc,
                            created_at: si.created_at.clone(),
                            updated_at: si.updated_at.clone(),
                            image: opt_str_clone(&si.image),
                            summary: opt_str_clone(&si.summary),
                            sort_order: si.sort_order,
                            uuid: Some(si.uuid.clone()),
                            deleted_at: None,
                        };
                        let ghost ni = it@;
                        let ghost before_it = store@;
                        store.items.push(it);
                        store.next_item_id = iid + 1;
                        proof {
                            assert(store@.items =~= before_it.items.push(ni));
                            lemma_wf_item_push(before_it, store@, ni);
                            assert(store@.items[store@.items.len() - 1].uuid == Some(
                                fv[vi as int].items[ii as int].uuid,
                            ));
                            assert(has_item_uuid(store@.items, fv[vi as int].items[ii as int].uuid));
                            assert forall|j: int| 0 <= j < entry.items.len() implies (
                            #[trigger] store@.items[j]).uuid == entry.items[j].uuid by {
                                assert(store@.items[j] == before_it.items[j]);
                            }
                            assert forall|q2: int|
                                0 <= q2 < ii && (#[trigger] fv[vi as int].items[q2]).deleted_at
                                    is None implies has_item_uuid(
                                store@.items,
                                fv[vi as int].items[q2].uuid,
                            ) by {
                                lemma_has_item_uuid_monotone(before_it.items, store@.items,
                                    fv[vi as int].items[q2].uuid);
                            }
                        }
                        imported_items = sat_inc(imported_items);
                    }
                    ii = ii + 1;
                }
                proof {
                    // this iteration appended one live vault row for the
                    // current file vault and item rows only
                    assert(sv@ == fv[vi as int]);
                    assert forall|j: int| 0 <= j < entry.vaults.len() implies (
                    #[trigger] store@.vaults[j]) == entry.vaults[j] || entry.vaults[j].uuid
                        == Some(fv[vi as int].uuid) by {}
                    assert forall|j: int|
                        entry.vaults.len() <= j < store@.vaults.len() implies (
                    #[trigger] store@.vaults[j]).uuid == Some(fv[vi as int].uuid)
                        && fv[vi as int].deleted_at is None by {}
                    lemma_import_step_persists(pre, entry, store@, fv, pws, vi as int, now@);
                    if has_vault_uuid(pre.vaults, fv[vi as int].uuid) {
                        let i2 = crate::vault::vault_idx_by_uuid(pre.vaults, fv[vi as int].uuid);
                        assert(pre.vaults[i2].uuid == Some(fv[vi as int].uuid));
                        assert(entry.vaults[i2].uuid == Some(fv[vi as int].uuid));
                        assert(has_vault_uuid(entry.vaults, fv[vi as int].uuid));
                        assert(false);
                    }
                    if sync_vault_uuids_distinct(fv) {
                        assert(metadata_synced(pre, store@, fv[vi as int]));
                        assert(tombstone_stamped(pre, store@, fv[vi as int], now@));
                        if vault_due(pre, fv[vi as int], pws) {
                            assert forall|i2: int|
                                0 <= i2 < fv[vi as int].items.len() && (
                                #[trigger] fv[vi as int].items[i2]).deleted_at
                                    is None implies has_item_uuid(
                                store@.items,
                                fv[vi as int].items[i2].uuid,
                            ) by {}
                        }
                    }
                }
            },
        }
        vi = vi + 1;
    }
    proof {
        if sync_vault_uuids_distinct(fv) {
            assert forall|q: int| 0 <= q < fv.len() implies unknown_tombstone_ignored(
                pre,
                store@,
                #[trigger] fv[q],
            ) by {
                if fv[q].deleted_at is Some && !has_vault_uuid(pre.vaults, fv[q].uuid)
                    && has_vault_uuid(store@.vaults, fv[q].uuid) {
                    // only a live file vault creates a row, and no other
                    // file vault shares this uuid
                    let w = choose|w: int|
                        0 <= w < vi && (#[trigger] fv[w]).uuid == fv[q].uuid && fv[w].deleted_at
                            is None;
                    assert(false);
                }
            }
        }
    }
    record_sync_success(store, now, file.device_name.as_str());
    Ok(SyncImportResult {
        imported_vaults,
        imported_items,
        imported_captures: 0,
        conflicts,
        warnings,
        skipped_vaults,
    })
}

/// The last-write-wins comparison the metadata merge uses: is the remote
/// stamp strictly later than the local one (an absent local stamp loses
/// to any non-empty remote text)?
pub open spec fn remote_newer_spec(v: VaultV, sv: SyncVaultV) -> bool {
    match v.updated_at {
        Some(u) => text_lt(u, sv.updated_at),
        None => text_lt(Seq::<char>::empty(), sv.updated_at),
    }
}

/// Has last-write-wins been applied to this known remote vault's
/// metadata: a strictly newer remote fixed name, cover and stamp, an
/// older or equal one left the row exactly as it was? (The vault
/// tombstone-propagation case is carved out — the tombstone clauses cover
/// it.)
pub open spec fn metadata_synced(
    pre: crate::vault::StoreV,
    post: crate::vault::StoreV,
    sv: SyncVaultV,
) -> bool {
    (has_vault_uuid(pre.vaults, sv.uuid) && !(sv.deleted_at is Some && vault_by_uuid(
        pre.vaults,
        sv.uuid,
    ).deleted_at is None)) ==> ({
        let v0 = vault_by_uuid(pre.vaults, sv.uuid);
        &&& has_vault_uuid(post.vaults, sv.uuid)
        &&& vault_by_uuid(post.vaults, sv.uuid) == (if remote_newer_spec(v0, sv) {
            (VaultV {
                name: sv.name,
                cover_image: sv.cover_image,
                updated_at: Some(sv.updated_at),
                ..v0
            })
        } else {
            v0
        })
    })
}

/// Has a remote vault tombstone landed with its own stamp: a tombstoned
/// remote vault that was known and live here leaves the local row
/// tombstoned with the remote deletion stamp and a fresh `updated_at`?
pub open spec fn tombstone_stamped(
    pre: crate::vault::StoreV,
    post: crate::vault::StoreV,
    sv: SyncVaultV,
    now: Seq<char>,
) -> bool {
    (sv.deleted_at is Some && has_vault_uuid(pre.vaults, sv.uuid) && vault_by_uuid(
        pre.vaults,
        sv.uuid,
    ).deleted_at is None) ==> ({
        &&& has_vault_uuid(post.vaults, sv.uuid)
        &&& vault_by_uuid(post.vaults, sv.uuid) == (VaultV {
            deleted_at: sv.deleted_at,
            updated_at: Some(now),
            ..vault_by_uuid(pre.vaults, sv.uuid)
        })
    })
}

/// A vault row keeps its whole value when every change in the step is
/// confined to rows carrying one other uuid.
proof fn lemma_vault_value_persists(s0: Seq<VaultV>, s1: Seq<VaultV>, u: Seq<char>, e: Seq<char>)
    requires
        crate::vault::vault_uuids_unique(s1),
        has_vault_uuid(s0, u),
        u != e,
        s0.len() <= s1.len(),
        forall|j: int|
            0 <= j < s0.len() ==> (#[trigger] s1[j]) == s0[j] || s0[j].uuid == Some(e),
    ensures
        has_vault_uuid(s1, u),
        vault_by_uuid(s1, u) == vault_by_uuid(s0, u),
{
    let i = crate::vault::vault_idx_by_uuid(s0, u);
    assert(s0[i].uuid == Some(u));
    assert(s1[i] == s0[i]);
    crate::vault::lemma_vault_uuid_idx(s1, i, u);
}

/// Carry the vault-level merge claims and the pristine state of the
/// still-unprocessed rows across one import step whose vault changes are
/// confined to the current file vault's uuid.
proof fn lemma_vault_claims_persist(
    pre: crate::vault::StoreV,
    entry: crate::vault::StoreV,
    cur: crate::vault::StoreV,
    fv: Seq<SyncVaultV>,
    vi: int,
    now: Seq<char>,
)
    requires
        0 <= vi < fv.len(),
        sync_vault_uuids_distinct(fv) ==> (forall|q: int|
            0 <= q < vi ==> metadata_synced(pre, entry, #[trigger] fv[q])),
        sync_vault_uuids_distinct(fv) ==> (forall|q: int|
            0 <= q < vi ==> tombstone_stamped(pre, entry, #[trigger] fv[q], now)),
        sync_vault_uuids_distinct(fv) ==> (forall|q: int|
            vi <= q < fv.len() && has_vault_uuid(pre.vaults, (#[trigger] fv[q]).uuid)
                ==> has_vault_uuid(entry.vaults, fv[q].uuid) && vault_by_uuid(
                entry.vaults,
                fv[q].uuid,
            ) == vault_by_uuid(pre.vaults, fv[q].uuid)),
        crate::vault::vault_uuids_unique(cur.vaults),
        entry.vaults.len() <= cur.vaults.len(),
        forall|j: int|
            0 <= j < entry.vaults.len() ==> (#[trigger] cur.vaults[j]) == entry.vaults[j]
                || entry.vaults[j].uuid == Some(fv[vi].uuid),
    ensures
        sync_vault_uuids_distinct(fv) ==> (forall|q: int|
            0 <= q < vi ==> metadata_synced(pre, cur, #[trigger] fv[q])),
        sync_vault_uuids_distinct(fv) ==> (forall|q: int|
            0 <= q < vi ==> tombstone_stamped(pre, cur, #[trigger] fv[q], now)),
        sync_vault_uuids_distinct(fv) ==> (forall|q: int|
            vi + 1 <= q < fv.len() && has_vault_uuid(pre.vaults, (#[trigger] fv[q]).uuid)
                ==> has_vault_uuid(cur.vaults, fv[q].uuid) && vault_by_uuid(cur.vaults, fv[q].uuid)
                == vault_by_uuid(pre.vaults, fv[q].uuid)),
{
    if sync_vault_uuids_distinct(fv) {
        assert forall|q: int| 0 <= q < vi implies metadata_synced(pre, cur, #[trigger] fv[q]) by {
            if has_vault_uuid(pre.vaults, fv[q].uuid) && !(fv[q].deleted_at is Some
                && vault_by_uuid(pre.vaults, fv[q].uuid).deleted_at is None) {
                lemma_vault_value_persists(entry.vaults, cur.vaults, fv[q].uuid, fv[vi].uuid);
            }
        }
        assert forall|q: int| 0 <= q < vi implies tombstone_stamped(
            pre,
            cur,
            #[trigger] fv[q],
            now,
        ) by {
            if fv[q].deleted_at is Some && has_vault_uuid(pre.vaults, fv[q].uuid) && vault_by_uuid(
                pre.vaults,
                fv[q].uuid,
            ).deleted_at is None {
                lemma_vault_value_persists(entry.vaults, cur.vaults, fv[q].uuid, fv[vi].uuid);
            }
        }
        assert forall|q: int|
            vi + 1 <= q < fv.len() && has_vault_uuid(
                pre.vaults,
                (#[trigger] fv[q]).uuid,
            ) implies has_vault_uuid(cur.vaults, fv[q].uuid) && vault_by_uuid(
            cur.vaults,
            fv[q].uuid,
        ) == vault_by_uuid(pre.vaults, fv[q].uuid) by {
            lemma_vault_value_persists(entry.vaults, cur.vaults, fv[q].uuid, fv[vi].uuid);
        }
    }
}

/// Is a remote tombstone of a vault unknown locally left alone: no local
/// vault is materialized for it?
pub open spec fn unknown_tombstone_ignored(
    pre: crate::vault::StoreV,
    post: crate::vault::StoreV,
    sv: SyncVaultV,
) -> bool {
    (sv.deleted_at is Some && !has_vault_uuid(pre.vaults, sv.uuid)) ==> !has_vault_uuid(
        post.vaults,
        sv.uuid,
    )
}

/// Has the remote tombstone of this vault landed: if the remote vault is
/// tombstoned and was known locally before the import, the local vault
/// ends tombstoned (deletions propagate; rows persist until purged).
pub open spec fn tombstone_landed(
    pre: crate::vault::StoreV,
    post: crate::vault::StoreV,
    sv: SyncVaultV,
) -> bool {
    (sv.deleted_at is Some && has_vault_uuid(pre.vaults, sv.uuid)) ==> (has_vault_uuid(
        post.vaults,
        sv.uuid,
    ) && vault_by_uuid(post.vaults, sv.uuid).deleted_at is Some)
}

/// A tombstoned vault stays tombstoned when rows keep their uuids, keep
/// their tombstones, and new rows are only appended.
proof fn lemma_tombstoned_vault_persists(s0: Seq<VaultV>, s1: Seq<VaultV>, u: Seq<char>)
    requires
        crate::vault::vault_uuids_unique(s1),
        has_vault_uuid(s0, u),
        vault_by_uuid(s0, u).deleted_at is Some,
        s0.len() <= s1.len(),
        forall|j: int| 0 <= j < s0.len() ==> (#[trigger] s1[j]).uuid == s0[j].uuid,
        forall|j: int|
            0 <= j < s0.len() && s0[j].deleted_at is Some ==> (#[trigger] s1[j]).deleted_at
                is Some,
    ensures
        has_vault_uuid(s1, u),
        vault_by_uuid(s1, u).deleted_at is Some,
{
    let i = crate::vault::vault_idx_by_uuid(s0, u);
    assert(s0[i].uuid == Some(u));
    assert(s1[i].uuid == Some(u));
    crate::vault::lemma_vault_uuid_idx(s1, i, u);
}

/// Do the file's vaults carry pairwise-distinct uuids? A file written by
/// one export does.
pub open spec fn sync_vault_uuids_distinct(fv: Seq<SyncVaultV>) -> bool {
    forall|a: int, b: int|
        0 <= a < b < fv.len() ==> (#[trigger] fv[a]).uuid != (#[trigger] fv[b]).uuid
}

/// Did every live item of this due remote vault land locally by uuid?
/// Together with [`import_item`]'s per-item contract and the export's
/// soundness and completeness, this carries the export/import round trip.
pub open spec fn due_items_present(
    pre: crate::vault::StoreV,
    post: crate::vault::StoreV,
    sv: SyncVaultV,
    ps: Seq<(Seq<char>, Seq<char>)>,
) -> bool {
    vault_due(pre, sv, ps) ==> forall|ii: int|
        0 <= ii < sv.items.len() && (#[trigger] sv.items[ii]).deleted_at is None
            ==> has_item_uuid(post.items, sv.items[ii].uuid)
}

/// A present item uuid stays present when rows keep their uuids and new
/// rows are only appended.
proof fn lemma_has_item_uuid_monotone(s0: Seq<ItemV>, s1: Seq<ItemV>, u: Seq<char>)
    requires
        has_item_uuid(s0, u),
        s0.len() <= s1.len(),
        forall|j: int| 0 <= j < s0.len() ==> (#[trigger] s1[j]).uuid == s0[j].uuid,
    ensures
        has_item_uuid(s1, u),
{
    let i = item_idx_by_uuid(s0, u);
    assert(s0[i].uuid == Some(u));
    assert(s1[i].uuid == Some(u));
}

/// Carry every per-vault claim of the import across one loop step: the
/// step touches, among the rows that existed at its start, only the
/// current file vault's row, may append rows only for the current (live)
/// file vault, and keeps every item row's uuid.
proof fn lemma_import_step_persists(
    pre: crate::vault::StoreV,
    entry: crate::vault::StoreV,
    cur: crate::vault::StoreV,
    fv: Seq<SyncVaultV>,
    pws: Seq<(Seq<char>, Seq<char>)>,
    vi: int,
    now: Seq<char>,
)
    requires
        0 <= vi < fv.len(),
        cur.wf(),
        forall|q: int|
            0 <= q < vi ==> (vault_due(pre, #[trigger] fv[q], pws) ==> has_vault_uuid(
                entry.vaults,
                fv[q].uuid,
            )),
        forall|q: int| 0 <= q < vi ==> tombstone_landed(pre, entry, #[trigger] fv[q]),
        sync_vault_uuids_distinct(fv) ==> (forall|q: int|
            0 <= q < vi ==> due_items_present(pre, entry, #[trigger] fv[q], pws)),
        forall|q: int|
            0 <= q < fv.len() ==> (has_vault_uuid(entry.vaults, (#[trigger] fv[q]).uuid)
                ==> has_vault_uuid(pre.vaults, fv[q].uuid) || (exists|w: int|
                0 <= w < vi && (#[trigger] fv[w]).uuid == fv[q].uuid && fv[w].deleted_at
                    is None)),
        pre.vaults.len() <= entry.vaults.len(),
        forall|j: int|
            0 <= j < pre.vaults.len() ==> (#[trigger] entry.vaults[j]).uuid == pre.vaults[j].uuid,
        forall|j: int|
            0 <= j < pre.vaults.len() && pre.vaults[j].deleted_at is Some ==> (
            #[trigger] entry.vaults[j]).deleted_at is Some,
        pre.items.len() <= entry.items.len(),
        forall|j: int|
            0 <= j < pre.items.len() ==> (#[trigger] entry.items[j]).uuid == pre.items[j].uuid,
        sync_vault_uuids_distinct(fv) ==> (forall|q: int|
            vi <= q < fv.len() && has_vault_uuid(pre.vaults, (#[trigger] fv[q]).uuid)
                ==> has_vault_uuid(entry.vaults, fv[q].uuid) && vault_by_uuid(
                entry.vaults,
                fv[q].uuid,
            ) == vault_by_uuid(pre.vaults, fv[q].uuid)),
        sync_vault_uuids_distinct(fv) ==> (forall|q: int|
            0 <= q < vi ==> metadata_synced(pre, entry, #[trigger] fv[q])),
        sync_vault_uuids_distinct(fv) ==> (forall|q: int|
            0 <= q < vi ==> tombstone_stamped(pre, entry, #[trigger] fv[q], now)),
        entry.vaults.len() <= cur.vaults.len(),
        forall|j: int|
            0 <= j < entry.vaults.len() ==> (#[trigger] cur.vaults[j]).uuid
                == entry.vaults[j].uuid,
        forall|j: int|
            0 <= j < entry.vaults.len() && entry.vaults[j].deleted_at is Some ==> (
            #[trigger] cur.vaults[j]).deleted_at is Some,
        forall|j: int|
            0 <= j < entry.vaults.len() ==> (#[trigger] cur.vaults[j]) == entry.vaults[j]
                || entry.vaults[j].uuid == Some(fv[vi].uuid),
        forall|j: int|
            entry.vaults.len() <= j < cur.vaults.len() ==> (#[trigger] cur.vaults[j]).uuid
                == Some(fv[vi].uuid) && fv[vi].deleted_at is None,
        entry.items.len() <= cur.items.len(),
        forall|j: int|
            0 <= j < entry.items.len() ==> (#[trigger] cur.items[j]).uuid == entry.items[j].uuid,
    ensures
        forall|q: int|
            0 <= q < vi ==> (vault_due(pre, #[trigger] fv[q], pws) ==> has_vault_uuid(
                cur.vaults,
                fv[q].uuid,
            )),
        forall|q: int| 0 <= q < vi ==> tombstone_landed(pre, cur, #[trigger] fv[q]),
        sync_vault_uuids_distinct(fv) ==> (forall|q: int|
            0 <= q < vi ==> due_items_present(pre, cur, #[trigger] fv[q], pws)),
        forall|q: int|
            0 <= q < fv.len() ==> (has_vault_uuid(cur.vaults, (#[trigger] fv[q]).uuid)
                ==> has_vault_uuid(pre.vaults, fv[q].uuid) || (exists|w: int|
                0 <= w < vi + 1 && (#[trigger] fv[w]).uuid == fv[q].uuid && fv[w].deleted_at
                    is None)),
        pre.vaults.len() <= cur.vaults.len(),
        forall|j: int|
            0 <= j < pre.vaults.len() ==> (#[trigger] cur.vaults[j]).uuid == pre.vaults[j].uuid,
        forall|j: int|
            0 <= j < pre.vaults.len() && pre.vaults[j].deleted_at is Some ==> (
            #[trigger] cur.vaults[j]).deleted_at is Some,
        pre.items.len() <= cur.items.len(),
        forall|j: int|
            0 <= j < pre.items.len() ==> (#[trigger] cur.items[j]).uuid == pre.items[j].uuid,
        sync_vault_uuids_distinct(fv) ==> (forall|q: int|
            vi + 1 <= q < fv.len() && has_vault_uuid(pre.vaults, (#[trigger] fv[q]).uuid)
                ==> has_vault_uuid(cur.vaults, fv[q].uuid) && vault_by_uuid(
                cur.vaults,
                fv[q].uuid,
            ) == vault_by_uuid(pre.vaults, fv[q].uuid)),
        sync_vault_uuids_distinct(fv) ==> (forall|q: int|
            0 <= q < vi ==> metadata_synced(pre, cur, #[trigger] fv[q])),
        sync_vault_uuids_distinct(fv) ==> (forall|q: int|
            0 <= q < vi ==> tombstone_stamped(pre, cur, #[trigger] fv[q], now)),
{
    assert forall|q: int| 0 <= q < vi implies (vault_due(pre, #[trigger] fv[q], pws)
        ==> has_vault_uuid(cur.vaults, fv[q].uuid)) by {
        if vault_due(pre, fv[q], pws) {
            lemma_has_uuid_monotone(entry.vaults, cur.vaults, fv[q].uuid);
        }
    }
    assert forall|q: int| 0 <= q < vi implies tombstone_landed(pre, cur, #[trigger] fv[q]) by {
        if fv[q].deleted_at is Some && has_vault_uuid(pre.vaults, fv[q].uuid) {
            lemma_tombstoned_vault_persists(entry.vaults, cur.vaults, fv[q].uuid);
        }
    }
    if sync_vault_uuids_distinct(fv) {
        assert forall|q: int| 0 <= q < vi implies due_items_present(
            pre,
            cur,
            #[trigger] fv[q],
            pws,
        ) by {
            if vault_due(pre, fv[q], pws) {
                assert forall|i2: int|
                    0 <= i2 < fv[q].items.len() && (#[trigger] fv[q].items[i2]).deleted_at
                        is None implies has_item_uuid(cur.items, fv[q].items[i2].uuid) by {
                    lemma_has_item_uuid_monotone(entry.items, cur.items, fv[q].items[i2].uuid);
                }
            }
        }
    }
    assert forall|q: int| 0 <= q < fv.len() implies (has_vault_uuid(
        cur.vaults,
        (#[trigger] fv[q]).uuid,
    ) ==> has_vault_uuid(pre.vaults, fv[q].uuid) || (exists|w: int|
        0 <= w < vi + 1 && (#[trigger] fv[w]).uuid == fv[q].uuid && fv[w].deleted_at
            is None)) by {
        if has_vault_uuid(cur.vaults, fv[q].uuid) {
            let i = crate::vault::vault_idx_by_uuid(cur.vaults, fv[q].uuid);
            assert(cur.vaults[i].uuid == Some(fv[q].uuid));
            if i < entry.vaults.len() {
                assert(entry.vaults[i].uuid == Some(fv[q].uuid));
                assert(has_vault_uuid(entry.vaults, fv[q].uuid));
            }
        }
    }
    lemma_vault_claims_persist(pre, entry, cur, fv, vi, now);
}

/// Import the exchange file: reject a version mismatch outright, then
/// merge each remote vault — tombstones propagate, newer metadata wins,
/// and each item goes through [`import_item`] under the vault's resolved
/// key. Vaults whose password is missing are skipped whole and named in
/// the result; new vaults are created with freshly derived keys, ignoring
/// remote tombstones of vaults never seen here. On success the last-sync
/// watermark and device are recorded; on any error nothing is visible —
/// the rows are restored, so no partial merge is ever observable.
pub fn sync_import(
    store: &mut VaultStore,
    file: &SyncFile,
    passwords: &Vec<(String, String)>,
    now: &str,
) -> (r: Result<SyncImportResult, VaultError>)
    requires
        old(store)@.wf(),
        old(store)@.next_vault_id + file.vaults@.len() < i64::MAX,
        old(store)@.next_item_id + sum_items(sync_vaults_view(file.vaults@)) < i64::MAX,
    ensures
        final(store)@.wf(),
        (file.format_version@ != "1.0"@) <==> r == Err::<SyncImportResult, VaultError>(
            VaultError::SyncFormatMismatch,
        ),
        r matches Err(e) ==> final(store)@ == old(store)@ && (e == VaultError::SyncFormatMismatch
            || e == VaultError::CryptoFailure || e == VaultError::DuplicateUuid),
        file.format_version@ == "1.0"@ && file.vaults@.len() == 0 ==> r is Ok,
        file.format_version@ == "1.0"@ && file_mirrored(
            old(store)@,
            sync_vaults_view(file.vaults@),
        ) ==> ({
            &&& r is Ok
            &&& final(store)@.vaults == old(store)@.vaults
            &&& final(store)@.items == old(store)@.items
            &&& final(store)@.next_vault_id == old(store)@.next_vault_id
            &&& final(store)@.next_item_id == old(store)@.next_item_id
        }),
        r matches Ok(res) ==> ({
            &&& setting_val(final(store)@.settings, "last_sync_at"@) == Some(now@)
            &&& setting_val(final(store)@.settings, "last_sync_device"@) == Some(
                file.device_name@,
            )
            &&& forall|k: Seq<char>|
                k != "last_sync_at"@ && k != "last_sync_device"@ ==> setting_val(
                    final(store)@.settings,
                    k,
                ) == setting_val(old(store)@.settings, k)
            &&& res.imported_captures == 0
            &&& forall|q: int|
                0 <= q < sync_vaults_view(file.vaults@).len() ==> (vault_due(
                    old(store)@,
                    #[trigger] sync_vaults_view(file.vaults@)[q],
                    passwords_view(passwords@),
                ) ==> has_vault_uuid(
                    final(store)@.vaults,
                    sync_vaults_view(file.vaults@)[q].uuid,
                ))
            &&& forall|q: int|
                0 <= q < sync_vaults_view(file.vaults@).len() ==> tombstone_landed(
                    old(store)@,
                    final(store)@,
                    #[trigger] sync_vaults_view(file.vaults@)[q],
                )
            &&& (sync_vault_uuids_distinct(sync_vaults_view(file.vaults@)) ==> forall|q: int|
                0 <= q < sync_vaults_view(file.vaults@).len() ==> due_items_present(
                    old(store)@,
                    final(store)@,
                    #[trigger] sync_vaults_view(file.vaults@)[q],
                    passwords_view(passwords@),
                ))
            &&& (sync_vault_uuids_distinct(sync_vaults_view(file.vaults@)) ==> forall|q: int|
                0 <= q < sync_vaults_view(file.vaults@).len() ==> unknown_tombstone_ignored(
                    old(store)@,
                    final(store)@,
                    #[trigger] sync_vaults_view(file.vaults@)[q],
                ))
            &&& (sync_vault_uuids_distinct(sync_vaults_view(file.vaults@)) ==> forall|q: int|
                0 <= q < sync_vaults_view(file.vaults@).len() ==> metadata_synced(
                    old(store)@,
                    final(store)@,
                    #[trigger] sync_vaults_view(file.vaults@)[q],
                ))
            &&& (sync_vault_uuids_distinct(sync_vaults_view(file.vaults@)) ==> forall|q: int|
                0 <= q < sync_vaults_view(file.vaults@).len() ==> tombstone_stamped(
                    old(store)@,
                    final(store)@,
                    #[trigger] sync_vaults_view(file.vaults@)[q],
                    now@,
                ))
        }),
{
    let saved_vaults = crate::vault::clone_vault_rows(&store.vaults);
    let saved_items = crate::vault::clone_item_rows(&store.items);
    let saved_next_vault_id = store.next_vault_id;
    let saved_next_item_id = store.next_item_id;
    match sync_import_apply(store, file, passwords, now) {
        Ok(res) => Ok(res),
        Err(e) => {
            store.vaults = saved_vaults;
            store.items = saved_items;
            store.next_vault_id = saved_next_vault_id;
            store.next_item_id = saved_next_item_id;
            proof {
                assert(store@ =~= old(store)@);
            }
            Err(e)
        },
    }
}

} // verus!
