//! The vault store: vaults, their encrypted items, and the sync settings.
//!
//! [`VaultStore`] is the in-memory system of record. Its mathematical model
//! is [`StoreV`]: sequences of abstract rows plus the next free local ids.
//! Every operation states over that model what it changes; persistence of
//! the rows is the surrounding application's concern.

use vstd::prelude::*;

use crate::crypto::{blob_plaintext, encrypt_password, derive_key_from_password, pbkdf2_sha256,
    sealable};
use crate::decimal::{dec_int, i64_to_string};
use crate::errors::VaultError;
use crate::textorder::str_eq;
use vstd::utf8::encode_utf8;
use vstd::relations::sorted_by;
use crate::textorder::{text_lt, str_lt, lemma_text_lt_trichotomy, lemma_text_lt_transitive};

verus! {

/// A named, independently password-protected collection of items.
#[derive(Debug, Clone)]
pub struct Vault {
    /// Local autoincrement id, process-local.
    pub id: i64,
    pub name: String,
    /// The password-verification payload: the vault password encrypted
    /// under the vault key, or empty when the vault has no password.
    pub encrypted_password: Vec<u8>,
    pub created_at: String,
    pub cover_image: Option<String>,
    /// Whether the vault is password-protected.
    pub has_password: bool,
    /// Global identity, stable across devices; `None` only on legacy rows.
    pub uuid: Option<String>,
    /// Bumped on every mutation of the vault or of any of its items.
    pub updated_at: Option<String>,
    /// Tombstone marker; set means logically gone, kept until purged.
    pub deleted_at: Option<String>,
}

/// A single encrypted note inside a vault.
#[derive(Debug, Clone)]
pub struct VaultItem {
    pub id: i64,
    /// Owning vault, by local id.
    pub vault_id: i64,
    pub title: String,
    /// Opaque ciphertext blob: 24-byte nonce prefix plus AEAD ciphertext.
    pub content: Vec<u8>,
    pub created_at: String,
    pub updated_at: String,
    pub image: Option<String>,
    pub summary: Option<String>,
    /// Optional custom ordering; items without it sort last.
    pub sort_order: Option<i64>,
    /// Global identity, stable across devices; `None` only on legacy rows.
    pub uuid: Option<String>,
    /// Tombstone marker.
    pub deleted_at: Option<String>,
}

/// The abstract value of a [`Vault`] row.
pub struct VaultV {
    pub id: i64,
    pub name: Seq<char>,
    pub encrypted_password: Seq<u8>,
    pub created_at: Seq<char>,
    pub cover_image: Option<Seq<char>>,
    pub has_password: bool,
    pub uuid: Option<Seq<char>>,
    pub updated_at: Option<Seq<char>>,
    pub deleted_at: Option<Seq<char>>,
}

/// The abstract value of a [`VaultItem`] row.
pub struct ItemV {
    pub id: i64,
    pub vault_id: i64,
    pub title: Seq<char>,
    pub content: Seq<u8>,
    pub created_at: Seq<char>,
    pub updated_at: Seq<char>,
    pub image: Option<Seq<char>>,
    pub summary: Option<Seq<char>>,
    pub sort_order: Option<i64>,
    pub uuid: Option<Seq<char>>,
    pub deleted_at: Option<Seq<char>>,
}

/// The text of an optional string.
pub open spec fn opt_view(o: Option<String>) -> Option<Seq<char>> {
    match o {
        Some(s) => Some(s@),
        None => None,
    }
}

impl View for Vault {
    type V = VaultV;

    open spec fn view(&self) -> VaultV {
        VaultV {
            id: self.id,
            name: self.name@,
            encrypted_password: self.encrypted_password@,
            created_at: self.created_at@,
            cover_image: opt_view(self.cover_image),
            has_password: self.has_password,
            uuid: opt_view(self.uuid),
            updated_at: opt_view(self.updated_at),
            deleted_at: opt_view(self.deleted_at),
        }
    }
}

impl View for VaultItem {
    type V = ItemV;

    open spec fn view(&self) -> ItemV {
        ItemV {
            id: self.id,
            vault_id: self.vault_id,
            title: self.title@,
            content: self.content@,
            created_at: self.created_at@,
            updated_at: self.updated_at@,
            image: opt_view(self.image),
            summary: opt_view(self.summary),
            sort_order: self.sort_order,
            uuid: opt_view(self.uuid),
            deleted_at: opt_view(self.deleted_at),
        }
    }
}

/// The abstract values of a sequence of vault rows.
pub open spec fn vaults_view(s: Seq<Vault>) -> Seq<VaultV> {
    Seq::new(s.len(), |i: int| s[i]@)
}

/// The abstract values of a sequence of item rows.
pub open spec fn items_view(s: Seq<VaultItem>) -> Seq<ItemV> {
    Seq::new(s.len(), |i: int| s[i]@)
}

/// The abstract values of the settings rows.
pub open spec fn settings_view(s: Seq<(String, String)>) -> Seq<(Seq<char>, Seq<char>)> {
    Seq::new(s.len(), |i: int| (s[i].0@, s[i].1@))
}

/// The key/value namespace of the sync settings table.
pub struct SyncSettings;

/// The in-memory system of record.
pub struct VaultStore {
    pub vaults: Vec<Vault>,
    pub items: Vec<VaultItem>,
    pub settings: Vec<(String, String)>,
    pub next_vault_id: i64,
    pub next_item_id: i64,
}

/// The mathematical model of a [`VaultStore`].
pub struct StoreV {
    pub vaults: Seq<VaultV>,
    pub items: Seq<ItemV>,
    pub settings: Seq<(Seq<char>, Seq<char>)>,
    pub next_vault_id: i64,
    pub next_item_id: i64,
}

impl View for VaultStore {
    type V = StoreV;

    open spec fn view(&self) -> StoreV {
        StoreV {
            vaults: vaults_view(self.vaults@),
            items: items_view(self.items@),
            settings: settings_view(self.settings@),
            next_vault_id: self.next_vault_id,
            next_item_id: self.next_item_id,
        }
    }
}

/// No two vault rows share a local id.
pub open spec fn vault_ids_unique(vs: Seq<VaultV>) -> bool {
    forall|i: int, j: int|
        0 <= i < j < vs.len() ==> (#[trigger] vs[i]).id != (#[trigger] vs[j]).id
}

/// No two vault rows share a uuid (among rows that have one).
pub open spec fn vault_uuids_unique(vs: Seq<VaultV>) -> bool {
    forall|i: int, j: int|
        0 <= i < j < vs.len() ==> !((#[trigger] vs[i]).uuid is Some && vs[i].uuid
            == (#[trigger] vs[j]).uuid)
}

/// No two item rows share a local id.
pub open spec fn item_ids_unique(its: Seq<ItemV>) -> bool {
    forall|i: int, j: int|
        0 <= i < j < its.len() ==> (#[trigger] its[i]).id != (#[trigger] its[j]).id
}

/// No two item rows share a uuid (among rows that have one).
pub open spec fn item_uuids_unique(its: Seq<ItemV>) -> bool {
    forall|i: int, j: int|
        0 <= i < j < its.len() ==> !((#[trigger] its[i]).uuid is Some && its[i].uuid
            == (#[trigger] its[j]).uuid)
}

/// No two settings rows share a key.
pub open spec fn settings_keys_unique(ss: Seq<(Seq<char>, Seq<char>)>) -> bool {
    forall|i: int, j: int|
        0 <= i < j < ss.len() ==> (#[trigger] ss[i]).0 != (#[trigger] ss[j]).0
}

impl StoreV {
    /// Well-formedness: ids are positive, below the next free id, and
    /// unique; uuids and settings keys are unique.
    pub open spec fn wf(self) -> bool {
        &&& 1 <= self.next_vault_id
        &&& 1 <= self.next_item_id
        &&& forall|i: int|
            0 <= i < self.vaults.len() ==> 1 <= (#[trigger] self.vaults[i]).id
                < self.next_vault_id
        &&& forall|i: int|
            0 <= i < self.items.len() ==> 1 <= (#[trigger] self.items[i]).id < self.next_item_id
        &&& vault_ids_unique(self.vaults)
        &&& vault_uuids_unique(self.vaults)
        &&& item_ids_unique(self.items)
        &&& item_uuids_unique(self.items)
        &&& settings_keys_unique(self.settings)
    }
}

/// Is there a vault row with this local id?
pub open spec fn has_vault_id(vs: Seq<VaultV>, id: i64) -> bool {
    exists|i: int| 0 <= i < vs.len() && (#[trigger] vs[i]).id == id
}

/// The index of the vault row with this local id.
pub open spec fn vault_idx_by_id(vs: Seq<VaultV>, id: i64) -> int {
    choose|i: int| 0 <= i < vs.len() && (#[trigger] vs[i]).id == id
}

/// The vault row with this local id.
pub open spec fn vault_by_id(vs: Seq<VaultV>, id: i64) -> VaultV {
    vs[vault_idx_by_id(vs, id)]
}

/// Is there a vault row with this uuid?
pub open spec fn has_vault_uuid(vs: Seq<VaultV>, u: Seq<char>) -> bool {
    exists|i: int| 0 <= i < vs.len() && (#[trigger] vs[i]).uuid == Some(u)
}

/// The index of the vault row with this uuid.
pub open spec fn vault_idx_by_uuid(vs: Seq<VaultV>, u: Seq<char>) -> int {
    choose|i: int| 0 <= i < vs.len() && (#[trigger] vs[i]).uuid == Some(u)
}

/// The vault row with this uuid.
pub open spec fn vault_by_uuid(vs: Seq<VaultV>, u: Seq<char>) -> VaultV {
    vs[vault_idx_by_uuid(vs, u)]
}

/// Is there an item row with this local id?
pub open spec fn has_item_id(its: Seq<ItemV>, id: i64) -> bool {
    exists|i: int| 0 <= i < its.len() && (#[trigger] its[i]).id == id
}

/// The index of the item row with this local id.
pub open spec fn item_idx_by_id(its: Seq<ItemV>, id: i64) -> int {
    choose|i: int| 0 <= i < its.len() && (#[trigger] its[i]).id == id
}

/// The item row with this local id.
pub open spec fn item_by_id(its: Seq<ItemV>, id: i64) -> ItemV {
    its[item_idx_by_id(its, id)]
}

/// Is there an item row with this uuid?
pub open spec fn has_item_uuid(its: Seq<ItemV>, u: Seq<char>) -> bool {
    exists|i: int| 0 <= i < its.len() && (#[trigger] its[i]).uuid == Some(u)
}

/// The index of the item row with this uuid.
pub open spec fn item_idx_by_uuid(its: Seq<ItemV>, u: Seq<char>) -> int {
    choose|i: int| 0 <= i < its.len() && (#[trigger] its[i]).uuid == Some(u)
}

/// The item row with this uuid.
pub open spec fn item_by_uuid(its: Seq<ItemV>, u: Seq<char>) -> ItemV {
    its[item_idx_by_uuid(its, u)]
}

/// Is there a settings row with this key?
pub open spec fn has_setting(ss: Seq<(Seq<char>, Seq<char>)>, k: Seq<char>) -> bool {
    exists|i: int| 0 <= i < ss.len() && (#[trigger] ss[i]).0 == k
}

/// The index of the settings row with this key.
pub open spec fn setting_idx(ss: Seq<(Seq<char>, Seq<char>)>, k: Seq<char>) -> int {
    choose|i: int| 0 <= i < ss.len() && (#[trigger] ss[i]).0 == k
}

/// The value stored under this key, if any.
pub open spec fn setting_val(ss: Seq<(Seq<char>, Seq<char>)>, k: Seq<char>) -> Option<Seq<char>> {
    if has_setting(ss, k) {
        Some(ss[setting_idx(ss, k)].1)
    } else {
        None
    }
}

/// A row with the sought id pins down the index the finder spec picks.
pub proof fn lemma_vault_idx(vs: Seq<VaultV>, i: int, id: i64)
    requires
        vault_ids_unique(vs),
        0 <= i < vs.len(),
        vs[i].id == id,
    ensures
        has_vault_id(vs, id),
        vault_idx_by_id(vs, id) == i,
        vault_by_id(vs, id) == vs[i],
{
    assert(has_vault_id(vs, id));
    let k = vault_idx_by_id(vs, id);
    if k != i {
        assert(vs[k].id == id);
        assert(false);
    }
}

/// A row with the sought uuid pins down the index the finder spec picks.
pub proof fn lemma_vault_uuid_idx(vs: Seq<VaultV>, i: int, u: Seq<char>)
    requires
        vault_uuids_unique(vs),
        0 <= i < vs.len(),
        vs[i].uuid == Some(u),
    ensures
        has_vault_uuid(vs, u),
        vault_idx_by_uuid(vs, u) == i,
        vault_by_uuid(vs, u) == vs[i],
{
    assert(has_vault_uuid(vs, u));
    let k = vault_idx_by_uuid(vs, u);
    if k != i {
        assert(vs[k].uuid == Some(u));
        assert(false);
    }
}

/// A row with the sought id pins down the index the finder spec picks.
pub proof fn lemma_item_idx(its: Seq<ItemV>, i: int, id: i64)
    requires
        item_ids_unique(its),
        0 <= i < its.len(),
        its[i].id == id,
    ensures
        has_item_id(its, id),
        item_idx_by_id(its, id) == i,
        item_by_id(its, id) == its[i],
{
    assert(has_item_id(its, id));
    let k = item_idx_by_id(its, id);
    if k != i {
        assert(its[k].id == id);
        assert(false);
    }
}

/// A row with the sought uuid pins down the index the finder spec picks.
pub proof fn lemma_item_uuid_idx(its: Seq<ItemV>, i: int, u: Seq<char>)
    requires
        item_uuids_unique(its),
        0 <= i < its.len(),
        its[i].uuid == Some(u),
    ensures
        has_item_uuid(its, u),
        item_idx_by_uuid(its, u) == i,
        item_by_uuid(its, u) == its[i],
{
    assert(has_item_uuid(its, u));
    let k = item_idx_by_uuid(its, u);
    if k != i {
        assert(its[k].uuid == Some(u));
        assert(false);
    }
}

/// A row with the sought key pins down the index and value.
pub proof fn lemma_setting_idx(ss: Seq<(Seq<char>, Seq<char>)>, i: int, k: Seq<char>)
    requires
        settings_keys_unique(ss),
        0 <= i < ss.len(),
        ss[i].0 == k,
    ensures
        has_setting(ss, k),
        setting_idx(ss, k) == i,
        setting_val(ss, k) == Some(ss[i].1),
{
    assert(has_setting(ss, k));
    let j = setting_idx(ss, k);
    if j != i {
        assert(ss[j].0 == k);
        assert(false);
    }
}

/// Copy an optional string.
pub fn opt_str_clone(o: &Option<String>) -> (r: Option<String>)
    ensures
        opt_view(r) == opt_view(*o),
{
    match o {
        Some(s) => Some(s.clone()),
        None => None,
    }
}

/// Copy a byte vector.
pub fn clone_bytes(v: &Vec<u8>) -> (r: Vec<u8>)
    ensures
        r@ == v@,
{
    vstd::slice::slice_to_vec(v.as_slice())
}

impl Vault {
    /// Copy a vault row; the copy has the same abstract value.
    pub fn duplicate(&self) -> (r: Vault)
        ensures
            r@ == self@,
    {
        Vault {
            id: self.id,
            name: self.name.clone(),
            encrypted_password: clone_bytes(&self.encrypted_password),
            created_at: self.created_at.clone(),
            cover_image: opt_str_clone(&self.cover_image),
            has_password: self.has_password,
            uuid: opt_str_clone(&self.uuid),
            updated_at: opt_str_clone(&self.updated_at),
            deleted_at: opt_str_clone(&self.deleted_at),
        }
    }
}

impl VaultItem {
    /// Copy an item row; the copy has the same abstract value.
    pub fn duplicate(&self) -> (r: VaultItem)
        ensures
            r@ == self@,
    {
        VaultItem {
            id: self.id,
            vault_id: self.vault_id,
            title: self.title.clone(),
            content: clone_bytes(&self.content),
            created_at: self.created_at.clone(),
            updated_at: self.updated_at.clone(),
            image: opt_str_clone(&self.image),
            summary: opt_str_clone(&self.summary),
            sort_order: self.sort_order,
            uuid: opt_str_clone(&self.uuid),
            deleted_at: opt_str_clone(&self.deleted_at),
        }
    }
}

impl VaultStore {
    /// An empty store.
    pub fn new() -> (r: VaultStore)
        ensures
            r@.wf(),
            r@.vaults.len() == 0,
            r@.items.len() == 0,
            r@.settings.len() == 0,
            r@.next_vault_id == 1,
            r@.next_item_id == 1,
    {
        VaultStore {
            vaults: Vec::new(),
            items: Vec::new(),
            settings: Vec::new(),
            next_vault_id: 1,
            next_item_id: 1,
        }
    }
}

/// Find the position of the vault row with this id.
pub(crate) fn find_vault_index(vaults: &Vec<Vault>, id: i64) -> (r: Option<usize>)
    ensures
        match r {
            Some(i) => i < vaults@.len() && vaults_view(vaults@)[i as int].id == id,
            None => !has_vault_id(vaults_view(vaults@), id),
        },
{
    let mut i: usize = 0;
    while i < vaults.len()
        invariant
            i <= vaults@.len(),
            forall|j: int| 0 <= j < i ==> vaults_view(vaults@)[j].id != id,
        decreases vaults@.len() - i,
    {
        if vaults[i].id == id {
            return Some(i);
        }
        i = i + 1;
    }
    None
}

/// Find the position of the vault row with this uuid.
pub(crate) fn find_vault_index_by_uuid(vaults: &Vec<Vault>, uuid: &str) -> (r: Option<usize>)
    ensures
        match r {
            Some(i) => i < vaults@.len() && vaults_view(vaults@)[i as int].uuid == Some(uuid@),
            None => !has_vault_uuid(vaults_view(vaults@), uuid@),
        },
{
    let mut i: usize = 0;
    while i < vaults.len()
        invariant
            i <= vaults@.len(),
            forall|j: int| 0 <= j < i ==> vaults_view(vaults@)[j].uuid != Some(uuid@),
        decreases vaults@.len() - i,
    {
        let hit = match &vaults[i].uuid {
            Some(u) => str_eq(u.as_str(), uuid),
            None => false,
        };
        if hit {
            return Some(i);
        }
        i = i + 1;
    }
    None
}

/// Find the position of the item row with this id.
pub(crate) fn find_item_index(items: &Vec<VaultItem>, id: i64) -> (r: Option<usize>)
    ensures
        match r {
            Some(i) => i < items@.len() && items_view(items@)[i as int].id == id,
            None => !has_item_id(items_view(items@), id),
        },
{
    let mut i: usize = 0;
    while i < items.len()
        invariant
            i <= items@.len(),
            forall|j: int| 0 <= j < i ==> items_view(items@)[j].id != id,
        decreases items@.len() - i,
    {
        if items[i].id == id {
            return Some(i);
        }
        i = i + 1;
    }
    None
}

/// Find the position of the item row with this uuid.
pub(crate) fn find_item_index_by_uuid(items: &Vec<VaultItem>, uuid: &str) -> (r: Option<usize>)
    ensures
        match r {
            Some(i) => i < items@.len() && items_view(items@)[i as int].uuid == Some(uuid@),
            None => !has_item_uuid(items_view(items@), uuid@),
        },
{
    let mut i: usize = 0;
    while i < items.len()
        invariant
            i <= items@.len(),
            forall|j: int| 0 <= j < i ==> items_view(items@)[j].uuid != Some(uuid@),
        decreases items@.len() - i,
    {
        let hit = match &items[i].uuid {
            Some(u) => str_eq(u.as_str(), uuid),
            None => false,
        };
        if hit {
            return Some(i);
        }
        i = i + 1;
    }
    None
}

/// Find the position of the settings row with this key.
pub(crate) fn find_setting_index(settings: &Vec<(String, String)>, key: &str) -> (r: Option<usize>)
    ensures
        match r {
            Some(i) => i < settings@.len() && settings_view(settings@)[i as int].0 == key@,
            None => !has_setting(settings_view(settings@), key@),
        },
{
    let mut i: usize = 0;
    while i < settings.len()
        invariant
            i <= settings@.len(),
            forall|j: int| 0 <= j < i ==> settings_view(settings@)[j].0 != key@,
        decreases settings@.len() - i,
    {
        if str_eq(settings[i].0.as_str(), key) {
            return Some(i);
        }
        i = i + 1;
    }
    None
}

impl Vault {
    /// Get a vault by its local id.
    pub fn get_by_id(store: &VaultStore, vault_id: i64) -> (r: Option<Vault>)
        requires
            store@.wf(),
        ensures
            match r {
                Some(v) => has_vault_id(store@.vaults, vault_id) && v@ == vault_by_id(
                    store@.vaults,
                    vault_id,
                ),
                None => !has_vault_id(store@.vaults, vault_id),
            },
    {
        match find_vault_index(&store.vaults, vault_id) {
            Some(i) => {
                proof {
                    lemma_vault_idx(store@.vaults, i as int, vault_id);
                }
                Some(store.vaults[i].duplicate())
            },
            None => None,
        }
    }

    /// Get a vault by its uuid (for sync operations).
    pub fn get_by_uuid(store: &VaultStore, uuid: &str) -> (r: Option<Vault>)
        requires
            store@.wf(),
        ensures
            match r {
                Some(v) => has_vault_uuid(store@.vaults, uuid@) && v@ == vault_by_uuid(
                    store@.vaults,
                    uuid@,
                ),
                None => !has_vault_uuid(store@.vaults, uuid@),
            },
    {
        match find_vault_index_by_uuid(&store.vaults, uuid) {
            Some(i) => {
                proof {
                    lemma_vault_uuid_idx(store@.vaults, i as int, uuid@);
                }
                Some(store.vaults[i].duplicate())
            },
            None => None,
        }
    }
}

impl VaultItem {
    /// Get an item by its local id; absent rows are an error, as callers
    /// address items they believe exist.
    pub fn get_by_id(store: &VaultStore, item_id: i64) -> (r: Result<VaultItem, VaultError>)
        requires
            store@.wf(),
        ensures
            match r {
                Ok(it) => has_item_id(store@.items, item_id) && it@ == item_by_id(
                    store@.items,
                    item_id,
                ),
                Err(e) => !has_item_id(store@.items, item_id) && e == VaultError::NotFound(
                    item_id,
                ),
            },
    {
        match find_item_index(&store.items, item_id) {
            Some(i) => {
                proof {
                    lemma_item_idx(store@.items, i as int, item_id);
                }
                Ok(store.items[i].duplicate())
            },
            None => Err(VaultError::NotFound(item_id)),
        }
    }

    /// Get an item by its uuid (for sync operations).
    pub fn get_by_uuid(store: &VaultStore, uuid: &str) -> (r: Option<VaultItem>)
        requires
            store@.wf(),
        ensures
            match r {
                Some(it) => has_item_uuid(store@.items, uuid@) && it@ == item_by_uuid(
                    store@.items,
                    uuid@,
                ),
                None => !has_item_uuid(store@.items, uuid@),
            },
    {
        match find_item_index_by_uuid(&store.items, uuid) {
            Some(i) => {
                proof {
                    lemma_item_uuid_idx(store@.items, i as int, uuid@);
                }
                Some(store.items[i].duplicate())
            },
            None => None,
        }
    }
}

impl SyncSettings {
    /// Read the value stored under `key`.
    pub fn get(store: &VaultStore, key: &str) -> (r: Option<String>)
        requires
            store@.wf(),
        ensures
            opt_view(r) == setting_val(store@.settings, key@),
    {
        match find_setting_index(&store.settings, key) {
            Some(i) => {
                proof {
                    lemma_setting_idx(store@.settings, i as int, key@);
                }
                Some(store.settings[i].1.clone())
            },
            None => None,
        }
    }

    /// Store `value` under `key`, replacing any previous value.
    pub fn set(store: &mut VaultStore, key: &str, value: &str)
        requires
            old(store)@.wf(),
        ensures
            final(store)@.wf(),
            setting_val(final(store)@.settings, key@) == Some(value@),
            forall|k: Seq<char>|
                k != key@ ==> setting_val(final(store)@.settings, k) == setting_val(
                    old(store)@.settings,
                    k,
                ),
            final(store)@.vaults == old(store)@.vaults,
            final(store)@.items == old(store)@.items,
            final(store)@.next_vault_id == old(store)@.next_vault_id,
            final(store)@.next_item_id == old(store)@.next_item_id,
    {
        let ghost ss0 = store@.settings;
        let entry = (String::from_str(key), String::from_str(value));
        match find_setting_index(&store.settings, key) {
            Some(i) => {
                store.settings.remove(i);
                store.settings.insert(i, entry);
                proof {
                    let ss1 = store@.settings;
                    assert(ss1 =~= ss0.update(i as int, (key@, value@)));
                    assert forall|a: int, b: int| 0 <= a < b < ss1.len() implies (
                    #[trigger] ss1[a]).0 != (#[trigger] ss1[b]).0 by {
                        assert(ss1[a].0 == ss0[a].0);
                        assert(ss1[b].0 == ss0[b].0);
                    }
                    lemma_setting_idx(ss1, i as int, key@);
                    assert forall|k: Seq<char>| k != key@ implies setting_val(ss1, k)
                        == setting_val(ss0, k) by {
                        lemma_setting_frame(ss0, ss1, i as int, k);
                    }
                    assert(final(store)@.vaults =~= old(store)@.vaults);
                    assert(final(store)@.items =~= old(store)@.items);
                }
            },
            None => {
                store.settings.push(entry);
                proof {
                    let ss1 = store@.settings;
                    assert(ss1 =~= ss0.push((key@, value@)));
                    assert(settings_keys_unique(ss1)) by {
                        assert forall|i: int, j: int| 0 <= i < j < ss1.len() implies (
                        #[trigger] ss1[i]).0 != (#[trigger] ss1[j]).0 by {
                            if j == ss1.len() - 1 {
                                assert(ss1[j].0 == key@);
                                assert(!has_setting(ss0, key@));
                                assert(ss0[i].0 != key@);
                            }
                        }
                    }
                    lemma_setting_idx(ss1, ss1.len() - 1, key@);
                    assert forall|k: Seq<char>| k != key@ implies setting_val(ss1, k)
                        == setting_val(ss0, k) by {
                        lemma_setting_frame_push(ss0, ss1, k, key@);
                    }
                    assert(final(store)@.vaults =~= old(store)@.vaults);
                    assert(final(store)@.items =~= old(store)@.items);
                }
            },
        }
    }

    /// Remove the row stored under `key`, if any.
    pub fn delete(store: &mut VaultStore, key: &str)
        requires
            old(store)@.wf(),
        ensures
            final(store)@.wf(),
            setting_val(final(store)@.settings, key@) is None,
            forall|k: Seq<char>|
                k != key@ ==> setting_val(final(store)@.settings, k) == setting_val(
                    old(store)@.settings,
                    k,
                ),
            final(store)@.vaults == old(store)@.vaults,
            final(store)@.items == old(store)@.items,
            final(store)@.next_vault_id == old(store)@.next_vault_id,
            final(store)@.next_item_id == old(store)@.next_item_id,
    {
        let ghost ss0 = store@.settings;
        match find_setting_index(&store.settings, key) {
            Some(i) => {
                store.settings.remove(i);
                proof {
                    let ss1 = store@.settings;
                    assert(ss1 =~= ss0.remove(i as int));
                    assert forall|a: int, b: int| 0 <= a < b < ss1.len() implies (
                    #[trigger] ss1[a]).0 != (#[trigger] ss1[b]).0 by {
                        let a0: int = if a < i { a } else { a + 1 };
                        let b0: int = if b < i { b } else { b + 1 };
                        assert(ss1[a] == ss0[a0]);
                        assert(ss1[b] == ss0[b0]);
                    }
                    assert forall|k: Seq<char>| k != key@ implies setting_val(ss1, k)
                        == setting_val(ss0, k) by {
                        lemma_setting_frame_remove(ss0, ss1, i as int, k);
                    }
                    if has_setting(ss1, key@) {
                        let j = setting_idx(ss1, key@);
                        assert(ss1[j].0 == key@);
                        if j < i {
                            assert(ss0[j].0 == key@);
                            lemma_setting_idx(ss0, j, key@);
                            assert(false);
                        } else {
                            assert(ss0[j + 1].0 == key@);
                            lemma_setting_idx(ss0, j + 1, key@);
                            assert(false);
                        }
                    }
                    assert(final(store)@.vaults =~= old(store)@.vaults);
                    assert(final(store)@.items =~= old(store)@.items);
                }
            },
            None => {
                proof {
                    assert(final(store)@.vaults =~= old(store)@.vaults);
                    assert(final(store)@.items =~= old(store)@.items);
                    assert(final(store)@.settings =~= old(store)@.settings);
                }
            },
        }
    }

    /// All settings rows, as key/value pairs.
    pub fn get_all(store: &VaultStore) -> (r: Vec<(String, String)>)
        requires
            store@.wf(),
        ensures
            settings_view(r@) == store@.settings,
    {
        let mut out: Vec<(String, String)> = Vec::new();
        let mut i: usize = 0;
        while i < store.settings.len()
            invariant
                i <= store.settings@.len(),
                out@.len() == i,
                settings_view(out@) =~~= store@.settings.take(i as int),
            decreases store.settings@.len() - i,
        {
            out.push((store.settings[i].0.clone(), store.settings[i].1.clone()));
            proof {
                assert(settings_view(out@) =~~= store@.settings.take(i + 1 as int));
            }
            i = i + 1;
        }
        proof {
            assert(store@.settings.take(store.settings@.len() as int) =~~= store@.settings);
        }
        out
    }
}

/// An update at one position leaves lookups of other keys unchanged.
proof fn lemma_setting_frame(
    ss0: Seq<(Seq<char>, Seq<char>)>,
    ss1: Seq<(Seq<char>, Seq<char>)>,
    i: int,
    k: Seq<char>,
)
    requires
        settings_keys_unique(ss0),
        settings_keys_unique(ss1),
        0 <= i < ss0.len(),
        ss1.len() == ss0.len(),
        forall|j: int| 0 <= j < ss0.len() && j != i ==> ss1[j] == ss0[j],
        ss0[i].0 != k,
        ss1[i].0 != k,
    ensures
        setting_val(ss1, k) == setting_val(ss0, k),
{
    if has_setting(ss0, k) {
        let j = setting_idx(ss0, k);
        assert(ss0[j].0 == k);
        assert(j != i);
        assert(ss1[j].0 == k);
        lemma_setting_idx(ss1, j, k);
        lemma_setting_idx(ss0, j, k);
    } else {
        if has_setting(ss1, k) {
            let j = setting_idx(ss1, k);
            assert(ss1[j].0 == k);
            assert(j != i);
            assert(ss0[j].0 == k);
            lemma_setting_idx(ss0, j, k);
            assert(false);
        }
    }
}

/// A push of a new key leaves lookups of other keys unchanged.
proof fn lemma_setting_frame_push(
    ss0: Seq<(Seq<char>, Seq<char>)>,
    ss1: Seq<(Seq<char>, Seq<char>)>,
    k: Seq<char>,
    key: Seq<char>,
)
    requires
        settings_keys_unique(ss0),
        settings_keys_unique(ss1),
        ss1.len() == ss0.len() + 1,
        forall|j: int| 0 <= j < ss0.len() ==> ss1[j] == ss0[j],
        ss1[ss0.len() as int].0 == key,
        k != key,
    ensures
        setting_val(ss1, k) == setting_val(ss0, k),
{
    if has_setting(ss0, k) {
        let j = setting_idx(ss0, k);
        assert(ss0[j].0 == k);
        assert(ss1[j].0 == k);
        lemma_setting_idx(ss1, j, k);
        lemma_setting_idx(ss0, j, k);
    } else {
        if has_setting(ss1, k) {
            let j = setting_idx(ss1, k);
            assert(ss1[j].0 == k);
            assert(j != ss0.len());
            assert(ss0[j].0 == k);
            lemma_setting_idx(ss0, j, k);
            assert(false);
        }
    }
}

/// A removal leaves lookups of other keys unchanged.
proof fn lemma_setting_frame_remove(
    ss0: Seq<(Seq<char>, Seq<char>)>,
    ss1: Seq<(Seq<char>, Seq<char>)>,
    i: int,
    k: Seq<char>,
)
    requires
        settings_keys_unique(ss0),
        settings_keys_unique(ss1),
        0 <= i < ss0.len(),
        ss1 == ss0.remove(i),
        ss0[i].0 != k,
    ensures
        setting_val(ss1, k) == setting_val(ss0, k),
{
    if has_setting(ss0, k) {
        let j = setting_idx(ss0, k);
        assert(ss0[j].0 == k);
        assert(j != i);
        if j < i {
            assert(ss1[j].0 == k);
            lemma_setting_idx(ss1, j, k);
        } else {
            assert(ss1[j - 1] == ss0[j]);
            lemma_setting_idx(ss1, j - 1, k);
        }
        lemma_setting_idx(ss0, j, k);
    } else {
        if has_setting(ss1, k) {
            let j = setting_idx(ss1, k);
            assert(ss1[j].0 == k);
            if j < i {
                assert(ss0[j].0 == k);
                lemma_setting_idx(ss0, j, k);
            } else {
                assert(ss0[j + 1].0 == k);
                lemma_setting_idx(ss0, j + 1, k);
            }
            assert(false);
        }
    }
}

/// In-place row updates that keep every id and uuid keep well-formedness.
pub proof fn lemma_wf_same_idents(s0: StoreV, s1: StoreV)
    requires
        s0.wf(),
        s1.vaults.len() == s0.vaults.len(),
        forall|j: int|
            0 <= j < s0.vaults.len() ==> (#[trigger] s1.vaults[j]).id == s0.vaults[j].id
                && s1.vaults[j].uuid == s0.vaults[j].uuid,
        s1.items.len() == s0.items.len(),
        forall|j: int|
            0 <= j < s0.items.len() ==> (#[trigger] s1.items[j]).id == s0.items[j].id
                && s1.items[j].uuid == s0.items[j].uuid,
        s1.settings == s0.settings,
        s1.next_vault_id == s0.next_vault_id,
        s1.next_item_id == s0.next_item_id,
    ensures
        s1.wf(),
{
}

/// Appending a vault row with the next free id and a fresh uuid keeps
/// well-formedness.
pub proof fn lemma_wf_vault_push(s0: StoreV, s1: StoreV, nv: VaultV)
    requires
        s0.wf(),
        s1.vaults == s0.vaults.push(nv),
        nv.id == s0.next_vault_id,
        s0.next_vault_id < i64::MAX,
        s1.next_vault_id == s0.next_vault_id + 1,
        nv.uuid matches Some(u) ==> !has_vault_uuid(s0.vaults, u),
        s1.items == s0.items,
        s1.settings == s0.settings,
        s1.next_item_id == s0.next_item_id,
    ensures
        s1.wf(),
{
    assert forall|i: int, j: int| 0 <= i < j < s1.vaults.len() implies !((
    #[trigger] s1.vaults[i]).uuid is Some && s1.vaults[i].uuid == (#[trigger] s1.vaults[j]).uuid) by {
        if j == s1.vaults.len() - 1 {
            if s1.vaults[i].uuid is Some && s1.vaults[i].uuid == nv.uuid {
                let u = nv.uuid->0;
                assert(s0.vaults[i].uuid == Some(u));
                assert(has_vault_uuid(s0.vaults, u));
            }
        }
    }
}

/// Appending an item row with the next free id and a fresh uuid keeps
/// well-formedness.
pub proof fn lemma_wf_item_push(s0: StoreV, s1: StoreV, ni: ItemV)
    requires
        s0.wf(),
        s1.items == s0.items.push(ni),
        ni.id == s0.next_item_id,
        s0.next_item_id < i64::MAX,
        s1.next_item_id == s0.next_item_id + 1,
        ni.uuid matches Some(u) ==> !has_item_uuid(s0.items, u),
        s1.vaults.len() == s0.vaults.len(),
        forall|j: int|
            0 <= j < s0.vaults.len() ==> (#[trigger] s1.vaults[j]).id == s0.vaults[j].id
                && s1.vaults[j].uuid == s0.vaults[j].uuid,
        s1.settings == s0.settings,
        s1.next_vault_id == s0.next_vault_id,
    ensures
        s1.wf(),
{
    assert forall|i: int, j: int| 0 <= i < j < s1.items.len() implies !((
    #[trigger] s1.items[i]).uuid is Some && s1.items[i].uuid == (#[trigger] s1.items[j]).uuid) by {
        if j == s1.items.len() - 1 {
            if s1.items[i].uuid is Some && s1.items[i].uuid == ni.uuid {
                let u = ni.uuid->0;
                assert(s0.items[i].uuid == Some(u));
                assert(has_item_uuid(s0.items, u));
            }
        }
    }
}

/// Every element of a filtered sequence stands somewhere in the original.
pub proof fn lemma_filter_subset<A>(s: Seq<A>, pred: spec_fn(A) -> bool, i: int)
    requires
        0 <= i < s.filter(pred).len(),
    ensures
        exists|k: int| 0 <= k < s.len() && #[trigger] s[k] == s.filter(pred)[i],
    decreases s.len(),
{
    reveal(Seq::filter);
    if s.len() > 0 {
        let fd = s.drop_last().filter(pred);
        if i < fd.len() {
            lemma_filter_subset(s.drop_last(), pred, i);
            let k = choose|k: int|
                0 <= k < s.drop_last().len() && #[trigger] s.drop_last()[k] == fd[i];
            assert(s[k] == s.filter(pred)[i]);
        } else {
            assert(s[s.len() - 1] == s.filter(pred)[i]);
        }
    }
}

/// Filtering keeps item ids and uuids unique.
pub proof fn lemma_filter_items_unique(s: Seq<ItemV>, pred: spec_fn(ItemV) -> bool)
    requires
        item_ids_unique(s),
        item_uuids_unique(s),
    ensures
        item_ids_unique(s.filter(pred)),
        item_uuids_unique(s.filter(pred)),
        forall|i: int|
            0 <= i < s.filter(pred).len() ==> exists|k: int|
                0 <= k < s.len() && #[trigger] s[k] == #[trigger] s.filter(pred)[i],
    decreases s.len(),
{
    reveal(Seq::filter);
    assert forall|i: int| 0 <= i < s.filter(pred).len() implies exists|k: int|
        0 <= k < s.len() && #[trigger] s[k] == #[trigger] s.filter(pred)[i] by {
        lemma_filter_subset(s, pred, i);
    }
    if s.len() > 0 {
        lemma_filter_items_unique(s.drop_last(), pred);
        let f = s.filter(pred);
        let fd = s.drop_last().filter(pred);
        assert forall|i: int, j: int| 0 <= i < j < f.len() implies (#[trigger] f[i]).id != (
        #[trigger] f[j]).id by {
            if j >= fd.len() {
                // f[j] is the last row of s; f[i] stands earlier in s
                lemma_filter_subset(s.drop_last(), pred, i);
                let k = choose|k: int|
                    0 <= k < s.drop_last().len() && #[trigger] s.drop_last()[k] == fd[i];
                assert(s[k] == f[i]);
                assert(s[s.len() - 1] == f[j]);
            }
        }
        assert forall|i: int, j: int| 0 <= i < j < f.len() implies !((#[trigger] f[i]).uuid is Some
            && f[i].uuid == (#[trigger] f[j]).uuid) by {
            if j >= fd.len() {
                lemma_filter_subset(s.drop_last(), pred, i);
                let k = choose|k: int|
                    0 <= k < s.drop_last().len() && #[trigger] s.drop_last()[k] == fd[i];
                assert(s[k] == f[i]);
                assert(s[s.len() - 1] == f[j]);
            }
        }
    }
}

/// Filtering keeps vault ids and uuids unique.
pub proof fn lemma_filter_vaults_unique(s: Seq<VaultV>, pred: spec_fn(VaultV) -> bool)
    requires
        vault_ids_unique(s),
        vault_uuids_unique(s),
    ensures
        vault_ids_unique(s.filter(pred)),
        vault_uuids_unique(s.filter(pred)),
        forall|i: int|
            0 <= i < s.filter(pred).len() ==> exists|k: int|
                0 <= k < s.len() && #[trigger] s[k] == #[trigger] s.filter(pred)[i],
    decreases s.len(),
{
    reveal(Seq::filter);
    assert forall|i: int| 0 <= i < s.filter(pred).len() implies exists|k: int|
        0 <= k < s.len() && #[trigger] s[k] == #[trigger] s.filter(pred)[i] by {
        lemma_filter_subset(s, pred, i);
    }
    if s.len() > 0 {
        lemma_filter_vaults_unique(s.drop_last(), pred);
        let f = s.filter(pred);
        let fd = s.drop_last().filter(pred);
        assert forall|i: int, j: int| 0 <= i < j < f.len() implies (#[trigger] f[i]).id != (
        #[trigger] f[j]).id by {
            if j >= fd.len() {
                lemma_filter_subset(s.drop_last(), pred, i);
                let k = choose|k: int|
                    0 <= k < s.drop_last().len() && #[trigger] s.drop_last()[k] == fd[i];
                assert(s[k] == f[i]);
                assert(s[s.len() - 1] == f[j]);
            }
        }
        assert forall|i: int, j: int| 0 <= i < j < f.len() implies !((#[trigger] f[i]).uuid is Some
            && f[i].uuid == (#[trigger] f[j]).uuid) by {
            if j >= fd.len() {
                lemma_filter_subset(s.drop_last(), pred, i);
                let k = choose|k: int|
                    0 <= k < s.drop_last().len() && #[trigger] s.drop_last()[k] == fd[i];
                assert(s[k] == f[i]);
                assert(s[s.len() - 1] == f[j]);
            }
        }
    }
}

/// The vault row after a rename at time `now`.
pub open spec fn vault_renamed(v: VaultV, name: Seq<char>, now: Seq<char>) -> VaultV {
    VaultV { name: name, updated_at: Some(now), ..v }
}

/// The vault row after its cover image is replaced at time `now`.
pub open spec fn vault_with_cover(v: VaultV, cover: Option<Seq<char>>, now: Seq<char>) -> VaultV {
    VaultV { cover_image: cover, updated_at: Some(now), ..v }
}

/// The vault row after a soft delete at time `now`.
pub open spec fn vault_tombstoned(v: VaultV, now: Seq<char>) -> VaultV {
    VaultV { deleted_at: Some(now), updated_at: Some(now), ..v }
}

/// The vault row with only its `updated_at` bumped to `now`.
pub open spec fn vault_touched(v: VaultV, now: Seq<char>) -> VaultV {
    VaultV { updated_at: Some(now), ..v }
}

/// The item row tombstoned by a vault-level cascade: only `deleted_at`
/// is set.
pub open spec fn item_cascade_tombstoned(it: ItemV, now: Seq<char>) -> ItemV {
    ItemV { deleted_at: Some(now), ..it }
}

impl Vault {
    /// Rename a vault and bump its `updated_at`. A missing vault changes
    /// nothing, as in the underlying row update.
    pub fn rename(store: &mut VaultStore, vault_id: i64, name: &str, now: &str) -> (r: Result<
        (),
        VaultError,
    >)
        requires
            old(store)@.wf(),
        ensures
            final(store)@.wf(),
            r is Ok,
            final(store)@.vaults == if has_vault_id(old(store)@.vaults, vault_id) {
                old(store)@.vaults.update(
                    vault_idx_by_id(old(store)@.vaults, vault_id),
                    vault_renamed(vault_by_id(old(store)@.vaults, vault_id), name@, now@),
                )
            } else {
                old(store)@.vaults
            },
            final(store)@.items == old(store)@.items,
            final(store)@.settings == old(store)@.settings,
            final(store)@.next_vault_id == old(store)@.next_vault_id,
            final(store)@.next_item_id == old(store)@.next_item_id,
    {
        match find_vault_index(&store.vaults, vault_id) {
            Some(i) => {
                proof {
                    lemma_vault_idx(store@.vaults, i as int, vault_id);
                }
                let mut v = store.vaults.remove(i);
                v.name = String::from_str(name);
                v.updated_at = Some(String::from_str(now));
                store.vaults.insert(i, v);
                proof {
                    assert(store@.vaults =~= old(store)@.vaults.update(
                        i as int,
                        vault_renamed(vault_by_id(old(store)@.vaults, vault_id), name@, now@),
                    ));
                    lemma_wf_same_idents(old(store)@, store@);
                }
                Ok(())
            },
            None => Ok(()),
        }
    }

    /// Replace (or clear) a vault cover image and bump its `updated_at`.
    pub fn update_cover_image(
        store: &mut VaultStore,
        vault_id: i64,
        cover_image: Option<&str>,
        now: &str,
    ) -> (r: Result<(), VaultError>)
        requires
            old(store)@.wf(),
        ensures
            final(store)@.wf(),
            r is Ok,
            final(store)@.vaults == if has_vault_id(old(store)@.vaults, vault_id) {
                old(store)@.vaults.update(
                    vault_idx_by_id(old(store)@.vaults, vault_id),
                    vault_with_cover(
                        vault_by_id(old(store)@.vaults, vault_id),
                        match cover_image {
                            Some(c) => Some(c@),
                            None => None,
                        },
                        now@,
                    ),
                )
            } else {
                old(store)@.vaults
            },
            final(store)@.items == old(store)@.items,
            final(store)@.settings == old(store)@.settings,
            final(store)@.next_vault_id == old(store)@.next_vault_id,
            final(store)@.next_item_id == old(store)@.next_item_id,
    {
        match find_vault_index(&store.vaults, vault_id) {
            Some(i) => {
                proof {
                    lemma_vault_idx(store@.vaults, i as int, vault_id);
                }
                let mut v = store.vaults.remove(i);
                v.cover_image = match cover_image {
                    Some(c) => Some(String::from_str(c)),
                    None => None,
                };
                v.updated_at = Some(String::from_str(now));
                store.vaults.insert(i, v);
                proof {
                    assert(store@.vaults =~= old(store)@.vaults.update(
                        i as int,
                        vault_with_cover(
                            vault_by_id(old(store)@.vaults, vault_id),
                            match cover_image {
                                Some(c) => Some(c@),
                                None => None,
                            },
                            now@,
                        ),
                    ));
                    lemma_wf_same_idents(old(store)@, store@);
                }
                Ok(())
            },
            None => Ok(()),
        }
    }

    /// Soft-delete a vault: tombstone the vault row and cascade the
    /// tombstone to every live item it owns. Rows persist until purged.
    pub fn delete(store: &mut VaultStore, vault_id: i64, now: &str) -> (r: Result<(), VaultError>)
        requires
            old(store)@.wf(),
        ensures
            final(store)@.wf(),
            r is Ok,
            final(store)@.vaults == if has_vault_id(old(store)@.vaults, vault_id) {
                old(store)@.vaults.update(
                    vault_idx_by_id(old(store)@.vaults, vault_id),
                    vault_tombstoned(vault_by_id(old(store)@.vaults, vault_id), now@),
                )
            } else {
                old(store)@.vaults
            },
            final(store)@.items.len() == old(store)@.items.len(),
            forall|j: int|
                0 <= j < old(store)@.items.len() ==> #[trigger] final(store)@.items[j] == (
                if old(store)@.items[j].vault_id == vault_id && old(store)@.items[j].deleted_at
                    is None {
                    item_cascade_tombstoned(old(store)@.items[j], now@)
                } else {
                    old(store)@.items[j]
                }),
            final(store)@.settings == old(store)@.settings,
            final(store)@.next_vault_id == old(store)@.next_vault_id,
            final(store)@.next_item_id == old(store)@.next_item_id,
    {
        let ghost is0 = store@.items;
        let mut new_items: Vec<VaultItem> = Vec::new();
        let mut i: usize = 0;
        while i < store.items.len()
            invariant
                i <= store.items@.len(),
                is0 == items_view(store.items@),
                new_items@.len() == i,
                forall|j: int|
                    0 <= j < i ==> #[trigger] items_view(new_items@)[j] == (if is0[j].vault_id
                        == vault_id && is0[j].deleted_at is None {
                        item_cascade_tombstoned(is0[j], now@)
                    } else {
                        is0[j]
                    }),
            decreases store.items@.len() - i,
        {
            let ghost prev = new_items@;
            let it = &store.items[i];
            if it.vault_id == vault_id && it.deleted_at.is_none() {
                let mut c = it.duplicate();
                c.deleted_at = Some(String::from_str(now));
                new_items.push(c);
                proof {
                    assert(items_view(new_items@)[i as int] == c@);
                    assert(c@ == item_cascade_tombstoned(is0[i as int], now@));
                }
            } else {
                new_items.push(it.duplicate());
                proof {
                    assert(items_view(new_items@)[i as int] == is0[i as int]);
                }
            }
            proof {
                assert forall|j: int| 0 <= j < i implies #[trigger] items_view(new_items@)[j]
                    == items_view(prev)[j] by {
                    assert(new_items@[j] == prev[j]);
                }
            }
            i = i + 1;
        }
        store.items = new_items;
        match find_vault_index(&store.vaults, vault_id) {
            Some(k) => {
                proof {
                    lemma_vault_idx(store@.vaults, k as int, vault_id);
                }
                let mut v = store.vaults.remove(k);
                v.deleted_at = Some(String::from_str(now));
                v.updated_at = Some(String::from_str(now));
                store.vaults.insert(k, v);
                proof {
                    assert(store@.vaults =~= old(store)@.vaults.update(
                        k as int,
                        vault_tombstoned(vault_by_id(old(store)@.vaults, vault_id), now@),
                    ));
                    lemma_wf_same_idents(old(store)@, store@);
                }
            },
            None => {
                proof {
                    lemma_wf_same_idents(old(store)@, store@);
                }
            },
        }
        Ok(())
    }

    /// Hard-delete a vault and all its items: the rows are removed
    /// outright, as when purging or discarding a vault.
    pub fn hard_delete(store: &mut VaultStore, vault_id: i64) -> (r: Result<(), VaultError>)
        requires
            old(store)@.wf(),
        ensures
            final(store)@.wf(),
            r is Ok,
            final(store)@.vaults == old(store)@.vaults.filter(
                (|v: VaultV| v.id != vault_id),
            ),
            final(store)@.items == old(store)@.items.filter(
                (|it: ItemV| it.vault_id != vault_id),
            ),
            final(store)@.settings == old(store)@.settings,
            final(store)@.next_vault_id == old(store)@.next_vault_id,
            final(store)@.next_item_id == old(store)@.next_item_id,
    {
        let ghost is0 = store@.items;
        let ghost vs0 = store@.vaults;
        let mut new_items: Vec<VaultItem> = Vec::new();
        let mut i: usize = 0;
        while i < store.items.len()
            invariant
                i <= store.items@.len(),
                is0 == items_view(store.items@),
                items_view(new_items@) =~= is0.take(i as int).filter(
                    (|it: ItemV| it.vault_id != vault_id),
                ),
            decreases store.items@.len() - i,
        {
            proof {
                reveal(Seq::filter);
                assert(is0.take(i + 1 as int).drop_last() =~= is0.take(i as int));
                assert(is0.take(i + 1 as int).last() == is0[i as int]);
            }
            let it = &store.items[i];
            if !(it.vault_id == vault_id) {
                new_items.push(it.duplicate());
            }
            proof {
                assert(items_view(new_items@) =~= is0.take(i + 1 as int).filter(
                    (|it: ItemV| it.vault_id != vault_id),
                ));
            }
            i = i + 1;
        }
        store.items = new_items;
        let mut new_vaults: Vec<Vault> = Vec::new();
        let mut k: usize = 0;
        while k < store.vaults.len()
            invariant
                k <= store.vaults@.len(),
                vs0 == vaults_view(store.vaults@),
                vaults_view(new_vaults@) =~= vs0.take(k as int).filter(
                    (|v: VaultV| v.id != vault_id),
                ),
            decreases store.vaults@.len() - k,
        {
            proof {
                reveal(Seq::filter);
                assert(vs0.take(k + 1 as int).drop_last() =~= vs0.take(k as int));
                assert(vs0.take(k + 1 as int).last() == vs0[k as int]);
            }
            let v = &store.vaults[k];
            if !(v.id == vault_id) {
                new_vaults.push(v.duplicate());
            }
            proof {
                assert(vaults_view(new_vaults@) =~= vs0.take(k + 1 as int).filter(
                    (|v: VaultV| v.id != vault_id),
                ));
            }
            k = k + 1;
        }
        store.vaults = new_vaults;
        proof {
            assert(is0.take(is0.len() as int) =~= is0);
            assert(vs0.take(vs0.len() as int) =~= vs0);
            lemma_filter_items_unique(is0, (|it: ItemV| it.vault_id != vault_id));
            lemma_filter_vaults_unique(vs0, (|v: VaultV| v.id != vault_id));
            let fi = is0.filter((|it: ItemV| it.vault_id != vault_id));
            let fv = vs0.filter((|v: VaultV| v.id != vault_id));
            assert forall|j: int| 0 <= j < fi.len() implies 1 <= (#[trigger] fi[j]).id < old(
                store,
            )@.next_item_id by {
                let w = choose|w: int| 0 <= w < is0.len() && #[trigger] is0[w] == fi[j];
            }
            assert forall|j: int| 0 <= j < fv.len() implies 1 <= (#[trigger] fv[j]).id < old(
                store,
            )@.next_vault_id by {
                let w = choose|w: int| 0 <= w < vs0.len() && #[trigger] vs0[w] == fv[j];
            }
        }
        Ok(())
    }
}

impl Vault {
    /// Insert a new vault row under a caller-supplied key: the password is
    /// encrypted under `key` as the verification payload when the vault is
    /// protected, and an empty payload is stored otherwise.
    pub fn insert(
        store: &mut VaultStore,
        name: &str,
        password: &str,
        key: &[u8],
        has_password: bool,
        now: &str,
        uuid: &str,
    ) -> (r: Result<Vault, VaultError>)
        requires
            old(store)@.wf(),
            old(store)@.next_vault_id < i64::MAX,
            key@.len() == 32,
        ensures
            final(store)@.wf(),
            has_vault_uuid(old(store)@.vaults, uuid@) ==> r == Err::<Vault, VaultError>(
                VaultError::DuplicateUuid,
            ),
            !has_vault_uuid(old(store)@.vaults, uuid@) && !(has_password && password@.len() > 0)
                ==> r is Ok,
            !has_vault_uuid(old(store)@.vaults, uuid@) && sealable(encode_utf8(password@)) ==> r
                is Ok,
            r matches Err(e) ==> final(store)@ == old(store)@ && (e == VaultError::DuplicateUuid
                || e == VaultError::CryptoFailure) && (e == VaultError::DuplicateUuid
                <==> has_vault_uuid(old(store)@.vaults, uuid@)),
            r matches Ok(v) ==> ({
                let protected = has_password && password@.len() > 0;
                let nv = v@;
                &&& final(store)@.vaults == old(store)@.vaults.push(nv)
                &&& nv.id == old(store)@.next_vault_id
                &&& nv.name == name@
                &&& nv.created_at == now@
                &&& nv.updated_at == Some(now@)
                &&& nv.uuid == Some(uuid@)
                &&& nv.cover_image is None
                &&& nv.deleted_at is None
                &&& nv.has_password == protected
                &&& (protected ==> blob_plaintext(key@, nv.encrypted_password) == Some(password@))
                &&& (!protected ==> nv.encrypted_password == Seq::<u8>::empty())
                &&& final(store)@.next_vault_id == old(store)@.next_vault_id + 1
                &&& final(store)@.items == old(store)@.items
                &&& final(store)@.settings == old(store)@.settings
                &&& final(store)@.next_item_id == old(store)@.next_item_id
            }),
    {
        match find_vault_index_by_uuid(&store.vaults, uuid) {
            Some(_) => {
                return Err(VaultError::DuplicateUuid);
            },
            None => {},
        }
        let protected = has_password && !password.is_empty();
        let enc: Vec<u8> = if protected {
            match encrypt_password(key, password) {
                Ok(e) => e,
                Err(_) => {
                    return Err(VaultError::CryptoFailure);
                },
            }
        } else {
            let e: Vec<u8> = Vec::new();
            proof {
                assert(e@ =~= Seq::<u8>::empty());
            }
            e
        };
        let id = store.next_vault_id;
        let v = Vault {
            id,
            name: String::from_str(name),
            encrypted_password: enc,
            created_at: String::from_str(now),
            cover_image: None,
            has_password: protected,
            uuid: Some(String::from_str(uuid)),
            updated_at: Some(String::from_str(now)),
            deleted_at: None,
        };
        let out = v.duplicate();
        let ghost nv = v@;
        store.vaults.push(v);
        store.next_vault_id = id + 1;
        proof {
            assert(store@.vaults =~= old(store)@.vaults.push(nv));
            lemma_wf_vault_push(old(store)@, store@, nv);
        }
        Ok(out)
    }
}

impl VaultStore {
    /// Create a vault whose key is derived from its own fresh id: when the
    /// vault is protected, the key comes from PBKDF2 over the password with
    /// the decimal id as salt, and the password itself, encrypted under
    /// that key, is stored as the verification payload.
    pub fn create_vault(
        &mut self,
        name: &str,
        password: &str,
        has_password: bool,
        now: &str,
        uuid: &str,
    ) -> (r: Result<Vault, VaultError>)
        requires
            old(self)@.wf(),
            old(self)@.next_vault_id < i64::MAX,
        ensures
            final(self)@.wf(),
            has_vault_uuid(old(self)@.vaults, uuid@) ==> r == Err::<Vault, VaultError>(
                VaultError::DuplicateUuid,
            ),
            !has_vault_uuid(old(self)@.vaults, uuid@) && !(has_password && password@.len() > 0)
                ==> r is Ok,
            !has_vault_uuid(old(self)@.vaults, uuid@) && sealable(encode_utf8(password@)) ==> r
                is Ok,
            r matches Err(e) ==> final(self)@ == old(self)@ && (e == VaultError::DuplicateUuid
                || e == VaultError::CryptoFailure) && (e == VaultError::DuplicateUuid
                <==> has_vault_uuid(old(self)@.vaults, uuid@)),
            r matches Ok(v) ==> ({
                let protected = has_password && password@.len() > 0;
                let id = old(self)@.next_vault_id;
                let vault_key = pbkdf2_sha256(
                    encode_utf8(password@),
                    encode_utf8(dec_int(id as int)),
                    100000,
                );
                let nv = v@;
                &&& final(self)@.vaults == old(self)@.vaults.push(nv)
                &&& nv.id == id
                &&& nv.name == name@
                &&& nv.created_at == now@
                &&& nv.updated_at == Some(now@)
                &&& nv.uuid == Some(uuid@)
                &&& nv.cover_image is None
                &&& nv.deleted_at is None
                &&& nv.has_password == protected
                &&& (protected ==> blob_plaintext(vault_key, nv.encrypted_password) == Some(
                    password@,
                ))
                &&& (!protected ==> nv.encrypted_password == Seq::<u8>::empty())
                &&& final(self)@.next_vault_id == id + 1
                &&& final(self)@.items == old(self)@.items
                &&& final(self)@.settings == old(self)@.settings
                &&& final(self)@.next_item_id == old(self)@.next_item_id
            }),
    {
        match find_vault_index_by_uuid(&self.vaults, uuid) {
            Some(_) => {
                return Err(VaultError::DuplicateUuid);
            },
            None => {},
        }
        let protected = has_password && !password.is_empty();
        let id = self.next_vault_id;
        let enc: Vec<u8> = if protected {
            let salt = i64_to_string(id);
            let key = derive_key_from_password(password, salt.as_str(), 100000);
            match encrypt_password(key.as_slice(), password) {
                Ok(e) => e,
                Err(_) => {
                    return Err(VaultError::CryptoFailure);
                },
            }
        } else {
            let e: Vec<u8> = Vec::new();
            proof {
                assert(e@ =~= Seq::<u8>::empty());
            }
            e
        };
        let v = Vault {
            id,
            name: String::from_str(name),
            encrypted_password: enc,
            created_at: String::from_str(now),
            cover_image: None,
            has_password: protected,
            uuid: Some(String::from_str(uuid)),
            updated_at: Some(String::from_str(now)),
            deleted_at: None,
        };
        let out = v.duplicate();
        let ghost nv = v@;
        self.vaults.push(v);
        self.next_vault_id = id + 1;
        proof {
            assert(self@.vaults =~= old(self)@.vaults.push(nv));
            lemma_wf_vault_push(old(self)@, self@, nv);
        }
        Ok(out)
    }
}

/// The vault sequence after bumping `updated_at` of the vault with this
/// id to `now` (unchanged when no such vault exists).
pub open spec fn vaults_after_touch(vs: Seq<VaultV>, vault_id: i64, now: Seq<char>) -> Seq<
    VaultV,
> {
    if has_vault_id(vs, vault_id) {
        vs.update(vault_idx_by_id(vs, vault_id), vault_touched(vault_by_id(vs, vault_id), now))
    } else {
        vs
    }
}

/// Bump the owning vault's `updated_at`; a missing vault changes nothing.
fn touch_vault(store: &mut VaultStore, vault_id: i64, now: &str)
    requires
        old(store)@.wf(),
    ensures
        final(store)@.wf(),
        final(store)@.vaults == vaults_after_touch(old(store)@.vaults, vault_id, now@),
        final(store)@.items == old(store)@.items,
        final(store)@.settings == old(store)@.settings,
        final(store)@.next_vault_id == old(store)@.next_vault_id,
        final(store)@.next_item_id == old(store)@.next_item_id,
{
    match find_vault_index(&store.vaults, vault_id) {
        Some(i) => {
            proof {
                lemma_vault_idx(store@.vaults, i as int, vault_id);
            }
            let mut v = store.vaults.remove(i);
            v.updated_at = Some(String::from_str(now));
            store.vaults.insert(i, v);
            proof {
                assert(store@.vaults =~= old(store)@.vaults.update(
                    i as int,
                    vault_touched(vault_by_id(old(store)@.vaults, vault_id), now@),
                ));
                lemma_wf_same_idents(old(store)@, store@);
            }
        },
        None => {},
    }
}

/// The item row with a new summary, updated at `now`.
pub open spec fn item_with_summary(it: ItemV, summary: Seq<char>, now: Seq<char>) -> ItemV {
    ItemV { summary: Some(summary), updated_at: now, ..it }
}

/// The item row with a new title, updated at `now`.
pub open spec fn item_with_title(it: ItemV, title: Seq<char>, now: Seq<char>) -> ItemV {
    ItemV { title: title, updated_at: now, ..it }
}

/// The item row with a new (or cleared) image, updated at `now`.
pub open spec fn item_with_image(it: ItemV, image: Option<Seq<char>>, now: Seq<char>) -> ItemV {
    ItemV { image: image, updated_at: now, ..it }
}

/// The item row with new ciphertext content, updated at `now`.
pub open spec fn item_with_content(it: ItemV, content: Seq<u8>, now: Seq<char>) -> ItemV {
    ItemV { content: content, updated_at: now, ..it }
}

/// The item row after moving to another vault: the custom ordering is
/// cleared and `updated_at` bumped.
pub open spec fn item_moved(it: ItemV, target: i64, now: Seq<char>) -> ItemV {
    ItemV { vault_id: target, sort_order: None, updated_at: now, ..it }
}

/// The item row after its own soft delete at `now`.
pub open spec fn item_tombstoned(it: ItemV, now: Seq<char>) -> ItemV {
    ItemV { deleted_at: Some(now), updated_at: now, ..it }
}

impl VaultItem {
    /// Insert a new item: the plaintext is encrypted under `key` and the
    /// owning vault's `updated_at` is bumped.
    pub fn insert(
        store: &mut VaultStore,
        vault_id: i64,
        title: &str,
        content: &str,
        key: &[u8],
        now: &str,
        uuid: &str,
    ) -> (r: Result<VaultItem, VaultError>)
        requires
            old(store)@.wf(),
            old(store)@.next_item_id < i64::MAX,
            key@.len() == 32,
        ensures
            final(store)@.wf(),
            has_item_uuid(old(store)@.items, uuid@) ==> r == Err::<VaultItem, VaultError>(
                VaultError::DuplicateUuid,
            ),
            !has_item_uuid(old(store)@.items, uuid@) && sealable(encode_utf8(content@)) ==> r
                is Ok,
            r matches Err(e) ==> final(store)@ == old(store)@ && (e == VaultError::DuplicateUuid
                || e == VaultError::CryptoFailure) && (e == VaultError::DuplicateUuid
                <==> has_item_uuid(old(store)@.items, uuid@)),
            r matches Ok(it) ==> ({
                let ni = it@;
                &&& final(store)@.items == old(store)@.items.push(ni)
                &&& ni.id == old(store)@.next_item_id
                &&& ni.vault_id == vault_id
                &&& ni.title == title@
                &&& blob_plaintext(key@, ni.content) == Some(content@)
                &&& ni.created_at == now@
                &&& ni.updated_at == now@
                &&& ni.uuid == Some(uuid@)
                &&& ni.image is None
                &&& ni.summary is None
                &&& ni.sort_order is None
                &&& ni.deleted_at is None
                &&& final(store)@.next_item_id == old(store)@.next_item_id + 1
                &&& final(store)@.vaults == vaults_after_touch(old(store)@.vaults, vault_id, now@)
                &&& final(store)@.settings == old(store)@.settings
                &&& final(store)@.next_vault_id == old(store)@.next_vault_id
            }),
    {
        match find_item_index_by_uuid(&store.items, uuid) {
            Some(_) => {
                return Err(VaultError::DuplicateUuid);
            },
            None => {},
        }
        let enc = match crate::crypto::encrypt_content(key, content) {
            Ok(e) => e,
            Err(_) => {
                return Err(VaultError::CryptoFailure);
            },
        };
        let id = store.next_item_id;
        let it = VaultItem {
            id,
            vault_id,
            title: String::from_str(title),
            content: enc,
            created_at: String::from_str(now),
            updated_at: String::from_str(now),
            image: None,
            summary: None,
            sort_order: None,
            uuid: Some(String::from_str(uuid)),
            deleted_at: None,
        };
        let out = it.duplicate();
        let ghost ni = it@;
        store.items.push(it);
        store.next_item_id = id + 1;
        proof {
            assert(store@.items =~= old(store)@.items.push(ni));
            lemma_wf_item_push(old(store)@, store@, ni);
        }
        touch_vault(store, vault_id, now);
        Ok(out)
    }

    /// Soft-delete an item: tombstone it (if still live) and bump the
    /// owning vault. Returns how many rows changed (0 or 1).
    pub fn delete(store: &mut VaultStore, item_id: i64, now: &str) -> (r: Result<
        usize,
        VaultError,
    >)
        requires
            old(store)@.wf(),
        ensures
            final(store)@.wf(),
            r matches Ok(n) ==> n == (if has_item_id(old(store)@.items, item_id) && item_by_id(
                old(store)@.items,
                item_id,
            ).deleted_at is None {
                1int
            } else {
                0int
            }),
            r is Ok,
            final(store)@.items == (if has_item_id(old(store)@.items, item_id) && item_by_id(
                old(store)@.items,
                item_id,
            ).deleted_at is None {
                old(store)@.items.update(
                    item_idx_by_id(old(store)@.items, item_id),
                    item_tombstoned(item_by_id(old(store)@.items, item_id), now@),
                )
            } else {
                old(store)@.items
            }),
            final(store)@.vaults == (if has_item_id(old(store)@.items, item_id) {
                vaults_after_touch(
                    old(store)@.vaults,
                    item_by_id(old(store)@.items, item_id).vault_id,
                    now@,
                )
            } else {
                old(store)@.vaults
            }),
            final(store)@.settings == old(store)@.settings,
            final(store)@.next_vault_id == old(store)@.next_vault_id,
            final(store)@.next_item_id == old(store)@.next_item_id,
    {
        match find_item_index(&store.items, item_id) {
            Some(i) => {
                proof {
                    lemma_item_idx(store@.items, i as int, item_id);
                }
                let vid = store.items[i].vault_id;
                let affected: usize;
                if store.items[i].deleted_at.is_none() {
                    let mut it = store.items.remove(i);
                    it.deleted_at = Some(String::from_str(now));
                    it.updated_at = String::from_str(now);
                    store.items.insert(i, it);
                    proof {
                        assert(store@.items =~= old(store)@.items.update(
                            i as int,
                            item_tombstoned(item_by_id(old(store)@.items, item_id), now@),
                        ));
                        lemma_wf_same_idents(old(store)@, store@);
                    }
                    affected = 1;
                } else {
                    affected = 0;
                }
                touch_vault(store, vid, now);
                Ok(affected)
            },
            None => Ok(0),
        }
    }

    /// Hard-delete an item outright. Returns how many rows were removed.
    pub fn hard_delete(store: &mut VaultStore, item_id: i64) -> (r: Result<usize, VaultError>)
        requires
            old(store)@.wf(),
        ensures
            final(store)@.wf(),
            r is Ok,
            r matches Ok(n) ==> n == (if has_item_id(old(store)@.items, item_id) {
                1int
            } else {
                0int
            }),
            final(store)@.items == old(store)@.items.filter((|it: ItemV| it.id != item_id)),
            final(store)@.vaults == old(store)@.vaults,
            final(store)@.settings == old(store)@.settings,
            final(store)@.next_vault_id == old(store)@.next_vault_id,
            final(store)@.next_item_id == old(store)@.next_item_id,
    {
        let ghost is0 = store@.items;
        let mut new_items: Vec<VaultItem> = Vec::new();
        let mut i: usize = 0;
        let mut affected: usize = 0;
        while i < store.items.len()
            invariant
                i <= store.items@.len(),
                is0 == items_view(store.items@),
                items_view(new_items@) =~= is0.take(i as int).filter(
                    (|it: ItemV| it.id != item_id),
                ),
                affected == (if has_item_id(is0.take(i as int), item_id) {
                    1int
                } else {
                    0int
                }),
                affected <= 1,
            decreases store.items@.len() - i,
        {
            proof {
                reveal(Seq::filter);
                assert(is0.take(i + 1 as int).drop_last() =~= is0.take(i as int));
                assert(is0.take(i + 1 as int).last() == is0[i as int]);
            }
            let it = &store.items[i];
            if !(it.id == item_id) {
                new_items.push(it.duplicate());
                proof {
                    if has_item_id(is0.take(i + 1 as int), item_id) {
                        let w = choose|w: int|
                            0 <= w < i + 1 && (#[trigger] is0.take(i + 1 as int)[w]).id == item_id;
                        assert(is0.take(i as int)[w].id == item_id);
                        assert(has_item_id(is0.take(i as int), item_id));
                    }
                    if has_item_id(is0.take(i as int), item_id) {
                        let w = choose|w: int|
                            0 <= w < i && (#[trigger] is0.take(i as int)[w]).id == item_id;
                        assert(is0.take(i + 1 as int)[w].id == item_id);
                    }
                }
            } else {
                affected = 1;
                proof {
                    assert(is0.take(i + 1 as int)[i as int].id == item_id);
                    assert(has_item_id(is0.take(i + 1 as int), item_id));
                }
            }
            proof {
                assert(items_view(new_items@) =~= is0.take(i + 1 as int).filter(
                    (|it: ItemV| it.id != item_id),
                ));
            }
            i = i + 1;
        }
        store.items = new_items;
        proof {
            assert(is0.take(is0.len() as int) =~= is0);
            lemma_filter_items_unique(is0, (|it: ItemV| it.id != item_id));
            let fi = is0.filter((|it: ItemV| it.id != item_id));
            assert forall|j: int| 0 <= j < fi.len() implies 1 <= (#[trigger] fi[j]).id < old(
                store,
            )@.next_item_id by {
                let w = choose|w: int| 0 <= w < is0.len() && #[trigger] is0[w] == fi[j];
            }
            assert(store@.vaults =~= old(store)@.vaults);
            assert(store@.settings =~= old(store)@.settings);
        }
        Ok(affected)
    }
}

impl VaultItem {
    /// Replace an item's summary and bump item and owning vault.
    pub fn update_summary(store: &mut VaultStore, item_id: i64, summary: &str, now: &str) -> (r:
        Result<(), VaultError>)
        requires
            old(store)@.wf(),
        ensures
            final(store)@.wf(),
            r is Ok,
            final(store)@.items == (if has_item_id(old(store)@.items, item_id) {
                old(store)@.items.update(
                    item_idx_by_id(old(store)@.items, item_id),
                    item_with_summary(item_by_id(old(store)@.items, item_id), summary@, now@),
                )
            } else {
                old(store)@.items
            }),
            final(store)@.vaults == (if has_item_id(old(store)@.items, item_id) {
                vaults_after_touch(
                    old(store)@.vaults,
                    item_by_id(old(store)@.items, item_id).vault_id,
                    now@,
                )
            } else {
                old(store)@.vaults
            }),
            final(store)@.settings == old(store)@.settings,
            final(store)@.next_vault_id == old(store)@.next_vault_id,
            final(store)@.next_item_id == old(store)@.next_item_id,
    {
        match find_item_index(&store.items, item_id) {
            Some(i) => {
                proof {
                    lemma_item_idx(store@.items, i as int, item_id);
                }
                let vid = store.items[i].vault_id;
                let mut it = store.items.remove(i);
                it.summary = Some(String::from_str(summary));
                it.updated_at = String::from_str(now);
                store.items.insert(i, it);
                proof {
                    assert(store@.items =~= old(store)@.items.update(
                        i as int,
                        item_with_summary(item_by_id(old(store)@.items, item_id), summary@, now@),
                    ));
                    lemma_wf_same_idents(old(store)@, store@);
                }
                touch_vault(store, vid, now);
                Ok(())
            },
            None => Ok(()),
        }
    }

    /// Replace an item's title and bump item and owning vault.
    pub fn update_title(store: &mut VaultStore, item_id: i64, title: &str, now: &str) -> (r:
        Result<(), VaultError>)
        requires
            old(store)@.wf(),
        ensures
            final(store)@.wf(),
            r is Ok,
            final(store)@.items == (if has_item_id(old(store)@.items, item_id) {
                old(store)@.items.update(
                    item_idx_by_id(old(store)@.items, item_id),
                    item_with_title(item_by_id(old(store)@.items, item_id), title@, now@),
                )
            } else {
                old(store)@.items
            }),
            final(store)@.vaults == (if has_item_id(old(store)@.items, item_id) {
                vaults_after_touch(
                    old(store)@.vaults,
                    item_by_id(old(store)@.items, item_id).vault_id,
                    now@,
                )
            } else {
                old(store)@.vaults
            }),
            final(store)@.settings == old(store)@.settings,
            final(store)@.next_vault_id == old(store)@.next_vault_id,
            final(store)@.next_item_id == old(store)@.next_item_id,
    {
        match find_item_index(&store.items, item_id) {
            Some(i) => {
                proof {
                    lemma_item_idx(store@.items, i as int, item_id);
                }
                let vid = store.items[i].vault_id;
                let mut it = store.items.remove(i);
                it.title = String::from_str(title);
                it.updated_at = String::from_str(now);
                store.items.insert(i, it);
                proof {
                    assert(store@.items =~= old(store)@.items.update(
                        i as int,
                        item_with_title(item_by_id(old(store)@.items, item_id), title@, now@),
                    ));
                    lemma_wf_same_idents(old(store)@, store@);
                }
                touch_vault(store, vid, now);
                Ok(())
            },
            None => Ok(()),
        }
    }

    /// Replace (or clear) an item's image and bump item and owning vault.
    pub fn update_image(store: &mut VaultStore, item_id: i64, image: Option<&str>, now: &str) -> (r:
        Result<(), VaultError>)
        requires
            old(store)@.wf(),
        ensures
            final(store)@.wf(),
            r is Ok,
            final(store)@.items == (if has_item_id(old(store)@.items, item_id) {
                old(store)@.items.update(
                    item_idx_by_id(old(store)@.items, item_id),
                    item_with_image(
                        item_by_id(old(store)@.items, item_id),
                        match image {
                            Some(im) => Some(im@),
                            None => None,
                        },
                        now@,
                    ),
                )
            } else {
                old(store)@.items
            }),
            final(store)@.vaults == (if has_item_id(old(store)@.items, item_id) {
                vaults_after_touch(
                    old(store)@.vaults,
                    item_by_id(old(store)@.items, item_id).vault_id,
                    now@,
                )
            } else {
                old(store)@.vaults
            }),
            final(store)@.settings == old(store)@.settings,
            final(store)@.next_vault_id == old(store)@.next_vault_id,
            final(store)@.next_item_id == old(store)@.next_item_id,
    {
        match find_item_index(&store.items, item_id) {
            Some(i) => {
                proof {
                    lemma_item_idx(store@.items, i as int, item_id);
                }
                let vid = store.items[i].vault_id;
                let mut it = store.items.remove(i);
                it.image = match image {
                    Some(im) => Some(String::from_str(im)),
                    None => None,
                };
                it.updated_at = String::from_str(now);
                store.items.insert(i, it);
                proof {
                    assert(store@.items =~= old(store)@.items.update(
                        i as int,
                        item_with_image(
                            item_by_id(old(store)@.items, item_id),
                            match image {
                                Some(im) => Some(im@),
                                None => None,
                            },
                            now@,
                        ),
                    ));
                    lemma_wf_same_idents(old(store)@, store@);
                }
                touch_vault(store, vid, now);
                Ok(())
            },
            None => Ok(()),
        }
    }

    /// Re-encrypt and replace an item's content under `key`, bumping item
    /// and owning vault. Only the ciphertext changes; a failed encryption
    /// leaves the store untouched.
    pub fn update_content(
        store: &mut VaultStore,
        item_id: i64,
        content: &str,
        key: &[u8],
        now: &str,
    ) -> (r: Result<(), VaultError>)
        requires
            old(store)@.wf(),
            key@.len() == 32,
        ensures
            final(store)@.wf(),
            sealable(encode_utf8(content@)) ==> r is Ok,
            r matches Err(e) ==> e == VaultError::CryptoFailure && final(store)@ == old(store)@,
            r is Ok ==> ({
                let is0 = old(store)@.items;
                if has_item_id(is0, item_id) {
                    let idx = item_idx_by_id(is0, item_id);
                    &&& final(store)@.items.len() == is0.len()
                    &&& forall|j: int|
                        0 <= j < is0.len() && j != idx ==> #[trigger] final(store)@.items[j]
                            == is0[j]
                    &&& ({
                        let ni = final(store)@.items[idx];
                        &&& ni == item_with_content(item_by_id(is0, item_id), ni.content, now@)
                        &&& blob_plaintext(key@, ni.content) == Some(content@)
                    })
                    &&& final(store)@.vaults == vaults_after_touch(
                        old(store)@.vaults,
                        item_by_id(is0, item_id).vault_id,
                        now@,
                    )
                } else {
                    final(store)@.items == is0 && final(store)@.vaults == old(store)@.vaults
                }
            }),
            final(store)@.settings == old(store)@.settings,
            final(store)@.next_vault_id == old(store)@.next_vault_id,
            final(store)@.next_item_id == old(store)@.next_item_id,
    {
        match find_item_index(&store.items, item_id) {
            Some(i) => {
                proof {
                    lemma_item_idx(store@.items, i as int, item_id);
                }
                let enc = match crate::crypto::encrypt_content(key, content) {
                    Ok(e) => e,
                    Err(_) => {
                        return Err(VaultError::CryptoFailure);
                    },
                };
                let vid = store.items[i].vault_id;
                let mut it = store.items.remove(i);
                it.content = enc;
                it.updated_at = String::from_str(now);
                store.items.insert(i, it);
                proof {
                    assert(store@.items =~= old(store)@.items.update(
                        i as int,
                        item_with_content(
                            item_by_id(old(store)@.items, item_id),
                            store@.items[i as int].content,
                            now@,
                        ),
                    ));
                    lemma_wf_same_idents(old(store)@, store@);
                }
                touch_vault(store, vid, now);
                Ok(())
            },
            None => Ok(()),
        }
    }

    /// Move an item to another vault, clearing its custom ordering and
    /// bumping the item and both vaults (the target is bumped even when
    /// the item is missing, as in the underlying row updates).
    pub fn move_to_vault(
        store: &mut VaultStore,
        item_id: i64,
        target_vault_id: i64,
        now: &str,
    ) -> (r: Result<(), VaultError>)
        requires
            old(store)@.wf(),
        ensures
            final(store)@.wf(),
            r is Ok,
            final(store)@.items == (if has_item_id(old(store)@.items, item_id) {
                old(store)@.items.update(
                    item_idx_by_id(old(store)@.items, item_id),
                    item_moved(item_by_id(old(store)@.items, item_id), target_vault_id, now@),
                )
            } else {
                old(store)@.items
            }),
            final(store)@.vaults == (if has_item_id(old(store)@.items, item_id) {
                vaults_after_touch(
                    vaults_after_touch(
                        old(store)@.vaults,
                        item_by_id(old(store)@.items, item_id).vault_id,
                        now@,
                    ),
                    target_vault_id,
                    now@,
                )
            } else {
                vaults_after_touch(old(store)@.vaults, target_vault_id, now@)
            }),
            final(store)@.settings == old(store)@.settings,
            final(store)@.next_vault_id == old(store)@.next_vault_id,
            final(store)@.next_item_id == old(store)@.next_item_id,
    {
        match find_item_index(&store.items, item_id) {
            Some(i) => {
                proof {
                    lemma_item_idx(store@.items, i as int, item_id);
                }
                let vid = store.items[i].vault_id;
                let mut it = store.items.remove(i);
                it.vault_id = target_vault_id;
                it.sort_order = None;
                it.updated_at = String::from_str(now);
                store.items.insert(i, it);
                proof {
                    assert(store@.items =~= old(store)@.items.update(
                        i as int,
                        item_moved(item_by_id(old(store)@.items, item_id), target_vault_id, now@),
                    ));
                    lemma_wf_same_idents(old(store)@, store@);
                }
                touch_vault(store, vid, now);
                touch_vault(store, target_vault_id, now);
                Ok(())
            },
            None => {
                touch_vault(store, target_vault_id, now);
                Ok(())
            },
        }
    }
}

/// "Created no later, id no larger": the tie-breaking tail of both list
/// orders — newest `created_at` first, then smallest id.
pub open spec fn ts_id_le(a_ts: Seq<char>, a_id: i64, b_ts: Seq<char>, b_id: i64) -> bool {
    text_lt(b_ts, a_ts) || (a_ts == b_ts && a_id <= b_id)
}

/// The listing order of items: explicit `sort_order` first (ascending,
/// rows without one last), then `created_at` descending, then id.
pub open spec fn item_order_le(a: ItemV, b: ItemV) -> bool {
    match (a.sort_order, b.sort_order) {
        (Some(x), Some(y)) => x < y || (x == y && ts_id_le(a.created_at, a.id, b.created_at, b.id)),
        (Some(x), None) => true,
        (None, Some(y)) => false,
        (None, None) => ts_id_le(a.created_at, a.id, b.created_at, b.id),
    }
}

/// The listing order of vaults: `created_at` descending, then id.
pub open spec fn vault_order_le(a: VaultV, b: VaultV) -> bool {
    ts_id_le(a.created_at, a.id, b.created_at, b.id)
}

/// The tie-breaking order relates any two rows.
pub proof fn lemma_ts_id_le_connected(a_ts: Seq<char>, a_id: i64, b_ts: Seq<char>, b_id: i64)
    ensures
        ts_id_le(a_ts, a_id, b_ts, b_id) || ts_id_le(b_ts, b_id, a_ts, a_id),
{
    lemma_text_lt_trichotomy(a_ts, b_ts);
}

/// The tie-breaking order is transitive.
pub proof fn lemma_ts_id_le_transitive(
    a_ts: Seq<char>,
    a_id: i64,
    b_ts: Seq<char>,
    b_id: i64,
    c_ts: Seq<char>,
    c_id: i64,
)
    requires
        ts_id_le(a_ts, a_id, b_ts, b_id),
        ts_id_le(b_ts, b_id, c_ts, c_id),
    ensures
        ts_id_le(a_ts, a_id, c_ts, c_id),
{
    if text_lt(b_ts, a_ts) && text_lt(c_ts, b_ts) {
        lemma_text_lt_transitive(c_ts, b_ts, a_ts);
    }
}

/// The item order relates any two rows.
pub proof fn lemma_item_order_le_connected(a: ItemV, b: ItemV)
    ensures
        item_order_le(a, b) || item_order_le(b, a),
{
    lemma_ts_id_le_connected(a.created_at, a.id, b.created_at, b.id);
}

/// The item order is transitive.
pub proof fn lemma_item_order_le_transitive(a: ItemV, b: ItemV, c: ItemV)
    requires
        item_order_le(a, b),
        item_order_le(b, c),
    ensures
        item_order_le(a, c),
{
    if a.sort_order is Some && b.sort_order is Some && c.sort_order is Some {
        if a.sort_order->0 == b.sort_order->0 && b.sort_order->0 == c.sort_order->0 {
            lemma_ts_id_le_transitive(a.created_at, a.id, b.created_at, b.id, c.created_at, c.id);
        }
    }
    if a.sort_order is None && b.sort_order is None && c.sort_order is None {
        lemma_ts_id_le_transitive(a.created_at, a.id, b.created_at, b.id, c.created_at, c.id);
    }
}

/// The vault order relates any two rows.
pub proof fn lemma_vault_order_le_connected(a: VaultV, b: VaultV)
    ensures
        vault_order_le(a, b) || vault_order_le(b, a),
{
    lemma_ts_id_le_connected(a.created_at, a.id, b.created_at, b.id);
}

/// The vault order is transitive.
pub proof fn lemma_vault_order_le_transitive(a: VaultV, b: VaultV, c: VaultV)
    requires
        vault_order_le(a, b),
        vault_order_le(b, c),
    ensures
        vault_order_le(a, c),
{
    lemma_ts_id_le_transitive(a.created_at, a.id, b.created_at, b.id, c.created_at, c.id);
}

/// Does row `(a_ts, a_id)` come no later than `(b_ts, b_id)`?
fn ts_id_before(a_ts: &str, a_id: i64, b_ts: &str, b_id: i64) -> (r: bool)
    ensures
        r == ts_id_le(a_ts@, a_id, b_ts@, b_id),
{
    if str_lt(b_ts, a_ts) {
        true
    } else {
        let eq = crate::textorder::str_eq(a_ts, b_ts);
        if eq {
            a_id <= b_id
        } else {
            false
        }
    }
}

/// Does item `a` come no later than item `b` in the listing order?
fn item_before(a: &VaultItem, b: &VaultItem) -> (r: bool)
    ensures
        r == item_order_le(a@, b@),
{
    match (&a.sort_order, &b.sort_order) {
        (Some(x), Some(y)) => {
            if *x < *y {
                true
            } else if *x == *y {
                ts_id_before(a.created_at.as_str(), a.id, b.created_at.as_str(), b.id)
            } else {
                false
            }
        },
        (Some(_), None) => true,
        (None, Some(_)) => false,
        (None, None) => ts_id_before(a.created_at.as_str(), a.id, b.created_at.as_str(), b.id),
    }
}

/// Does vault `a` come no later than vault `b` in the listing order?
fn vault_before(a: &Vault, b: &Vault) -> (r: bool)
    ensures
        r == vault_order_le(a@, b@),
{
    ts_id_before(a.created_at.as_str(), a.id, b.created_at.as_str(), b.id)
}

/// Sort items by the listing order (insertion sort).
fn sort_items(input: Vec<VaultItem>) -> (r: Vec<VaultItem>)
    ensures
        items_view(r@).to_multiset() == items_view(input@).to_multiset(),
        sorted_by(items_view(r@), (|a: ItemV, b: ItemV| item_order_le(a, b))),
{
    broadcast use vstd::seq_lib::group_to_multiset_ensures;

    let ghost leq = (|a: ItemV, b: ItemV| item_order_le(a, b));
    let ghost inv = items_view(input@);
    let mut out: Vec<VaultItem> = Vec::new();
    let mut i: usize = 0;
    while i < input.len()
        invariant
            i <= input@.len(),
            inv == items_view(input@),
            leq == (|a: ItemV, b: ItemV| item_order_le(a, b)),
            items_view(out@).to_multiset() == inv.take(i as int).to_multiset(),
            sorted_by(items_view(out@), leq),
        decreases input@.len() - i,
    {
        let x = input[i].duplicate();
        let ghost xv = x@;
        let ghost prev = items_view(out@);
        let mut j: usize = 0;
        while j < out.len() && item_before(&out[j], &x)
            invariant
                j <= out@.len(),
                prev == items_view(out@),
                xv == x@,
                forall|k: int| 0 <= k < j ==> item_order_le(#[trigger] prev[k], xv),
            decreases out@.len() - j,
        {
            j = j + 1;
        }
        proof {
            if j < out@.len() {
                lemma_item_order_le_connected(prev[j as int], xv);
            }
        }
        out.insert(j, x);
        proof {
            let cur = items_view(out@);
            assert(cur =~= prev.insert(j as int, xv));
            assert forall|a: int, b: int| 0 <= a < b < cur.len() implies #[trigger] leq(
                cur[a],
                cur[b],
            ) by {
                if a < j && b == j {
                    assert(cur[a] == prev[a]);
                } else if a == j && b > j {
                    assert(cur[b] == prev[b - 1]);
                    if j < prev.len() {
                        if b - 1 > j {
                            assert(leq(prev[j as int], prev[b - 1]));
                        }
                        lemma_item_order_le_transitive(xv, prev[j as int], prev[b - 1]);
                    }
                } else if a < j && b > j {
                    assert(cur[a] == prev[a]);
                    assert(cur[b] == prev[b - 1]);
                } else if a > j && b > j {
                    assert(cur[a] == prev[a - 1]);
                    assert(cur[b] == prev[b - 1]);
                }
            }
            assert(inv.take(i + 1 as int).drop_last() =~= inv.take(i as int));
            assert(inv.take(i + 1 as int) =~= inv.take(i as int).push(xv));
            vstd::seq_lib::to_multiset_insert(prev, j as int, xv);
            vstd::seq_lib::to_multiset_build(inv.take(i as int), xv);
            assert(cur.to_multiset() =~= prev.insert(j as int, xv).to_multiset());
            assert(inv.take(i + 1 as int).to_multiset() =~= inv.take(i as int).push(
                xv,
            ).to_multiset());
        }
        i = i + 1;
    }
    proof {
        assert(inv.take(input@.len() as int) =~= inv);
    }
    out
}

/// Sort vaults by the listing order (insertion sort).
fn sort_vaults(input: Vec<Vault>) -> (r: Vec<Vault>)
    ensures
        vaults_view(r@).to_multiset() == vaults_view(input@).to_multiset(),
        sorted_by(vaults_view(r@), (|a: VaultV, b: VaultV| vault_order_le(a, b))),
{
    broadcast use vstd::seq_lib::group_to_multiset_ensures;

    let ghost leq = (|a: VaultV, b: VaultV| vault_order_le(a, b));
    let ghost inv = vaults_view(input@);
    let mut out: Vec<Vault> = Vec::new();
    let mut i: usize = 0;
    while i < input.len()
        invariant
            i <= input@.len(),
            inv == vaults_view(input@),
            leq == (|a: VaultV, b: VaultV| vault_order_le(a, b)),
            vaults_view(out@).to_multiset() == inv.take(i as int).to_multiset(),
            sorted_by(vaults_view(out@), leq),
        decreases input@.len() - i,
    {
        let x = input[i].duplicate();
        let ghost xv = x@;
        let ghost prev = vaults_view(out@);
        let mut j: usize = 0;
        while j < out.len() && vault_before(&out[j], &x)
            invariant
                j <= out@.len(),
                prev == vaults_view(out@),
                xv == x@,
                forall|k: int| 0 <= k < j ==> vault_order_le(#[trigger] prev[k], xv),
            decreases out@.len() - j,
        {
            j = j + 1;
        }
        proof {
            if j < out@.len() {
                lemma_vault_order_le_connected(prev[j as int], xv);
            }
        }
        out.insert(j, x);
        proof {
            let cur = vaults_view(out@);
            assert(cur =~= prev.insert(j as int, xv));
            assert forall|a: int, b: int| 0 <= a < b < cur.len() implies #[trigger] leq(
                cur[a],
                cur[b],
            ) by {
                if a < j && b == j {
                    assert(cur[a] == prev[a]);
                } else if a == j && b > j {
                    assert(cur[b] == prev[b - 1]);
                    if j < prev.len() {
                        if b - 1 > j {
                            assert(leq(prev[j as int], prev[b - 1]));
                        }
                        lemma_vault_order_le_transitive(xv, prev[j as int], prev[b - 1]);
                    }
                } else if a < j && b > j {
                    assert(cur[a] == prev[a]);
                    assert(cur[b] == prev[b - 1]);
                } else if a > j && b > j {
                    assert(cur[a] == prev[a - 1]);
                    assert(cur[b] == prev[b - 1]);
                }
            }
            assert(inv.take(i + 1 as int).drop_last() =~= inv.take(i as int));
            assert(inv.take(i + 1 as int) =~= inv.take(i as int).push(xv));
            vstd::seq_lib::to_multiset_insert(prev, j as int, xv);
            vstd::seq_lib::to_multiset_build(inv.take(i as int), xv);
            assert(cur.to_multiset() =~= prev.insert(j as int, xv).to_multiset());
            assert(inv.take(i + 1 as int).to_multiset() =~= inv.take(i as int).push(
                xv,
            ).to_multiset());
        }
        i = i + 1;
    }
    proof {
        assert(inv.take(input@.len() as int) =~= inv);
    }
    out
}

/// Is this item a live (not tombstoned) member of the vault?
pub open spec fn live_in_vault(it: ItemV, vault_id: i64) -> bool {
    it.vault_id == vault_id && it.deleted_at is None
}

/// Does this item belong to the vault (tombstoned rows included)?
pub open spec fn in_vault(it: ItemV, vault_id: i64) -> bool {
    it.vault_id == vault_id
}

impl Vault {
    /// All vaults that are not tombstoned, newest `created_at` first.
    pub fn list(store: &VaultStore) -> (r: Vec<Vault>)
        requires
            store@.wf(),
        ensures
            vaults_view(r@).to_multiset() == store@.vaults.filter(
                (|v: VaultV| v.deleted_at is None),
            ).to_multiset(),
            sorted_by(vaults_view(r@), (|a: VaultV, b: VaultV| vault_order_le(a, b))),
    {
        let ghost vs0 = store@.vaults;
        let mut picked: Vec<Vault> = Vec::new();
        let mut i: usize = 0;
        while i < store.vaults.len()
            invariant
                i <= store.vaults@.len(),
                vs0 == vaults_view(store.vaults@),
                vaults_view(picked@) =~= vs0.take(i as int).filter(
                    (|v: VaultV| v.deleted_at is None),
                ),
            decreases store.vaults@.len() - i,
        {
            proof {
                reveal(Seq::filter);
                assert(vs0.take(i + 1 as int).drop_last() =~= vs0.take(i as int));
                assert(vs0.take(i + 1 as int).last() == vs0[i as int]);
            }
            let v = &store.vaults[i];
            if v.deleted_at.is_none() {
                picked.push(v.duplicate());
            }
            proof {
                assert(vaults_view(picked@) =~= vs0.take(i + 1 as int).filter(
                    (|v: VaultV| v.deleted_at is None),
                ));
            }
            i = i + 1;
        }
        proof {
            assert(vs0.take(vs0.len() as int) =~= vs0);
        }
        sort_vaults(picked)
    }

    /// All vaults, tombstoned ones included (for sync), newest first.
    pub fn list_all_for_sync(store: &VaultStore) -> (r: Vec<Vault>)
        requires
            store@.wf(),
        ensures
            vaults_view(r@).to_multiset() == store@.vaults.to_multiset(),
            sorted_by(vaults_view(r@), (|a: VaultV, b: VaultV| vault_order_le(a, b))),
    {
        let ghost vs0 = store@.vaults;
        let mut picked: Vec<Vault> = Vec::new();
        let mut i: usize = 0;
        while i < store.vaults.len()
            invariant
                i <= store.vaults@.len(),
                vs0 == vaults_view(store.vaults@),
                vaults_view(picked@) =~= vs0.take(i as int),
            decreases store.vaults@.len() - i,
        {
            let ghost prev = picked@;
            picked.push(store.vaults[i].duplicate());
            proof {
                assert(vaults_view(prev).len() == i);
                assert(prev.len() == i);
                assert forall|j: int| 0 <= j < i implies #[trigger] vaults_view(picked@)[j]
                    == vaults_view(prev)[j] by {
                    assert(picked@[j] == prev[j]);
                }
                assert(vaults_view(picked@) =~= vs0.take(i + 1 as int));
            }
            i = i + 1;
        }
        proof {
            assert(vs0.take(vs0.len() as int) =~= vs0);
        }
        sort_vaults(picked)
    }
}

impl VaultItem {
    /// The live items of a vault, ordered by `sort_order` (rows without
    /// one last), then `created_at` descending.
    pub fn list_by_vault(store: &VaultStore, vault_id: i64) -> (r: Vec<VaultItem>)
        requires
            store@.wf(),
        ensures
            items_view(r@).to_multiset() == store@.items.filter(
                (|it: ItemV| live_in_vault(it, vault_id)),
            ).to_multiset(),
            sorted_by(items_view(r@), (|a: ItemV, b: ItemV| item_order_le(a, b))),
    {
        let ghost is0 = store@.items;
        let mut picked: Vec<VaultItem> = Vec::new();
        let mut i: usize = 0;
        while i < store.items.len()
            invariant
                i <= store.items@.len(),
                is0 == items_view(store.items@),
                items_view(picked@) =~= is0.take(i as int).filter(
                    (|it: ItemV| live_in_vault(it, vault_id)),
                ),
            decreases store.items@.len() - i,
        {
            proof {
                reveal(Seq::filter);
                assert(is0.take(i + 1 as int).drop_last() =~= is0.take(i as int));
                assert(is0.take(i + 1 as int).last() == is0[i as int]);
            }
            let it = &store.items[i];
            if it.vault_id == vault_id && it.deleted_at.is_none() {
                picked.push(it.duplicate());
            }
            proof {
                assert(items_view(picked@) =~= is0.take(i + 1 as int).filter(
                    (|it: ItemV| live_in_vault(it, vault_id)),
                ));
            }
            i = i + 1;
        }
        proof {
            assert(is0.take(is0.len() as int) =~= is0);
        }
        sort_items(picked)
    }

    /// All items of a vault, tombstoned ones included (for sync), in the
    /// same order as [`VaultItem::list_by_vault`].
    pub fn list_all_by_vault_for_sync(store: &VaultStore, vault_id: i64) -> (r: Vec<VaultItem>)
        requires
            store@.wf(),
        ensures
            items_view(r@).to_multiset() == store@.items.filter(
                (|it: ItemV| in_vault(it, vault_id)),
            ).to_multiset(),
            sorted_by(items_view(r@), (|a: ItemV, b: ItemV| item_order_le(a, b))),
    {
        let ghost is0 = store@.items;
        let mut picked: Vec<VaultItem> = Vec::new();
        let mut i: usize = 0;
        while i < store.items.len()
            invariant
                i <= store.items@.len(),
                is0 == items_view(store.items@),
                items_view(picked@) =~= is0.take(i as int).filter(
                    (|it: ItemV| in_vault(it, vault_id)),
                ),
            decreases store.items@.len() - i,
        {
            proof {
                reveal(Seq::filter);
                assert(is0.take(i + 1 as int).drop_last() =~= is0.take(i as int));
                assert(is0.take(i + 1 as int).last() == is0[i as int]);
            }
            let it = &store.items[i];
            if it.vault_id == vault_id {
                picked.push(it.duplicate());
            }
            proof {
                assert(items_view(picked@) =~= is0.take(i + 1 as int).filter(
                    (|it: ItemV| in_vault(it, vault_id)),
                ));
            }
            i = i + 1;
        }
        proof {
            assert(is0.take(is0.len() as int) =~= is0);
        }
        sort_items(picked)
    }
}

/// The largest position at which `id` occurs, or -1 when it does not.
pub open spec fn last_index_of(ids: Seq<i64>, id: i64) -> int
    decreases ids.len(),
{
    if ids.len() == 0 {
        -1
    } else if ids.last() == id {
        ids.len() - 1
    } else {
        last_index_of(ids.drop_last(), id)
    }
}

/// A position whose suffix holds no further occurrence is the last one.
proof fn lemma_last_index_at(ids: Seq<i64>, id: i64, p: int)
    requires
        0 <= p < ids.len(),
        ids[p] == id,
        forall|m: int| p < m < ids.len() ==> ids[m] != id,
    ensures
        last_index_of(ids, id) == p,
    decreases ids.len(),
{
    if ids.last() != id {
        lemma_last_index_at(ids.drop_last(), id, p);
    }
}

/// With no occurrence at all, the last position is -1.
proof fn lemma_last_index_none(ids: Seq<i64>, id: i64)
    requires
        forall|m: int| 0 <= m < ids.len() ==> ids[m] != id,
    ensures
        last_index_of(ids, id) == -1,
    decreases ids.len(),
{
    if ids.len() > 0 {
        lemma_last_index_none(ids.drop_last(), id);
    }
}

/// Find the largest position at which `id` occurs.
fn last_pos(ids: &Vec<i64>, id: i64) -> (r: Option<usize>)
    ensures
        match r {
            Some(p) => p < ids@.len() && last_index_of(ids@, id) == p,
            None => last_index_of(ids@, id) == -1,
        },
{
    let mut k: usize = ids.len();
    while k > 0
        invariant
            k <= ids@.len(),
            forall|m: int| k <= m < ids@.len() ==> ids@[m] != id,
        decreases k,
    {
        k = k - 1;
        if ids[k] == id {
            proof {
                lemma_last_index_at(ids@, id, k as int);
            }
            return Some(k);
        }
    }
    proof {
        lemma_last_index_none(ids@, id);
    }
    None
}

/// The item row after the reorder assigned it position `pos`.
pub open spec fn item_with_position(it: ItemV, pos: i64, now: Seq<char>) -> ItemV {
    ItemV { sort_order: Some(pos), updated_at: now, ..it }
}

impl VaultItem {
    /// Assign `sort_order = position` for the listed items, all or
    /// nothing: if any id does not name an item of this vault, nothing
    /// changes. An id listed more than once keeps its last position. The
    /// owning vault's `updated_at` is bumped on success.
    pub fn update_order(
        store: &mut VaultStore,
        vault_id: i64,
        ordered_ids: &Vec<i64>,
        now: &str,
    ) -> (r: Result<(), VaultError>)
        requires
            old(store)@.wf(),
            ordered_ids@.len() < 0x7fff_ffff_ffff_ffff,
        ensures
            final(store)@.wf(),
            r is Err <==> exists|j: int|
                0 <= j < ordered_ids@.len() && !(has_item_id(
                    old(store)@.items,
                    #[trigger] ordered_ids@[j],
                ) && item_by_id(old(store)@.items, ordered_ids@[j]).vault_id == vault_id),
            r matches Err(e) ==> final(store)@ == old(store)@ && e matches VaultError::NotFound(_),
            r is Ok ==> ({
                let is0 = old(store)@.items;
                &&& final(store)@.items.len() == is0.len()
                &&& forall|j: int|
                    0 <= j < is0.len() ==> #[trigger] final(store)@.items[j] == (if is0[j].vault_id
                        == vault_id && last_index_of(ordered_ids@, is0[j].id) >= 0 {
                        item_with_position(
                            is0[j],
                            last_index_of(ordered_ids@, is0[j].id) as i64,
                            now@,
                        )
                    } else {
                        is0[j]
                    })
                &&& final(store)@.vaults == vaults_after_touch(old(store)@.vaults, vault_id, now@)
            }),
            final(store)@.settings == old(store)@.settings,
            final(store)@.next_vault_id == old(store)@.next_vault_id,
            final(store)@.next_item_id == old(store)@.next_item_id,
    {
        let mut n: usize = 0;
        while n < ordered_ids.len()
            invariant
                n <= ordered_ids@.len(),
                old(store)@ == store@,
                store@.wf(),
                forall|j: int|
                    0 <= j < n ==> has_item_id(store@.items, #[trigger] ordered_ids@[j])
                        && item_by_id(store@.items, ordered_ids@[j]).vault_id == vault_id,
            decreases ordered_ids@.len() - n,
        {
            let id = ordered_ids[n];
            match find_item_index(&store.items, id) {
                Some(k) => {
                    proof {
                        lemma_item_idx(store@.items, k as int, id);
                    }
                    if !(store.items[k].vault_id == vault_id) {
                        return Err(VaultError::NotFound(id));
                    }
                },
                None => {
                    return Err(VaultError::NotFound(id));
                },
            }
            n = n + 1;
        }
        let ghost is0 = store@.items;
        let mut new_items: Vec<VaultItem> = Vec::new();
        let mut i: usize = 0;
        while i < store.items.len()
            invariant
                i <= store.items@.len(),
                is0 == items_view(store.items@),
                new_items@.len() == i,
                forall|j: int|
                    0 <= j < i ==> #[trigger] items_view(new_items@)[j] == (if is0[j].vault_id
                        == vault_id && last_index_of(ordered_ids@, is0[j].id) >= 0 {
                        item_with_position(
                            is0[j],
                            last_index_of(ordered_ids@, is0[j].id) as i64,
                            now@,
                        )
                    } else {
                        is0[j]
                    }),
            decreases store.items@.len() - i,
        {
            let ghost prev = new_items@;
            let it = &store.items[i];
            let pos = if it.vault_id == vault_id {
                last_pos(ordered_ids, it.id)
            } else {
                None
            };
            match pos {
                Some(p) => {
                    let mut c = it.duplicate();
                    c.sort_order = Some(p as i64);
                    c.updated_at = String::from_str(now);
                    new_items.push(c);
                    proof {
                        assert(items_view(new_items@)[i as int] == c@);
                        assert(c@ == item_with_position(
                            is0[i as int],
                            last_index_of(ordered_ids@, is0[i as int].id) as i64,
                            now@,
                        ));
                    }
                },
                None => {
                    new_items.push(it.duplicate());
                    proof {
                        assert(items_view(new_items@)[i as int] == is0[i as int]);
                    }
                },
            }
            proof {
                assert forall|j: int| 0 <= j < i implies #[trigger] items_view(new_items@)[j]
                    == items_view(prev)[j] by {
                    assert(new_items@[j] == prev[j]);
                }
            }
            i = i + 1;
        }
        store.items = new_items;
        proof {
            lemma_wf_same_idents(old(store)@, store@);
        }
        touch_vault(store, vault_id, now);
        Ok(())
    }
}

/// A non-negative last position really carries the id, inside bounds.
pub proof fn lemma_last_index_sound(ids: Seq<i64>, id: i64)
    ensures
        last_index_of(ids, id) < ids.len(),
        last_index_of(ids, id) >= 0 ==> ids[last_index_of(ids, id)] == id,
        last_index_of(ids, id) >= -1,
    decreases ids.len(),
{
    if ids.len() > 0 && ids.last() != id {
        lemma_last_index_sound(ids.drop_last(), id);
    }
}

/// In a listing sorted by the item order where every row carries a
/// distinct explicit position inside `0..n`, the row at index `j` carries
/// position `j`.
proof fn lemma_positions_are_indices(r: Seq<ItemV>, j: int)
    requires
        sorted_by(r, (|a: ItemV, b: ItemV| item_order_le(a, b))),
        forall|k: int|
            0 <= k < r.len() ==> ((#[trigger] r[k]).sort_order matches Some(p) && 0 <= p < r.len()),
        forall|k: int, l: int|
            0 <= k < l < r.len() ==> (#[trigger] r[k]).sort_order != (#[trigger] r[l]).sort_order,
        0 <= j < r.len(),
    ensures
        r[j].sort_order == Some(j as i64),
{
    let leq = (|a: ItemV, b: ItemV| item_order_le(a, b));
    // positions strictly increase along the listing
    assert forall|k: int, l: int| 0 <= k < l < r.len() implies (#[trigger] r[k]).sort_order->0 < (
    #[trigger] r[l]).sort_order->0 by {
        assert(leq(r[k], r[l]));
    }
    lemma_position_lower(r, j);
    lemma_position_upper(r, j);
}

/// Strictly increasing positions grow at least as fast as the index.
proof fn lemma_position_lower(r: Seq<ItemV>, j: int)
    requires
        forall|k: int|
            0 <= k < r.len() ==> ((#[trigger] r[k]).sort_order matches Some(p) && 0 <= p < r.len()),
        forall|k: int, l: int|
            0 <= k < l < r.len() ==> (#[trigger] r[k]).sort_order->0 < (
            #[trigger] r[l]).sort_order->0,
        0 <= j < r.len(),
    ensures
        r[j].sort_order->0 >= j,
    decreases j,
{
    if j > 0 {
        lemma_position_lower(r, j - 1);
    }
}

/// Strictly increasing positions below `n` stay at most the index.
proof fn lemma_position_upper(r: Seq<ItemV>, j: int)
    requires
        forall|k: int|
            0 <= k < r.len() ==> ((#[trigger] r[k]).sort_order matches Some(p) && 0 <= p < r.len()),
        forall|k: int, l: int|
            0 <= k < l < r.len() ==> (#[trigger] r[k]).sort_order->0 < (
            #[trigger] r[l]).sort_order->0,
        0 <= j < r.len(),
    ensures
        r[j].sort_order->0 <= j,
    decreases r.len() - j,
{
    if j < r.len() - 1 {
        lemma_position_upper(r, j + 1);
    }
}

/// Reorder atomicity, listing half: a listing of the vault's live items —
/// sorted by the listing order, with pairwise-distinct ids, one row per
/// reordered id — comes back in exactly the order the reorder assigned.
/// Each row carries the position its id holds in `ids`, as a successful
/// [`VaultItem::update_order`] leaves it.
pub proof fn lemma_reorder_fixes_listing(r: Seq<ItemV>, ids: Seq<i64>)
    requires
        sorted_by(r, (|a: ItemV, b: ItemV| item_order_le(a, b))),
        r.len() == ids.len(),
        r.len() <= 0x7fff_ffff_ffff_ffff,
        forall|j: int|
            0 <= j < r.len() ==> (#[trigger] r[j]).sort_order == Some(
                last_index_of(ids, r[j].id) as i64,
            ),
        forall|j: int| 0 <= j < r.len() ==> last_index_of(ids, (#[trigger] r[j]).id) >= 0,
        forall|i: int, j: int|
            0 <= i < j < r.len() ==> (#[trigger] r[i]).id != (#[trigger] r[j]).id,
    ensures
        forall|j: int| 0 <= j < r.len() ==> (#[trigger] r[j]).id == ids[j],
{
    assert forall|j: int| 0 <= j < r.len() implies ((#[trigger] r[j]).sort_order matches Some(p)
        && 0 <= p < r.len()) by {
        lemma_last_index_sound(ids, r[j].id);
    }
    assert forall|k: int, l: int| 0 <= k < l < r.len() implies (#[trigger] r[k]).sort_order != (
    #[trigger] r[l]).sort_order by {
        lemma_last_index_sound(ids, r[k].id);
        lemma_last_index_sound(ids, r[l].id);
        if r[k].sort_order == r[l].sort_order {
            let p = last_index_of(ids, r[k].id);
            assert(ids[p] == r[k].id);
            assert(ids[p] == r[l].id);
        }
    }
    assert forall|j: int| 0 <= j < r.len() implies (#[trigger] r[j]).id == ids[j] by {
        lemma_positions_are_indices(r, j);
        lemma_last_index_sound(ids, r[j].id);
        assert(last_index_of(ids, r[j].id) == j);
    }
}

/// Is `v1` the row `v0` after backfill: same everywhere, a uuid where one
/// was missing, and `updated_at` defaulted to `created_at`?
pub open spec fn vault_backfilled(v0: VaultV, v1: VaultV) -> bool {
    &&& v1.id == v0.id
    &&& v1.name == v0.name
    &&& v1.encrypted_password == v0.encrypted_password
    &&& v1.created_at == v0.created_at
    &&& v1.cover_image == v0.cover_image
    &&& v1.has_password == v0.has_password
    &&& (v0.uuid is Some ==> v1.uuid == v0.uuid)
    &&& v1.uuid is Some
    &&& v1.updated_at == (match v0.updated_at {
        Some(u) => Some(u),
        None => Some(v0.created_at),
    })
    &&& v1.deleted_at == v0.deleted_at
}

/// Is `i1` the row `i0` after backfill: same everywhere, a uuid where one
/// was missing?
pub open spec fn item_backfilled(i0: ItemV, i1: ItemV) -> bool {
    &&& i1.id == i0.id
    &&& i1.vault_id == i0.vault_id
    &&& i1.title == i0.title
    &&& i1.content == i0.content
    &&& i1.created_at == i0.created_at
    &&& i1.updated_at == i0.updated_at
    &&& i1.image == i0.image
    &&& i1.summary == i0.summary
    &&& i1.sort_order == i0.sort_order
    &&& (i0.uuid is Some ==> i1.uuid == i0.uuid)
    &&& i1.uuid is Some
    &&& i1.deleted_at == i0.deleted_at
}

impl VaultStore {
    /// Normalise legacy rows, as the versioned schema migration does:
    /// every vault and item gets a uuid (fresh where missing), and a vault
    /// without `updated_at` takes its `created_at`. All or nothing: if a
    /// freshly drawn uuid collides, nothing changes.
    pub fn migrate(&mut self) -> (r: Result<(), VaultError>)
        requires
            old(self)@.wf(),
        ensures
            final(self)@.wf(),
            (forall|j: int| 0 <= j < old(self)@.vaults.len() ==> (#[trigger] old(self)@.vaults[j]).uuid is Some)
                && (forall|j: int| 0 <= j < old(self)@.items.len() ==> (#[trigger] old(self)@.items[j]).uuid is Some)
                ==> r is Ok,
            r matches Err(e) ==> final(self)@ == old(self)@ && e
                == VaultError::SchemaMigrationFailure,
            r is Ok ==> ({
                &&& final(self)@.vaults.len() == old(self)@.vaults.len()
                &&& forall|j: int|
                    0 <= j < old(self)@.vaults.len() ==> vault_backfilled(
                        old(self)@.vaults[j],
                        #[trigger] final(self)@.vaults[j],
                    )
                &&& final(self)@.items.len() == old(self)@.items.len()
                &&& forall|j: int|
                    0 <= j < old(self)@.items.len() ==> item_backfilled(
                        old(self)@.items[j],
                        #[trigger] final(self)@.items[j],
                    )
                &&& final(self)@.settings == old(self)@.settings
                &&& final(self)@.next_vault_id == old(self)@.next_vault_id
                &&& final(self)@.next_item_id == old(self)@.next_item_id
            }),
    {
        let ghost vs0 = self@.vaults;
        let ghost is0 = self@.items;
        let mut new_vaults: Vec<Vault> = Vec::new();
        let mut i: usize = 0;
        while i < self.vaults.len()
            invariant
                i <= self.vaults@.len(),
                self@.wf(),
                vs0 == vaults_view(self.vaults@),
                new_vaults@.len() == i,
                forall|j: int|
                    0 <= j < i ==> vault_backfilled(
                        vs0[j],
                        #[trigger] vaults_view(new_vaults@)[j],
                    ),
                forall|j: int|
                    0 <= j < i && vs0[j].uuid is None ==> !has_vault_uuid(
                        vs0,
                        (#[trigger] vaults_view(new_vaults@)[j]).uuid->0,
                    ),
                vault_uuids_unique(vaults_view(new_vaults@)),
            decreases self.vaults@.len() - i,
        {
            let ghost prev = new_vaults@;
            let v = &self.vaults[i];
            let mut c = v.duplicate();
            if c.uuid.is_none() {
                let g = crate::fresh::generate_uuid();
                match find_vault_index_by_uuid(&self.vaults, g.as_str()) {
                    Some(_) => {
                        return Err(VaultError::SchemaMigrationFailure);
                    },
                    None => {},
                }
                match find_vault_index_by_uuid(&new_vaults, g.as_str()) {
                    Some(_) => {
                        return Err(VaultError::SchemaMigrationFailure);
                    },
                    None => {},
                }
                c.uuid = Some(g);
            }
            if c.updated_at.is_none() {
                c.updated_at = Some(c.created_at.clone());
            }
            new_vaults.push(c);
            proof {
                let nv = vaults_view(new_vaults@)[i as int];
                assert(vault_backfilled(vs0[i as int], nv));
                assert forall|j: int| 0 <= j < i implies #[trigger] vaults_view(new_vaults@)[j]
                    == vaults_view(prev)[j] by {
                    assert(new_vaults@[j] == prev[j]);
                }
                assert forall|a: int, b: int| 0 <= a < b < i + 1 implies !((
                #[trigger] vaults_view(new_vaults@)[a]).uuid is Some && vaults_view(
                    new_vaults@,
                )[a].uuid == (#[trigger] vaults_view(new_vaults@)[b]).uuid) by {
                    if b == i {
                        let ua = vaults_view(new_vaults@)[a].uuid;
                        if ua is Some && ua == nv.uuid {
                            if vs0[a].uuid is Some && vs0[i as int].uuid is Some {
                                assert(vs0[a].uuid == vs0[i as int].uuid);
                            } else if vs0[a].uuid is Some && vs0[i as int].uuid is None {
                                assert(has_vault_uuid(vs0, nv.uuid->0)) by {
                                    assert(vs0[a].uuid == Some(nv.uuid->0));
                                }
                            } else if vs0[a].uuid is None && vs0[i as int].uuid is Some {
                                assert(has_vault_uuid(vs0, ua->0)) by {
                                    assert(vs0[i as int].uuid == Some(ua->0));
                                }
                            }
                        }
                    }
                }
            }
            i = i + 1;
        }
        let mut new_items: Vec<VaultItem> = Vec::new();
        let mut k: usize = 0;
        while k < self.items.len()
            invariant
                k <= self.items@.len(),
                self@.wf(),
                is0 == items_view(self.items@),
                new_items@.len() == k,
                forall|j: int|
                    0 <= j < k ==> item_backfilled(is0[j], #[trigger] items_view(new_items@)[j]),
                forall|j: int|
                    0 <= j < k && is0[j].uuid is None ==> !has_item_uuid(
                        is0,
                        (#[trigger] items_view(new_items@)[j]).uuid->0,
                    ),
                item_uuids_unique(items_view(new_items@)),
            decreases self.items@.len() - k,
        {
            let ghost prev = new_items@;
            let it = &self.items[k];
            let mut c = it.duplicate();
            if c.uuid.is_none() {
                let g = crate::fresh::generate_uuid();
                match find_item_index_by_uuid(&self.items, g.as_str()) {
                    Some(_) => {
                        return Err(VaultError::SchemaMigrationFailure);
                    },
                    None => {},
                }
                match find_item_index_by_uuid(&new_items, g.as_str()) {
                    Some(_) => {
                        return Err(VaultError::SchemaMigrationFailure);
                    },
                    None => {},
                }
                c.uuid = Some(g);
            }
            new_items.push(c);
            proof {
                let ni = items_view(new_items@)[k as int];
                assert(item_backfilled(is0[k as int], ni));
                assert forall|j: int| 0 <= j < k implies #[trigger] items_view(new_items@)[j]
                    == items_view(prev)[j] by {
                    assert(new_items@[j] == prev[j]);
                }
                assert forall|a: int, b: int| 0 <= a < b < k + 1 implies !((
                #[trigger] items_view(new_items@)[a]).uuid is Some && items_view(
                    new_items@,
                )[a].uuid == (#[trigger] items_view(new_items@)[b]).uuid) by {
                    if b == k {
                        let ua = items_view(new_items@)[a].uuid;
                        if ua is Some && ua == ni.uuid {
                            if is0[a].uuid is Some && is0[k as int].uuid is Some {
                                assert(is0[a].uuid == is0[k as int].uuid);
                            } else if is0[a].uuid is Some && is0[k as int].uuid is None {
                                assert(has_item_uuid(is0, ni.uuid->0)) by {
                                    assert(is0[a].uuid == Some(ni.uuid->0));
                                }
                            } else if is0[a].uuid is None && is0[k as int].uuid is Some {
                                assert(has_item_uuid(is0, ua->0)) by {
                                    assert(is0[k as int].uuid == Some(ua->0));
                                }
                            }
                        }
                    }
                }
            }
            k = k + 1;
        }
        self.vaults = new_vaults;
        self.items = new_items;
        proof {
            lemma_wf_same_idents_loose(old(self)@, self@);
        }
        Ok(())
    }
}

/// Row updates that keep ids and keep uuid uniqueness (uuids may be
/// assigned, never reused) keep well-formedness.
proof fn lemma_wf_same_idents_loose(s0: StoreV, s1: StoreV)
    requires
        s0.wf(),
        s1.vaults.len() == s0.vaults.len(),
        forall|j: int| 0 <= j < s0.vaults.len() ==> (#[trigger] s1.vaults[j]).id == s0.vaults[j].id,
        vault_uuids_unique(s1.vaults),
        s1.items.len() == s0.items.len(),
        forall|j: int| 0 <= j < s0.items.len() ==> (#[trigger] s1.items[j]).id == s0.items[j].id,
        item_uuids_unique(s1.items),
        s1.settings == s0.settings,
        s1.next_vault_id == s0.next_vault_id,
        s1.next_item_id == s0.next_item_id,
    ensures
        s1.wf(),
{
}

/// Copy a vault row list; the copy has the same abstract values.
pub(crate) fn clone_vault_rows(src: &Vec<Vault>) -> (r: Vec<Vault>)
    ensures
        vaults_view(r@) == vaults_view(src@),
{
    let mut out: Vec<Vault> = Vec::new();
    let mut i: usize = 0;
    while i < src.len()
        invariant
            i <= src@.len(),
            out@.len() == i,
            forall|j: int| 0 <= j < i ==> #[trigger] vaults_view(out@)[j] == vaults_view(src@)[j],
        decreases src@.len() - i,
    {
        let ghost prev = out@;
        out.push(src[i].duplicate());
        proof {
            assert forall|j: int| 0 <= j < i implies #[trigger] vaults_view(out@)[j]
                == vaults_view(prev)[j] by {
                assert(out@[j] == prev[j]);
            }
        }
        i = i + 1;
    }
    proof {
        assert(vaults_view(out@) =~= vaults_view(src@));
    }
    out
}

/// Copy an item row list; the copy has the same abstract values.
pub(crate) fn clone_item_rows(src: &Vec<VaultItem>) -> (r: Vec<VaultItem>)
    ensures
        items_view(r@) == items_view(src@),
{
    let mut out: Vec<VaultItem> = Vec::new();
    let mut i: usize = 0;
    while i < src.len()
        invariant
            i <= src@.len(),
            out@.len() == i,
            forall|j: int| 0 <= j < i ==> #[trigger] items_view(out@)[j] == items_view(src@)[j],
        decreases src@.len() - i,
    {
        let ghost prev = out@;
        out.push(src[i].duplicate());
        proof {
            assert forall|j: int| 0 <= j < i implies #[trigger] items_view(out@)[j]
                == items_view(prev)[j] by {
                assert(out@[j] == prev[j]);
            }
        }
        i = i + 1;
    }
    proof {
        assert(items_view(out@) =~= items_view(src@));
    }
    out
}

} // verus!
