//! Whole-vault backup: decrypt chosen vaults into a plain export document
//! and import such a document as new vaults under one password.
//!
//! Unlike the sync exchange, a backup never merges: every imported vault
//! and item is created fresh, with new local ids and uuids, re-encrypted
//! under keys derived from the single password and each new vault id.

use vstd::prelude::*;
use vstd::utf8::encode_utf8;

use crate::crypto::{blob_plaintext, decrypt_content, derive_key_from_password, encrypt_content,
    encrypt_password, pbkdf2_sha256, sealable};
use crate::decimal::{dec_int, i64_to_string};
use crate::errors::VaultError;
use crate::vault::{Vault, VaultItem, VaultStore, StoreV, VaultV, ItemV, opt_view, opt_str_clone,
    has_vault_id, vault_by_id, vault_idx_by_id, items_view, live_in_vault,
    lemma_vault_idx, lemma_wf_vault_push, lemma_wf_item_push, find_item_index_by_uuid,
    find_vault_index_by_uuid, lemma_filter_subset};

verus! {

/// One decrypted item of a backup document.
#[derive(Debug, Clone)]
pub struct ExportedItem {
    pub title: String,
    /// Plaintext content.
    pub content: String,
    pub created_at: String,
    pub updated_at: String,
    pub image: Option<String>,
    pub summary: Option<String>,
}

/// One vault of a backup document, carrying its decrypted items.
#[derive(Debug, Clone)]
pub struct ExportedVault {
    pub name: String,
    pub created_at: String,
    pub cover_image: Option<String>,
    pub items: Vec<ExportedItem>,
}

/// A whole backup document.
#[derive(Debug, Clone)]
pub struct ExportData {
    pub version: String,
    pub exported_at: String,
    pub vaults: Vec<ExportedVault>,
}

/// The abstract value of an [`ExportedItem`].
pub struct ExpItemV {
    pub title: Seq<char>,
    pub content: Seq<char>,
    pub created_at: Seq<char>,
    pub updated_at: Seq<char>,
    pub image: Option<Seq<char>>,
    pub summary: Option<Seq<char>>,
}

impl View for ExportedItem {
    type V = ExpItemV;

    open spec fn view(&self) -> ExpItemV {
        ExpItemV {
            title: self.title@,
            content: self.content@,
            created_at: self.created_at@,
            updated_at: self.updated_at@,
            image: opt_view(self.image),
            summary: opt_view(self.summary),
        }
    }
}

/// The abstract value of an [`ExportedVault`].
pub struct ExpVaultV {
    pub name: Seq<char>,
    pub created_at: Seq<char>,
    pub cover_image: Option<Seq<char>>,
    pub items: Seq<ExpItemV>,
}

/// The abstract values of a backup document's items.
pub open spec fn exp_items_view(s: Seq<ExportedItem>) -> Seq<ExpItemV> {
    Seq::new(s.len(), |i: int| s[i]@)
}

impl View for ExportedVault {
    type V = ExpVaultV;

    open spec fn view(&self) -> ExpVaultV {
        ExpVaultV {
            name: self.name@,
            created_at: self.created_at@,
            cover_image: opt_view(self.cover_image),
            items: exp_items_view(self.items@),
        }
    }
}

/// The abstract values of a backup document's vaults.
pub open spec fn exp_vaults_view(s: Seq<ExportedVault>) -> Seq<ExpVaultV> {
    Seq::new(s.len(), |i: int| s[i]@)
}

/// The abstract values of a list of caller-supplied keys.
pub open spec fn byte_lists_view(s: Seq<Vec<u8>>) -> Seq<Seq<u8>> {
    Seq::new(s.len(), |i: int| s[i]@)
}

/// Does this exported item faithfully reflect some live stored item of
/// vault `vid`, its content decrypted under `key`?
pub open spec fn backup_item_sound(pre: StoreV, ei: ExpItemV, vid: i64, key: Seq<u8>) -> bool {
    exists|it: ItemV|
        #[trigger] pre.items.contains(it) && {
            &&& live_in_vault(it, vid)
            &&& ei.title == it.title
            &&& blob_plaintext(key, it.content) == Some(ei.content)
            &&& ei.created_at == it.created_at
            &&& ei.updated_at == it.updated_at
            &&& ei.image == it.image
            &&& ei.summary == it.summary
        }
}

/// Are these backup-export inputs serviceable: parallel lists, every id
/// naming a vault, every key 32 bytes, and every live item of each chosen
/// vault decrypting under its key? The export succeeds exactly then.
pub open spec fn backup_inputs_good(s: StoreV, ids: Seq<i64>, ks: Seq<Seq<u8>>) -> bool {
    &&& ids.len() == ks.len()
    &&& forall|j: int| 0 <= j < ids.len() ==> has_vault_id(s.vaults, #[trigger] ids[j])
    &&& forall|j: int| 0 <= j < ids.len() ==> (#[trigger] ks[j]).len() == 32
    &&& forall|j: int, i: int|
        0 <= j < ids.len() && 0 <= i < s.items.len() && live_in_vault(
            #[trigger] s.items[i],
            #[trigger] ids[j],
        ) ==> blob_plaintext(ks[j], s.items[i].content) is Some
}

/// Decrypt the chosen vaults into one backup document. Ids and keys are
/// parallel lists; a missing vault, a key of the wrong length or an item
/// that does not decrypt fails the whole export.
pub fn export_vaults(
    store: &VaultStore,
    vault_ids: &Vec<i64>,
    keys: &Vec<Vec<u8>>,
    exported_at: &str,
) -> (r: Result<ExportData, VaultError>)
    requires
        store@.wf(),
    ensures
        vault_ids@.len() != keys@.len() ==> r == Err::<ExportData, VaultError>(
            VaultError::KeyLengthInvalid,
        ),
        r matches Err(e) ==> (e == VaultError::KeyLengthInvalid || e matches VaultError::NotFound(_)
            || e == VaultError::CryptoFailure || e == VaultError::InvalidCiphertext),
        r is Ok <==> backup_inputs_good(store@, vault_ids@, byte_lists_view(keys@)),
        r matches Ok(data) ==> ({
            &&& data.version@ == "1.0"@
            &&& data.exported_at@ == exported_at@
            &&& data.vaults@.len() == vault_ids@.len()
            &&& forall|j: int|
                0 <= j < vault_ids@.len() ==> ({
                    let ev = exp_vaults_view(data.vaults@)[j];
                    &&& has_vault_id(store@.vaults, #[trigger] vault_ids@[j])
                    &&& byte_lists_view(keys@)[j].len() == 32
                    &&& ({
                        let v = vault_by_id(store@.vaults, vault_ids@[j]);
                        &&& ev.name == v.name
                        &&& ev.created_at == v.created_at
                        &&& ev.cover_image == v.cover_image
                        &&& forall|ii: int|
                            0 <= ii < ev.items.len() ==> backup_item_sound(
                                store@,
                                #[trigger] ev.items[ii],
                                v.id,
                                byte_lists_view(keys@)[j],
                            )
                    })
                })
        }),
{
    if vault_ids.len() != keys.len() {
        return Err(VaultError::KeyLengthInvalid);
    }
    let ghost pre = store@;
    let mut out_vaults: Vec<ExportedVault> = Vec::new();
    let mut j: usize = 0;
    while j < vault_ids.len()
        invariant
            j <= vault_ids@.len(),
            pre == store@,
            pre.wf(),
            vault_ids@.len() == keys@.len(),
            out_vaults@.len() == j,
            forall|q: int|
                0 <= q < j ==> ({
                    let ev = exp_vaults_view(out_vaults@)[q];
                    &&& has_vault_id(pre.vaults, #[trigger] vault_ids@[q])
                    &&& byte_lists_view(keys@)[q].len() == 32
                    &&& ({
                        let v = vault_by_id(pre.vaults, vault_ids@[q]);
                        &&& ev.name == v.name
                        &&& ev.created_at == v.created_at
                        &&& ev.cover_image == v.cover_image
                        &&& forall|ii: int|
                            0 <= ii < ev.items.len() ==> backup_item_sound(
                                pre,
                                #[trigger] ev.items[ii],
                                v.id,
                                byte_lists_view(keys@)[q],
                            )
                    })
                }),
            forall|q: int, i: int|
                0 <= q < j && 0 <= i < pre.items.len() && live_in_vault(
                    #[trigger] pre.items[i],
                    #[trigger] vault_ids@[q],
                ) ==> blob_plaintext(byte_lists_view(keys@)[q], pre.items[i].content) is Some,
        decreases vault_ids@.len() - j,
    {
        let ghost prev = out_vaults@;
        let vid = vault_ids[j];
        let key = &keys[j];
        if key.len() != 32 {
            proof {
                assert(byte_lists_view(keys@)[j as int].len() != 32);
            }
            return Err(VaultError::KeyLengthInvalid);
        }
        let v = match Vault::get_by_id(store, vid) {
            Some(v) => v,
            None => {
                proof {
                    assert(!has_vault_id(store@.vaults, vault_ids@[j as int]));
                }
                return Err(VaultError::NotFound(vid));
            },
        };
        let items = VaultItem::list_by_vault(store, vid);
        let ghost li = items_view(items@);
        let mut out_items: Vec<ExportedItem> = Vec::new();
        let mut ii: usize = 0;
        while ii < items.len()
            invariant
                ii <= items@.len(),
                pre == store@,
                pre.wf(),
                li == items_view(items@),
                li.to_multiset() == pre.items.filter(
                    (|it: ItemV| live_in_vault(it, vid)),
                ).to_multiset(),
                vault_ids@.len() == keys@.len(),
                j < vault_ids@.len(),
                vid == vault_ids@[j as int],
                key@ == byte_lists_view(keys@)[j as int],
                key@.len() == 32,
                out_items@.len() == ii,
                forall|q: int| 0 <= q < ii ==> blob_plaintext(key@, (#[trigger] li[q]).content)
                    is Some,
                forall|q: int|
                    0 <= q < ii ==> backup_item_sound(
                        pre,
                        #[trigger] exp_items_view(out_items@)[q],
                        vid,
                        key@,
                    ),
            decreases items@.len() - ii,
        {
            let ghost prev_items = out_items@;
            let it = &items[ii];
            proof {
                li.to_multiset_ensures();
                let f = pre.items.filter((|x: ItemV| live_in_vault(x, vid)));
                f.to_multiset_ensures();
                assert(li.contains(li[ii as int]));
                assert(li.to_multiset().count(li[ii as int]) > 0);
                assert(f.contains(li[ii as int]));
                let w = choose|w: int| 0 <= w < f.len() && f[w] == li[ii as int];
                lemma_filter_subset(pre.items, (|x: ItemV| live_in_vault(x, vid)), w);
                pre.items.lemma_filter_pred((|x: ItemV| live_in_vault(x, vid)), w);
                assert(pre.items.contains(li[ii as int]));
            }
            let content = match decrypt_content(key.as_slice(), it.content.as_slice()) {
                Ok(c) => c,
                Err(e) => {
                    proof {
                        // a live item of the chosen vault does not decrypt
                        let k = choose|k: int|
                            0 <= k < pre.items.len() && #[trigger] pre.items[k] == li[ii as int];
                        assert(live_in_vault(pre.items[k], vault_ids@[j as int]));
                        assert(blob_plaintext(key@, pre.items[k].content) is None);
                        assert(!backup_inputs_good(pre, vault_ids@, byte_lists_view(keys@)));
                    }
                    return Err(e);
                },
            };
            out_items.push(ExportedItem {
                title: it.title.clone(),
                content,
                created_at: it.created_at.clone(),
                updated_at: it.updated_at.clone(),
                image: opt_str_clone(&it.image),
                summary: opt_str_clone(&it.summary),
            });
            proof {
                assert(backup_item_sound(pre, exp_items_view(out_items@)[ii as int], vid, key@));
                assert forall|q: int| 0 <= q < prev_items.len() implies #[trigger] exp_items_view(
                    out_items@,
                )[q] == exp_items_view(prev_items)[q] by {
                    assert(out_items@[q] == prev_items[q]);
                }
            }
            ii = ii + 1;
        }
        proof {
            // every live item of this vault decrypts under its key
            let f = pre.items.filter((|it: ItemV| live_in_vault(it, vid)));
            li.to_multiset_ensures();
            f.to_multiset_ensures();
            assert forall|i: int|
                0 <= i < pre.items.len() && live_in_vault(
                    #[trigger] pre.items[i],
                    vault_ids@[j as int],
                ) implies blob_plaintext(
                byte_lists_view(keys@)[j as int],
                pre.items[i].content,
            ) is Some by {
                pre.items.lemma_filter_contains((|it: ItemV| live_in_vault(it, vid)), i);
                assert(f.contains(pre.items[i]));
                assert(f.to_multiset().count(pre.items[i]) > 0);
                assert(li.contains(pre.items[i]));
                let q = choose|q: int| 0 <= q < li.len() && li[q] == pre.items[i];
                assert(blob_plaintext(key@, li[q].content) is Some);
            }
        }
        out_vaults.push(ExportedVault {
            name: v.name,
            created_at: v.created_at,
            cover_image: v.cover_image,
            items: out_items,
        });
        proof {
            let ev = exp_vaults_view(out_vaults@)[j as int];
            assert(ev.items =~= exp_items_view(out_items@)) by {
                assert(out_vaults@[j as int].items@ == out_items@);
            }
            assert forall|q: int| 0 <= q < prev.len() implies #[trigger] exp_vaults_view(
                out_vaults@,
            )[q] == exp_vaults_view(prev)[q] by {
                assert(out_vaults@[q] == prev[q]);
            }
        }
        j = j + 1;
    }
    proof {
        assert forall|q: int| 0 <= q < vault_ids@.len() implies (#[trigger] byte_lists_view(
            keys@,
        )[q]).len() == 32 by {
            let touch = vault_ids@[q];
        }
        assert(backup_inputs_good(pre, vault_ids@, byte_lists_view(keys@)));
    }
    Ok(ExportData {
        version: String::from_str("1.0"),
        exported_at: String::from_str(exported_at),
        vaults: out_vaults,
    })
}

/// How many items a backup document carries.
pub open spec fn sum_exp_items(vs: Seq<ExpVaultV>) -> int
    decreases vs.len(),
{
    if vs.len() == 0 {
        0int
    } else {
        sum_exp_items(vs.drop_last()) + vs.last().items.len()
    }
}

proof fn lemma_sum_exp_items_nonneg(vs: Seq<ExpVaultV>)
    ensures
        sum_exp_items(vs) >= 0,
    decreases vs.len(),
{
    if vs.len() > 0 {
        lemma_sum_exp_items_nonneg(vs.drop_last());
    }
}

proof fn lemma_sum_exp_items_take_le(vs: Seq<ExpVaultV>, i: int)
    requires
        0 <= i <= vs.len(),
    ensures
        sum_exp_items(vs.take(i)) <= sum_exp_items(vs),
    decreases vs.len() - i,
{
    if i < vs.len() {
        lemma_sum_exp_items_take_le(vs, i + 1);
        assert(vs.take(i + 1).drop_last() =~= vs.take(i));
        assert(vs.take(i + 1).last().items.len() >= 0);
    } else {
        assert(vs.take(i) =~= vs);
    }
}

/// Rows already in place stay findable and unchanged when later rows are
/// only appended.
proof fn lemma_vault_facts_persist(s0: Seq<VaultV>, s1: Seq<VaultV>, id: i64)
    requires
        crate::vault::vault_ids_unique(s1),
        has_vault_id(s0, id),
        s0.len() <= s1.len(),
        forall|j: int| 0 <= j < s0.len() ==> #[trigger] s1[j] == s0[j],
    ensures
        has_vault_id(s1, id),
        vault_by_id(s1, id) == vault_by_id(s0, id),
{
    let i = vault_idx_by_id(s0, id);
    assert(s0[i].id == id);
    assert(s1[i].id == id);
    lemma_vault_idx(s1, i, id);
}

/// A contained row stays contained when the sequence is only appended to.
proof fn lemma_contains_persists<A>(s0: Seq<A>, s1: Seq<A>, x: A)
    requires
        s0.contains(x),
        s0.len() <= s1.len(),
        forall|j: int| 0 <= j < s0.len() ==> #[trigger] s1[j] == s0[j],
    ensures
        s1.contains(x),
{
    let i = choose|i: int| 0 <= i < s0.len() && s0[i] == x;
    assert(s1[i] == x);
}

/// Can every item of the document, and the password itself, be sealed?
/// On such a document the import fails only on a chance uuid collision.
pub open spec fn backup_doc_sealable(dv: Seq<ExpVaultV>, password: Seq<char>) -> bool {
    &&& sealable(encode_utf8(password))
    &&& forall|q: int, i: int|
        0 <= q < dv.len() && 0 <= i < (#[trigger] dv[q]).items.len() ==> sealable(
            encode_utf8((#[trigger] dv[q].items[i]).content),
        )
}

/// The key an imported backup vault is encrypted under: derived from the
/// one import password and the vault's fresh decimal id.
pub open spec fn backup_key(password: Seq<char>, id: i64) -> Seq<u8> {
    pbkdf2_sha256(encode_utf8(password), encode_utf8(dec_int(id as int)), 100000)
}

/// Does the store hold a live item of vault `vid` carrying this backup
/// record, its content encrypted under `key`?
pub open spec fn backup_item_imported(s: StoreV, ei: ExpItemV, vid: i64, key: Seq<u8>) -> bool {
    exists|it: ItemV|
        #[trigger] s.items.contains(it) && {
            &&& it.vault_id == vid
            &&& it.title == ei.title
            &&& blob_plaintext(key, it.content) == Some(ei.content)
            &&& it.created_at == ei.created_at
            &&& it.updated_at == ei.updated_at
            &&& it.image == ei.image
            &&& it.summary == ei.summary
            &&& it.deleted_at is None
        }
}

/// Does the store hold, under local id `id`, the vault created for this
/// backup record: password-protected under the derived key, created at
/// `now`, every record item present?
pub open spec fn backup_vault_imported(
    s: StoreV,
    id: i64,
    ev: ExpVaultV,
    password: Seq<char>,
    now: Seq<char>,
) -> bool {
    &&& has_vault_id(s.vaults, id)
    &&& ({
        let v = vault_by_id(s.vaults, id);
        &&& v.name == ev.name
        &&& v.created_at == now
        &&& v.cover_image == ev.cover_image
        &&& v.has_password
        &&& blob_plaintext(backup_key(password, id), v.encrypted_password) == Some(password)
        &&& v.uuid is Some
        &&& v.deleted_at is None
    })
    &&& forall|ii: int|
        0 <= ii < ev.items.len() ==> backup_item_imported(
            s,
            #[trigger] ev.items[ii],
            id,
            backup_key(password, id),
        )
}

/// The creating pass of the backup import, which may stop midway on a
/// failed encryption or a uuid collision; [`import_vaults`] wraps it so a
/// failed import is never partially visible.
fn import_vaults_apply(
    store: &mut VaultStore,
    data: &ExportData,
    password: &str,
    now: &str,
) -> (r: Result<Vec<i64>, VaultError>)
    requires
        old(store)@.wf(),
        old(store)@.next_vault_id + data.vaults@.len() < i64::MAX,
        old(store)@.next_item_id + sum_exp_items(exp_vaults_view(data.vaults@)) < i64::MAX,
    ensures
        final(store)@.wf(),
        r matches Err(e) ==> (e == VaultError::CryptoFailure || e == VaultError::DuplicateUuid),
        r is Err ==> final(store)@.settings == old(store)@.settings,
        data.vaults@.len() == 0 ==> r is Ok,
        backup_doc_sealable(exp_vaults_view(data.vaults@), password@) ==> (r is Ok || r == Err::<
            Vec<i64>,
            VaultError,
        >(VaultError::DuplicateUuid)),
        r matches Ok(ids) ==> ({
            &&& ids@.len() == data.vaults@.len()
            &&& forall|j: int|
                0 <= j < ids@.len() ==> backup_vault_imported(
                    final(store)@,
                    #[trigger] ids@[j],
                    exp_vaults_view(data.vaults@)[j],
                    password@,
                    now@,
                )
        }),
{
    let ghost pre = old(store)@;
    let ghost dv = exp_vaults_view(data.vaults@);
    let mut out_ids: Vec<i64> = Vec::new();
    let mut j: usize = 0;
    while j < data.vaults.len()
        invariant
            j <= data.vaults@.len(),
            pre == old(store)@,
            pre.wf(),
            store@.wf(),
            dv == exp_vaults_view(data.vaults@),
            out_ids@.len() == j,
            store@.settings == pre.settings,
            store@.next_vault_id <= pre.next_vault_id + j,
            pre.next_vault_id + data.vaults@.len() < i64::MAX,
            store@.next_item_id <= pre.next_item_id + sum_exp_items(dv.take(j as int)),
            pre.next_item_id + sum_exp_items(dv) < i64::MAX,
            forall|q: int|
                0 <= q < j ==> backup_vault_imported(
                    store@,
                    #[trigger] out_ids@[q],
                    dv[q],
                    password@,
                    now@,
                ),
        decreases data.vaults@.len() - j,
    {
        proof {
            assert(dv.take(j + 1 as int).drop_last() =~= dv.take(j as int));
            assert(dv.take(j + 1 as int).last() == dv[j as int]);
            lemma_sum_exp_items_take_le(dv, j + 1 as int);
            lemma_sum_exp_items_nonneg(dv.take(j as int));
        }
        let ghost prev_ids = out_ids@;
        let ev = &data.vaults[j];
        let id = store.next_vault_id;
        let salt = i64_to_string(id);
        let key = derive_key_from_password(password, salt.as_str(), 100000);
        let enc = match encrypt_password(key.as_slice(), password) {
            Ok(e) => e,
            Err(_) => {
                return Err(VaultError::CryptoFailure);
            },
        };
        let vault_uuid = crate::fresh::generate_uuid();
        match find_vault_index_by_uuid(&store.vaults, vault_uuid.as_str()) {
            Some(_) => {
                return Err(VaultError::DuplicateUuid);
            },
            None => {},
        }
        let v = Vault {
            id,
            name: ev.name.clone(),
            encrypted_password: enc,
            created_at: String::from_str(now),
            cover_image: opt_str_clone(&ev.cover_image),
            has_password: true,
            uuid: Some(vault_uuid),
            updated_at: Some(String::from_str(now)),
            deleted_at: None,
        };
        let ghost nv = v@;
        let ghost before_vault = store@;
        store.vaults.push(v);
        store.next_vault_id = id + 1;
        out_ids.push(id);
        proof {
            assert(store@.vaults =~= before_vault.vaults.push(nv));
            lemma_wf_vault_push(before_vault, store@, nv);
            lemma_vault_idx(store@.vaults, store@.vaults.len() - 1, id);
            assert forall|q: int| 0 <= q < j implies backup_vault_imported(
                store@,
                #[trigger] out_ids@[q],
                dv[q],
                password@,
                now@,
            ) by {
                assert(out_ids@[q] == prev_ids[q]);
                lemma_backup_vault_persists(before_vault, store@, out_ids@[q], dv[q], password@,
                    now@);
            }
        }
        let ghost entry_next_item = store@.next_item_id;
        let mut ii: usize = 0;
        while ii < ev.items.len()
            invariant
                ii <= ev.items@.len(),
                pre == old(store)@,
                pre.wf(),
                store@.wf(),
                key@.len() == 32,
                key@ == backup_key(password@, id),
                dv == exp_vaults_view(data.vaults@),
                j < dv.len(),
                j < data.vaults@.len(),
                ev@ == dv[j as int],
                ev.items@.len() == dv[j as int].items.len(),
                out_ids@.len() == j + 1,
                out_ids@[j as int] == id,
                store@.settings == pre.settings,
                store@.next_vault_id <= pre.next_vault_id + j + 1,
                pre.next_vault_id + data.vaults@.len() < i64::MAX,
                store@.next_item_id <= entry_next_item + ii,
                entry_next_item <= pre.next_item_id + sum_exp_items(dv.take(j as int)),
                sum_exp_items(dv.take(j + 1 as int)) == sum_exp_items(dv.take(j as int))
                    + dv[j as int].items.len(),
                sum_exp_items(dv.take(j + 1 as int)) <= sum_exp_items(dv),
                pre.next_item_id + sum_exp_items(dv) < i64::MAX,
                has_vault_id(store@.vaults, id),
                ({
                    let v = vault_by_id(store@.vaults, id);
                    &&& v.name == dv[j as int].name
                    &&& v.created_at == now@
                    &&& v.cover_image == dv[j as int].cover_image
                    &&& v.has_password
                    &&& blob_plaintext(backup_key(password@, id), v.encrypted_password) == Some(
                        password@,
                    )
                    &&& v.uuid is Some
                    &&& v.deleted_at is None
                }),
                forall|q: int|
                    0 <= q < ii ==> backup_item_imported(
                        store@,
                        #[trigger] dv[j as int].items[q],
                        id,
                        backup_key(password@, id),
                    ),
                forall|q: int|
                    0 <= q < j ==> backup_vault_imported(
                        store@,
                        #[trigger] out_ids@[q],
                        dv[q],
                        password@,
                        now@,
                    ),
            decreases ev.items@.len() - ii,
        {
            let ei = &ev.items[ii];
            let enc = match encrypt_content(key.as_slice(), ei.content.as_str()) {
                Ok(e) => e,
                Err(_) => {
                    proof {
                        if backup_doc_sealable(dv, password@) {
                            assert(dv[j as int].items[ii as int] == ei@);
                            assert(false);
                        }
                    }
                    return Err(VaultError::CryptoFailure);
                },
            };
            let item_uuid = crate::fresh::generate_uuid();
            match find_item_index_by_uuid(&store.items, item_uuid.as_str()) {
                Some(_) => {
                    return Err(VaultError::DuplicateUuid);
                },
                None => {},
            }
            let iid = store.next_item_id;
            let it = VaultItem {
                id: iid,
                vault_id: id,
                title: ei.title.clone(),
                content: enc,
                created_at: ei.created_at.clone(),
                updated_at: ei.updated_at.clone(),
                image: opt_str_clone(&ei.image),
                summary: opt_str_clone(&ei.summary),
                sort_order: None,
                uuid: Some(item_uuid),
                deleted_at: None,
            };
            let ghost ni = it@;
            let ghost before_item = store@;
            store.items.push(it);
            store.next_item_id = iid + 1;
            proof {
                assert(store@.items =~= before_item.items.push(ni));
                lemma_wf_item_push(before_item, store@, ni);
                // the new row carries this backup record
                assert(store@.items.contains(ni)) by {
                    assert(store@.items[store@.items.len() - 1] == ni);
                }
                assert(dv[j as int].items[ii as int] == ei@);
                assert(backup_item_imported(
                    store@,
                    dv[j as int].items[ii as int],
                    id,
                    backup_key(password@, id),
                ));
                // earlier facts survive the append
                assert forall|q: int| 0 <= q < ii implies backup_item_imported(
                    store@,
                    #[trigger] dv[j as int].items[q],
                    id,
                    backup_key(password@, id),
                ) by {
                    let w = choose|w: ItemV|
                        #[trigger] before_item.items.contains(w) && w.vault_id == id && w.title
                            == dv[j as int].items[q].title && blob_plaintext(
                            backup_key(password@, id),
                            w.content,
                        ) == Some(dv[j as int].items[q].content) && w.created_at
                            == dv[j as int].items[q].created_at && w.updated_at
                            == dv[j as int].items[q].updated_at && w.image
                            == dv[j as int].items[q].image && w.summary
                            == dv[j as int].items[q].summary && w.deleted_at is None;
                    lemma_contains_persists(before_item.items, store@.items, w);
                }
                lemma_vault_facts_persist(before_item.vaults, store@.vaults, id);
                assert forall|q: int| 0 <= q < j implies backup_vault_imported(
                    store@,
                    #[trigger] out_ids@[q],
                    dv[q],
                    password@,
                    now@,
                ) by {
                    lemma_backup_vault_persists(
                        before_item,
                        store@,
                        out_ids@[q],
                        dv[q],
                        password@,
                        now@,
                    );
                }
            }
            ii = ii + 1;
        }
        proof {
            assert forall|q: int| 0 <= q < j + 1 implies backup_vault_imported(
                store@,
                #[trigger] out_ids@[q],
                dv[q],
                password@,
                now@,
            ) by {
                if q < j {
                    assert(out_ids@[q] == prev_ids[q]);
                }
            }
        }
        j = j + 1;
    }
    proof {
        assert(dv.take(data.vaults@.len() as int) =~= dv);
    }
    Ok(out_ids)
}

/// Import a backup document: every vault in it becomes a brand-new local
/// vault under the one password, its items re-encrypted under the key
/// derived from the password and the fresh vault id. Returns the new
/// local vault ids; on any error nothing is visible — the rows are
/// restored, so no partial import is ever observable.
pub fn import_vaults(
    store: &mut VaultStore,
    data: &ExportData,
    password: &str,
    now: &str,
) -> (r: Result<Vec<i64>, VaultError>)
    requires
        old(store)@.wf(),
        old(store)@.next_vault_id + data.vaults@.len() < i64::MAX,
        old(store)@.next_item_id + sum_exp_items(exp_vaults_view(data.vaults@)) < i64::MAX,
    ensures
        final(store)@.wf(),
        r matches Err(e) ==> final(store)@ == old(store)@ && (e == VaultError::CryptoFailure || e
            == VaultError::DuplicateUuid),
        data.vaults@.len() == 0 ==> r is Ok,
        backup_doc_sealable(exp_vaults_view(data.vaults@), password@) ==> (r is Ok || r == Err::<
            Vec<i64>,
            VaultError,
        >(VaultError::DuplicateUuid)),
        r matches Ok(ids) ==> ({
            &&& ids@.len() == data.vaults@.len()
            &&& forall|j: int|
                0 <= j < ids@.len() ==> backup_vault_imported(
                    final(store)@,
                    #[trigger] ids@[j],
                    exp_vaults_view(data.vaults@)[j],
                    password@,
                    now@,
                )
        }),
{
    let saved_vaults = crate::vault::clone_vault_rows(&store.vaults);
    let saved_items = crate::vault::clone_item_rows(&store.items);
    let saved_next_vault_id = store.next_vault_id;
    let saved_next_item_id = store.next_item_id;
    match import_vaults_apply(store, data, password, now) {
        Ok(ids) => Ok(ids),
        Err(e) => {
            store.vaults = saved_vaults;
            store.items = saved_items;
            store.next_vault_id = saved_next_vault_id;
            store.next_item_id = saved_next_item_id;
            proof {
                assert(store@ =~= old(store)@);
            }
            Err(e)
        },
    }
}

/// A vault's imported-backup facts survive appends to the store.
proof fn lemma_backup_vault_persists(
    s0: StoreV,
    s1: StoreV,
    id: i64,
    ev: ExpVaultV,
    password: Seq<char>,
    now: Seq<char>,
)
    requires
        backup_vault_imported(s0, id, ev, password, now),
        crate::vault::vault_ids_unique(s1.vaults),
        s0.vaults.len() <= s1.vaults.len(),
        forall|j: int| 0 <= j < s0.vaults.len() ==> #[trigger] s1.vaults[j] == s0.vaults[j],
        s0.items.len() <= s1.items.len(),
        forall|j: int| 0 <= j < s0.items.len() ==> #[trigger] s1.items[j] == s0.items[j],
    ensures
        backup_vault_imported(s1, id, ev, password, now),
{
    lemma_vault_facts_persist(s0.vaults, s1.vaults, id);
    assert forall|ii: int| 0 <= ii < ev.items.len() implies backup_item_imported(
        s1,
        #[trigger] ev.items[ii],
        id,
        backup_key(password, id),
    ) by {
        let w = choose|w: ItemV|
            #[trigger] s0.items.contains(w) && w.vault_id == id && w.title == ev.items[ii].title
                && blob_plaintext(backup_key(password, id), w.content) == Some(
                ev.items[ii].content,
            ) && w.created_at == ev.items[ii].created_at && w.updated_at
                == ev.items[ii].updated_at && w.image == ev.items[ii].image && w.summary
                == ev.items[ii].summary && w.deleted_at is None;
        lemma_contains_persists(s0.items, s1.items, w);
    }
}

} // verus!
