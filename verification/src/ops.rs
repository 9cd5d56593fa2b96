//! Vault operations above the store: password verification, item
//! decryption for display, and whole-vault password changes.
//!
//! These are the operations the application shell invokes directly. The
//! password check is the AEAD itself: a key is valid for a vault exactly
//! when it decrypts the stored verification payload.

use vstd::prelude::*;
use vstd::relations::sorted_by;
use vstd::utf8::encode_utf8;

use crate::crypto::{blob_plaintext, decrypt_content, derive_key_from_password, encrypt_content,
    encrypt_password, pbkdf2_sha256, sealable};
use crate::decimal::{dec_int, i64_to_string};
use crate::errors::VaultError;
use crate::vault::{Vault, VaultItem, VaultStore, VaultV, ItemV, opt_view, opt_str_clone,
    has_vault_id, vault_by_id, has_item_id, item_by_id, has_item_uuid, items_view,
    vaults_after_touch, live_in_vault, in_vault, item_order_le, vault_idx_by_id,
    item_with_content, find_vault_index, lemma_vault_idx, lemma_wf_same_idents};

verus! {

/// An item as handed to the user interface: content decrypted.
#[derive(Debug, Clone)]
pub struct VaultItemOut {
    pub id: i64,
    pub vault_id: i64,
    pub title: String,
    /// Decrypted plaintext content.
    pub content: String,
    pub created_at: String,
    pub updated_at: String,
    pub image: Option<String>,
    pub summary: Option<String>,
    pub sort_order: Option<i64>,
}

/// The abstract value of a [`VaultItemOut`].
pub struct ItemOutV {
    pub id: i64,
    pub vault_id: i64,
    pub title: Seq<char>,
    pub content: Seq<char>,
    pub created_at: Seq<char>,
    pub updated_at: Seq<char>,
    pub image: Option<Seq<char>>,
    pub summary: Option<Seq<char>>,
    pub sort_order: Option<i64>,
}

impl View for VaultItemOut {
    type V = ItemOutV;

    open spec fn view(&self) -> ItemOutV {
        ItemOutV {
            id: self.id,
            vault_id: self.vault_id,
            title: self.title@,
            content: self.content@,
            created_at: self.created_at@,
            updated_at: self.updated_at@,
            image: opt_view(self.image),
            summary: opt_view(self.summary),
            sort_order: self.sort_order,
        }
    }
}

/// Does the decrypted form `o` present the stored row `it` under `key`?
pub open spec fn presents_item(o: ItemOutV, it: ItemV, key: Seq<u8>) -> bool {
    &&& o.id == it.id
    &&& o.vault_id == it.vault_id
    &&& o.title == it.title
    &&& blob_plaintext(key, it.content) == Some(o.content)
    &&& o.created_at == it.created_at
    &&& o.updated_at == it.updated_at
    &&& o.image == it.image
    &&& o.summary == it.summary
    &&& o.sort_order == it.sort_order
}

/// Is `key` valid for this vault row? A passwordless vault accepts any
/// key; a protected one accepts exactly a key that decrypts the stored
/// verification payload.
pub open spec fn key_opens_vault(v: VaultV, key: Seq<u8>) -> bool {
    !v.has_password || blob_plaintext(key, v.encrypted_password) is Some
}

/// Does this vault require a password?
pub fn vault_has_password(store: &VaultStore, vault_id: i64) -> (r: Result<bool, VaultError>)
    requires
        store@.wf(),
    ensures
        match r {
            Ok(b) => has_vault_id(store@.vaults, vault_id) && b == vault_by_id(
                store@.vaults,
                vault_id,
            ).has_password,
            Err(e) => !has_vault_id(store@.vaults, vault_id) && e == VaultError::NotFound(
                vault_id,
            ),
        },
{
    match Vault::get_by_id(store, vault_id) {
        Some(v) => Ok(v.has_password),
        None => Err(VaultError::NotFound(vault_id)),
    }
}

/// Check a key against a vault: a no-op for passwordless vaults, and
/// otherwise a decryption of the stored verification payload. This is the
/// only password check; "vault missing" and "wrong key" stay distinct.
pub fn verify_vault_key(store: &VaultStore, vault_id: i64, key: &[u8]) -> (r: Result<
    (),
    VaultError,
>)
    requires
        store@.wf(),
        key@.len() == 32,
    ensures
        r is Ok <==> has_vault_id(store@.vaults, vault_id) && key_opens_vault(
            vault_by_id(store@.vaults, vault_id),
            key@,
        ),
        r matches Err(e) ==> if has_vault_id(store@.vaults, vault_id) {
            e == VaultError::InvalidPassword
        } else {
            e == VaultError::NotFound(vault_id)
        },
{
    match Vault::get_by_id(store, vault_id) {
        Some(v) => {
            if !v.has_password {
                Ok(())
            } else {
                match decrypt_content(key, v.encrypted_password.as_slice()) {
                    Ok(_) => Ok(()),
                    Err(_) => Err(VaultError::InvalidPassword),
                }
            }
        },
        None => Err(VaultError::NotFound(vault_id)),
    }
}

/// Check a caller-supplied key (any length) against a vault.
pub fn verify_vault_password(store: &VaultStore, vault_id: i64, key: &Vec<u8>) -> (r: Result<
    (),
    VaultError,
>)
    requires
        store@.wf(),
    ensures
        key@.len() != 32 ==> r == Err::<(), VaultError>(VaultError::KeyLengthInvalid),
        key@.len() == 32 ==> {
            &&& (r is Ok <==> has_vault_id(store@.vaults, vault_id) && key_opens_vault(
                vault_by_id(store@.vaults, vault_id),
                key@,
            ))
            &&& (r matches Err(e) ==> if has_vault_id(store@.vaults, vault_id) {
                e == VaultError::InvalidPassword
            } else {
                e == VaultError::NotFound(vault_id)
            })
        },
{
    if key.len() != 32 {
        return Err(VaultError::KeyLengthInvalid);
    }
    verify_vault_key(store, vault_id, key.as_slice())
}

/// Add an item to a vault, encrypting its content under the given key.
pub fn add_vault_item(
    store: &mut VaultStore,
    vault_id: i64,
    title: &str,
    content: &str,
    key: &Vec<u8>,
    now: &str,
    uuid: &str,
) -> (r: Result<VaultItem, VaultError>)
    requires
        old(store)@.wf(),
        old(store)@.next_item_id < i64::MAX,
    ensures
        final(store)@.wf(),
        key@.len() != 32 ==> r == Err::<VaultItem, VaultError>(VaultError::KeyLengthInvalid)
            && final(store)@ == old(store)@,
        key@.len() == 32 && !has_item_uuid(old(store)@.items, uuid@) && sealable(
            encode_utf8(content@),
        ) ==> r is Ok,
        r matches Err(e) ==> final(store)@ == old(store)@ && {
            &&& (e == VaultError::KeyLengthInvalid <==> key@.len() != 32)
            &&& (e == VaultError::DuplicateUuid <==> key@.len() == 32 && has_item_uuid(
                old(store)@.items,
                uuid@,
            ))
            &&& (e == VaultError::KeyLengthInvalid || e == VaultError::DuplicateUuid || e
                == VaultError::CryptoFailure)
        },
        key@.len() == 32 ==> {
            &&& (has_item_uuid(old(store)@.items, uuid@) ==> r == Err::<VaultItem, VaultError>(
                VaultError::DuplicateUuid,
            ))
            &&& (r matches Ok(it) ==> ({
                let ni = it@;
                &&& final(store)@.items == old(store)@.items.push(ni)
                &&& ni.id == old(store)@.next_item_id
                &&& ni.vault_id == vault_id
                &&& ni.title == title@
                &&& blob_plaintext(key@, ni.content) == Some(content@)
                &&& ni.created_at == now@
                &&& ni.updated_at == now@
                &&& ni.uuid == Some(uuid@)
                &&& ni.deleted_at is None
                &&& ni.sort_order is None
                &&& final(store)@.next_item_id == old(store)@.next_item_id + 1
                &&& final(store)@.vaults == vaults_after_touch(old(store)@.vaults, vault_id, now@)
                &&& final(store)@.settings == old(store)@.settings
                &&& final(store)@.next_vault_id == old(store)@.next_vault_id
            }))
        },
{
    if key.len() != 32 {
        return Err(VaultError::KeyLengthInvalid);
    }
    VaultItem::insert(store, vault_id, title, content, key.as_slice(), now, uuid)
}

/// Fetch one item and decrypt its content under `key`.
pub fn get_vault_item(store: &VaultStore, item_id: i64, key: &Vec<u8>) -> (r: Result<
    VaultItemOut,
    VaultError,
>)
    requires
        store@.wf(),
    ensures
        key@.len() != 32 ==> r == Err::<VaultItemOut, VaultError>(VaultError::KeyLengthInvalid),
        key@.len() == 32 ==> match r {
            Ok(o) => has_item_id(store@.items, item_id) && presents_item(
                o@,
                item_by_id(store@.items, item_id),
                key@,
            ),
            Err(e) => {
                &&& (e == VaultError::NotFound(item_id) <==> !has_item_id(
                    store@.items,
                    item_id,
                ))
                &&& (has_item_id(store@.items, item_id) ==> blob_plaintext(
                    key@,
                    item_by_id(store@.items, item_id).content,
                ) is None)
            },
        },
{
    if key.len() != 32 {
        return Err(VaultError::KeyLengthInvalid);
    }
    let it = match VaultItem::get_by_id(store, item_id) {
        Ok(it) => it,
        Err(e) => {
            return Err(e);
        },
    };
    let content = match decrypt_content(key.as_slice(), it.content.as_slice()) {
        Ok(c) => c,
        Err(e) => {
            return Err(e);
        },
    };
    Ok(VaultItemOut {
        id: it.id,
        vault_id: it.vault_id,
        title: it.title,
        content,
        created_at: it.created_at,
        updated_at: it.updated_at,
        image: it.image,
        summary: it.summary,
        sort_order: it.sort_order,
    })
}

/// Does every live item of the vault decrypt to valid text under `key`?
pub open spec fn all_items_open(s: crate::vault::StoreV, vault_id: i64, key: Seq<u8>) -> bool {
    forall|j: int|
        0 <= j < s.items.len() && live_in_vault(#[trigger] s.items[j], vault_id)
            ==> blob_plaintext(key, s.items[j].content) is Some
}

/// List a vault's live items with their content decrypted, in listing
/// order. The key is first checked against the vault; any item that does
/// not decrypt fails the whole call, so success holds exactly when the
/// vault exists, the key opens it, and every live item decrypts.
pub fn list_vault_items(store: &VaultStore, vault_id: i64, key: &Vec<u8>) -> (r: Result<
    Vec<VaultItemOut>,
    VaultError,
>)
    requires
        store@.wf(),
    ensures
        key@.len() != 32 ==> r == Err::<Vec<VaultItemOut>, VaultError>(
            VaultError::KeyLengthInvalid,
        ),
        key@.len() == 32 ==> {
            &&& (r is Ok <==> has_vault_id(store@.vaults, vault_id) && key_opens_vault(
                vault_by_id(store@.vaults, vault_id),
                key@,
            ) && all_items_open(store@, vault_id, key@))
            &&& match r {
                Ok(out) => {
                    &&& exists|listed: Seq<ItemV>|
                        {
                            &&& #[trigger] listed.to_multiset() == store@.items.filter(
                                (|it: ItemV| live_in_vault(it, vault_id)),
                            ).to_multiset()
                            &&& sorted_by(listed, (|a: ItemV, b: ItemV| item_order_le(a, b)))
                            &&& out@.len() == listed.len()
                            &&& forall|j: int|
                                0 <= j < listed.len() ==> presents_item(
                                    #[trigger] out@[j]@,
                                    listed[j],
                                    key@,
                                )
                        }
                },
                Err(e) => {
                    &&& (e == VaultError::NotFound(vault_id) <==> !has_vault_id(
                        store@.vaults,
                        vault_id,
                    ))
                    &&& (e == VaultError::InvalidPassword <==> has_vault_id(
                        store@.vaults,
                        vault_id,
                    ) && !key_opens_vault(vault_by_id(store@.vaults, vault_id), key@))
                    &&& (e == VaultError::NotFound(vault_id) || e == VaultError::InvalidPassword
                        || e == VaultError::CryptoFailure || e == VaultError::InvalidCiphertext)
                },
            }
        },
{
    if key.len() != 32 {
        return Err(VaultError::KeyLengthInvalid);
    }
    match verify_vault_key(store, vault_id, key.as_slice()) {
        Ok(_) => {},
        Err(e) => {
            return Err(e);
        },
    }
    let items = VaultItem::list_by_vault(store, vault_id);
    let ghost listed = items_view(items@);
    let ghost live = (|it: ItemV| live_in_vault(it, vault_id));
    let mut out: Vec<VaultItemOut> = Vec::new();
    let mut i: usize = 0;
    while i < items.len()
        invariant
            i <= items@.len(),
            store@.wf(),
            listed == items_view(items@),
            live == (|it: ItemV| live_in_vault(it, vault_id)),
            listed.to_multiset() == store@.items.filter(live).to_multiset(),
            has_vault_id(store@.vaults, vault_id),
            key_opens_vault(vault_by_id(store@.vaults, vault_id), key@),
            key@.len() == 32,
            out@.len() == i,
            forall|j: int| 0 <= j < i ==> presents_item(#[trigger] out@[j]@, listed[j], key@),
        decreases items@.len() - i,
    {
        let ghost prev = out@;
        let it = &items[i];
        let content = match decrypt_content(key.as_slice(), it.content.as_slice()) {
            Ok(c) => c,
            Err(e) => {
                proof {
                    // the failing row is a live item of the vault
                    let f = store@.items.filter(live);
                    listed.to_multiset_ensures();
                    f.to_multiset_ensures();
                    assert(listed.contains(listed[i as int]));
                    assert(listed.to_multiset().count(listed[i as int]) > 0);
                    assert(f.contains(listed[i as int]));
                    let w = choose|w: int| 0 <= w < f.len() && f[w] == listed[i as int];
                    crate::vault::lemma_filter_subset(store@.items, live, w);
                    store@.items.lemma_filter_pred(live, w);
                    let k = choose|k: int|
                        0 <= k < store@.items.len() && #[trigger] store@.items[k] == f[w];
                    assert(live_in_vault(store@.items[k], vault_id));
                    assert(blob_plaintext(key@, store@.items[k].content) is None);
                    assert(!all_items_open(store@, vault_id, key@));
                }
                return Err(e);
            },
        };
        out.push(VaultItemOut {
            id: it.id,
            vault_id: it.vault_id,
            title: it.title.clone(),
            content,
            created_at: it.created_at.clone(),
            updated_at: it.updated_at.clone(),
            image: opt_str_clone(&it.image),
            summary: opt_str_clone(&it.summary),
            sort_order: it.sort_order,
        });
        proof {
            assert(presents_item(out@[i as int]@, listed[i as int], key@));
            assert forall|j: int| 0 <= j < i implies presents_item(
                #[trigger] out@[j]@,
                listed[j],
                key@,
            ) by {
                assert(out@[j] == prev[j]);
            }
        }
        i = i + 1;
    }
    proof {
        // every live item of the vault stands in the listing, so all decrypt
        let f = store@.items.filter(live);
        listed.to_multiset_ensures();
        f.to_multiset_ensures();
        assert forall|j: int|
            0 <= j < store@.items.len() && live_in_vault(
                #[trigger] store@.items[j],
                vault_id,
            ) implies blob_plaintext(key@, store@.items[j].content) is Some by {
            store@.items.lemma_filter_contains(live, j);
            assert(f.contains(store@.items[j]));
            assert(f.to_multiset().count(store@.items[j]) > 0);
            assert(listed.contains(store@.items[j]));
            let q = choose|q: int| 0 <= q < listed.len() && listed[q] == store@.items[j];
            assert(presents_item(out@[q]@, listed[q], key@));
        }
    }
    Ok(out)
}

/// Does the caller ask for password protection on the changed vault?
/// Absent wishes follow the new password itself, and an empty password
/// never protects.
pub open spec fn wants_password(new_has_password: Option<bool>, new_password: Seq<char>) -> bool {
    (match new_has_password {
        Some(b) => b,
        None => new_password.len() > 0,
    }) && new_password.len() > 0
}

/// Does every item of the vault (tombstoned rows included) decrypt under
/// `key` to text that can be sealed again? A password change on an opened
/// vault succeeds exactly when this holds and the new password seals.
pub open spec fn all_items_reencryptable(
    s: crate::vault::StoreV,
    vault_id: i64,
    key: Seq<u8>,
) -> bool {
    forall|j: int|
        0 <= j < s.items.len() && in_vault(#[trigger] s.items[j], vault_id) ==> (blob_plaintext(
            key,
            s.items[j].content,
        ) matches Some(p) && sealable(encode_utf8(p)))
}

/// Change a vault's password: verify the old key, re-encrypt every item of
/// the vault — tombstoned rows included, so they stay decryptable for sync
/// — under the key derived from the new password, and replace the
/// verification payload. All or nothing, so a partial re-encryption is
/// never observable.
pub fn change_vault_password(
    store: &mut VaultStore,
    vault_id: i64,
    old_key: &Vec<u8>,
    new_password: &str,
    new_has_password: Option<bool>,
    now: &str,
) -> (r: Result<(), VaultError>)
    requires
        old(store)@.wf(),
    ensures
        final(store)@.wf(),
        old_key@.len() == 32 && has_vault_id(old(store)@.vaults, vault_id) && key_opens_vault(
            vault_by_id(old(store)@.vaults, vault_id),
            old_key@,
        ) && all_items_reencryptable(old(store)@, vault_id, old_key@) && sealable(
            encode_utf8(new_password@),
        ) ==> r is Ok,
        r matches Err(e) ==> final(store)@ == old(store)@ && {
            &&& (e == VaultError::KeyLengthInvalid <==> old_key@.len() != 32)
            &&& (old_key@.len() == 32 && !has_vault_id(old(store)@.vaults, vault_id) ==> e
                == VaultError::NotFound(vault_id))
            &&& (e == VaultError::InvalidPassword <==> old_key@.len() == 32 && has_vault_id(
                old(store)@.vaults,
                vault_id,
            ) && !key_opens_vault(vault_by_id(old(store)@.vaults, vault_id), old_key@))
        },
        r is Ok ==> ({
            let vs0 = old(store)@.vaults;
            let is0 = old(store)@.items;
            let idx = vault_idx_by_id(vs0, vault_id);
            let v0 = vault_by_id(vs0, vault_id);
            let should = wants_password(new_has_password, new_password@);
            let new_key = pbkdf2_sha256(
                encode_utf8(new_password@),
                encode_utf8(dec_int(vault_id as int)),
                100000,
            );
            &&& old_key@.len() == 32
            &&& has_vault_id(vs0, vault_id)
            &&& key_opens_vault(v0, old_key@)
            &&& final(store)@.items.len() == is0.len()
            &&& forall|j: int|
                0 <= j < is0.len() ==> #[trigger] final(store)@.items[j] == (if in_vault(
                    is0[j],
                    vault_id,
                ) {
                    item_with_content(is0[j], final(store)@.items[j].content, now@)
                } else {
                    is0[j]
                })
            &&& forall|j: int|
                0 <= j < is0.len() && in_vault(#[trigger] is0[j], vault_id) ==> {
                    &&& blob_plaintext(old_key@, is0[j].content) is Some
                    &&& blob_plaintext(new_key, final(store)@.items[j].content) == blob_plaintext(
                        old_key@,
                        is0[j].content,
                    )
                }
            &&& final(store)@.vaults.len() == vs0.len()
            &&& forall|j: int|
                0 <= j < vs0.len() && j != idx ==> #[trigger] final(store)@.vaults[j] == vs0[j]
            &&& ({
                let nv = final(store)@.vaults[idx];
                &&& nv == (VaultV {
                    encrypted_password: nv.encrypted_password,
                    has_password: should,
                    ..v0
                })
                &&& (should ==> blob_plaintext(new_key, nv.encrypted_password) == Some(
                    new_password@,
                ))
                &&& (!should ==> nv.encrypted_password == Seq::<u8>::empty())
            })
            &&& final(store)@.settings == old(store)@.settings
            &&& final(store)@.next_vault_id == old(store)@.next_vault_id
            &&& final(store)@.next_item_id == old(store)@.next_item_id
        }),
{
    if old_key.len() != 32 {
        return Err(VaultError::KeyLengthInvalid);
    }
    match verify_vault_key(store, vault_id, old_key.as_slice()) {
        Ok(_) => {},
        Err(e) => {
            return Err(e);
        },
    }
    let should = (match new_has_password {
        Some(b) => b,
        None => !new_password.is_empty(),
    }) && !new_password.is_empty();
    let salt = i64_to_string(vault_id);
    let new_key = derive_key_from_password(new_password, salt.as_str(), 100000);
    let ghost nk = new_key@;
    let ghost is0 = store@.items;
    let mut new_items: Vec<VaultItem> = Vec::new();
    let mut i: usize = 0;
    while i < store.items.len()
        invariant
            i <= store.items@.len(),
            store@ == old(store)@,
            store@.wf(),
            has_vault_id(store@.vaults, vault_id),
            key_opens_vault(vault_by_id(store@.vaults, vault_id), old_key@),
            is0 == items_view(store.items@),
            old_key@.len() == 32,
            new_key@.len() == 32,
            nk == new_key@,
            new_items@.len() == i,
            forall|j: int|
                0 <= j < i ==> #[trigger] items_view(new_items@)[j] == (if in_vault(
                    is0[j],
                    vault_id,
                ) {
                    item_with_content(is0[j], items_view(new_items@)[j].content, now@)
                } else {
                    is0[j]
                }),
            forall|j: int|
                0 <= j < i && in_vault(#[trigger] is0[j], vault_id) ==> {
                    &&& blob_plaintext(old_key@, is0[j].content) is Some
                    &&& blob_plaintext(nk, items_view(new_items@)[j].content) == blob_plaintext(
                        old_key@,
                        is0[j].content,
                    )
                },
        decreases store.items@.len() - i,
    {
        let ghost prev = new_items@;
        let it = &store.items[i];
        if it.vault_id == vault_id {
            proof {
                assert(in_vault(is0[i as int], vault_id));
            }
            let plaintext = match decrypt_content(old_key.as_slice(), it.content.as_slice()) {
                Ok(p) => p,
                Err(e) => {
                    return Err(e);
                },
            };
            let enc = match encrypt_content(new_key.as_slice(), plaintext.as_str()) {
                Ok(e) => e,
                Err(e) => {
                    return Err(e);
                },
            };
            let mut c = it.duplicate();
            c.content = enc;
            c.updated_at = String::from_str(now);
            new_items.push(c);
            proof {
                assert(items_view(new_items@)[i as int] == c@);
            }
        } else {
            new_items.push(it.duplicate());
            proof {
                assert(items_view(new_items@)[i as int] == is0[i as int]);
            }
        }
        proof {
            assert forall|j: int| 0 <= j < i implies #[trigger] items_view(new_items@)[j]
                == items_view(prev)[j] by {
                assert(new_items@[j] == prev[j]);
            }
        }
        i = i + 1;
    }
    let enc_pw: Vec<u8> = if should {
        match encrypt_password(new_key.as_slice(), new_password) {
            Ok(e) => e,
            Err(e) => {
                return Err(e);
            },
        }
    } else {
        let e: Vec<u8> = Vec::new();
        proof {
            assert(e@ =~= Seq::<u8>::empty());
        }
        e
    };
    store.items = new_items;
    match find_vault_index(&store.vaults, vault_id) {
        Some(k) => {
            proof {
                lemma_vault_idx(store@.vaults, k as int, vault_id);
            }
            let mut v = store.vaults.remove(k);
            v.encrypted_password = enc_pw;
            v.has_password = should;
            store.vaults.insert(k, v);
            proof {
                lemma_wf_same_idents(old(store)@, store@);
            }
            Ok(())
        },
        None => {
            // unreachable: the key was verified against this vault above
            proof {
                assert(false);
            }
            Err(VaultError::NotFound(vault_id))
        },
    }
}

} // verus!
