//! Reading transactions and PoS events from the payload of a block.
use crate::bytes::{append_bytes, to_vec};
use crate::cfxpack::codec::{put_u64_le, read_uleb, read_uleb128, unzigzag, zigzag_decode};
use crate::cfxpack::encode::{flag, has_flag};
use crate::cfxpack::error::PackError;
use crate::cfxpack::packet::{ref_views, views, AccessListItem, AccessModel, Action, AuthorizationListItem, AuthorizationModel, Block, BlockModel, PosRewardAccount, PosRewardEntry, RewardAccountModel, RewardModel, SenderBaseNonce, SignedTransaction, TxKind, TxModel, UnlockEntry, UnlockModel, FLAG_TX_COMPRESSED};
use crate::cfxpack::rlp_form::{byte_views, decode_items, decode_str, decode_u64, decode_u8, list_items, str_bytes, str_num};
use crate::cfxpack::snappy::{decompress, snap_decompressed};
use crate::cfxpack::table::{address_at, table_at, word_at};
use crate::cfxpack::types::{le_bytes, word, zeros, Address, U256};
use crate::trie::{keccak, keccak256};
use crate::types::H256;
use vstd::prelude::*;

verus! {

/// The items of a list.
pub open spec fn items_of(raw: Seq<u8>) -> Result<Seq<Seq<u8>>, PackError> {
    match list_items(raw) {
        Some(items) => Ok(items),
        None => Err(PackError::Rlp),
    }
}

/// The item at a place of a list.
pub open spec fn item_at(items: Seq<Seq<u8>>, i: int) -> Result<Seq<u8>, PackError> {
    if 0 <= i < items.len() {
        Ok(items[i])
    } else {
        Err(PackError::Rlp)
    }
}

/// The number at a place of a list, of at most `n` bytes.
#[verifier::opaque]
pub open spec fn num_at(items: Seq<Seq<u8>>, i: int, n: nat) -> Result<nat, PackError> {
    match item_at(items, i) {
        Err(e) => Err(e),
        Ok(raw) => match str_num(raw, n) {
            Some(v) => Ok(v),
            None => Err(PackError::Rlp),
        },
    }
}

/// The byte string at a place of a list.
#[verifier::opaque]
pub open spec fn bytes_at(items: Seq<Seq<u8>>, i: int) -> Result<Seq<u8>, PackError> {
    match item_at(items, i) {
        Err(e) => Err(e),
        Ok(raw) => match str_bytes(raw) {
            Some(b) => Ok(b),
            None => Err(PackError::Rlp),
        },
    }
}

/// The byte string of the length `n` at a place of a list.
pub open spec fn fixed_at(items: Seq<Seq<u8>>, i: int, n: nat, e: PackError) -> Result<
    Seq<u8>,
    PackError,
> {
    match bytes_at(items, i) {
        Err(e) => Err(e),
        Ok(b) => if b.len() == n {
            Ok(b)
        } else {
            Err(e)
        },
    }
}

/// The word whose low bytes stand at a place of a list.
#[verifier::opaque]
pub open spec fn word_field(items: Seq<Seq<u8>>, i: int) -> Result<Seq<u8>, PackError> {
    match bytes_at(items, i) {
        Err(e) => Err(e),
        Ok(b) => if b.len() <= 32 {
            Ok(zeros((32 - b.len()) as nat) + b)
        } else {
            Err(PackError::WordTooLong)
        },
    }
}

/// The word at a place of a list that is written without leading zeros.
pub open spec fn short_word_at(items: Seq<Seq<u8>>, i: int) -> Result<Seq<u8>, PackError> {
    match bytes_at(items, i) {
        Err(e) => Err(e),
        Ok(b) => if b.len() <= 32 && (b.len() == 0 || b[0] != 0) {
            Ok(zeros((32 - b.len()) as nat) + b)
        } else {
            Err(PackError::Rlp)
        },
    }
}

/// The items of the list at a place of a list; what is no list has none.
pub open spec fn sublist_at(items: Seq<Seq<u8>>, i: int) -> Result<Seq<Seq<u8>>, PackError> {
    match item_at(items, i) {
        Err(e) => Err(e),
        Ok(raw) => match list_items(raw) {
            Some(sub) => Ok(sub),
            None => Ok(Seq::empty()),
        },
    }
}

/// A list field that may be missing.
pub open spec fn optional_sublist(items: Seq<Seq<u8>>, i: int) -> Seq<Seq<u8>> {
    if i < items.len() {
        match list_items(items[i]) {
            Some(sub) => sub,
            None => Seq::empty(),
        }
    } else {
        Seq::empty()
    }
}

pub fn get_items(raw: &[u8]) -> (r: Result<Vec<Vec<u8>>, PackError>)
    ensures
        match r {
            Ok(items) => items_of(raw@) == Ok::<Seq<Seq<u8>>, PackError>(byte_views(items@)),
            Err(e) => items_of(raw@) == Err::<Seq<Seq<u8>>, PackError>(e),
        },
{
    match decode_items(raw) {
        Ok(items) => Ok(items),
        Err(_) => Err(PackError::Rlp),
    }
}

pub fn get_u64(items: &Vec<Vec<u8>>, i: usize) -> (r: Result<u64, PackError>)
    ensures
        match r {
            Ok(v) => num_at(byte_views(items@), i as int, 8) == Ok::<nat, PackError>(v as nat),
            Err(e) => num_at(byte_views(items@), i as int, 8) == Err::<nat, PackError>(e),
        },
{
    proof {
        reveal(num_at);
    }
    if i < items.len() {
        match decode_u64(items[i].as_slice()) {
            Ok(v) => Ok(v),
            Err(_) => Err(PackError::Rlp),
        }
    } else {
        Err(PackError::Rlp)
    }
}

pub fn get_u8(items: &Vec<Vec<u8>>, i: usize) -> (r: Result<u8, PackError>)
    ensures
        match r {
            Ok(v) => num_at(byte_views(items@), i as int, 1) == Ok::<nat, PackError>(v as nat),
            Err(e) => num_at(byte_views(items@), i as int, 1) == Err::<nat, PackError>(e),
        },
{
    proof {
        reveal(num_at);
    }
    if i < items.len() {
        match decode_u8(items[i].as_slice()) {
            Ok(v) => Ok(v),
            Err(_) => Err(PackError::Rlp),
        }
    } else {
        Err(PackError::Rlp)
    }
}

pub fn get_bytes(items: &Vec<Vec<u8>>, i: usize) -> (r: Result<Vec<u8>, PackError>)
    ensures
        match r {
            Ok(b) => bytes_at(byte_views(items@), i as int) == Ok::<Seq<u8>, PackError>(b@),
            Err(e) => bytes_at(byte_views(items@), i as int) == Err::<Seq<u8>, PackError>(e),
        },
{
    proof {
        reveal(bytes_at);
    }
    if i < items.len() {
        match decode_str(items[i].as_slice()) {
            Ok(b) => Ok(b),
            Err(_) => Err(PackError::Rlp),
        }
    } else {
        Err(PackError::Rlp)
    }
}

pub fn get_address(items: &Vec<Vec<u8>>, i: usize, fault: PackError) -> (r: Result<Address, PackError>)
    ensures
        match r {
            Ok(a) => fixed_at(byte_views(items@), i as int, 20, fault) == Ok::<Seq<u8>, PackError>(
                a@,
            ),
            Err(e) => fixed_at(byte_views(items@), i as int, 20, fault) == Err::<
                Seq<u8>,
                PackError,
            >(e),
        },
{
    match get_bytes(items, i) {
        Ok(b) => {
            if b.len() == 20 {
                Ok(Address::from_slice(b.as_slice()))
            } else {
                Err(fault)
            }
        },
        Err(e) => Err(e),
    }
}

pub fn get_hash(items: &Vec<Vec<u8>>, i: usize, fault: PackError) -> (r: Result<H256, PackError>)
    ensures
        match r {
            Ok(h) => fixed_at(byte_views(items@), i as int, 32, fault) == Ok::<Seq<u8>, PackError>(
                h@,
            ),
            Err(e) => fixed_at(byte_views(items@), i as int, 32, fault) == Err::<
                Seq<u8>,
                PackError,
            >(e),
        },
{
    match get_bytes(items, i) {
        Ok(b) => {
            if b.len() == 32 {
                Ok(H256::from_slice(b.as_slice()))
            } else {
                Err(fault)
            }
        },
        Err(e) => Err(e),
    }
}

/// The word whose low bytes stand at a place of a list.
pub fn decode_u256_bytes(items: &Vec<Vec<u8>>, i: usize) -> (r: Result<U256, PackError>)
    ensures
        match r {
            Ok(w) => word_field(byte_views(items@), i as int) == Ok::<Seq<u8>, PackError>(w@),
            Err(e) => word_field(byte_views(items@), i as int) == Err::<Seq<u8>, PackError>(e),
        },
{
    proof {
        reveal(word_field);
    }
    match get_bytes(items, i) {
        Ok(b) => {
            if b.len() <= 32 {
                Ok(U256::from_big_endian(b.as_slice()))
            } else {
                Err(PackError::WordTooLong)
            }
        },
        Err(e) => Err(e),
    }
}

pub fn get_short_word(items: &Vec<Vec<u8>>, i: usize) -> (r: Result<U256, PackError>)
    ensures
        match r {
            Ok(w) => short_word_at(byte_views(items@), i as int) == Ok::<Seq<u8>, PackError>(w@),
            Err(e) => short_word_at(byte_views(items@), i as int) == Err::<Seq<u8>, PackError>(e),
        },
{
    match get_bytes(items, i) {
        Ok(b) => {
            if b.len() <= 32 && (b.len() == 0 || b[0] != 0) {
                Ok(U256::from_big_endian(b.as_slice()))
            } else {
                Err(PackError::Rlp)
            }
        },
        Err(e) => Err(e),
    }
}

/// The items of a list; what is no list has none.
pub fn lenient_items(raw: &[u8]) -> (r: Vec<Vec<u8>>)
    ensures
        byte_views(r@) == (match list_items(raw@) {
            Some(sub) => sub,
            None => Seq::empty(),
        }),
{
    match decode_items(raw) {
        Ok(items) => items,
        Err(_) => {
            let none: Vec<Vec<u8>> = Vec::new();
            proof {
                assert(byte_views(none@) =~= Seq::empty());
            }
            none
        },
    }
}

pub fn get_sublist(items: &Vec<Vec<u8>>, i: usize) -> (r: Result<Vec<Vec<u8>>, PackError>)
    ensures
        match r {
            Ok(sub) => sublist_at(byte_views(items@), i as int) == Ok::<Seq<Seq<u8>>, PackError>(
                byte_views(sub@),
            ),
            Err(e) => sublist_at(byte_views(items@), i as int) == Err::<Seq<Seq<u8>>, PackError>(e),
        },
{
    if i < items.len() {
        Ok(lenient_items(items[i].as_slice()))
    } else {
        Err(PackError::Rlp)
    }
}

fn optional_list(items: &Vec<Vec<u8>>, i: usize) -> (r: Vec<Vec<u8>>)
    ensures
        byte_views(r@) == optional_sublist(byte_views(items@), i as int),
{
    if i < items.len() {
        lenient_items(items[i].as_slice())
    } else {
        let none: Vec<Vec<u8>> = Vec::new();
        proof {
            assert(byte_views(none@) =~= Seq::empty());
        }
        none
    }
}

/// The first `n` hashes of a list.
pub open spec fn hashes_of(items: Seq<Seq<u8>>, n: int) -> Result<Seq<Seq<u8>>, PackError>
    decreases n,
{
    if n <= 0 {
        Ok(Seq::empty())
    } else {
        match hashes_of(items, n - 1) {
            Err(e) => Err(e),
            Ok(done) => match fixed_at(items, n - 1, 32, PackError::Rlp) {
                Err(e) => Err(e),
                Ok(h) => Ok(done.push(h)),
            },
        }
    }
}

pub proof fn lemma_hashes_fault(items: Seq<Seq<u8>>, i: int, n: int)
    requires
        0 <= i <= n,
        hashes_of(items, i) is Err,
    ensures
        hashes_of(items, n) == hashes_of(items, i),
    decreases n,
{
    if n > i {
        lemma_hashes_fault(items, i, n - 1);
    }
}

/// An entry of an access list.
pub open spec fn access_of(raw: Seq<u8>) -> Result<AccessModel, PackError> {
    match items_of(raw) {
        Err(e) => Err(e),
        Ok(items) => match fixed_at(items, 0, 20, PackError::Rlp) {
            Err(e) => Err(e),
            Ok(address) => match sublist_at(items, 1) {
                Err(e) => Err(e),
                Ok(sub) => match hashes_of(sub, sub.len() as int) {
                    Err(e) => Err(e),
                    Ok(keys) => Ok(AccessModel { address, keys }),
                },
            },
        },
    }
}

/// The first `n` entries of an access list.
pub open spec fn accesses_of(items: Seq<Seq<u8>>, n: int) -> Result<Seq<AccessModel>, PackError>
    decreases n,
{
    if n <= 0 {
        Ok(Seq::empty())
    } else {
        match accesses_of(items, n - 1) {
            Err(e) => Err(e),
            Ok(done) => match access_of(items[n - 1]) {
                Err(e) => Err(e),
                Ok(a) => Ok(done.push(a)),
            },
        }
    }
}

proof fn lemma_accesses_fault(items: Seq<Seq<u8>>, i: int, n: int)
    requires
        0 <= i <= n,
        accesses_of(items, i) is Err,
    ensures
        accesses_of(items, n) == accesses_of(items, i),
    decreases n,
{
    if n > i {
        lemma_accesses_fault(items, i, n - 1);
    }
}

fn decode_access(raw: &[u8]) -> (r: Result<AccessListItem, PackError>)
    ensures
        match r {
            Ok(a) => access_of(raw@) == Ok::<AccessModel, PackError>(a@),
            Err(e) => access_of(raw@) == Err::<AccessModel, PackError>(e),
        },
{
    let items = match get_items(raw) {
        Ok(items) => items,
        Err(e) => {
            return Err(e);
        },
    };
    let address = match get_address(&items, 0, PackError::Rlp) {
        Ok(a) => a,
        Err(e) => {
            return Err(e);
        },
    };
    let sub = match get_sublist(&items, 1) {
        Ok(sub) => sub,
        Err(e) => {
            return Err(e);
        },
    };
    let ghost all = byte_views(sub@);
    let mut storage_keys: Vec<H256> = Vec::new();
    let mut i: usize = 0;
    proof {
        assert(views(storage_keys@) =~= Seq::empty());
    }
    while i < sub.len()
        invariant
            i <= sub@.len(),
            all == byte_views(sub@),
            hashes_of(all, i as int) == Ok::<Seq<Seq<u8>>, PackError>(views(storage_keys@)),
            items_of(raw@) is Ok,
            fixed_at(items_of(raw@)->Ok_0, 0, 20, PackError::Rlp) is Ok,
            sublist_at(items_of(raw@)->Ok_0, 1) == Ok::<Seq<Seq<u8>>, PackError>(all),
        decreases sub@.len() - i,
    {
        let ghost done = views(storage_keys@);
        match get_hash(&sub, i, PackError::Rlp) {
            Ok(h) => {
                storage_keys.push(h);
                proof {
                    assert(views(storage_keys@) =~= done.push(h@));
                }
            },
            Err(e) => {
                proof {
                    lemma_hashes_fault(all, i + 1, all.len() as int);
                }
                return Err(e);
            },
        }
        i += 1;
    }
    Ok(AccessListItem { address, storage_keys })
}

fn decode_access_list(items: &Vec<Vec<u8>>) -> (r: Result<Vec<AccessListItem>, PackError>)
    ensures
        match r {
            Ok(list) => accesses_of(byte_views(items@), items@.len() as int) == Ok::<
                Seq<AccessModel>,
                PackError,
            >(views(list@)),
            Err(e) => accesses_of(byte_views(items@), items@.len() as int) == Err::<
                Seq<AccessModel>,
                PackError,
            >(e),
        },
{
    let ghost all = byte_views(items@);
    let mut list: Vec<AccessListItem> = Vec::new();
    let mut i: usize = 0;
    proof {
        assert(views(list@) =~= Seq::empty());
    }
    while i < items.len()
        invariant
            i <= items@.len(),
            all == byte_views(items@),
            accesses_of(all, i as int) == Ok::<Seq<AccessModel>, PackError>(views(list@)),
        decreases items@.len() - i,
    {
        let ghost done = views(list@);
        match decode_access(items[i].as_slice()) {
            Ok(a) => {
                list.push(a);
                proof {
                    assert(views(list@) =~= done.push(a@));
                }
            },
            Err(e) => {
                proof {
                    lemma_accesses_fault(all, i + 1, all.len() as int);
                }
                return Err(e);
            },
        }
        i += 1;
    }
    Ok(list)
}

/// An authorization.
pub open spec fn authorization_of(raw: Seq<u8>) -> Result<AuthorizationModel, PackError> {
    match items_of(raw) {
        Err(e) => Err(e),
        Ok(items) => match short_word_at(items, 0) {
            Err(e) => Err(e),
            Ok(chain_id) => match fixed_at(items, 1, 20, PackError::Rlp) {
                Err(e) => Err(e),
                Ok(address) => match num_at(items, 2, 8) {
                    Err(e) => Err(e),
                    Ok(nonce) => match num_at(items, 3, 1) {
                        Err(e) => Err(e),
                        Ok(y_parity) => match short_word_at(items, 4) {
                            Err(e) => Err(e),
                            Ok(r) => match short_word_at(items, 5) {
                                Err(e) => Err(e),
                                Ok(s) => Ok(
                                    AuthorizationModel {
                                        chain_id,
                                        address,
                                        nonce: nonce as u64,
                                        y_parity: y_parity as u8,
                                        r,
                                        s,
                                    },
                                ),
                            },
                        },
                    },
                },
            },
        },
    }
}

/// The first `n` authorizations of a list.
pub open spec fn authorizations_of(items: Seq<Seq<u8>>, n: int) -> Result<
    Seq<AuthorizationModel>,
    PackError,
>
    decreases n,
{
    if n <= 0 {
        Ok(Seq::empty())
    } else {
        match authorizations_of(items, n - 1) {
            Err(e) => Err(e),
            Ok(done) => match authorization_of(items[n - 1]) {
                Err(e) => Err(e),
                Ok(a) => Ok(done.push(a)),
            },
        }
    }
}

proof fn lemma_authorizations_fault(items: Seq<Seq<u8>>, i: int, n: int)
    requires
        0 <= i <= n,
        authorizations_of(items, i) is Err,
    ensures
        authorizations_of(items, n) == authorizations_of(items, i),
    decreases n,
{
    if n > i {
        lemma_authorizations_fault(items, i, n - 1);
    }
}

fn decode_authorization(raw: &[u8]) -> (r: Result<AuthorizationListItem, PackError>)
    ensures
        match r {
            Ok(a) => authorization_of(raw@) == Ok::<AuthorizationModel, PackError>(a@),
            Err(e) => authorization_of(raw@) == Err::<AuthorizationModel, PackError>(e),
        },
{
    let items = match get_items(raw) {
        Ok(items) => items,
        Err(e) => {
            return Err(e);
        },
    };
    let chain_id = match get_short_word(&items, 0) {
        Ok(v) => v,
        Err(e) => {
            return Err(e);
        },
    };
    let address = match get_address(&items, 1, PackError::Rlp) {
        Ok(v) => v,
        Err(e) => {
            return Err(e);
        },
    };
    let nonce: u64 = match get_u64(&items, 2) {
        Ok(v) => v,
        Err(e) => {
            return Err(e);
        },
    };
    let y_parity: u8 = match get_u8(&items, 3) {
        Ok(v) => v,
        Err(e) => {
            return Err(e);
        },
    };
    let r = match get_short_word(&items, 4) {
        Ok(v) => v,
        Err(e) => {
            return Err(e);
        },
    };
    let s = match get_short_word(&items, 5) {
        Ok(v) => v,
        Err(e) => {
            return Err(e);
        },
    };
    Ok(AuthorizationListItem { chain_id, address, nonce, y_parity, r, s })
}

fn decode_authorization_list(items: &Vec<Vec<u8>>) -> (r: Result<
    Vec<AuthorizationListItem>,
    PackError,
>)
    ensures
        match r {
            Ok(list) => authorizations_of(byte_views(items@), items@.len() as int) == Ok::<
                Seq<AuthorizationModel>,
                PackError,
            >(views(list@)),
            Err(e) => authorizations_of(byte_views(items@), items@.len() as int) == Err::<
                Seq<AuthorizationModel>,
                PackError,
            >(e),
        },
{
    let ghost all = byte_views(items@);
    let mut list: Vec<AuthorizationListItem> = Vec::new();
    let mut i: usize = 0;
    proof {
        assert(views(list@) =~= Seq::empty());
    }
    while i < items.len()
        invariant
            i <= items@.len(),
            all == byte_views(items@),
            authorizations_of(all, i as int) == Ok::<Seq<AuthorizationModel>, PackError>(
                views(list@),
            ),
        decreases items@.len() - i,
    {
        let ghost done = views(list@);
        match decode_authorization(items[i].as_slice()) {
            Ok(a) => {
                list.push(a);
                proof {
                    assert(views(list@) =~= done.push(a@));
                }
            },
            Err(e) => {
                proof {
                    lemma_authorizations_fault(all, i + 1, all.len() as int);
                }
                return Err(e);
            },
        }
        i += 1;
    }
    Ok(list)
}

/// A price: an entry of the price table, or the price itself.
#[verifier::opaque]
pub open spec fn price_of(raw: Seq<u8>, gas_prices: Seq<Seq<u8>>) -> Result<Seq<u8>, PackError> {
    match items_of(raw) {
        Err(e) => Err(e),
        Ok(items) => match num_at(items, 0, 1) {
            Err(e) => Err(e),
            Ok(mode) => if mode == 0 {
                match num_at(items, 1, 8) {
                    Err(e) => Err(e),
                    Ok(i) => table_at(gas_prices, i),
                }
            } else if mode == 1 {
                word_field(items, 1)
            } else {
                Err(PackError::PriceMode)
            },
        },
    }
}

/// An action: the called address, if any.
#[verifier::opaque]
pub open spec fn action_of(raw: Seq<u8>, addresses: Seq<Seq<u8>>) -> Result<
    Option<Seq<u8>>,
    PackError,
> {
    match items_of(raw) {
        Err(e) => Err(e),
        Ok(items) => match num_at(items, 0, 1) {
            Err(e) => Err(e),
            Ok(mode) => if mode == 0 {
                Ok(None)
            } else if mode == 1 {
                match num_at(items, 1, 8) {
                    Err(e) => Err(e),
                    Ok(i) => match table_at(addresses, i) {
                        Err(e) => Err(e),
                        Ok(a) => Ok(Some(a)),
                    },
                }
            } else {
                Err(PackError::ActionMode)
            },
        },
    }
}

fn decode_price(raw: &[u8], gas_prices: &Vec<U256>) -> (r: Result<U256, PackError>)
    ensures
        match r {
            Ok(w) => price_of(raw@, views(gas_prices@)) == Ok::<Seq<u8>, PackError>(w@),
            Err(e) => price_of(raw@, views(gas_prices@)) == Err::<Seq<u8>, PackError>(e),
        },
{
    proof {
        reveal(price_of);
    }
    let items = match get_items(raw) {
        Ok(items) => items,
        Err(e) => {
            return Err(e);
        },
    };
    match get_u8(&items, 0) {
        Ok(0) => match get_u64(&items, 1) {
            Ok(i) => word_at(gas_prices, i),
            Err(e) => Err(e),
        },
        Ok(1) => decode_u256_bytes(&items, 1),
        Ok(_) => Err(PackError::PriceMode),
        Err(e) => Err(e),
    }
}

fn decode_action(raw: &[u8], addresses: &Vec<Address>) -> (r: Result<Action, PackError>)
    ensures
        match r {
            Ok(a) => action_of(raw@, views(addresses@)) == Ok::<Option<Seq<u8>>, PackError>(a@),
            Err(e) => action_of(raw@, views(addresses@)) == Err::<Option<Seq<u8>>, PackError>(e),
        },
{
    proof {
        reveal(action_of);
    }
    let items = match get_items(raw) {
        Ok(items) => items,
        Err(e) => {
            return Err(e);
        },
    };
    match get_u8(&items, 0) {
        Ok(0) => Ok(Action::Create),
        Ok(1) => match get_u64(&items, 1) {
            Ok(i) => match address_at(addresses, i) {
                Ok(a) => Ok(Action::Call(a)),
                Err(e) => Err(e),
            },
            Err(e) => Err(e),
        },
        Ok(_) => Err(PackError::ActionMode),
        Err(e) => Err(e),
    }
}

/// What transactions are read against.
pub struct TxContext {
    pub addresses: Seq<Seq<u8>>,
    pub gas_prices: Seq<Seq<u8>>,
    pub base_nonces: Seq<(nat, u64)>,
}

/// The base nonce of a sender: the first one given for it, or zero.
pub open spec fn first_base(bases: Seq<(nat, u64)>, sender: nat) -> u64
    decreases bases.len(),
{
    if bases.len() == 0 {
        0
    } else if bases[0].0 == sender {
        bases[0].1
    } else {
        first_base(bases.drop_first(), sender)
    }
}

/// The fields that all transactions begin with, as they are read.
pub struct CommonFields {
    pub marker: nat,
    pub type_id: nat,
    pub sender: Seq<u8>,
    pub nonce: Seq<u8>,
    pub gas_price: Seq<u8>,
    pub priority_price: Seq<u8>,
    pub gas: Seq<u8>,
    pub action: Option<Seq<u8>>,
    pub value: Seq<u8>,
}

/// The nonce that stands at its place in a transaction of a sender.
pub open spec fn nonce_of(items: Seq<Seq<u8>>, bases: Seq<(nat, u64)>, sender: nat) -> Result<
    Seq<u8>,
    PackError,
> {
    match num_at(items, 3, 8) {
        Err(e) => Err(e),
        Ok(v) => if first_base(bases, sender) + v <= u64::MAX {
            Ok(word((first_base(bases, sender) + v) as u64))
        } else {
            Err(PackError::NonceOverflow)
        },
    }
}

/// A price at its place in a transaction.
pub open spec fn price_at(items: Seq<Seq<u8>>, i: int, gas_prices: Seq<Seq<u8>>) -> Result<
    Seq<u8>,
    PackError,
> {
    match item_at(items, i) {
        Err(e) => Err(e),
        Ok(raw) => price_of(raw, gas_prices),
    }
}

/// The action at its place in a transaction.
pub open spec fn action_at(items: Seq<Seq<u8>>, addresses: Seq<Seq<u8>>) -> Result<
    Option<Seq<u8>>,
    PackError,
> {
    match item_at(items, 7) {
        Err(e) => Err(e),
        Ok(raw) => action_of(raw, addresses),
    }
}

/// The sender of a transaction: its place in the address table and its address.
pub open spec fn sender_of(items: Seq<Seq<u8>>, addresses: Seq<Seq<u8>>) -> Result<
    (nat, Seq<u8>),
    PackError,
> {
    match num_at(items, 2, 8) {
        Err(e) => Err(e),
        Ok(i) => match table_at(addresses, i) {
            Err(e) => Err(e),
            Ok(a) => Ok((i, a)),
        },
    }
}

/// The fields that all transactions begin with.
pub open spec fn common_of(items: Seq<Seq<u8>>, c: TxContext) -> Result<CommonFields, PackError> {
    match num_at(items, 0, 1) {
        Err(e) => Err(e),
        Ok(marker) => match num_at(items, 1, 8) {
            Err(e) => Err(e),
            Ok(type_id) => match sender_of(items, c.addresses) {
                Err(e) => Err(e),
                Ok((place, sender)) => match nonce_of(items, c.base_nonces, place) {
                    Err(e) => Err(e),
                    Ok(nonce) => match price_at(items, 4, c.gas_prices) {
                        Err(e) => Err(e),
                        Ok(gas_price) => match price_at(items, 5, c.gas_prices) {
                            Err(e) => Err(e),
                            Ok(priority_price) => match num_at(items, 6, 8) {
                                Err(e) => Err(e),
                                Ok(gas) => match action_at(items, c.addresses) {
                                    Err(e) => Err(e),
                                    Ok(action) => match word_field(items, 8) {
                                        Err(e) => Err(e),
                                        Ok(value) => Ok(
                                            CommonFields {
                                                marker,
                                                type_id,
                                                sender,
                                                nonce,
                                                gas_price,
                                                priority_price,
                                                gas: word(gas as u64),
                                                action,
                                                value,
                                            },
                                        ),
                                    },
                                },
                            },
                        },
                    },
                },
            },
        },
    }
}

/// The access entries one after another, each with the number of its keys.
pub open spec fn access_content(list: Seq<AccessModel>) -> Seq<u8>
    decreases list.len(),
{
    if list.len() == 0 {
        Seq::empty()
    } else {
        access_content(list.drop_last()) + (list.last().address + le_bytes(
            list.last().keys.len(),
            8,
        ) + crate::trie::concat(list.last().keys))
    }
}

/// The authorizations one after another.
pub open spec fn authorization_content(list: Seq<AuthorizationModel>) -> Seq<u8>
    decreases list.len(),
{
    if list.len() == 0 {
        Seq::empty()
    } else {
        let a = list.last();
        authorization_content(list.drop_last()) + (a.chain_id + a.address + le_bytes(
            a.nonce as nat,
            8,
        ) + seq![a.y_parity] + a.r + a.s)
    }
}

/// The number of a transaction type among those of both spaces.
pub open spec fn kind_byte(kind: TxKind) -> u8 {
    (kind.number() + if kind.is_native() {
        0nat
    } else {
        16nat
    }) as u8
}

/// The content of a transaction without its sender, as a byte string.
#[verifier::opaque]
pub open spec fn tx_content(tx: TxModel) -> Seq<u8> {
    seq![kind_byte(tx.kind)] + tx.nonce + tx.gas_price + tx.priority_price + tx.gas + (
    match tx.action {
        Some(a) => seq![1u8] + a,
        None => seq![0u8],
    }) + tx.value + le_bytes(tx.storage_limit as nat, 8) + le_bytes(tx.epoch_height as nat, 8)
        + le_bytes(tx.data.len(), 8) + tx.data + le_bytes(tx.access_list.len(), 8)
        + access_content(tx.access_list) + le_bytes(tx.authorizations.len(), 8)
        + authorization_content(tx.authorizations)
}

/// The transaction, known by the digest of its content.
pub open spec fn identified(tx: TxModel) -> TxModel {
    TxModel { identity: keccak256(tx_content(tx)), ..tx }
}

/// The type of a transaction, by its number in the native space.
pub open spec fn native_kind(type_id: nat) -> Result<TxKind, PackError> {
    if type_id == 0 {
        Ok(TxKind::Cip155)
    } else if type_id == 1 {
        Ok(TxKind::Cip2930)
    } else if type_id == 2 {
        Ok(TxKind::Cip1559)
    } else {
        Err(PackError::NativeType)
    }
}

/// The type of a transaction, by its number in the Ethereum space.
pub open spec fn ethereum_kind(type_id: nat) -> Result<TxKind, PackError> {
    if type_id == 0 {
        Ok(TxKind::Eip155)
    } else if type_id == 1 {
        Ok(TxKind::Eip2930)
    } else if type_id == 2 {
        Ok(TxKind::Eip1559)
    } else if type_id == 4 {
        Ok(TxKind::Eip7702)
    } else {
        Err(PackError::EthereumType)
    }
}

/// A transaction from its common fields and its own. What its type does not have is
/// left out, and without a priority fee of its own it has the price for one.
pub open spec fn build_tx(
    f: CommonFields,
    kind: TxKind,
    storage_limit: u64,
    epoch_height: u64,
    data: Seq<u8>,
    access_list: Seq<AccessModel>,
    authorizations: Seq<AuthorizationModel>,
) -> TxModel {
    identified(
        TxModel {
            identity: Seq::empty(),
            sender: f.sender,
            kind,
            nonce: f.nonce,
            gas_price: f.gas_price,
            priority_price: if kind.has_priority() {
                f.priority_price
            } else {
                f.gas_price
            },
            gas: f.gas,
            action: if kind is Eip7702 && f.action is None {
                Some(zeros(20))
            } else {
                f.action
            },
            value: f.value,
            storage_limit,
            epoch_height,
            data,
            access_list: if kind.lists_access() {
                access_list
            } else {
                Seq::empty()
            },
            authorizations,
        },
    )
}

/// The sum of two numbers in two's complement.
pub open spec fn wrapping_sum(a: u64, b: u64) -> u64 {
    if a + b <= u64::MAX {
        (a + b) as u64
    } else {
        (a + b - 0x1_0000_0000_0000_0000) as u64
    }
}

/// A transaction of the native space.
pub open spec fn native_tx(items: Seq<Seq<u8>>, f: CommonFields, epoch: u64) -> Result<
    TxModel,
    PackError,
> {
    match num_at(items, 9, 8) {
        Err(e) => Err(e),
        Ok(storage_limit) => match num_at(items, 10, 8) {
            Err(e) => Err(e),
            Ok(delta) => match bytes_at(items, 11) {
                Err(e) => Err(e),
                Ok(data) => {
                    let sub = optional_sublist(items, 12);
                    match accesses_of(sub, sub.len() as int) {
                        Err(e) => Err(e),
                        Ok(access_list) => match native_kind(f.type_id) {
                            Err(e) => Err(e),
                            Ok(kind) => Ok(
                                build_tx(
                                    f,
                                    kind,
                                    storage_limit as u64,
                                    wrapping_sum(epoch, unzigzag(delta as u64)),
                                    data,
                                    access_list,
                                    Seq::empty(),
                                ),
                            ),
                        },
                    }
                },
            },
        },
    }
}

/// A transaction of the Ethereum space.
pub open spec fn ethereum_tx(items: Seq<Seq<u8>>, f: CommonFields) -> Result<TxModel, PackError> {
    match bytes_at(items, 9) {
        Err(e) => Err(e),
        Ok(data) => {
            let sub = optional_sublist(items, 10);
            match accesses_of(sub, sub.len() as int) {
                Err(e) => Err(e),
                Ok(access_list) => match ethereum_kind(f.type_id) {
                    Err(e) => Err(e),
                    Ok(kind) => {
                        let signed = if kind is Eip7702 {
                            optional_sublist(items, 11)
                        } else {
                            Seq::empty()
                        };
                        match authorizations_of(signed, signed.len() as int) {
                            Err(e) => Err(e),
                            Ok(authorizations) => Ok(
                                build_tx(f, kind, 0, 0, data, access_list, authorizations),
                            ),
                        }
                    },
                },
            }
        },
    }
}

/// The transaction of an item of a block in the epoch `epoch`.
pub open spec fn tx_of(items: Seq<Seq<u8>>, epoch: u64, c: TxContext) -> Result<
    TxModel,
    PackError,
> {
    match common_of(items, c) {
        Err(e) => Err(e),
        Ok(f) => if f.marker == 0 {
            native_tx(items, f, epoch)
        } else if f.marker == 2 {
            ethereum_tx(items, f)
        } else {
            Err(PackError::SpaceMarker)
        },
    }
}

/// The base nonce of a sender.
fn find_base(bases: &Vec<SenderBaseNonce>, sender: u64) -> (r: u64)
    ensures
        r == first_base(views(bases@), sender as nat),
{
    let ghost all = views(bases@);
    let mut i: usize = 0;
    proof {
        assert(all.skip(0) =~= all);
    }
    while i < bases.len()
        invariant
            i <= bases@.len(),
            all == views(bases@),
            first_base(all, sender as nat) == first_base(all.skip(i as int), sender as nat),
        decreases bases@.len() - i,
    {
        proof {
            assert(all.skip(i as int)[0] == bases@[i as int]@);
            assert(all.skip(i as int).drop_first() =~= all.skip(i + 1));
        }
        if bases[i].sender_index as u64 == sender {
            return bases[i].base_nonce;
        }
        i += 1;
    }
    0
}

/// The common fields of a transaction.
struct Common {
    marker: u8,
    type_id: u64,
    sender: Address,
    nonce: U256,
    gas_price: U256,
    priority_price: U256,
    gas: U256,
    action: Action,
    value: U256,
}

impl Common {
    spec fn fields(&self) -> CommonFields {
        CommonFields {
            marker: self.marker as nat,
            type_id: self.type_id as nat,
            sender: self.sender@,
            nonce: self.nonce@,
            gas_price: self.gas_price@,
            priority_price: self.priority_price@,
            gas: self.gas@,
            action: self.action@,
            value: self.value@,
        }
    }
}

/// The tables that transactions are read against.
pub struct TxTables<'a> {
    pub addresses: &'a Vec<Address>,
    pub gas_prices: &'a Vec<U256>,
    pub sender_base_nonces: &'a Vec<SenderBaseNonce>,
}

impl<'a> TxTables<'a> {
    /// The tables as sequences.
    pub open spec fn context(&self) -> TxContext {
        TxContext {
            addresses: views(self.addresses@),
            gas_prices: views(self.gas_prices@),
            base_nonces: views(self.sender_base_nonces@),
        }
    }
}

fn get_price(items: &Vec<Vec<u8>>, i: usize, gas_prices: &Vec<U256>) -> (r: Result<U256, PackError>)
    ensures
        match r {
            Ok(w) => price_at(byte_views(items@), i as int, views(gas_prices@)) == Ok::<
                Seq<u8>,
                PackError,
            >(w@),
            Err(e) => price_at(byte_views(items@), i as int, views(gas_prices@)) == Err::<
                Seq<u8>,
                PackError,
            >(e),
        },
{
    if i < items.len() {
        decode_price(items[i].as_slice(), gas_prices)
    } else {
        Err(PackError::Rlp)
    }
}

fn get_action(items: &Vec<Vec<u8>>, addresses: &Vec<Address>) -> (r: Result<Action, PackError>)
    ensures
        match r {
            Ok(a) => action_at(byte_views(items@), views(addresses@)) == Ok::<
                Option<Seq<u8>>,
                PackError,
            >(a@),
            Err(e) => action_at(byte_views(items@), views(addresses@)) == Err::<
                Option<Seq<u8>>,
                PackError,
            >(e),
        },
{
    if 7 < items.len() {
        decode_action(items[7].as_slice(), addresses)
    } else {
        Err(PackError::Rlp)
    }
}

fn get_sender(items: &Vec<Vec<u8>>, addresses: &Vec<Address>) -> (r: Result<
    (u64, Address),
    PackError,
>)
    ensures
        match r {
            Ok((i, a)) => sender_of(byte_views(items@), views(addresses@)) == Ok::<
                (nat, Seq<u8>),
                PackError,
            >((i as nat, a@)),
            Err(e) => sender_of(byte_views(items@), views(addresses@)) == Err::<
                (nat, Seq<u8>),
                PackError,
            >(e),
        },
{
    match get_u64(items, 2) {
        Ok(i) => match address_at(addresses, i) {
            Ok(a) => Ok((i, a)),
            Err(e) => Err(e),
        },
        Err(e) => Err(e),
    }
}

fn get_nonce(items: &Vec<Vec<u8>>, bases: &Vec<SenderBaseNonce>, sender: u64) -> (r: Result<
    U256,
    PackError,
>)
    ensures
        match r {
            Ok(w) => nonce_of(byte_views(items@), views(bases@), sender as nat) == Ok::<
                Seq<u8>,
                PackError,
            >(w@),
            Err(e) => nonce_of(byte_views(items@), views(bases@), sender as nat) == Err::<
                Seq<u8>,
                PackError,
            >(e),
        },
{
    match get_u64(items, 3) {
        Ok(v) => {
            let base: u64 = find_base(bases, sender);
            if v <= u64::MAX - base {
                Ok(U256::from_u64(base + v))
            } else {
                Err(PackError::NonceOverflow)
            }
        },
        Err(e) => Err(e),
    }
}

fn decode_common(items: &Vec<Vec<u8>>, t: &TxTables<'_>) -> (r: Result<Common, PackError>)
    ensures
        match r {
            Ok(f) => common_of(byte_views(items@), t.context()) == Ok::<CommonFields, PackError>(
                f.fields(),
            ),
            Err(e) => common_of(byte_views(items@), t.context()) == Err::<CommonFields, PackError>(
                e,
            ),
        },
{
    let marker: u8 = match get_u8(items, 0) {
        Ok(v) => v,
        Err(e) => {
            return Err(e);
        },
    };
    let type_id: u64 = match get_u64(items, 1) {
        Ok(v) => v,
        Err(e) => {
            return Err(e);
        },
    };
    let (place, sender): (u64, Address) = match get_sender(items, t.addresses) {
        Ok(v) => v,
        Err(e) => {
            return Err(e);
        },
    };
    let nonce = match get_nonce(items, t.sender_base_nonces, place) {
        Ok(v) => v,
        Err(e) => {
            return Err(e);
        },
    };
    let gas_price = match get_price(items, 4, t.gas_prices) {
        Ok(v) => v,
        Err(e) => {
            return Err(e);
        },
    };
    let priority_price = match get_price(items, 5, t.gas_prices) {
        Ok(v) => v,
        Err(e) => {
            return Err(e);
        },
    };
    let gas: u64 = match get_u64(items, 6) {
        Ok(v) => v,
        Err(e) => {
            return Err(e);
        },
    };
    let action = match get_action(items, t.addresses) {
        Ok(v) => v,
        Err(e) => {
            return Err(e);
        },
    };
    let value = match decode_u256_bytes(items, 8) {
        Ok(v) => v,
        Err(e) => {
            return Err(e);
        },
    };
    Ok(
        Common {
            marker,
            type_id,
            sender,
            nonce,
            gas_price,
            priority_price,
            gas: U256::from_u64(gas),
            action,
            value,
        },
    )
}

fn append_access_content(out: &mut Vec<u8>, list: &Vec<AccessListItem>)
    ensures
        final(out)@ == old(out)@ + access_content(views(list@)),
{
    let ghost all = views(list@);
    let ghost before = out@;
    let mut i: usize = 0;
    proof {
        assert(all.take(0) =~= Seq::empty());
        assert(before + Seq::<u8>::empty() =~= before);
    }
    while i < list.len()
        invariant
            i <= list@.len(),
            all == views(list@),
            out@ == before + access_content(all.take(i as int)),
        decreases list@.len() - i,
    {
        let item: &AccessListItem = &list[i];
        let ghost start = out@;
        append_bytes(out, &item.address.0);
        put_u64_le(out, item.storage_keys.len() as u64);
        let ghost head = out@;
        let ghost keys = views(item.storage_keys@);
        let mut k: usize = 0;
        proof {
            assert(keys.take(0) =~= Seq::empty());
            assert(head + Seq::<u8>::empty() =~= head);
        }
        while k < item.storage_keys.len()
            invariant
                k <= item.storage_keys@.len(),
                keys == views(item.storage_keys@),
                out@ == head + crate::trie::concat(keys.take(k as int)),
            decreases item.storage_keys@.len() - k,
        {
            append_bytes(out, &item.storage_keys[k].0);
            proof {
                assert(keys.take(k + 1).drop_last() =~= keys.take(k as int));
                assert(keys.take(k + 1).last() == keys[k as int]);
                assert(out@ =~= head + crate::trie::concat(keys.take(k + 1)));
            }
            k += 1;
        }
        proof {
            assert(keys.take(k as int) =~= keys);
            assert(all.take(i + 1).drop_last() =~= all.take(i as int));
            assert(all.take(i + 1).last() == item@);
            assert(out@ =~= before + access_content(all.take(i + 1)));
        }
        i += 1;
    }
    proof {
        assert(all.take(i as int) =~= all);
    }
}

fn append_authorization_content(out: &mut Vec<u8>, list: &Vec<AuthorizationListItem>)
    ensures
        final(out)@ == old(out)@ + authorization_content(views(list@)),
{
    let ghost all = views(list@);
    let ghost before = out@;
    let mut i: usize = 0;
    proof {
        assert(all.take(0) =~= Seq::empty());
        assert(before + Seq::<u8>::empty() =~= before);
    }
    while i < list.len()
        invariant
            i <= list@.len(),
            all == views(list@),
            out@ == before + authorization_content(all.take(i as int)),
        decreases list@.len() - i,
    {
        let a: AuthorizationListItem = list[i];
        append_bytes(out, &a.chain_id.0);
        append_bytes(out, &a.address.0);
        put_u64_le(out, a.nonce);
        out.push(a.y_parity);
        append_bytes(out, &a.r.0);
        append_bytes(out, &a.s.0);
        proof {
            assert(all.take(i + 1).drop_last() =~= all.take(i as int));
            assert(all.take(i + 1).last() == a@);
            assert(out@ =~= before + authorization_content(all.take(i + 1)));
        }
        i += 1;
    }
    proof {
        assert(all.take(i as int) =~= all);
    }
}

impl SignedTransaction {
    /// The content of the transaction without its sender, as a byte string.
    pub fn content(&self) -> (r: Vec<u8>)
        ensures
            r@ == tx_content(self@),
    {
        proof {
            reveal(tx_content);
        }
        let mut out: Vec<u8> = Vec::new();
        let kind: u8 = self.kind.type_id() as u8 + if self.kind.native() {
            0u8
        } else {
            16u8
        };
        out.push(kind);
        append_bytes(&mut out, &self.nonce.0);
        append_bytes(&mut out, &self.gas_price.0);
        append_bytes(&mut out, &self.max_priority_gas_price.0);
        append_bytes(&mut out, &self.gas.0);
        let ghost head = out@;
        match &self.action {
            Action::Create => out.push(0),
            Action::Call(a) => {
                out.push(1);
                append_bytes(&mut out, &a.0);
            },
        }
        proof {
            assert(out@ =~= head + (match self@.action {
                Some(a) => seq![1u8] + a,
                None => seq![0u8],
            }));
            assert(head =~= seq![kind_byte(self@.kind)] + self@.nonce + self@.gas_price
                + self@.priority_price + self@.gas);
        }
        append_bytes(&mut out, &self.value.0);
        put_u64_le(&mut out, self.storage_limit);
        put_u64_le(&mut out, self.epoch_height);
        put_u64_le(&mut out, self.data.len() as u64);
        append_bytes(&mut out, self.data.as_slice());
        put_u64_le(&mut out, self.access_list.len() as u64);
        append_access_content(&mut out, &self.access_list);
        put_u64_le(&mut out, self.authorization_list.len() as u64);
        append_authorization_content(&mut out, &self.authorization_list);
        out
    }
}

/// A transaction, known by the digest of its content.
fn identify(tx: SignedTransaction) -> (r: SignedTransaction)
    ensures
        r@ == identified(tx@),
{
    let content = tx.content();
    let identity = keccak(content.as_slice());
    let r = SignedTransaction { identity, ..tx };
    r
}

fn finish_tx(
    f: &Common,
    kind: TxKind,
    storage_limit: u64,
    epoch_height: u64,
    data: Vec<u8>,
    access_list: Vec<AccessListItem>,
    authorization_list: Vec<AuthorizationListItem>,
) -> (r: SignedTransaction)
    ensures
        r@ == build_tx(
            f.fields(),
            kind,
            storage_limit,
            epoch_height,
            data@,
            views(access_list@),
            views(authorization_list@),
        ),
{
    let action: Action = match f.action {
        Action::Create => {
            if matches!(kind, TxKind::Eip7702) {
                let zero = Address::from_low_u64_be(0);
                proof {
                    reveal_with_fuel(crate::cfxpack::types::be_bytes, 9);
                    assert(zero@ =~= zeros(20));
                }
                Action::Call(zero)
            } else {
                Action::Create
            }
        },
        Action::Call(a) => Action::Call(a),
    };
    let kept: Vec<AccessListItem> = if kind.has_access_list() {
        access_list
    } else {
        let none: Vec<AccessListItem> = Vec::new();
        proof {
            assert(views(none@) =~= Seq::empty());
        }
        none
    };
    let tx = SignedTransaction {
        identity: H256::zero(),
        sender: f.sender,
        kind,
        nonce: f.nonce,
        gas_price: f.gas_price,
        max_priority_gas_price: if kind.has_priority_fee() {
            f.priority_price
        } else {
            f.gas_price
        },
        gas: f.gas,
        action,
        value: f.value,
        storage_limit,
        epoch_height,
        data,
        access_list: kept,
        authorization_list,
    };
    let ghost m = tx@;
    let r = identify(tx);
    proof {
        reveal(tx_content);
        assert(tx_content(m) == tx_content(TxModel { identity: Seq::empty(), ..m }));
        assert(r@ == identified(TxModel { identity: Seq::empty(), ..m }));
    }
    r
}

fn decode_native_tx(items: &Vec<Vec<u8>>, f: &Common, block_epoch: u64) -> (r: Result<
    SignedTransaction,
    PackError,
>)
    ensures
        match r {
            Ok(tx) => native_tx(byte_views(items@), f.fields(), block_epoch) == Ok::<
                TxModel,
                PackError,
            >(tx@),
            Err(e) => native_tx(byte_views(items@), f.fields(), block_epoch) == Err::<
                TxModel,
                PackError,
            >(e),
        },
{
    let storage_limit: u64 = match get_u64(items, 9) {
        Ok(v) => v,
        Err(e) => {
            return Err(e);
        },
    };
    let delta: u64 = match get_u64(items, 10) {
        Ok(v) => v,
        Err(e) => {
            return Err(e);
        },
    };
    let data = match get_bytes(items, 11) {
        Ok(v) => v,
        Err(e) => {
            return Err(e);
        },
    };
    let sub = optional_list(items, 12);
    let access_list = match decode_access_list(&sub) {
        Ok(v) => v,
        Err(e) => {
            return Err(e);
        },
    };
    let kind: TxKind = if f.type_id == 0 {
        TxKind::Cip155
    } else if f.type_id == 1 {
        TxKind::Cip2930
    } else if f.type_id == 2 {
        TxKind::Cip1559
    } else {
        return Err(PackError::NativeType);
    };
    let none: Vec<AuthorizationListItem> = Vec::new();
    proof {
        assert(views(none@) =~= Seq::empty());
    }
    let epoch_height: u64 = block_epoch.wrapping_add(zigzag_decode(delta));
    Ok(finish_tx(f, kind, storage_limit, epoch_height, data, access_list, none))
}

fn decode_ethereum_tx(items: &Vec<Vec<u8>>, f: &Common) -> (r: Result<
    SignedTransaction,
    PackError,
>)
    ensures
        match r {
            Ok(tx) => ethereum_tx(byte_views(items@), f.fields()) == Ok::<TxModel, PackError>(tx@),
            Err(e) => ethereum_tx(byte_views(items@), f.fields()) == Err::<TxModel, PackError>(e),
        },
{
    let data = match get_bytes(items, 9) {
        Ok(v) => v,
        Err(e) => {
            return Err(e);
        },
    };
    let sub = optional_list(items, 10);
    let access_list = match decode_access_list(&sub) {
        Ok(v) => v,
        Err(e) => {
            return Err(e);
        },
    };
    let kind: TxKind = if f.type_id == 0 {
        TxKind::Eip155
    } else if f.type_id == 1 {
        TxKind::Eip2930
    } else if f.type_id == 2 {
        TxKind::Eip1559
    } else if f.type_id == 4 {
        TxKind::Eip7702
    } else {
        return Err(PackError::EthereumType);
    };
    let signed: Vec<Vec<u8>> = if matches!(kind, TxKind::Eip7702) {
        optional_list(items, 11)
    } else {
        let none: Vec<Vec<u8>> = Vec::new();
        proof {
            assert(byte_views(none@) =~= Seq::empty());
        }
        none
    };
    match decode_authorization_list(&signed) {
        Ok(authorizations) => Ok(finish_tx(f, kind, 0, 0, data, access_list, authorizations)),
        Err(e) => Err(e),
    }
}

fn decode_tx_item(items: &Vec<Vec<u8>>, block_epoch: u64, t: &TxTables<'_>) -> (r: Result<
    SignedTransaction,
    PackError,
>)
    ensures
        match r {
            Ok(tx) => tx_of(byte_views(items@), block_epoch, t.context()) == Ok::<
                TxModel,
                PackError,
            >(tx@),
            Err(e) => tx_of(byte_views(items@), block_epoch, t.context()) == Err::<
                TxModel,
                PackError,
            >(e),
        },
{
    let f = match decode_common(items, t) {
        Ok(f) => f,
        Err(e) => {
            return Err(e);
        },
    };
    if f.marker == 0 {
        decode_native_tx(items, &f, block_epoch)
    } else if f.marker == 2 {
        decode_ethereum_tx(items, &f)
    } else {
        Err(PackError::SpaceMarker)
    }
}

/// One account's share of an interest distribution.
pub open spec fn reward_account_of(raw: Seq<u8>) -> Result<RewardAccountModel, PackError> {
    match items_of(raw) {
        Err(e) => Err(e),
        Ok(items) => match fixed_at(items, 0, 20, PackError::AddressLength) {
            Err(e) => Err(e),
            Ok(address) => match fixed_at(items, 1, 32, PackError::HashLength) {
                Err(e) => Err(e),
                Ok(identifier) => match word_field(items, 2) {
                    Err(e) => Err(e),
                    Ok(reward) => Ok(RewardAccountModel { address, identifier, reward }),
                },
            },
        },
    }
}

/// The first `n` shares of an interest distribution.
pub open spec fn reward_accounts_of(items: Seq<Seq<u8>>, n: int) -> Result<
    Seq<RewardAccountModel>,
    PackError,
>
    decreases n,
{
    if n <= 0 {
        Ok(Seq::empty())
    } else {
        match reward_accounts_of(items, n - 1) {
            Err(e) => Err(e),
            Ok(done) => match reward_account_of(items[n - 1]) {
                Err(e) => Err(e),
                Ok(a) => Ok(done.push(a)),
            },
        }
    }
}

proof fn lemma_reward_accounts_fault(items: Seq<Seq<u8>>, i: int, n: int)
    requires
        0 <= i <= n,
        reward_accounts_of(items, i) is Err,
    ensures
        reward_accounts_of(items, n) == reward_accounts_of(items, i),
    decreases n,
{
    if n > i {
        lemma_reward_accounts_fault(items, i, n - 1);
    }
}

/// An interest distribution.
pub open spec fn reward_of(items: Seq<Seq<u8>>) -> Result<RewardModel, PackError> {
    match item_at(items, 1) {
        Err(e) => Err(e),
        Ok(raw) => match items_of(raw) {
            Err(e) => Err(e),
            Ok(sub) => match reward_accounts_of(sub, sub.len() as int) {
                Err(e) => Err(e),
                Ok(accounts) => match fixed_at(items, 2, 32, PackError::HashLength) {
                    Err(e) => Err(e),
                    Ok(epoch_hash) => Ok(RewardModel { accounts, epoch_hash }),
                },
            },
        },
    }
}

/// An unlocking.
pub open spec fn unlock_of(items: Seq<Seq<u8>>) -> Result<UnlockModel, PackError> {
    match fixed_at(items, 1, 32, PackError::HashLength) {
        Err(e) => Err(e),
        Ok(identifier) => match num_at(items, 2, 8) {
            Err(e) => Err(e),
            Ok(unlocked) => Ok(UnlockModel { identifier, unlocked: unlocked as u64 }),
        },
    }
}

fn decode_reward_account(raw: &[u8]) -> (r: Result<PosRewardAccount, PackError>)
    ensures
        match r {
            Ok(a) => reward_account_of(raw@) == Ok::<RewardAccountModel, PackError>(a@),
            Err(e) => reward_account_of(raw@) == Err::<RewardAccountModel, PackError>(e),
        },
{
    let items = match get_items(raw) {
        Ok(items) => items,
        Err(e) => {
            return Err(e);
        },
    };
    let address = match get_address(&items, 0, PackError::AddressLength) {
        Ok(v) => v,
        Err(e) => {
            return Err(e);
        },
    };
    let pos_identifier = match get_hash(&items, 1, PackError::HashLength) {
        Ok(v) => v,
        Err(e) => {
            return Err(e);
        },
    };
    match decode_u256_bytes(&items, 2) {
        Ok(reward) => Ok(PosRewardAccount { address, pos_identifier, reward }),
        Err(e) => Err(e),
    }
}

pub fn decode_reward_accounts(sub: &Vec<Vec<u8>>) -> (r: Result<Vec<PosRewardAccount>, PackError>)
    ensures
        match r {
            Ok(list) => reward_accounts_of(byte_views(sub@), sub@.len() as int) == Ok::<
                Seq<RewardAccountModel>,
                PackError,
            >(views(list@)),
            Err(e) => reward_accounts_of(byte_views(sub@), sub@.len() as int) == Err::<
                Seq<RewardAccountModel>,
                PackError,
            >(e),
        },
{
    let ghost all = byte_views(sub@);
    let mut list: Vec<PosRewardAccount> = Vec::new();
    let mut i: usize = 0;
    proof {
        assert(views(list@) =~= Seq::empty());
    }
    while i < sub.len()
        invariant
            i <= sub@.len(),
            all == byte_views(sub@),
            reward_accounts_of(all, i as int) == Ok::<Seq<RewardAccountModel>, PackError>(
                views(list@),
            ),
        decreases sub@.len() - i,
    {
        let ghost done = views(list@);
        match decode_reward_account(sub[i].as_slice()) {
            Ok(a) => {
                list.push(a);
                proof {
                    assert(views(list@) =~= done.push(a@));
                }
            },
            Err(e) => {
                proof {
                    lemma_reward_accounts_fault(all, i + 1, all.len() as int);
                }
                return Err(e);
            },
        }
        i += 1;
    }
    Ok(list)
}

fn decode_pos_reward(items: &Vec<Vec<u8>>) -> (r: Result<PosRewardEntry, PackError>)
    ensures
        match r {
            Ok(entry) => reward_of(byte_views(items@)) == Ok::<RewardModel, PackError>(entry@),
            Err(e) => reward_of(byte_views(items@)) == Err::<RewardModel, PackError>(e),
        },
{
    if items.len() <= 1 {
        return Err(PackError::Rlp);
    }
    let sub = match get_items(items[1].as_slice()) {
        Ok(sub) => sub,
        Err(e) => {
            return Err(e);
        },
    };
    let account_rewards = match decode_reward_accounts(&sub) {
        Ok(list) => list,
        Err(e) => {
            return Err(e);
        },
    };
    match get_hash(items, 2, PackError::HashLength) {
        Ok(execution_epoch_hash) => Ok(PosRewardEntry { account_rewards, execution_epoch_hash }),
        Err(e) => Err(e),
    }
}

fn decode_unlock(items: &Vec<Vec<u8>>) -> (r: Result<UnlockEntry, PackError>)
    ensures
        match r {
            Ok(entry) => unlock_of(byte_views(items@)) == Ok::<UnlockModel, PackError>(entry@),
            Err(e) => unlock_of(byte_views(items@)) == Err::<UnlockModel, PackError>(e),
        },
{
    let identifier = match get_hash(items, 1, PackError::HashLength) {
        Ok(v) => v,
        Err(e) => {
            return Err(e);
        },
    };
    match get_u64(items, 2) {
        Ok(unlocked) => Ok(UnlockEntry { identifier, unlocked }),
        Err(e) => Err(e),
    }
}

/// What a payload holds.
pub struct LoadModel {
    pub txs: Seq<TxModel>,
    pub refs: Seq<Option<(nat, nat)>>,
    pub rewards: Seq<RewardModel>,
    pub unlocks: Seq<UnlockModel>,
}

/// The transaction at a place of an earlier block.
pub open spec fn earlier_tx(previous: Seq<Seq<TxModel>>, block: nat, place: nat) -> Result<
    TxModel,
    PackError,
> {
    if block < previous.len() && place < previous[block as int].len() {
        Ok(previous[block as int][place as int])
    } else {
        Err(PackError::DuplicateRef)
    }
}

/// A payload with one item more.
pub open spec fn load_item(
    done: LoadModel,
    raw: Seq<u8>,
    epoch: u64,
    c: TxContext,
    previous: Seq<Seq<TxModel>>,
) -> Result<LoadModel, PackError> {
    match items_of(raw) {
        Err(e) => Err(e),
        Ok(items) => match num_at(items, 0, 1) {
            Err(e) => Err(e),
            Ok(marker) => if marker == 1 {
                match num_at(items, 1, 8) {
                    Err(e) => Err(e),
                    Ok(block) => match num_at(items, 2, 8) {
                        Err(e) => Err(e),
                        Ok(place) => match earlier_tx(previous, block, place) {
                            Err(e) => Err(e),
                            Ok(tx) => Ok(
                                LoadModel {
                                    txs: done.txs.push(tx),
                                    refs: done.refs.push(Some((block, place))),
                                    ..done
                                },
                            ),
                        },
                    },
                }
            } else if marker == 3 {
                match reward_of(items) {
                    Err(e) => Err(e),
                    Ok(reward) => Ok(LoadModel { rewards: done.rewards.push(reward), ..done }),
                }
            } else if marker == 4 {
                match unlock_of(items) {
                    Err(e) => Err(e),
                    Ok(unlock) => Ok(LoadModel { unlocks: done.unlocks.push(unlock), ..done }),
                }
            } else {
                match tx_of(items, epoch, c) {
                    Err(e) => Err(e),
                    Ok(tx) => Ok(
                        LoadModel { txs: done.txs.push(tx), refs: done.refs.push(None), ..done },
                    ),
                }
            },
        },
    }
}

/// A payload that holds nothing.
pub open spec fn empty_load() -> LoadModel {
    LoadModel {
        txs: Seq::empty(),
        refs: Seq::empty(),
        rewards: Seq::empty(),
        unlocks: Seq::empty(),
    }
}

/// What the first `n` items of a payload hold.
pub open spec fn load_items(
    items: Seq<Seq<u8>>,
    n: int,
    epoch: u64,
    c: TxContext,
    previous: Seq<Seq<TxModel>>,
) -> Result<LoadModel, PackError>
    decreases n,
{
    if n <= 0 {
        Ok(empty_load())
    } else {
        match load_items(items, n - 1, epoch, c, previous) {
            Err(e) => Err(e),
            Ok(done) => load_item(done, items[n - 1], epoch, c, previous),
        }
    }
}

/// The bytes of the payload that a record places `units` times four bytes into the
/// transaction segment at `start`.
pub open spec fn payload_at(data: Seq<u8>, start: int, units: u64, flags: u8) -> Result<
    Seq<u8>,
    PackError,
> {
    let at = start + units * 4;
    if at >= data.len() {
        Err(PackError::PayloadOffset)
    } else {
        match read_uleb(data.skip(at)) {
            Err(e) => Err(e),
            Ok((len, rest)) => if len > rest.len() {
                Err(PackError::PayloadLength)
            } else if flag(flags, FLAG_TX_COMPRESSED) {
                match snap_decompressed(rest.take(len as int)) {
                    Some(d) => Ok(d),
                    None => Err(PackError::Decompress),
                }
            } else {
                Ok(rest.take(len as int))
            },
        }
    }
}

/// What the payload of a block holds.
#[verifier::opaque]
pub open spec fn load_payload(
    data: Seq<u8>,
    start: int,
    units: u64,
    flags: u8,
    epoch: u64,
    c: TxContext,
    previous: Seq<Seq<TxModel>>,
) -> Result<LoadModel, PackError> {
    match payload_at(data, start, units, flags) {
        Err(e) => Err(e),
        Ok(bytes) => match items_of(bytes) {
            Err(e) => Err(e),
            Ok(items) => load_items(items, items.len() as int, epoch, c, previous),
        },
    }
}

impl Clone for AccessListItem {
    fn clone(&self) -> (r: Self)
        ensures
            r@ == self@,
    {
        let mut storage_keys: Vec<H256> = Vec::new();
        let mut i: usize = 0;
        while i < self.storage_keys.len()
            invariant
                i <= self.storage_keys@.len(),
                storage_keys@ == self.storage_keys@.take(i as int),
            decreases self.storage_keys@.len() - i,
        {
            storage_keys.push(self.storage_keys[i]);
            i += 1;
            proof {
                assert(storage_keys@ =~= self.storage_keys@.take(i as int));
            }
        }
        proof {
            assert(storage_keys@ =~= self.storage_keys@);
        }
        AccessListItem { address: self.address, storage_keys }
    }
}

impl Clone for SignedTransaction {
    fn clone(&self) -> (r: Self)
        ensures
            r@ == self@,
    {
        let mut access_list: Vec<AccessListItem> = Vec::new();
        let mut i: usize = 0;
        while i < self.access_list.len()
            invariant
                i <= self.access_list@.len(),
                views(access_list@) == views(self.access_list@).take(i as int),
            decreases self.access_list@.len() - i,
        {
            let ghost done = views(access_list@);
            access_list.push(self.access_list[i].clone());
            i += 1;
            proof {
                assert(views(access_list@) =~= done.push(self.access_list@[i - 1]@));
                assert(views(access_list@) =~= views(self.access_list@).take(i as int));
            }
        }
        let mut authorization_list: Vec<AuthorizationListItem> = Vec::new();
        let mut k: usize = 0;
        while k < self.authorization_list.len()
            invariant
                k <= self.authorization_list@.len(),
                authorization_list@ == self.authorization_list@.take(k as int),
            decreases self.authorization_list@.len() - k,
        {
            authorization_list.push(self.authorization_list[k]);
            k += 1;
            proof {
                assert(authorization_list@ =~= self.authorization_list@.take(k as int));
            }
        }
        proof {
            assert(authorization_list@ =~= self.authorization_list@);
            assert(views(access_list@) =~= views(self.access_list@));
        }
        SignedTransaction {
            identity: self.identity,
            sender: self.sender,
            kind: self.kind,
            nonce: self.nonce,
            gas_price: self.gas_price,
            max_priority_gas_price: self.max_priority_gas_price,
            gas: self.gas,
            action: self.action,
            value: self.value,
            storage_limit: self.storage_limit,
            epoch_height: self.epoch_height,
            data: to_vec(self.data.as_slice()),
            access_list,
            authorization_list,
        }
    }
}

/// What a payload holds, as it is read.
pub struct Load {
    pub transactions: Vec<SignedTransaction>,
    pub refs: Vec<Option<(usize, usize)>>,
    pub pos_rewards: Vec<PosRewardEntry>,
    pub unlock_events: Vec<UnlockEntry>,
}

impl View for Load {
    type V = LoadModel;

    open spec fn view(&self) -> LoadModel {
        LoadModel {
            txs: views(self.transactions@),
            refs: ref_views(self.refs@),
            rewards: views(self.pos_rewards@),
            unlocks: views(self.unlock_events@),
        }
    }
}

/// The transactions of the first `n` blocks.
pub open spec fn txs_before(blocks: Seq<BlockModel>, n: int) -> Seq<Seq<TxModel>> {
    Seq::new(n as nat, |i: int| blocks[i].txs)
}

/// Reads one item of a payload.
fn take_item(
    load: &mut Load,
    raw: &[u8],
    block_epoch: u64,
    t: &TxTables<'_>,
    blocks: &Vec<Block>,
    index: usize,
) -> (r: Result<(), PackError>)
    requires
        index <= blocks@.len(),
    ensures
        ({
            let want = load_item(
                old(load)@,
                raw@,
                block_epoch,
                t.context(),
                txs_before(views(blocks@), index as int),
            );
            match r {
                Ok(_) => want == Ok::<LoadModel, PackError>(final(load)@),
                Err(e) => want == Err::<LoadModel, PackError>(e),
            }
        }),
{
    let ghost before = load@;
    let items = match get_items(raw) {
        Ok(items) => items,
        Err(e) => {
            return Err(e);
        },
    };
    let marker: u8 = match get_u8(&items, 0) {
        Ok(v) => v,
        Err(e) => {
            return Err(e);
        },
    };
    if marker == 1 {
        let block: u64 = match get_u64(&items, 1) {
            Ok(v) => v,
            Err(e) => {
                return Err(e);
            },
        };
        let place: u64 = match get_u64(&items, 2) {
            Ok(v) => v,
            Err(e) => {
                return Err(e);
            },
        };
        if block >= index as u64 || place >= blocks[block as usize].transactions.len() as u64 {
            return Err(PackError::DuplicateRef);
        }
        let tx = blocks[block as usize].transactions[place as usize].clone();
        let ghost m = tx@;
        proof {
            let previous = txs_before(views(blocks@), index as int);
            assert(previous[block as int] == views(blocks@[block as int].transactions@));
            assert(m == previous[block as int][place as int]);
        }
        load.transactions.push(tx);
        load.refs.push(Some((block as usize, place as usize)));
        proof {
            assert(load@.txs =~= before.txs.push(m));
            assert(load@.refs =~= before.refs.push(Some((block as nat, place as nat))));
        }
    } else if marker == 3 {
        match decode_pos_reward(&items) {
            Ok(reward) => {
                load.pos_rewards.push(reward);
                proof {
                    assert(load@.rewards =~= before.rewards.push(reward@));
                }
            },
            Err(e) => {
                return Err(e);
            },
        }
    } else if marker == 4 {
        match decode_unlock(&items) {
            Ok(unlock) => {
                load.unlock_events.push(unlock);
                proof {
                    assert(load@.unlocks =~= before.unlocks.push(unlock@));
                }
            },
            Err(e) => {
                return Err(e);
            },
        }
    } else {
        match decode_tx_item(&items, block_epoch, t) {
            Ok(tx) => {
                load.transactions.push(tx);
                load.refs.push(None);
                proof {
                    assert(load@.txs =~= before.txs.push(tx@));
                    assert(load@.refs =~= before.refs.push(None));
                }
            },
            Err(e) => {
                return Err(e);
            },
        }
    }
    Ok(())
}

proof fn lemma_load_items_fault(
    items: Seq<Seq<u8>>,
    i: int,
    n: int,
    epoch: u64,
    c: TxContext,
    previous: Seq<Seq<TxModel>>,
)
    requires
        0 <= i <= n,
        load_items(items, i, epoch, c, previous) is Err,
    ensures
        load_items(items, n, epoch, c, previous) == load_items(items, i, epoch, c, previous),
    decreases n,
{
    if n > i {
        lemma_load_items_fault(items, i, n - 1, epoch, c, previous);
    }
}

/// The bytes of the payload that a record places in the transaction segment.
pub fn payload_bytes(
    data: &[u8],
    tx_segment_offset: usize,
    tx_offset_units: u64,
    flags: u8,
) -> (r: Result<Vec<u8>, PackError>)
    requires
        tx_segment_offset <= data@.len(),
    ensures
        match r {
            Ok(bytes) => payload_at(data@, tx_segment_offset as int, tx_offset_units, flags)
                == Ok::<Seq<u8>, PackError>(bytes@),
            Err(e) => payload_at(data@, tx_segment_offset as int, tx_offset_units, flags) == Err::<
                Seq<u8>,
                PackError,
            >(e),
        },
{
    let left: usize = data.len() - tx_segment_offset;
    if tx_offset_units as u128 * 4 >= left as u128 {
        return Err(PackError::PayloadOffset);
    }
    let mut offset: usize = tx_segment_offset + tx_offset_units as usize * 4;
    let len: u64 = match read_uleb128(data, &mut offset) {
        Ok(v) => v,
        Err(e) => {
            return Err(e);
        },
    };
    let ghost rest = data@.skip(offset as int);
    proof {
        assert(rest.len() == data@.len() - offset);
    }
    if len > (data.len() - offset) as u64 {
        return Err(PackError::PayloadLength);
    }
    let part: &[u8] = &data[offset..offset + len as usize];
    proof {
        assert(part@ =~= rest.take(len as int));
    }
    if has_flag(flags, FLAG_TX_COMPRESSED) {
        match decompress(part) {
            Ok(d) => Ok(d),
            Err(_) => Err(PackError::Decompress),
        }
    } else {
        Ok(to_vec(part))
    }
}

/// Reads the payload of the block at `index`, which may repeat transactions of the
/// blocks before it.
pub fn decode_tx_payload(
    data: &[u8],
    tx_segment_offset: usize,
    tx_offset_units: u64,
    flags: u8,
    block_epoch: u64,
    t: &TxTables<'_>,
    blocks: &Vec<Block>,
    index: usize,
) -> (r: Result<Load, PackError>)
    requires
        tx_segment_offset <= data@.len(),
        index <= blocks@.len(),
    ensures
        ({
            let want = load_payload(
                data@,
                tx_segment_offset as int,
                tx_offset_units,
                flags,
                block_epoch,
                t.context(),
                txs_before(views(blocks@), index as int),
            );
            match r {
                Ok(load) => want == Ok::<LoadModel, PackError>(load@),
                Err(e) => want == Err::<LoadModel, PackError>(e),
            }
        }),
{
    proof {
        reveal(load_payload);
    }
    let bytes = match payload_bytes(data, tx_segment_offset, tx_offset_units, flags) {
        Ok(b) => b,
        Err(e) => {
            return Err(e);
        },
    };
    let items = match get_items(bytes.as_slice()) {
        Ok(items) => items,
        Err(e) => {
            return Err(e);
        },
    };
    let ghost all = byte_views(items@);
    let ghost c = t.context();
    let ghost previous = txs_before(views(blocks@), index as int);
    let mut load = Load {
        transactions: Vec::new(),
        refs: Vec::new(),
        pos_rewards: Vec::new(),
        unlock_events: Vec::new(),
    };
    let mut i: usize = 0;
    let ghost want = load_payload(
        data@,
        tx_segment_offset as int,
        tx_offset_units,
        flags,
        block_epoch,
        c,
        previous,
    );
    proof {
        assert(load@.txs =~= Seq::empty());
        assert(load@.refs =~= Seq::empty());
        assert(load@.rewards =~= Seq::empty());
        assert(load@.unlocks =~= Seq::empty());
        assert(want == load_items(all, all.len() as int, block_epoch, c, previous));
    }
    while i < items.len()
        invariant
            i <= items@.len(),
            index <= blocks@.len(),
            all == byte_views(items@),
            c == t.context(),
            previous == txs_before(views(blocks@), index as int),
            load_items(all, i as int, block_epoch, c, previous) == Ok::<LoadModel, PackError>(
                load@,
            ),
            want == load_payload(
                data@,
                tx_segment_offset as int,
                tx_offset_units,
                flags,
                block_epoch,
                c,
                previous,
            ),
            want == load_items(all, all.len() as int, block_epoch, c, previous),
        decreases items@.len() - i,
    {
        match take_item(&mut load, items[i].as_slice(), block_epoch, t, blocks, index) {
            Ok(_) => {},
            Err(e) => {
                proof {
                    lemma_load_items_fault(
                        all,
                        i + 1,
                        all.len() as int,
                        block_epoch,
                        c,
                        previous,
                    );
                }
                return Err(e);
            },
        }
        i += 1;
    }
    Ok(load)
}

} // verus!
