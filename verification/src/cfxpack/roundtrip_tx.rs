//! Transactions and PoS events that were written are read back.
use crate::cfxpack::codec::{law_zigzag, zigzag};
use crate::cfxpack::error::PackError;
use crate::cfxpack::packet::{AccessModel, AuthorizationModel, PacketModel, RewardAccountModel, RewardModel, TxKind, TxModel, UnlockModel};
use crate::cfxpack::rlp_form::{all_framed, framed, law_list_items, law_str_bytes, law_str_num, list_items, max_payload, rlp_num, rlp_str};
use crate::cfxpack::table::{last_index, lemma_last_index};
use crate::cfxpack::txdecode::{access_of, accesses_of, action_of, authorization_of, authorizations_of, bytes_at, common_of, ethereum_kind, first_base, hashes_of, identified, items_of, native_kind, nonce_of, num_at, optional_sublist, price_of, reward_account_of, reward_accounts_of, reward_of, sender_of, short_word_at, tx_of, unlock_of, word_field, wrapping_sum, CommonFields, TxContext};
use crate::cfxpack::txform::{access_item, access_items, access_list_item, action_fields, authorization_fields, authorization_items, authorization_list_item, base_of, common_fields, difference, fit_list, lemma_num_framed, lemma_str_framed, native_fields, price_fields, priority_of, ref_fields, reward_account_fields, reward_account_items, reward_item, str_items, stripped, tx_fields, tx_item, tx_parts, unlock_fields, written_nonce};
use crate::cfxpack::types::{lemma_pow256, low_u64, pow256, word, zeros};
use vstd::prelude::*;

verus! {

/// A list that was written from its items gives the items back.
pub proof fn lemma_fit(items: Seq<Seq<u8>>)
    requires
        all_framed(items),
        fit_list(items) is Ok,
    ensures
        list_items(fit_list(items)->Ok_0) == Some(items),
        items_of(fit_list(items)->Ok_0) == Ok::<Seq<Seq<u8>>, PackError>(items),
        framed(fit_list(items)->Ok_0),
{
    law_list_items(items);
}

pub proof fn lemma_num(items: Seq<Seq<u8>>, i: int, v: u64)
    requires
        0 <= i < items.len(),
        items[i] == rlp_num(v as nat),
    ensures
        num_at(items, i, 8) == Ok::<nat, PackError>(v as nat),
        v < 256 ==> num_at(items, i, 1) == Ok::<nat, PackError>(v as nat),
{
    reveal(num_at);
    lemma_pow256();
    law_str_num(v as nat, 8);
    if v < 256 {
        assert(pow256(1) == 256) by {
            reveal_with_fuel(pow256, 2);
        }
        law_str_num(v as nat, 1);
    }
}

pub proof fn lemma_bytes(items: Seq<Seq<u8>>, i: int, b: Seq<u8>)
    requires
        0 <= i < items.len(),
        b.len() <= max_payload(),
        items[i] == rlp_str(b),
    ensures
        bytes_at(items, i) == Ok::<Seq<u8>, PackError>(b),
{
    reveal(bytes_at);
    law_str_bytes(b);
}

proof fn lemma_word_field(items: Seq<Seq<u8>>, i: int, w: Seq<u8>)
    requires
        0 <= i < items.len(),
        w.len() == 32,
        items[i] == rlp_str(w),
    ensures
        word_field(items, i) == Ok::<Seq<u8>, PackError>(w),
{
    reveal(word_field);
    lemma_bytes(items, i, w);
    assert(zeros(0) + w =~= w);
}

proof fn lemma_price(v: Seq<u8>, table: Seq<Seq<u8>>)
    requires
        v.len() == 32,
        table.len() <= u64::MAX,
        fit_list(price_fields(v, table)) is Ok,
    ensures
        price_of(fit_list(price_fields(v, table))->Ok_0, table) == Ok::<Seq<u8>, PackError>(v),
        framed(fit_list(price_fields(v, table))->Ok_0),
{
    reveal(price_of);
    let items = price_fields(v, table);
    lemma_last_index(table, v);
    lemma_num_framed(0);
    lemma_num_framed(1);
    match last_index(table, v) {
        Some(i) => {
            lemma_num_framed(i as u64);
            assert(all_framed(items));
            lemma_num(items, 0, 0);
            lemma_num(items, 1, i as u64);
        },
        None => {
            lemma_str_framed(v);
            assert(all_framed(items));
            lemma_num(items, 0, 1);
            lemma_word_field(items, 1, v);
        },
    }
    lemma_fit(items);
}

proof fn lemma_action(action: Option<Seq<u8>>, addresses: Seq<Seq<u8>>)
    requires
        addresses.len() <= u64::MAX,
        action_fields(action, addresses) is Some,
        fit_list(action_fields(action, addresses)->0) is Ok,
    ensures
        action_of(fit_list(action_fields(action, addresses)->0)->Ok_0, addresses) == Ok::<
            Option<Seq<u8>>,
            PackError,
        >(action),
        framed(fit_list(action_fields(action, addresses)->0)->Ok_0),
{
    reveal(action_of);
    let items = action_fields(action, addresses)->0;
    lemma_num_framed(0);
    lemma_num_framed(1);
    match action {
        None => {
            assert(all_framed(items));
            lemma_num(items, 0, 0);
        },
        Some(a) => {
            lemma_last_index(addresses, a);
            let i = last_index(addresses, a)->0;
            lemma_num_framed(i as u64);
            assert(all_framed(items));
            lemma_num(items, 0, 1);
            lemma_num(items, 1, i as u64);
        },
    }
    lemma_fit(items);
}

/// An access entry with parts of the right lengths.
pub open spec fn access_shape(a: AccessModel) -> bool {
    a.address.len() == 20 && forall|i: int|
        0 <= i < a.keys.len() ==> (#[trigger] a.keys[i]).len() == 32
}

proof fn lemma_hashes(keys: Seq<Seq<u8>>, n: int)
    requires
        0 <= n <= keys.len(),
        forall|i: int| 0 <= i < keys.len() ==> (#[trigger] keys[i]).len() == 32,
    ensures
        hashes_of(str_items(keys), n) == Ok::<Seq<Seq<u8>>, PackError>(keys.take(n)),
    decreases n,
{
    if n > 0 {
        lemma_hashes(keys, n - 1);
        assert(keys[n - 1].len() == 32);
        lemma_bytes(str_items(keys), n - 1, keys[n - 1]);
        assert(keys.take(n) =~= keys.take(n - 1).push(keys[n - 1]));
    } else {
        assert(keys.take(0) =~= Seq::empty());
    }
}

proof fn lemma_access(a: AccessModel)
    requires
        access_shape(a),
        access_item(a) is Ok,
    ensures
        access_of(access_item(a)->Ok_0) == Ok::<AccessModel, PackError>(a),
        framed(access_item(a)->Ok_0),
{
    let key_items = str_items(a.keys);
    assert(all_framed(key_items)) by {
        assert forall|i: int| 0 <= i < key_items.len() implies framed(#[trigger] key_items[i]) by {
            assert(a.keys[i].len() == 32);
            lemma_str_framed(a.keys[i]);
        }
    }
    lemma_fit(key_items);
    let keys = fit_list(key_items)->Ok_0;
    let items = seq![rlp_str(a.address), keys];
    lemma_str_framed(a.address);
    assert(all_framed(items));
    lemma_fit(items);
    lemma_bytes(items, 0, a.address);
    lemma_hashes(a.keys, a.keys.len() as int);
    assert(a.keys.take(a.keys.len() as int) =~= a.keys);
}

proof fn lemma_accesses(list: Seq<AccessModel>, n: int)
    requires
        0 <= n <= list.len(),
        forall|i: int| 0 <= i < list.len() ==> access_shape(#[trigger] list[i]),
        access_items(list, n) is Ok,
    ensures
        access_items(list, n)->Ok_0.len() == n,
        all_framed(access_items(list, n)->Ok_0),
        accesses_of(access_items(list, n)->Ok_0, n) == Ok::<Seq<AccessModel>, PackError>(
            list.take(n),
        ),
    decreases n,
{
    let items = access_items(list, n)->Ok_0;
    if n > 0 {
        lemma_accesses(list, n - 1);
        assert(access_shape(list[n - 1]));
        lemma_access(list[n - 1]);
        let before = access_items(list, n - 1)->Ok_0;
        assert(items == before.push(access_item(list[n - 1])->Ok_0));
        assert(all_framed(items)) by {
            assert forall|i: int| 0 <= i < items.len() implies framed(#[trigger] items[i]) by {
                if i < n - 1 {
                    assert(items[i] == before[i]);
                }
            }
        }
        lemma_accesses_prefix(before, items, n - 1);
        assert(list.take(n) =~= list.take(n - 1).push(list[n - 1]));
    } else {
        assert(list.take(0) =~= Seq::empty());
    }
}

proof fn lemma_accesses_prefix(a: Seq<Seq<u8>>, b: Seq<Seq<u8>>, n: int)
    requires
        0 <= n <= a.len(),
        n <= b.len(),
        forall|i: int| 0 <= i < n ==> #[trigger] a[i] == b[i],
    ensures
        accesses_of(a, n) == accesses_of(b, n),
    decreases n,
{
    if n > 0 {
        lemma_accesses_prefix(a, b, n - 1);
        assert(a[n - 1] == b[n - 1]);
    }
}

/// An access list that was written gives its entries back.
proof fn lemma_access_list(list: Seq<AccessModel>)
    requires
        forall|i: int| 0 <= i < list.len() ==> access_shape(#[trigger] list[i]),
        access_list_item(list) is Ok,
    ensures
        framed(access_list_item(list)->Ok_0),
        ({
            let sub = list_items(access_list_item(list)->Ok_0);
            &&& sub is Some
            &&& accesses_of(sub->0, sub->0.len() as int) == Ok::<Seq<AccessModel>, PackError>(list)
        }),
{
    let n = list.len() as int;
    lemma_accesses(list, n);
    let items = access_items(list, n)->Ok_0;
    lemma_fit(items);
    assert(list.take(n) =~= list);
}

/// An authorization with parts of the right lengths.
pub open spec fn authorization_shape(a: AuthorizationModel) -> bool {
    a.chain_id.len() == 32 && a.address.len() == 20 && a.r.len() == 32 && a.s.len() == 32
}

proof fn lemma_stripped(w: Seq<u8>)
    ensures
        stripped(w).len() <= w.len(),
        stripped(w).len() == 0 || stripped(w)[0] != 0,
        zeros((w.len() - stripped(w).len()) as nat) + stripped(w) == w,
    decreases w.len(),
{
    if w.len() == 0 || w[0] != 0 {
        assert(zeros(0) + w =~= w);
    } else {
        let t = w.drop_first();
        lemma_stripped(t);
        let z = zeros((w.len() - stripped(w).len()) as nat);
        assert(z =~= seq![0u8] + zeros((t.len() - stripped(t).len()) as nat));
        assert(z + stripped(w) =~= seq![0u8] + t);
        assert(seq![0u8] + t =~= w);
    }
}

proof fn lemma_short_word(items: Seq<Seq<u8>>, i: int, w: Seq<u8>)
    requires
        0 <= i < items.len(),
        w.len() == 32,
        items[i] == rlp_str(stripped(w)),
    ensures
        short_word_at(items, i) == Ok::<Seq<u8>, PackError>(w),
{
    lemma_stripped(w);
    lemma_bytes(items, i, stripped(w));
}

proof fn lemma_authorization(a: AuthorizationModel)
    requires
        authorization_shape(a),
        fit_list(authorization_fields(a)) is Ok,
    ensures
        authorization_of(fit_list(authorization_fields(a))->Ok_0) == Ok::<
            AuthorizationModel,
            PackError,
        >(a),
        framed(fit_list(authorization_fields(a))->Ok_0),
{
    let items = authorization_fields(a);
    lemma_stripped(a.chain_id);
    lemma_stripped(a.r);
    lemma_stripped(a.s);
    lemma_str_framed(stripped(a.chain_id));
    lemma_str_framed(stripped(a.r));
    lemma_str_framed(stripped(a.s));
    lemma_str_framed(a.address);
    lemma_num_framed(a.nonce);
    lemma_num_framed(a.y_parity as u64);
    assert(all_framed(items));
    lemma_fit(items);
    lemma_short_word(items, 0, a.chain_id);
    lemma_bytes(items, 1, a.address);
    lemma_num(items, 2, a.nonce);
    lemma_num(items, 3, a.y_parity as u64);
    lemma_short_word(items, 4, a.r);
    lemma_short_word(items, 5, a.s);
}

proof fn lemma_authorizations(list: Seq<AuthorizationModel>, n: int)
    requires
        0 <= n <= list.len(),
        forall|i: int| 0 <= i < list.len() ==> authorization_shape(#[trigger] list[i]),
        authorization_items(list, n) is Ok,
    ensures
        authorization_items(list, n)->Ok_0.len() == n,
        all_framed(authorization_items(list, n)->Ok_0),
        authorizations_of(authorization_items(list, n)->Ok_0, n) == Ok::<
            Seq<AuthorizationModel>,
            PackError,
        >(list.take(n)),
    decreases n,
{
    let items = authorization_items(list, n)->Ok_0;
    if n > 0 {
        lemma_authorizations(list, n - 1);
        assert(authorization_shape(list[n - 1]));
        lemma_authorization(list[n - 1]);
        let before = authorization_items(list, n - 1)->Ok_0;
        assert(items == before.push(fit_list(authorization_fields(list[n - 1]))->Ok_0));
        assert(all_framed(items)) by {
            assert forall|i: int| 0 <= i < items.len() implies framed(#[trigger] items[i]) by {
                if i < n - 1 {
                    assert(items[i] == before[i]);
                }
            }
        }
        lemma_authorizations_prefix(before, items, n - 1);
        assert(list.take(n) =~= list.take(n - 1).push(list[n - 1]));
    } else {
        assert(list.take(0) =~= Seq::empty());
    }
}

proof fn lemma_authorizations_prefix(a: Seq<Seq<u8>>, b: Seq<Seq<u8>>, n: int)
    requires
        0 <= n <= a.len(),
        n <= b.len(),
        forall|i: int| 0 <= i < n ==> #[trigger] a[i] == b[i],
    ensures
        authorizations_of(a, n) == authorizations_of(b, n),
    decreases n,
{
    if n > 0 {
        lemma_authorizations_prefix(a, b, n - 1);
        assert(a[n - 1] == b[n - 1]);
    }
}

proof fn lemma_authorization_list(list: Seq<AuthorizationModel>)
    requires
        forall|i: int| 0 <= i < list.len() ==> authorization_shape(#[trigger] list[i]),
        authorization_list_item(list) is Ok,
    ensures
        framed(authorization_list_item(list)->Ok_0),
        ({
            let sub = list_items(authorization_list_item(list)->Ok_0);
            &&& sub is Some
            &&& authorizations_of(sub->0, sub->0.len() as int) == Ok::<
                Seq<AuthorizationModel>,
                PackError,
            >(list)
        }),
{
    let n = list.len() as int;
    lemma_authorizations(list, n);
    let items = authorization_items(list, n)->Ok_0;
    lemma_fit(items);
    assert(list.take(n) =~= list);
}

/// Every sender has at most one base nonce.
pub open spec fn one_base(bases: Seq<(nat, u64)>) -> bool {
    forall|i: int, j: int|
        #![trigger bases[i], bases[j]]
        0 <= i < j < bases.len() ==> bases[i].0 != bases[j].0
}

proof fn lemma_one_base(bases: Seq<(nat, u64)>, sender: nat)
    requires
        one_base(bases),
    ensures
        first_base(bases, sender) == (match base_of(bases, sender) {
            Some(b) => b,
            None => 0,
        }),
    decreases bases.len(),
{
    lemma_first_base(bases, sender);
    lemma_base_of(bases, sender);
    if exists|i: int| 0 <= i < bases.len() && (#[trigger] bases[i]).0 == sender {
        let i = choose|i: int| 0 <= i < bases.len() && (#[trigger] bases[i]).0 == sender;
        let j = choose|j: int|
            0 <= j < bases.len() && (#[trigger] bases[j]).0 == sender && first_base(bases, sender)
                == bases[j].1;
        let k = choose|k: int|
            0 <= k < bases.len() && (#[trigger] bases[k]).0 == sender && base_of(bases, sender)
                == Some(bases[k].1);
        if j < k {
            assert(bases[j].0 != bases[k].0);
        }
        if k < j {
            assert(bases[k].0 != bases[j].0);
        }
    }
}

proof fn lemma_first_base(bases: Seq<(nat, u64)>, sender: nat)
    ensures
        (exists|i: int| 0 <= i < bases.len() && (#[trigger] bases[i]).0 == sender) ==> exists|j: int|
            0 <= j < bases.len() && (#[trigger] bases[j]).0 == sender && first_base(bases, sender)
                == bases[j].1,
        !(exists|i: int| 0 <= i < bases.len() && (#[trigger] bases[i]).0 == sender)
            ==> first_base(bases, sender) == 0,
    decreases bases.len(),
{
    if bases.len() > 0 {
        if bases[0].0 == sender {
            assert(bases[0].0 == sender && first_base(bases, sender) == bases[0].1);
        } else {
            let t = bases.drop_first();
            lemma_first_base(t, sender);
            if exists|i: int| 0 <= i < bases.len() && (#[trigger] bases[i]).0 == sender {
                let i = choose|i: int| 0 <= i < bases.len() && (#[trigger] bases[i]).0 == sender;
                assert(t[i - 1].0 == sender);
                let j = choose|j: int|
                    0 <= j < t.len() && (#[trigger] t[j]).0 == sender && first_base(t, sender)
                        == t[j].1;
                assert(bases[j + 1] == t[j]);
            } else {
                assert forall|i: int| 0 <= i < t.len() implies (#[trigger] t[i]).0 != sender by {
                    assert(bases[i + 1] == t[i]);
                }
            }
        }
    }
}

proof fn lemma_base_of(bases: Seq<(nat, u64)>, sender: nat)
    ensures
        (exists|i: int| 0 <= i < bases.len() && (#[trigger] bases[i]).0 == sender) ==> exists|j: int|
            0 <= j < bases.len() && (#[trigger] bases[j]).0 == sender && base_of(bases, sender)
                == Some(bases[j].1),
        !(exists|i: int| 0 <= i < bases.len() && (#[trigger] bases[i]).0 == sender) ==> base_of(
            bases,
            sender,
        ) is None,
    decreases bases.len(),
{
    if bases.len() > 0 {
        let n = bases.len() - 1;
        if bases.last().0 == sender {
            assert(bases[n].0 == sender && base_of(bases, sender) == Some(bases[n].1));
        } else {
            let t = bases.drop_last();
            lemma_base_of(t, sender);
            if exists|i: int| 0 <= i < bases.len() && (#[trigger] bases[i]).0 == sender {
                let i = choose|i: int| 0 <= i < bases.len() && (#[trigger] bases[i]).0 == sender;
                assert(t[i].0 == sender);
                let j = choose|j: int|
                    0 <= j < t.len() && (#[trigger] t[j]).0 == sender && base_of(t, sender)
                        == Some(t[j].1);
                assert(bases[j] == t[j]);
            } else {
                assert forall|i: int| 0 <= i < t.len() implies (#[trigger] t[i]).0 != sender by {
                    assert(bases[i] == t[i]);
                }
            }
        }
    }
}

/// A transaction with parts of the right lengths, which calls an address where its
/// type demands it.
pub open spec fn tx_shape(tx: TxModel) -> bool {
    &&& tx.sender.len() == 20
    &&& tx.nonce.len() == 32
    &&& tx.gas_price.len() == 32
    &&& tx.priority_price.len() == 32
    &&& tx.gas.len() == 32
    &&& tx.value.len() == 32
    &&& tx.action matches Some(a) ==> a.len() == 20
    &&& tx.kind is Eip7702 ==> tx.action is Some
    &&& forall|i: int| 0 <= i < tx.access_list.len() ==> access_shape(#[trigger] tx.access_list[i])
    &&& forall|i: int|
        0 <= i < tx.authorizations.len() ==> authorization_shape(#[trigger] tx.authorizations[i])
}

/// The nonce that is read back: not below the base nonce of the sender.
pub open spec fn kept_nonce(bases: Seq<(nat, u64)>, sender: nat, nonce: u64) -> u64 {
    match base_of(bases, sender) {
        Some(base) => if nonce >= base {
            nonce
        } else {
            base
        },
        None => nonce,
    }
}

/// The transaction that is read back: 64 bits of the nonce and the gas, what its
/// type has, and the digest of its content for its hash.
pub open spec fn kept_tx(p: PacketModel, tx: TxModel) -> TxModel {
    identified(
        TxModel {
            identity: Seq::empty(),
            nonce: word(
                kept_nonce(
                    p.base_nonces,
                    last_index(p.addresses, tx.sender)->0,
                    low_u64(tx.nonce),
                ),
            ),
            priority_price: priority_of(tx),
            gas: word(low_u64(tx.gas)),
            storage_limit: if tx.kind.is_native() {
                tx.storage_limit
            } else {
                0
            },
            epoch_height: if tx.kind.is_native() {
                tx.epoch_height
            } else {
                0
            },
            access_list: if tx.kind.lists_access() {
                tx.access_list
            } else {
                Seq::empty()
            },
            authorizations: if tx.kind is Eip7702 {
                tx.authorizations
            } else {
                Seq::empty()
            },
            ..tx
        },
    )
}

/// The tables that the transactions of a packet are read against.
pub open spec fn tx_context(p: PacketModel) -> TxContext {
    TxContext { addresses: p.addresses, gas_prices: p.gas_prices, base_nonces: p.base_nonces }
}

/// What is written and read of a transaction's table entries and lists.
proof fn lemma_parts(p: PacketModel, tx: TxModel)
    requires
        tx_shape(tx),
        p.addresses.len() <= u64::MAX,
        p.gas_prices.len() <= u64::MAX,
        tx_parts(p, tx) is Ok,
    ensures
        ({
            let t = tx_parts(p, tx)->Ok_0;
            &&& last_index(p.addresses, tx.sender) == Some(t.sender)
            &&& t.sender < p.addresses.len()
            &&& p.addresses[t.sender as int] == tx.sender
            &&& framed(t.price)
            &&& price_of(t.price, p.gas_prices) == Ok::<Seq<u8>, PackError>(tx.gas_price)
            &&& framed(t.priority)
            &&& price_of(t.priority, p.gas_prices) == Ok::<Seq<u8>, PackError>(priority_of(tx))
            &&& framed(t.action)
            &&& action_of(t.action, p.addresses) == Ok::<Option<Seq<u8>>, PackError>(tx.action)
            &&& tx.data.len() <= max_payload()
            &&& t.data == rlp_str(tx.data)
            &&& all_framed(t.lists)
            &&& t.lists.len() == (if !tx.kind.lists_access() {
                0int
            } else if tx.kind is Eip7702 {
                2
            } else {
                1
            })
            &&& tx.kind.lists_access() ==> t.lists[0] == access_list_item(tx.access_list)->Ok_0
                && access_list_item(tx.access_list) is Ok
            &&& tx.kind is Eip7702 ==> t.lists[1] == authorization_list_item(
                tx.authorizations,
            )->Ok_0 && authorization_list_item(tx.authorizations) is Ok
        }),
{
    lemma_last_index(p.addresses, tx.sender);
    lemma_price(tx.gas_price, p.gas_prices);
    lemma_price(priority_of(tx), p.gas_prices);
    lemma_action(tx.action, p.addresses);
    if tx.kind.lists_access() {
        lemma_access_list(tx.access_list);
        if tx.kind is Eip7702 {
            lemma_authorization_list(tx.authorizations);
        }
    }
}

/// The fields of a transaction are all encodings.
proof fn lemma_fields_framed(p: PacketModel, epoch: u64, tx: TxModel)
    requires
        tx_shape(tx),
        p.addresses.len() <= u64::MAX,
        p.gas_prices.len() <= u64::MAX,
        tx_parts(p, tx) is Ok,
    ensures
        all_framed(tx_fields(p, epoch, tx, tx_parts(p, tx)->Ok_0)),
{
    lemma_parts(p, tx);
    let t = tx_parts(p, tx)->Ok_0;
    let common = common_fields(p, tx, t);
    let native = native_fields(tx, epoch);
    lemma_num_framed(0);
    lemma_num_framed(2);
    lemma_num_framed(tx.kind.number() as u64);
    lemma_num_framed(t.sender as u64);
    lemma_num_framed(written_nonce(p.base_nonces, t.sender, low_u64(tx.nonce)));
    lemma_num_framed(low_u64(tx.gas));
    lemma_str_framed(tx.value);
    lemma_str_framed(tx.data);
    lemma_num_framed(tx.storage_limit);
    lemma_num_framed(zigzag(difference(tx.epoch_height, epoch)));
    assert(all_framed(common));
    assert(all_framed(native));
    let fields = tx_fields(p, epoch, tx, t);
    assert forall|i: int| 0 <= i < fields.len() implies framed(#[trigger] fields[i]) by {
        let c = common.len() as int;
        let n = native.len() as int;
        if i < c {
            assert(fields[i] == common[i]);
        } else if i < c + n {
            assert(fields[i] == native[i - c]);
        } else if i == c + n {
            assert(fields[i] == t.data);
        } else {
            assert(fields[i] == t.lists[i - c - n - 1]);
        }
    }
}

/// The common fields of a transaction that was written are read back.
proof fn lemma_common(p: PacketModel, epoch: u64, tx: TxModel)
    requires
        tx_shape(tx),
        one_base(p.base_nonces),
        p.addresses.len() <= u64::MAX,
        p.gas_prices.len() <= u64::MAX,
        tx_parts(p, tx) is Ok,
    ensures
        common_of(tx_fields(p, epoch, tx, tx_parts(p, tx)->Ok_0), tx_context(p)) == Ok::<
            CommonFields,
            PackError,
        >(
            CommonFields {
                marker: if tx.kind.is_native() {
                    0
                } else {
                    2
                },
                type_id: tx.kind.number(),
                sender: tx.sender,
                nonce: kept_tx(p, tx).nonce,
                gas_price: tx.gas_price,
                priority_price: priority_of(tx),
                gas: word(low_u64(tx.gas)),
                action: tx.action,
                value: tx.value,
            },
        ),
{
    lemma_parts(p, tx);
    let t = tx_parts(p, tx)->Ok_0;
    let c = tx_context(p);
    let common = common_fields(p, tx, t);
    let fields = tx_fields(p, epoch, tx, t);
    assert forall|i: int| 0 <= i < 9 implies #[trigger] fields[i] == common[i] by {}
    let nonce = written_nonce(p.base_nonces, t.sender, low_u64(tx.nonce));
    lemma_num(
        fields,
        0,
        if tx.kind.is_native() {
            0
        } else {
            2
        },
    );
    lemma_num(fields, 1, tx.kind.number() as u64);
    lemma_num(fields, 2, t.sender as u64);
    assert(sender_of(fields, c.addresses) == Ok::<(nat, Seq<u8>), PackError>(
        (t.sender, tx.sender),
    ));
    lemma_num(fields, 3, nonce);
    lemma_one_base(p.base_nonces, t.sender);
    assert(first_base(p.base_nonces, t.sender) + nonce == kept_nonce(
        p.base_nonces,
        t.sender,
        low_u64(tx.nonce),
    ));
    assert(nonce_of(fields, c.base_nonces, t.sender) == Ok::<Seq<u8>, PackError>(
        kept_tx(p, tx).nonce,
    ));
    assert(fields[4] == t.price);
    assert(fields[5] == t.priority);
    lemma_num(fields, 6, low_u64(tx.gas));
    assert(fields[7] == t.action);
    lemma_word_field(fields, 8, tx.value);
}

proof fn lemma_difference(a: u64, b: u64)
    ensures
        wrapping_sum(b, difference(a, b)) == a,
{
}

/// A transaction that was written is read back.
pub proof fn lemma_tx(p: PacketModel, epoch: u64, tx: TxModel)
    requires
        tx_shape(tx),
        one_base(p.base_nonces),
        p.addresses.len() <= u64::MAX,
        p.gas_prices.len() <= u64::MAX,
        tx_item(p, epoch, tx) is Ok,
    ensures
        framed(tx_item(p, epoch, tx)->Ok_0),
        ({
            let items = items_of(tx_item(p, epoch, tx)->Ok_0);
            &&& items is Ok
            &&& num_at(items->Ok_0, 0, 1) == Ok::<nat, PackError>(
                if tx.kind.is_native() {
                    0
                } else {
                    2
                },
            )
            &&& tx_of(items->Ok_0, epoch, tx_context(p)) == Ok::<TxModel, PackError>(
                kept_tx(p, tx),
            )
        }),
{
    let t = tx_parts(p, tx)->Ok_0;
    let fields = tx_fields(p, epoch, tx, t);
    lemma_parts(p, tx);
    lemma_fields_framed(p, epoch, tx);
    lemma_fit(fields);
    lemma_common(p, epoch, tx);
    let common = common_fields(p, tx, t);
    let native = native_fields(tx, epoch);
    assert(fields[0] == common[0]);
    lemma_num(
        fields,
        0,
        if tx.kind.is_native() {
            0
        } else {
            2
        },
    );
    let f = common_of(fields, tx_context(p))->Ok_0;
    let kept = kept_tx(p, tx);
    if tx.kind.is_native() {
        let delta = zigzag(difference(tx.epoch_height, epoch));
        assert(fields[9] == native[0]);
        assert(fields[10] == native[1]);
        assert(fields[11] == t.data);
        lemma_num(fields, 9, tx.storage_limit);
        lemma_num(fields, 10, delta);
        lemma_bytes(fields, 11, tx.data);
        law_zigzag(difference(tx.epoch_height, epoch));
        lemma_difference(tx.epoch_height, epoch);
        let sub = optional_sublist(fields, 12);
        if tx.kind.lists_access() {
            assert(fields[12] == t.lists[0]);
            lemma_access_list(tx.access_list);
        } else {
            assert(sub =~= Seq::empty());
        }
        assert(accesses_of(sub, sub.len() as int) == Ok::<Seq<AccessModel>, PackError>(
            kept.access_list,
        ));
        assert(native_kind(f.type_id) == Ok::<TxKind, PackError>(tx.kind));
    } else {
        assert(fields[9] == t.data);
        lemma_bytes(fields, 9, tx.data);
        let sub = optional_sublist(fields, 10);
        if tx.kind.lists_access() {
            assert(fields[10] == t.lists[0]);
            lemma_access_list(tx.access_list);
        } else {
            assert(sub =~= Seq::empty());
        }
        assert(accesses_of(sub, sub.len() as int) == Ok::<Seq<AccessModel>, PackError>(
            kept.access_list,
        ));
        assert(ethereum_kind(f.type_id) == Ok::<TxKind, PackError>(tx.kind));
        if tx.kind is Eip7702 {
            assert(fields[11] == t.lists[1]);
            lemma_authorization_list(tx.authorizations);
        }
    }
}

/// A reference that was written is read back.
pub proof fn lemma_ref(block: nat, place: nat)
    requires
        block <= u64::MAX,
        place <= u64::MAX,
        fit_list(ref_fields(block, place)) is Ok,
    ensures
        framed(fit_list(ref_fields(block, place))->Ok_0),
        ({
            let items = items_of(fit_list(ref_fields(block, place))->Ok_0);
            &&& items is Ok
            &&& num_at(items->Ok_0, 0, 1) == Ok::<nat, PackError>(1)
            &&& num_at(items->Ok_0, 1, 8) == Ok::<nat, PackError>(block)
            &&& num_at(items->Ok_0, 2, 8) == Ok::<nat, PackError>(place)
        }),
{
    let items = ref_fields(block, place);
    lemma_num_framed(1);
    lemma_num_framed(block as u64);
    lemma_num_framed(place as u64);
    assert(all_framed(items));
    lemma_fit(items);
    lemma_num(items, 0, 1);
    lemma_num(items, 1, block as u64);
    lemma_num(items, 2, place as u64);
}

/// A share of an interest distribution with parts of the right lengths.
pub open spec fn reward_account_shape(a: RewardAccountModel) -> bool {
    a.address.len() == 20 && a.identifier.len() == 32 && a.reward.len() == 32
}

/// An interest distribution with parts of the right lengths.
pub open spec fn reward_shape(r: RewardModel) -> bool {
    r.epoch_hash.len() == 32 && forall|i: int|
        0 <= i < r.accounts.len() ==> reward_account_shape(#[trigger] r.accounts[i])
}

proof fn lemma_reward_account(a: RewardAccountModel)
    requires
        reward_account_shape(a),
        fit_list(reward_account_fields(a)) is Ok,
    ensures
        reward_account_of(fit_list(reward_account_fields(a))->Ok_0) == Ok::<
            RewardAccountModel,
            PackError,
        >(a),
        framed(fit_list(reward_account_fields(a))->Ok_0),
{
    let items = reward_account_fields(a);
    lemma_str_framed(a.address);
    lemma_str_framed(a.identifier);
    lemma_str_framed(a.reward);
    assert(all_framed(items));
    lemma_fit(items);
    lemma_bytes(items, 0, a.address);
    lemma_bytes(items, 1, a.identifier);
    lemma_word_field(items, 2, a.reward);
}

proof fn lemma_reward_accounts_prefix(a: Seq<Seq<u8>>, b: Seq<Seq<u8>>, n: int)
    requires
        0 <= n <= a.len(),
        n <= b.len(),
        forall|i: int| 0 <= i < n ==> #[trigger] a[i] == b[i],
    ensures
        reward_accounts_of(a, n) == reward_accounts_of(b, n),
    decreases n,
{
    if n > 0 {
        lemma_reward_accounts_prefix(a, b, n - 1);
        assert(a[n - 1] == b[n - 1]);
    }
}

proof fn lemma_reward_accounts(list: Seq<RewardAccountModel>, n: int)
    requires
        0 <= n <= list.len(),
        forall|i: int| 0 <= i < list.len() ==> reward_account_shape(#[trigger] list[i]),
        reward_account_items(list, n) is Ok,
    ensures
        reward_account_items(list, n)->Ok_0.len() == n,
        all_framed(reward_account_items(list, n)->Ok_0),
        reward_accounts_of(reward_account_items(list, n)->Ok_0, n) == Ok::<
            Seq<RewardAccountModel>,
            PackError,
        >(list.take(n)),
    decreases n,
{
    let items = reward_account_items(list, n)->Ok_0;
    if n > 0 {
        lemma_reward_accounts(list, n - 1);
        assert(reward_account_shape(list[n - 1]));
        lemma_reward_account(list[n - 1]);
        let before = reward_account_items(list, n - 1)->Ok_0;
        assert(items == before.push(fit_list(reward_account_fields(list[n - 1]))->Ok_0));
        assert(all_framed(items)) by {
            assert forall|i: int| 0 <= i < items.len() implies framed(#[trigger] items[i]) by {
                if i < n - 1 {
                    assert(items[i] == before[i]);
                }
            }
        }
        lemma_reward_accounts_prefix(before, items, n - 1);
        assert(list.take(n) =~= list.take(n - 1).push(list[n - 1]));
    } else {
        assert(list.take(0) =~= Seq::empty());
    }
}

/// An interest distribution that was written is read back.
pub proof fn lemma_reward(r: RewardModel)
    requires
        reward_shape(r),
        reward_item(r) is Ok,
    ensures
        framed(reward_item(r)->Ok_0),
        ({
            let items = items_of(reward_item(r)->Ok_0);
            &&& items is Ok
            &&& num_at(items->Ok_0, 0, 1) == Ok::<nat, PackError>(3)
            &&& reward_of(items->Ok_0) == Ok::<RewardModel, PackError>(r)
        }),
{
    let n = r.accounts.len() as int;
    lemma_reward_accounts(r.accounts, n);
    let sub = reward_account_items(r.accounts, n)->Ok_0;
    lemma_fit(sub);
    let items = seq![rlp_num(3), fit_list(sub)->Ok_0, rlp_str(r.epoch_hash)];
    lemma_num_framed(3);
    lemma_str_framed(r.epoch_hash);
    assert(all_framed(items));
    lemma_fit(items);
    lemma_num(items, 0, 3);
    lemma_bytes(items, 2, r.epoch_hash);
    assert(r.accounts.take(n) =~= r.accounts);
}

/// An unlocking that was written is read back.
pub proof fn lemma_unlock(u: UnlockModel)
    requires
        u.identifier.len() == 32,
        fit_list(unlock_fields(u)) is Ok,
    ensures
        framed(fit_list(unlock_fields(u))->Ok_0),
        ({
            let items = items_of(fit_list(unlock_fields(u))->Ok_0);
            &&& items is Ok
            &&& num_at(items->Ok_0, 0, 1) == Ok::<nat, PackError>(4)
            &&& unlock_of(items->Ok_0) == Ok::<UnlockModel, PackError>(u)
        }),
{
    let items = unlock_fields(u);
    lemma_num_framed(4);
    lemma_str_framed(u.identifier);
    lemma_num_framed(u.unlocked);
    assert(all_framed(items));
    lemma_fit(items);
    lemma_num(items, 0, 4);
    lemma_bytes(items, 1, u.identifier);
    lemma_num(items, 2, u.unlocked);
}

} // verus!
