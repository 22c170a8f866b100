//! The content by which a transaction that was read is known tells all of it but its sender.
use crate::cfxpack::packet::{AccessModel, AuthorizationModel, TxModel};
use crate::cfxpack::txdecode::{access_content, authorization_content, identified, kind_byte, tx_content};
use crate::cfxpack::types::{le_bytes, lemma_le_bytes, lemma_pow256};
use crate::trie::{concat, keccak_digest};
use vstd::prelude::*;

verus! {

/// Two strings with heads of one length are equal in their heads and in what follows.
proof fn lemma_split(a: Seq<u8>, x: Seq<u8>, b: Seq<u8>, y: Seq<u8>)
    requires
        a + x == b + y,
        a.len() == b.len(),
    ensures
        a == b,
        x == y,
{
    assert(a =~= (a + x).take(a.len() as int));
    assert(b =~= (b + y).take(b.len() as int));
    assert(x =~= (a + x).skip(a.len() as int));
    assert(y =~= (b + y).skip(b.len() as int));
}

proof fn lemma_le8(a: nat, b: nat)
    requires
        a <= u64::MAX,
        b <= u64::MAX,
    ensures
        le_bytes(a, 8).len() == 8,
        le_bytes(b, 8).len() == 8,
        le_bytes(a, 8) == le_bytes(b, 8) ==> a == b,
{
    lemma_pow256();
    lemma_le_bytes(a, 8);
    lemma_le_bytes(b, 8);
}

/// Words that stand one after another.
proof fn lemma_words(keys: Seq<Seq<u8>>)
    requires
        forall|i: int| 0 <= i < keys.len() ==> (#[trigger] keys[i]).len() == 32,
    ensures
        concat(keys).len() == 32 * keys.len(),
    decreases keys.len(),
{
    if keys.len() > 0 {
        let t = keys.drop_last();
        assert forall|i: int| 0 <= i < t.len() implies (#[trigger] t[i]).len() == 32 by {
            assert(t[i] == keys[i]);
        }
        lemma_words(t);
        assert(keys[keys.len() - 1].len() == 32);
    }
}

proof fn lemma_same_words(a: Seq<Seq<u8>>, b: Seq<Seq<u8>>)
    requires
        a.len() == b.len(),
        forall|i: int| 0 <= i < a.len() ==> (#[trigger] a[i]).len() == 32,
        forall|i: int| 0 <= i < b.len() ==> (#[trigger] b[i]).len() == 32,
        concat(a) == concat(b),
    ensures
        a == b,
    decreases a.len(),
{
    if a.len() > 0 {
        let s = a.drop_last();
        let t = b.drop_last();
        assert forall|i: int| 0 <= i < s.len() implies (#[trigger] s[i]).len() == 32 by {
            assert(s[i] == a[i]);
        }
        assert forall|i: int| 0 <= i < t.len() implies (#[trigger] t[i]).len() == 32 by {
            assert(t[i] == b[i]);
        }
        lemma_words(s);
        lemma_words(t);
        lemma_split(concat(s), a.last(), concat(t), b.last());
        lemma_same_words(s, t);
        assert(a =~= s.push(a.last()));
        assert(b =~= t.push(b.last()));
    } else {
        assert(a =~= b);
    }
}

/// An access entry with a full address and full keys.
pub open spec fn access_sized(a: AccessModel) -> bool {
    &&& a.address.len() == 20
    &&& a.keys.len() <= u64::MAX
    &&& forall|i: int| 0 <= i < a.keys.len() ==> (#[trigger] a.keys[i]).len() == 32
}

/// An authorization with a full address and full words.
pub open spec fn authorization_sized(a: AuthorizationModel) -> bool {
    a.chain_id.len() == 32 && a.address.len() == 20 && a.r.len() == 32 && a.s.len() == 32
}

spec fn access_entry(a: AccessModel) -> Seq<u8> {
    a.address + le_bytes(a.keys.len(), 8) + concat(a.keys)
}

proof fn lemma_access_front(list: Seq<AccessModel>)
    requires
        list.len() > 0,
    ensures
        access_content(list) == access_entry(list[0]) + access_content(list.drop_first()),
    decreases list.len(),
{
    let rest = list.drop_first();
    if list.len() == 1 {
        assert(list.drop_last() =~= Seq::empty());
        assert(rest =~= Seq::empty());
        assert(access_content(list.drop_last()) =~= Seq::empty());
        assert(access_content(list) =~= access_entry(list[0]) + access_content(rest));
    } else {
        lemma_access_front(list.drop_last());
        assert(list.drop_last().drop_first() =~= rest.drop_last());
        assert(rest.last() == list.last());
        assert(access_content(list) =~= access_entry(list[0]) + access_content(rest));
    }
}

proof fn lemma_same_access(a: Seq<AccessModel>, x: Seq<u8>, b: Seq<AccessModel>, y: Seq<u8>)
    requires
        a.len() == b.len(),
        forall|i: int| 0 <= i < a.len() ==> access_sized(#[trigger] a[i]),
        forall|i: int| 0 <= i < b.len() ==> access_sized(#[trigger] b[i]),
        access_content(a) + x == access_content(b) + y,
    ensures
        a == b,
        x == y,
    decreases a.len(),
{
    if a.len() == 0 {
        assert(a =~= b);
        lemma_split(access_content(a), x, access_content(b), y);
    } else {
        lemma_access_front(a);
        lemma_access_front(b);
        let (p, q) = (a[0], b[0]);
        assert(access_sized(p) && access_sized(q));
        let (s, t) = (a.drop_first(), b.drop_first());
        let sx = access_content(s) + x;
        let ty = access_content(t) + y;
        let (pk, qk) = (concat(p.keys), concat(q.keys));
        let (pn, qn) = (le_bytes(p.keys.len(), 8), le_bytes(q.keys.len(), 8));
        assert(access_content(a) + x =~= p.address + (pn + (pk + sx)));
        assert(access_content(b) + y =~= q.address + (qn + (qk + ty)));
        lemma_split(p.address, pn + (pk + sx), q.address, qn + (qk + ty));
        lemma_le8(p.keys.len(), q.keys.len());
        lemma_split(pn, pk + sx, qn, qk + ty);
        lemma_words(p.keys);
        lemma_words(q.keys);
        lemma_split(pk, sx, qk, ty);
        lemma_same_words(p.keys, q.keys);
        assert forall|i: int| 0 <= i < s.len() implies access_sized(#[trigger] s[i]) by {
            assert(s[i] == a[i + 1]);
        }
        assert forall|i: int| 0 <= i < t.len() implies access_sized(#[trigger] t[i]) by {
            assert(t[i] == b[i + 1]);
        }
        lemma_same_access(s, x, t, y);
        assert(a =~= seq![p] + s);
        assert(b =~= seq![q] + t);
    }
}

spec fn authorization_entry(a: AuthorizationModel) -> Seq<u8> {
    a.chain_id + a.address + le_bytes(a.nonce as nat, 8) + seq![a.y_parity] + a.r + a.s
}

proof fn lemma_same_entry(a: AuthorizationModel, b: AuthorizationModel)
    requires
        authorization_sized(a),
        authorization_sized(b),
        authorization_entry(a) == authorization_entry(b),
    ensures
        a == b,
{
    let (x, y) = (authorization_entry(a), authorization_entry(b));
    lemma_le8(a.nonce as nat, b.nonce as nat);
    assert(x.subrange(0, 32) =~= a.chain_id);
    assert(y.subrange(0, 32) =~= b.chain_id);
    assert(x.subrange(32, 52) =~= a.address);
    assert(y.subrange(32, 52) =~= b.address);
    assert(x.subrange(52, 60) =~= le_bytes(a.nonce as nat, 8));
    assert(y.subrange(52, 60) =~= le_bytes(b.nonce as nat, 8));
    assert(x[60] == a.y_parity);
    assert(y[60] == b.y_parity);
    assert(x.subrange(61, 93) =~= a.r);
    assert(y.subrange(61, 93) =~= b.r);
    assert(x.subrange(93, 125) =~= a.s);
    assert(y.subrange(93, 125) =~= b.s);
}

proof fn lemma_authorization_len(list: Seq<AuthorizationModel>)
    requires
        forall|i: int| 0 <= i < list.len() ==> authorization_sized(#[trigger] list[i]),
    ensures
        authorization_content(list).len() == 125 * list.len(),
    decreases list.len(),
{
    if list.len() > 0 {
        let t = list.drop_last();
        assert forall|i: int| 0 <= i < t.len() implies authorization_sized(#[trigger] t[i]) by {
            assert(t[i] == list[i]);
        }
        lemma_authorization_len(t);
        assert(authorization_sized(list[list.len() - 1]));
        lemma_le8(list.last().nonce as nat, 0);
    }
}

proof fn lemma_same_authorizations(a: Seq<AuthorizationModel>, b: Seq<AuthorizationModel>)
    requires
        a.len() == b.len(),
        forall|i: int| 0 <= i < a.len() ==> authorization_sized(#[trigger] a[i]),
        forall|i: int| 0 <= i < b.len() ==> authorization_sized(#[trigger] b[i]),
        authorization_content(a) == authorization_content(b),
    ensures
        a == b,
    decreases a.len(),
{
    if a.len() > 0 {
        let (s, t) = (a.drop_last(), b.drop_last());
        assert forall|i: int| 0 <= i < s.len() implies authorization_sized(#[trigger] s[i]) by {
            assert(s[i] == a[i]);
        }
        assert forall|i: int| 0 <= i < t.len() implies authorization_sized(#[trigger] t[i]) by {
            assert(t[i] == b[i]);
        }
        lemma_authorization_len(s);
        lemma_authorization_len(t);
        assert(authorization_sized(a[a.len() - 1]) && authorization_sized(b[b.len() - 1]));
        lemma_split(
            authorization_content(s),
            authorization_entry(a.last()),
            authorization_content(t),
            authorization_entry(b.last()),
        );
        lemma_same_entry(a.last(), b.last());
        lemma_same_authorizations(s, t);
        assert(a =~= s.push(a.last()));
        assert(b =~= t.push(b.last()));
    } else {
        assert(a =~= b);
    }
}

/// A transaction whose parts have the lengths that their types give them.
pub open spec fn tx_sized(tx: TxModel) -> bool {
    &&& tx.nonce.len() == 32
    &&& tx.gas_price.len() == 32
    &&& tx.priority_price.len() == 32
    &&& tx.gas.len() == 32
    &&& tx.value.len() == 32
    &&& tx.action matches Some(a) ==> a.len() == 20
    &&& tx.data.len() <= u64::MAX
    &&& tx.access_list.len() <= u64::MAX
    &&& tx.authorizations.len() <= u64::MAX
    &&& forall|i: int| 0 <= i < tx.access_list.len() ==> access_sized(#[trigger] tx.access_list[i])
    &&& forall|i: int|
        0 <= i < tx.authorizations.len() ==> authorization_sized(#[trigger] tx.authorizations[i])
}

spec fn head(tx: TxModel) -> Seq<u8> {
    seq![kind_byte(tx.kind)] + tx.nonce + tx.gas_price + tx.priority_price + tx.gas
}

spec fn call(tx: TxModel) -> Seq<u8> {
    match tx.action {
        Some(a) => seq![1u8] + a,
        None => seq![0u8],
    }
}

spec fn middle(tx: TxModel) -> Seq<u8> {
    tx.value + le_bytes(tx.storage_limit as nat, 8) + le_bytes(tx.epoch_height as nat, 8)
        + le_bytes(tx.data.len(), 8)
}

proof fn lemma_content(tx: TxModel)
    ensures
        tx_content(tx) == head(tx) + (call(tx) + (middle(tx) + (tx.data + (le_bytes(
            tx.access_list.len(),
            8,
        ) + (access_content(tx.access_list) + (le_bytes(tx.authorizations.len(), 8)
            + authorization_content(tx.authorizations))))))),
{
    reveal(tx_content);
    assert(tx_content(tx) =~= head(tx) + (call(tx) + (middle(tx) + (tx.data + (le_bytes(
        tx.access_list.len(),
        8,
    ) + (access_content(tx.access_list) + (le_bytes(tx.authorizations.len(), 8)
        + authorization_content(tx.authorizations))))))));
}

/// A transaction that was read is known by the digest of its content, and its content tells its
/// type, nonce, price, priority fee, gas, action, value, storage limit, epoch height, data,
/// access list and authorizations: two transactions with the same content have them all in
/// common.
pub proof fn law_tx_content(a: TxModel, b: TxModel)
    requires
        tx_sized(a),
        tx_sized(b),
    ensures
        identified(a).identity == keccak_digest(tx_content(a))@,
        tx_content(a) == tx_content(b) ==> {
            &&& a.kind == b.kind
            &&& a.nonce == b.nonce
            &&& a.gas_price == b.gas_price
            &&& a.priority_price == b.priority_price
            &&& a.gas == b.gas
            &&& a.action == b.action
            &&& a.value == b.value
            &&& a.storage_limit == b.storage_limit
            &&& a.epoch_height == b.epoch_height
            &&& a.data == b.data
            &&& a.access_list == b.access_list
            &&& a.authorizations == b.authorizations
        },
{
    if tx_content(a) == tx_content(b) {
        lemma_content(a);
        lemma_content(b);
        let (an, bn) = (le_bytes(a.access_list.len(), 8), le_bytes(b.access_list.len(), 8));
        let (am, bm) = (le_bytes(a.authorizations.len(), 8), le_bytes(b.authorizations.len(), 8));
        let a6 = am + authorization_content(a.authorizations);
        let b6 = bm + authorization_content(b.authorizations);
        let a5 = access_content(a.access_list) + a6;
        let b5 = access_content(b.access_list) + b6;
        let (a4, b4) = (an + a5, bn + b5);
        let (a3, b3) = (a.data + a4, b.data + b4);
        let (a2, b2) = (middle(a) + a3, middle(b) + b3);
        let (a1, b1) = (call(a) + a2, call(b) + b2);
        lemma_split(head(a), a1, head(b), b1);
        lemma_head(a, b);
        assert(a1[0] == call(a)[0] && b1[0] == call(b)[0]);
        lemma_split(call(a), a2, call(b), b2);
        lemma_call(a, b);
        lemma_le8(a.storage_limit as nat, b.storage_limit as nat);
        lemma_le8(a.epoch_height as nat, b.epoch_height as nat);
        lemma_le8(a.data.len(), b.data.len());
        lemma_split(middle(a), a3, middle(b), b3);
        lemma_middle(a, b);
        lemma_split(a.data, a4, b.data, b4);
        lemma_le8(a.access_list.len(), b.access_list.len());
        lemma_split(an, a5, bn, b5);
        lemma_same_access(a.access_list, a6, b.access_list, b6);
        lemma_le8(a.authorizations.len(), b.authorizations.len());
        lemma_split(
            am,
            authorization_content(a.authorizations),
            bm,
            authorization_content(b.authorizations),
        );
        lemma_same_authorizations(a.authorizations, b.authorizations);
    }
}

proof fn lemma_head(a: TxModel, b: TxModel)
    requires
        tx_sized(a),
        tx_sized(b),
        head(a) == head(b),
    ensures
        a.kind == b.kind,
        a.nonce == b.nonce,
        a.gas_price == b.gas_price,
        a.priority_price == b.priority_price,
        a.gas == b.gas,
{
    let (x, y) = (head(a), head(b));
    assert(x[0] == kind_byte(a.kind) && y[0] == kind_byte(b.kind));
    assert(x.subrange(1, 33) =~= a.nonce);
    assert(y.subrange(1, 33) =~= b.nonce);
    assert(x.subrange(33, 65) =~= a.gas_price);
    assert(y.subrange(33, 65) =~= b.gas_price);
    assert(x.subrange(65, 97) =~= a.priority_price);
    assert(y.subrange(65, 97) =~= b.priority_price);
    assert(x.subrange(97, 129) =~= a.gas);
    assert(y.subrange(97, 129) =~= b.gas);
}

proof fn lemma_call(a: TxModel, b: TxModel)
    requires
        call(a) == call(b),
    ensures
        a.action == b.action,
{
    assert(call(a)[0] == (if a.action is Some {
        1u8
    } else {
        0u8
    }));
    assert(call(b)[0] == (if b.action is Some {
        1u8
    } else {
        0u8
    }));
    if a.action is Some {
        assert(call(a).skip(1) =~= a.action->0);
        assert(call(b).skip(1) =~= b.action->0);
    }
}

proof fn lemma_middle(a: TxModel, b: TxModel)
    requires
        tx_sized(a),
        tx_sized(b),
        middle(a) == middle(b),
    ensures
        a.value == b.value,
        a.storage_limit == b.storage_limit,
        a.epoch_height == b.epoch_height,
        a.data.len() == b.data.len(),
{
    lemma_le8(a.storage_limit as nat, b.storage_limit as nat);
    lemma_le8(a.epoch_height as nat, b.epoch_height as nat);
    lemma_le8(a.data.len(), b.data.len());
    let (x, y) = (middle(a), middle(b));
    assert(x.subrange(0, 32) =~= a.value);
    assert(y.subrange(0, 32) =~= b.value);
    assert(x.subrange(32, 40) =~= le_bytes(a.storage_limit as nat, 8));
    assert(y.subrange(32, 40) =~= le_bytes(b.storage_limit as nat, 8));
    assert(x.subrange(40, 48) =~= le_bytes(a.epoch_height as nat, 8));
    assert(y.subrange(40, 48) =~= le_bytes(b.epoch_height as nat, 8));
    assert(x.subrange(48, 56) =~= le_bytes(a.data.len(), 8));
    assert(y.subrange(48, 56) =~= le_bytes(b.data.len(), 8));
}

} // verus!
