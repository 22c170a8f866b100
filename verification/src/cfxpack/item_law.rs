//! The items of a payload, field by field.
use crate::cfxpack::code_law::law_join;
use crate::cfxpack::codec::zigzag;
use crate::cfxpack::encode::{payload, payload_items, repeated, reward_items, tx_items, unlock_items};
use crate::cfxpack::error::PackError;
use crate::cfxpack::packet::{AccessModel, AuthorizationModel, BlockModel, PacketModel, RewardAccountModel, RewardModel, TxKind, TxModel, UnlockModel};
use crate::cfxpack::rlp_form::{join, rlp_list, rlp_num, rlp_str};
use crate::cfxpack::table::last_index;
use crate::cfxpack::txform::{access_items, access_list_item, action_fields, authorization_fields, authorization_items, authorization_list_item, base_of, difference, price_fields, priority_of, ref_fields, reward_account_items, reward_item, str_items, stripped, tx_fields, tx_item, tx_parts, unlock_fields, written_nonce};
use crate::cfxpack::types::{be_value, lemma_be_value_bound, lemma_pow256};
use vstd::prelude::*;

verus! {

/// A place that is the last of a value in a table.
pub open spec fn last_place(table: Seq<Seq<u8>>, v: Seq<u8>, i: int) -> bool {
    &&& 0 <= i < table.len()
    &&& table[i] == v
    &&& forall|j: int| i < j < table.len() ==> #[trigger] table[j] != v
}

proof fn lemma_last_place(table: Seq<Seq<u8>>, v: Seq<u8>, i: int)
    requires
        last_place(table, v, i),
    ensures
        last_index(table, v) == Some(i as nat),
    decreases table.len(),
{
    if i < table.len() - 1 {
        assert(table[table.len() - 1] != v);
        let front = table.drop_last();
        assert forall|j: int| i < j < front.len() implies #[trigger] front[j] != v by {
            assert(front[j] == table[j]);
        }
        lemma_last_place(front, v, i);
    }
}

proof fn lemma_no_place(table: Seq<Seq<u8>>, v: Seq<u8>)
    requires
        !table.contains(v),
    ensures
        last_index(table, v) is None,
{
    crate::cfxpack::table::lemma_last_index(table, v);
    if let Some(i) = last_index(table, v) {
        assert(table[i as int] == v);
    }
}

proof fn lemma_base(bases: Seq<(nat, u64)>, sender: nat, m: int)
    requires
        0 <= m < bases.len(),
        bases[m].0 == sender,
        forall|j: int| m < j < bases.len() ==> (#[trigger] bases[j]).0 != sender,
    ensures
        base_of(bases, sender) == Some(bases[m].1),
    decreases bases.len(),
{
    if m < bases.len() - 1 {
        assert(bases[bases.len() - 1].0 != sender);
        let front = bases.drop_last();
        assert forall|j: int| m < j < front.len() implies (#[trigger] front[j]).0 != sender by {
            assert(front[j] == bases[j]);
        }
        lemma_base(front, sender, m);
    }
}

proof fn lemma_no_base(bases: Seq<(nat, u64)>, sender: nat)
    requires
        forall|j: int| 0 <= j < bases.len() ==> (#[trigger] bases[j]).0 != sender,
    ensures
        base_of(bases, sender) is None,
    decreases bases.len(),
{
    if bases.len() > 0 {
        assert(bases[bases.len() - 1].0 != sender);
        let front = bases.drop_last();
        assert forall|j: int| 0 <= j < front.len() implies (#[trigger] front[j]).0 != sender by {
            assert(front[j] == bases[j]);
        }
        lemma_no_base(front, sender);
    }
}

/// A price is written as zero and its last place in the price table, or as one and itself.
pub proof fn law_price_fields(v: Seq<u8>, table: Seq<Seq<u8>>, i: int)
    ensures
        last_place(table, v, i) ==> price_fields(v, table) == seq![
            rlp_num(0),
            rlp_num(i as nat),
        ],
        !table.contains(v) ==> price_fields(v, table) == seq![rlp_num(1), rlp_str(v)],
{
    if last_place(table, v, i) {
        lemma_last_place(table, v, i);
    }
    if !table.contains(v) {
        lemma_no_place(table, v);
    }
}

/// A creation is written as zero, and a call as one and the last place of the address.
pub proof fn law_action_fields(to: Seq<u8>, table: Seq<Seq<u8>>, i: int)
    ensures
        action_fields(None, table) == Some(seq![rlp_num(0)]),
        last_place(table, to, i) ==> action_fields(Some(to), table) == Some(
            seq![rlp_num(1), rlp_num(i as nat)],
        ),
        !table.contains(to) ==> action_fields(Some(to), table) is None,
{
    if last_place(table, to, i) {
        lemma_last_place(table, to, i);
    }
    if !table.contains(to) {
        lemma_no_place(table, to);
    }
}

/// What a nonce has above the last base nonce of its sender is written, and all of it where the
/// sender has none.
pub proof fn law_nonce_field(bases: Seq<(nat, u64)>, sender: nat, nonce: u64, m: int)
    ensures
        (forall|j: int| 0 <= j < bases.len() ==> (#[trigger] bases[j]).0 != sender)
            ==> written_nonce(bases, sender, nonce) == nonce,
        0 <= m < bases.len() && bases[m].0 == sender && (forall|j: int|
            m < j < bases.len() ==> (#[trigger] bases[j]).0 != sender) ==> {
            &&& nonce >= bases[m].1 ==> written_nonce(bases, sender, nonce) + bases[m].1 == nonce
            &&& nonce < bases[m].1 ==> written_nonce(bases, sender, nonce) == 0
        },
{
    if forall|j: int| 0 <= j < bases.len() ==> (#[trigger] bases[j]).0 != sender {
        lemma_no_base(bases, sender);
    }
    if 0 <= m < bases.len() && bases[m].0 == sender && (forall|j: int|
        m < j < bases.len() ==> (#[trigger] bases[j]).0 != sender) {
        lemma_base(bases, sender, m);
    }
}

/// The epoch height of a transaction is written as its distance from the epoch of the block:
/// twice the distance where it lies ahead, one less where it lies behind.
pub proof fn law_epoch_field(height: u64, epoch: u64)
    ensures
        height >= epoch && height - epoch < 0x8000_0000_0000_0000 ==> zigzag(
            difference(height, epoch),
        ) == 2 * (height - epoch),
        height < epoch && epoch - height <= 0x8000_0000_0000_0000 ==> zigzag(
            difference(height, epoch),
        ) == 2 * (epoch - height) - 1,
{
}

/// A transaction is written as a list: its space (0 native, 2 eSpace), its type, the place of
/// its sender, its nonce, price and priority fee, gas, action and value; in the native space its
/// storage limit and epoch height; then its data, and the lists that its type has.
pub proof fn law_tx_item(p: PacketModel, epoch: u64, tx: TxModel, sender: int)
    requires
        tx_item(p, epoch, tx) is Ok,
        last_place(p.addresses, tx.sender, sender),
        tx.nonce.len() == 32,
        tx.gas.len() == 32,
    ensures
        ({
            let (space, number) = match tx.kind {
                TxKind::Cip155 => (0nat, 0nat),
                TxKind::Cip2930 => (0, 1),
                TxKind::Cip1559 => (0, 2),
                TxKind::Eip155 => (2, 0),
                TxKind::Eip2930 => (2, 1),
                TxKind::Eip1559 => (2, 2),
                TxKind::Eip7702 => (2, 4),
            };
            let priority = match tx.kind {
                TxKind::Cip1559 => tx.priority_price,
                TxKind::Eip1559 => tx.priority_price,
                TxKind::Eip7702 => tx.priority_price,
                _ => tx.gas_price,
            };
            let nonce = be_value(tx.nonce.skip(24)) as u64;
            let common = seq![
                rlp_num(space),
                rlp_num(number),
                rlp_num(sender as nat),
                rlp_num(written_nonce(p.base_nonces, sender as nat, nonce) as nat),
                rlp_list(price_fields(tx.gas_price, p.gas_prices).flatten()),
                rlp_list(price_fields(priority, p.gas_prices).flatten()),
                rlp_num(be_value(tx.gas.skip(24))),
                rlp_list(action_fields(tx.action, p.addresses)->0.flatten()),
                rlp_str(tx.value),
            ];
            let native = if space == 0 {
                seq![
                    rlp_num(tx.storage_limit as nat),
                    rlp_num(zigzag(difference(tx.epoch_height, epoch)) as nat),
                ]
            } else {
                Seq::empty()
            };
            let lists = match tx.kind {
                TxKind::Cip155 => Seq::empty(),
                TxKind::Eip155 => Seq::empty(),
                TxKind::Eip7702 => seq![
                    access_list_item(tx.access_list)->Ok_0,
                    authorization_list_item(tx.authorizations)->Ok_0,
                ],
                _ => seq![access_list_item(tx.access_list)->Ok_0],
            };
            tx_item(p, epoch, tx)->Ok_0 == rlp_list(
                (common + native + seq![rlp_str(tx.data)] + lists).flatten(),
            )
        }),
{
    lemma_last_place(p.addresses, tx.sender, sender);
    lemma_be_value_bound(tx.gas.skip(24));
    lemma_be_value_bound(tx.nonce.skip(24));
    lemma_pow256();
    let t = tx_parts(p, tx)->Ok_0;
    law_join(tx_fields(p, epoch, tx, t));
    law_join(price_fields(tx.gas_price, p.gas_prices));
    law_join(price_fields(priority_of(tx), p.gas_prices));
    law_join(action_fields(tx.action, p.addresses)->0);
}

/// A repeated transaction is written as one, the block and the place of the earlier one; an
/// unlocking as four, its identifier and its amount.
pub proof fn law_small_fields(block: nat, place: nat, u: UnlockModel)
    ensures
        ref_fields(block, place) == seq![rlp_num(1), rlp_num(block), rlp_num(place)],
        unlock_fields(u) == seq![rlp_num(4), rlp_str(u.identifier), rlp_num(u.unlocked as nat)],
{
}

/// A distribution is written as three, the list of the shares, and the hash of its epoch. Each
/// share is a list of the address, the identifier and the reward.
pub proof fn law_reward_item(r: RewardModel)
    requires
        reward_item(r) is Ok,
    ensures
        reward_item(r)->Ok_0 == rlp_list(
            rlp_num(3) + rlp_list(
                r.accounts.map_values(
                    |a: RewardAccountModel|
                        rlp_list(rlp_str(a.address) + rlp_str(a.identifier) + rlp_str(a.reward)),
                ).flatten(),
            ) + rlp_str(r.epoch_hash),
        ),
{
    let n = r.accounts.len() as int;
    lemma_reward_accounts(r.accounts, n);
    let items = reward_account_items(r.accounts, n)->Ok_0;
    assert(r.accounts.take(n) =~= r.accounts);
    law_join(items);
    lemma_three(rlp_num(3), rlp_list(join(items)), rlp_str(r.epoch_hash));
}

proof fn lemma_three(a: Seq<u8>, b: Seq<u8>, c: Seq<u8>)
    ensures
        join(seq![a, b, c]) == a + b + c,
{
    let s = seq![a, b, c];
    assert(s.drop_first() =~= seq![b, c]);
    assert(s.drop_first().drop_first() =~= seq![c]);
    assert(s.drop_first().drop_first().drop_first() =~= Seq::empty());
    reveal_with_fuel(join, 4);
    assert(join(s) =~= a + b + c);
}

proof fn lemma_reward_accounts(list: Seq<RewardAccountModel>, n: int)
    requires
        0 <= n <= list.len(),
        reward_account_items(list, n) is Ok,
    ensures
        reward_account_items(list, n)->Ok_0 == list.take(n).map_values(
            |a: RewardAccountModel|
                rlp_list(rlp_str(a.address) + rlp_str(a.identifier) + rlp_str(a.reward)),
        ),
    decreases n,
{
    let f = |a: RewardAccountModel|
        rlp_list(rlp_str(a.address) + rlp_str(a.identifier) + rlp_str(a.reward));
    if n > 0 {
        lemma_reward_accounts(list, n - 1);
        let a = list[n - 1];
        lemma_three(rlp_str(a.address), rlp_str(a.identifier), rlp_str(a.reward));
        assert(list.take(n).map_values(f) =~= list.take(n - 1).map_values(f).push(f(a)));
    } else {
        assert(list.take(n).map_values(f) =~= Seq::empty());
    }
}

/// An access list is written as a list of pairs: the address, and the list of its keys.
pub proof fn law_access_list(list: Seq<AccessModel>)
    requires
        access_list_item(list) is Ok,
    ensures
        access_list_item(list)->Ok_0 == rlp_list(
            list.map_values(
                |a: AccessModel|
                    rlp_list(
                        rlp_str(a.address) + rlp_list(
                            a.keys.map_values(|k: Seq<u8>| rlp_str(k)).flatten(),
                        ),
                    ),
            ).flatten(),
        ),
{
    let n = list.len() as int;
    lemma_access(list, n);
    assert(list.take(n) =~= list);
    law_join(access_items(list, n)->Ok_0);
}

proof fn lemma_access(list: Seq<AccessModel>, n: int)
    requires
        0 <= n <= list.len(),
        access_items(list, n) is Ok,
    ensures
        access_items(list, n)->Ok_0 == list.take(n).map_values(
            |a: AccessModel|
                rlp_list(
                    rlp_str(a.address) + rlp_list(
                        a.keys.map_values(|k: Seq<u8>| rlp_str(k)).flatten(),
                    ),
                ),
        ),
    decreases n,
{
    let f = |a: AccessModel|
        rlp_list(
            rlp_str(a.address) + rlp_list(a.keys.map_values(|k: Seq<u8>| rlp_str(k)).flatten()),
        );
    if n > 0 {
        lemma_access(list, n - 1);
        let a = list[n - 1];
        assert(str_items(a.keys) =~= a.keys.map_values(|k: Seq<u8>| rlp_str(k)));
        law_join(str_items(a.keys));
        let keys = rlp_list(join(str_items(a.keys)));
        let pair = seq![rlp_str(a.address), keys];
        assert(pair.drop_first() =~= seq![keys]);
        assert(pair.drop_first().drop_first() =~= Seq::empty());
        reveal_with_fuel(join, 3);
        assert(join(pair) =~= rlp_str(a.address) + keys);
        assert(list.take(n).map_values(f) =~= list.take(n - 1).map_values(f).push(f(a)));
    } else {
        assert(list.take(n).map_values(f) =~= Seq::empty());
    }
}

/// An authorization list is written as a list of lists: chain, address, nonce, parity, and the
/// two words of the signature. Words are written without leading zeros.
pub proof fn law_authorization_list(list: Seq<AuthorizationModel>)
    requires
        authorization_list_item(list) is Ok,
    ensures
        authorization_list_item(list)->Ok_0 == rlp_list(
            list.map_values(
                |a: AuthorizationModel|
                    rlp_list(
                        seq![
                            rlp_str(stripped(a.chain_id)),
                            rlp_str(a.address),
                            rlp_num(a.nonce as nat),
                            rlp_num(a.y_parity as nat),
                            rlp_str(stripped(a.r)),
                            rlp_str(stripped(a.s)),
                        ].flatten(),
                    ),
            ).flatten(),
        ),
{
    let n = list.len() as int;
    lemma_authorizations(list, n);
    assert(list.take(n) =~= list);
    law_join(authorization_items(list, n)->Ok_0);
}

proof fn lemma_authorizations(list: Seq<AuthorizationModel>, n: int)
    requires
        0 <= n <= list.len(),
        authorization_items(list, n) is Ok,
    ensures
        authorization_items(list, n)->Ok_0 == list.take(n).map_values(
            |a: AuthorizationModel|
                rlp_list(
                    seq![
                        rlp_str(stripped(a.chain_id)),
                        rlp_str(a.address),
                        rlp_num(a.nonce as nat),
                        rlp_num(a.y_parity as nat),
                        rlp_str(stripped(a.r)),
                        rlp_str(stripped(a.s)),
                    ].flatten(),
                ),
        ),
    decreases n,
{
    let f = |a: AuthorizationModel|
        rlp_list(
            seq![
                rlp_str(stripped(a.chain_id)),
                rlp_str(a.address),
                rlp_num(a.nonce as nat),
                rlp_num(a.y_parity as nat),
                rlp_str(stripped(a.r)),
                rlp_str(stripped(a.s)),
            ].flatten(),
        );
    if n > 0 {
        lemma_authorizations(list, n - 1);
        let a = list[n - 1];
        law_join(authorization_fields(a));
        assert(list.take(n).map_values(f) =~= list.take(n - 1).map_values(f).push(f(a)));
    } else {
        assert(list.take(n).map_values(f) =~= Seq::empty());
    }
}

/// A word without leading zeros is the end of the word behind the zeros.
pub proof fn law_stripped(w: Seq<u8>)
    ensures
        ({
            let s = stripped(w);
            let z = w.len() - s.len();
            &&& 0 <= z
            &&& s == w.skip(z)
            &&& forall|i: int| 0 <= i < z ==> #[trigger] w[i] == 0
            &&& s.len() > 0 ==> s[0] > 0
        }),
    decreases w.len(),
{
    if w.len() == 0 || w[0] != 0 {
        assert(w.skip(0) =~= w);
    } else {
        let t = w.drop_first();
        law_stripped(t);
        let z = t.len() - stripped(t).len();
        assert(t.skip(z) =~= w.skip(z + 1));
        assert forall|i: int| 0 <= i < z + 1 implies #[trigger] w[i] == 0 by {
            if i > 0 {
                assert(t[i - 1] == w[i]);
            }
        }
    }
}

/// A payload is the list of the transactions, then the distributions, then the unlockings of a
/// block. A transaction that the block gives a place for, or, where it gives none, whose
/// identity was seen before, is written as a reference; the others as they are.
pub proof fn law_payload(
    p: PacketModel,
    b: BlockModel,
    seen: Map<Seq<u8>, (nat, nat)>,
    i: int,
)
    requires
        payload(p, b, seen) is Ok,
    ensures
        ({
            let items = payload_items(p, b, seen)->Ok_0.0;
            let s = payload(p, b, seen)->Ok_0.0;
            let t = b.txs.len() as int;
            let r = b.rewards.len() as int;
            &&& items.len() == b.txs.len() + b.rewards.len() + b.unlocks.len()
            &&& items.len() == 0 ==> s.len() == 0
            &&& items.len() > 0 ==> s == rlp_list(items.flatten())
            &&& 0 <= i < b.txs.len() ==> {
                let known = tx_items(p, b, seen, i)->Ok_0.1;
                let place = if b.refs.len() == b.txs.len() {
                    b.refs[i]
                } else if known.contains_key(b.txs[i].identity) {
                    Some(known[b.txs[i].identity])
                } else {
                    None
                };
                match place {
                    Some((block, at)) => items[i] == rlp_list(
                        seq![rlp_num(1), rlp_num(block), rlp_num(at)].flatten(),
                    ),
                    None => tx_item(p, b.epoch, b.txs[i]) == Ok::<Seq<u8>, PackError>(items[i]),
                }
            }
            &&& 0 <= i < b.rewards.len() ==> reward_item(b.rewards[i]) == Ok::<Seq<u8>, PackError>(
                items[t + i],
            )
            &&& 0 <= i < b.unlocks.len() ==> items[t + r + i] == rlp_list(
                seq![
                    rlp_num(4),
                    rlp_str(b.unlocks[i].identifier),
                    rlp_num(b.unlocks[i].unlocked as nat),
                ].flatten(),
            )
        }),
{
    let items = payload_items(p, b, seen)->Ok_0.0;
    law_join(items);
    lemma_tx_list(p, b, seen, b.txs.len() as int, i);
    lemma_reward_list(b.rewards, b.rewards.len() as int, i);
    lemma_unlock_list(b.unlocks, b.unlocks.len() as int, i);
}

proof fn lemma_tx_list(
    p: PacketModel,
    b: BlockModel,
    seen: Map<Seq<u8>, (nat, nat)>,
    n: int,
    i: int,
)
    requires
        0 <= n,
        tx_items(p, b, seen, n) is Ok,
    ensures
        tx_items(p, b, seen, n)->Ok_0.0.len() == n,
        0 <= i < n ==> match repeated(b, i, tx_items(p, b, seen, i)->Ok_0.1) {
            Some((block, at)) => tx_items(p, b, seen, n)->Ok_0.0[i] == rlp_list(
                seq![rlp_num(1), rlp_num(block), rlp_num(at)].flatten(),
            ),
            None => tx_item(p, b.epoch, b.txs[i]) == Ok::<Seq<u8>, PackError>(
                tx_items(p, b, seen, n)->Ok_0.0[i],
            ),
        },
    decreases n,
{
    if n > 0 {
        lemma_tx_list(p, b, seen, n - 1, i);
        if i == n - 1 {
            match repeated(b, i, tx_items(p, b, seen, i)->Ok_0.1) {
                Some((block, at)) => {
                    law_join(ref_fields(block, at));
                },
                None => {},
            }
        }
    }
}

proof fn lemma_reward_list(list: Seq<RewardModel>, n: int, i: int)
    requires
        0 <= n <= list.len(),
        reward_items(list, n) is Ok,
    ensures
        reward_items(list, n)->Ok_0.len() == n,
        0 <= i < n ==> reward_item(list[i]) == Ok::<Seq<u8>, PackError>(
            reward_items(list, n)->Ok_0[i],
        ),
    decreases n,
{
    if n > 0 {
        lemma_reward_list(list, n - 1, i);
    }
}

proof fn lemma_unlock_list(list: Seq<UnlockModel>, n: int, i: int)
    requires
        0 <= n <= list.len(),
        unlock_items(list, n) is Ok,
    ensures
        unlock_items(list, n)->Ok_0.len() == n,
        0 <= i < n ==> unlock_items(list, n)->Ok_0[i] == rlp_list(
            seq![
                rlp_num(4),
                rlp_str(list[i].identifier),
                rlp_num(list[i].unlocked as nat),
            ].flatten(),
        ),
    decreases n,
{
    if n > 0 {
        lemma_unlock_list(list, n - 1, i);
        law_join(unlock_fields(list[n - 1]));
    }
}

} // verus!
