//! What the flags of a block and the tables of a packet hold of the blocks.
use crate::cfxpack::codec::uleb;
use crate::cfxpack::packet::{TxKind, TxModel};
use crate::cfxpack::table::last_index;
use crate::cfxpack::types::be_value;
use crate::extract::blocks::{flags_of, law_least, least, CommittedBlock, ExtractError, HeaderModel, RawModel};
use crate::extract::frequency::{distinct, is_ranking, lemma_distinct, occurrences, ranking, ranks_before, turn_of};
use crate::extract::tables::{base_table, frequent, listed, parties, pos_lookup, price_table, prices, saving, sender_nonces, tx_nonces, tx_parties, tx_prices};
use vstd::prelude::*;

verus! {

/// The flags of a block, bit by bit. From the lowest: the header is adaptive; the block is the
/// pivot; it is a pivot at a multiple of the ratio; two bits that say how transactions are
/// stored, unset; its execution was skipped; its total reward is zero; an unused bit, unset.
pub proof fn law_block_flags(
    ratio: u64,
    header: HeaderModel,
    total_reward: Seq<u8>,
    pivot: bool,
    skipped: bool,
)
    requires
        ratio > 0,
        total_reward.len() == 32,
    ensures
        ({
            let flags = flags_of(ratio, header, total_reward, pivot, skipped) as int;
            &&& flags % 2 == 1 <==> header.adaptive
            &&& (flags / 2) % 2 == 1 <==> pivot
            &&& (flags / 4) % 2 == 1 <==> pivot && header.height as int % ratio as int == 0
            &&& (flags / 8) % 4 == 0
            &&& (flags / 32) % 2 == 1 <==> skipped
            &&& (flags / 64) % 2 == 1 <==> forall|i: int|
                0 <= i < 32 ==> #[trigger] total_reward[i] == 0
            &&& flags < 128
        }),
{
    let zero = Seq::new(32, |i: int| 0u8);
    assert(total_reward == zero <==> forall|i: int|
        0 <= i < 32 ==> #[trigger] total_reward[i] == 0) by {
        if forall|i: int| 0 <= i < 32 ==> #[trigger] total_reward[i] == 0 {
            assert(total_reward =~= zero);
        } else {
            assert(total_reward == zero ==> forall|i: int|
                0 <= i < 32 ==> #[trigger] total_reward[i] == 0);
        }
    }
}

proof fn lemma_flatten_last<A>(s: Seq<Seq<A>>)
    requires
        s.len() > 0,
    ensures
        s.flatten() == s.drop_last().flatten() + s.last(),
{
    s.lemma_flatten_and_flatten_alt_are_equivalent();
    s.drop_last().lemma_flatten_and_flatten_alt_are_equivalent();
}

/// A transaction names its sender, then the address that it calls, if any.
proof fn lemma_tx_parties(txs: Seq<TxModel>, n: int)
    requires
        0 <= n <= txs.len(),
    ensures
        tx_parties(txs, n) == txs.take(n).map_values(
            |t: TxModel|
                match t.action {
                    Some(a) => seq![t.sender, a],
                    None => seq![t.sender],
                },
        ).flatten(),
    decreases n,
{
    let f = |t: TxModel|
        match t.action {
            Some(a) => seq![t.sender, a],
            None => seq![t.sender],
        };
    let lists = txs.take(n).map_values(f);
    if n > 0 {
        lemma_tx_parties(txs, n - 1);
        lemma_flatten_last(lists);
        assert(lists.drop_last() =~= txs.take(n - 1).map_values(f));
        assert(lists.last() == f(txs[n - 1]));
        assert(tx_parties(txs, n) =~= tx_parties(txs, n - 1) + f(txs[n - 1]));
    } else {
        assert(lists.len() == 0);
    }
}

/// The addresses that are counted for a packet: of each block its author, then for each of its
/// transactions the sender and the address that it calls, if any.
pub proof fn law_parties(blocks: Seq<RawModel>)
    ensures
        parties(blocks, blocks.len() as int) == blocks.map_values(
            |b: RawModel|
                seq![b.header.author] + b.txs.map_values(
                    |t: TxModel|
                        match t.action {
                            Some(a) => seq![t.sender, a],
                            None => seq![t.sender],
                        },
                ).flatten(),
        ).flatten(),
{
    lemma_parties(blocks, blocks.len() as int);
    assert(blocks.take(blocks.len() as int) =~= blocks);
}

proof fn lemma_parties(blocks: Seq<RawModel>, n: int)
    requires
        0 <= n <= blocks.len(),
    ensures
        parties(blocks, n) == blocks.take(n).map_values(
            |b: RawModel|
                seq![b.header.author] + b.txs.map_values(
                    |t: TxModel|
                        match t.action {
                            Some(a) => seq![t.sender, a],
                            None => seq![t.sender],
                        },
                ).flatten(),
        ).flatten(),
    decreases n,
{
    let f = |b: RawModel|
        seq![b.header.author] + b.txs.map_values(
            |t: TxModel|
                match t.action {
                    Some(a) => seq![t.sender, a],
                    None => seq![t.sender],
                },
        ).flatten();
    let lists = blocks.take(n).map_values(f);
    if n > 0 {
        lemma_parties(blocks, n - 1);
        lemma_flatten_last(lists);
        assert(lists.drop_last() =~= blocks.take(n - 1).map_values(f));
        let b = blocks[n - 1];
        lemma_tx_parties(b.txs, b.txs.len() as int);
        assert(b.txs.take(b.txs.len() as int) =~= b.txs);
        assert(lists.last() == f(b));
        assert(parties(blocks, n) =~= parties(blocks, n - 1) + f(b));
    } else {
        assert(lists.len() == 0);
    }
}

/// A transaction names its price, then its priority fee, which is its price for the types
/// that have none of their own.
proof fn lemma_tx_prices(txs: Seq<TxModel>, n: int)
    requires
        0 <= n <= txs.len(),
    ensures
        tx_prices(txs, n) == txs.take(n).map_values(
            |t: TxModel|
                match t.kind {
                    TxKind::Cip1559 => seq![t.gas_price, t.priority_price],
                    TxKind::Eip1559 => seq![t.gas_price, t.priority_price],
                    TxKind::Eip7702 => seq![t.gas_price, t.priority_price],
                    _ => seq![t.gas_price, t.gas_price],
                },
        ).flatten(),
    decreases n,
{
    let f = |t: TxModel|
        match t.kind {
            TxKind::Cip1559 => seq![t.gas_price, t.priority_price],
            TxKind::Eip1559 => seq![t.gas_price, t.priority_price],
            TxKind::Eip7702 => seq![t.gas_price, t.priority_price],
            _ => seq![t.gas_price, t.gas_price],
        };
    let lists = txs.take(n).map_values(f);
    if n > 0 {
        lemma_tx_prices(txs, n - 1);
        lemma_flatten_last(lists);
        assert(lists.drop_last() =~= txs.take(n - 1).map_values(f));
        assert(lists.last() == f(txs[n - 1]));
        assert(tx_prices(txs, n) =~= tx_prices(txs, n - 1) + f(txs[n - 1]));
    } else {
        assert(lists.len() == 0);
    }
}

/// The prices that are counted for a packet: of each block its two base prices, if it has them,
/// then for each of its transactions the price and the priority fee, for which the price stands
/// in the types that have none of their own.
pub proof fn law_prices(blocks: Seq<RawModel>)
    ensures
        prices(blocks, blocks.len() as int) == blocks.map_values(
            |b: RawModel|
                (match b.header.base_price {
                    Some((core, espace)) => seq![core, espace],
                    None => Seq::empty(),
                }) + b.txs.map_values(
                    |t: TxModel|
                        match t.kind {
                            TxKind::Cip1559 => seq![t.gas_price, t.priority_price],
                            TxKind::Eip1559 => seq![t.gas_price, t.priority_price],
                            TxKind::Eip7702 => seq![t.gas_price, t.priority_price],
                            _ => seq![t.gas_price, t.gas_price],
                        },
                ).flatten(),
        ).flatten(),
{
    lemma_prices(blocks, blocks.len() as int);
    assert(blocks.take(blocks.len() as int) =~= blocks);
}

proof fn lemma_prices(blocks: Seq<RawModel>, n: int)
    requires
        0 <= n <= blocks.len(),
    ensures
        prices(blocks, n) == blocks.take(n).map_values(
            |b: RawModel|
                (match b.header.base_price {
                    Some((core, espace)) => seq![core, espace],
                    None => Seq::empty(),
                }) + b.txs.map_values(
                    |t: TxModel|
                        match t.kind {
                            TxKind::Cip1559 => seq![t.gas_price, t.priority_price],
                            TxKind::Eip1559 => seq![t.gas_price, t.priority_price],
                            TxKind::Eip7702 => seq![t.gas_price, t.priority_price],
                            _ => seq![t.gas_price, t.gas_price],
                        },
                ).flatten(),
        ).flatten(),
    decreases n,
{
    let f = |b: RawModel|
        (match b.header.base_price {
            Some((core, espace)) => seq![core, espace],
            None => Seq::empty(),
        }) + b.txs.map_values(
            |t: TxModel|
                match t.kind {
                    TxKind::Cip1559 => seq![t.gas_price, t.priority_price],
                    TxKind::Eip1559 => seq![t.gas_price, t.priority_price],
                    TxKind::Eip7702 => seq![t.gas_price, t.priority_price],
                    _ => seq![t.gas_price, t.gas_price],
                },
        ).flatten();
    let lists = blocks.take(n).map_values(f);
    if n > 0 {
        lemma_prices(blocks, n - 1);
        lemma_flatten_last(lists);
        assert(lists.drop_last() =~= blocks.take(n - 1).map_values(f));
        let b = blocks[n - 1];
        lemma_tx_prices(b.txs, b.txs.len() as int);
        assert(b.txs.take(b.txs.len() as int) =~= b.txs);
        assert(lists.last() == f(b));
        assert(prices(blocks, n) =~= prices(blocks, n - 1) + f(b));
    } else {
        assert(lists.len() == 0);
    }
}

/// How often a value occurs is how many of the values equal it.
pub proof fn law_occurrences(xs: Seq<Seq<u8>>, v: Seq<u8>)
    ensures
        occurrences(xs, v) == how_often(xs, v),
    decreases xs.len(),
{
    reveal(Seq::filter);
    if xs.len() > 0 {
        law_occurrences(xs.drop_last(), v);
    }
}

/// The different values are those that occur, each once, in the order in which they first
/// occur.
pub proof fn law_distinct(xs: Seq<Seq<u8>>)
    ensures
        forall|v: Seq<u8>| #[trigger] distinct(xs).contains(v) <==> xs.contains(v),
        distinct(xs).no_duplicates(),
        forall|i: int, j: int|
            #![trigger distinct(xs)[i], distinct(xs)[j]]
            0 <= i < j < distinct(xs).len() ==> sooner(xs, distinct(xs)[i], distinct(xs)[j]),
    decreases xs.len(),
{
    lemma_distinct(xs);
    assert forall|v: Seq<u8>| #[trigger] distinct(xs).contains(v) <==> xs.contains(v) by {
        if xs.contains(v) {
            let k = choose|k: int| 0 <= k < xs.len() && xs[k] == v;
            assert(distinct(xs).contains(xs[k]));
        }
    }
    if xs.len() > 0 {
        let front = xs.drop_last();
        law_distinct(front);
        let done = distinct(front);
        let all = distinct(xs);
        assert forall|i: int, j: int|
            #![trigger all[i], all[j]]
            0 <= i < j < all.len() implies sooner(xs, all[i], all[j]) by {
            assert(all[i] == done[i]);
            if j < done.len() {
                assert(all[j] == done[j]);
                assert(sooner(front, done[i], done[j]));
                let a = choose|a: int| #[trigger]
                    first_at(front, a, done[i]) && !front.take(a).contains(done[j]);
                assert(front.take(a) =~= xs.take(a));
                assert(first_at(xs, a, all[i]));
            } else {
                assert(done.contains(done[i]));
                assert(front.contains(done[i]));
                assert(!done.contains(xs.last()) && all[j] == xs.last());
                let a = lemma_first(front, done[i]);
                assert(front.take(a) =~= xs.take(a));
                assert(first_at(xs, a, all[i]));
                if front.take(a).contains(all[j]) {
                    let k = choose|k: int| 0 <= k < a && front.take(a)[k] == all[j];
                    assert(front[k] == all[j]);
                    assert(front.contains(all[j]));
                    assert(done.contains(all[j]));
                    let d = choose|d: int| 0 <= d < done.len() && done[d] == all[j];
                    assert(all[d] == all[j]);
                }
            }
        }
    }
}

/// Whether `v` occurs at `a` and not before.
pub open spec fn first_at(xs: Seq<Seq<u8>>, a: int, v: Seq<u8>) -> bool {
    0 <= a < xs.len() && xs[a] == v && !xs.take(a).contains(v)
}

/// Whether `u` occurs, and `v` does not before it.
pub open spec fn sooner(xs: Seq<Seq<u8>>, u: Seq<u8>, v: Seq<u8>) -> bool {
    exists|a: int| #[trigger] first_at(xs, a, u) && !xs.take(a).contains(v)
}

/// How many of the values are `v`.
pub open spec fn how_often(xs: Seq<Seq<u8>>, v: Seq<u8>) -> nat {
    xs.filter(|x: Seq<u8>| x == v).len()
}

proof fn lemma_first(xs: Seq<Seq<u8>>, v: Seq<u8>) -> (a: int)
    requires
        xs.contains(v),
    ensures
        first_at(xs, a, v),
    decreases xs.len(),
{
    let front = xs.drop_last();
    if front.contains(v) {
        let a = lemma_first(front, v);
        assert(front.take(a) =~= xs.take(a));
        a
    } else {
        let k = choose|k: int| 0 <= k < xs.len() && xs[k] == v;
        if k < front.len() {
            assert(front[k] == v);
        }
        let n = xs.len() - 1;
        assert(xs.take(n) =~= front);
        n
    }
}

/// A ranking lists the values that occur, each once. One that stands before another occurs
/// more often, or as often and first.
pub proof fn law_ranking(xs: Seq<Seq<u8>>, r: Seq<Seq<u8>>)
    requires
        is_ranking(xs, r),
    ensures
        forall|v: Seq<u8>| #[trigger] r.contains(v) <==> xs.contains(v),
        forall|i: int, j: int|
            #![trigger r[i], r[j]]
            0 <= i < j < r.len() ==> r[i] != r[j],
        forall|i: int, j: int|
            #![trigger r[i], r[j]]
            0 <= i < j < r.len() ==> how_often(xs, r[i]) > how_often(xs, r[j]) || (how_often(
                xs,
                r[i],
            ) == how_often(xs, r[j]) && sooner(xs, r[i], r[j])),
{
    law_distinct(xs);
    let known = distinct(xs);
    assert forall|v: Seq<u8>| #[trigger] r.contains(v) <==> xs.contains(v) by {
        if r.contains(v) {
            let i = choose|i: int| 0 <= i < r.len() && r[i] == v;
            assert(known.contains(r[i]));
        }
        if xs.contains(v) {
            assert(known.contains(v));
            let k = choose|k: int| 0 <= k < known.len() && known[k] == v;
            assert(r.contains(known[k]));
        }
    }
    assert forall|i: int, j: int|
        #![trigger r[i], r[j]]
        0 <= i < j < r.len() implies r[i] != r[j] && (how_often(xs, r[i]) > how_often(xs, r[j]) || (
    how_often(xs, r[i]) == how_often(xs, r[j]) && sooner(xs, r[i], r[j]))) by {
        assert(ranks_before(xs, r[i], r[j]));
        law_occurrences(xs, r[i]);
        law_occurrences(xs, r[j]);
        if occurrences(xs, r[i]) == occurrences(xs, r[j]) {
            assert(known.contains(r[i]) && known.contains(r[j]));
            let a = turn_of(xs, r[i]);
            let b = turn_of(xs, r[j]);
            assert(0 <= a < known.len() && known[a] == r[i]);
            assert(0 <= b < known.len() && known[b] == r[j]);
            assert(sooner(xs, known[a], known[b]));
        }
    }
}

/// The price table is made of the values of the ranking that occur more than three times, in
/// that order, and no more than sixteen of them.
pub proof fn law_price_table(xs: Seq<Seq<u8>>)
    ensures
        ({
            let often = ranking(xs).filter(|v: Seq<u8>| how_often(xs, v) > 3);
            &&& often.len() <= 16 ==> price_table(xs) == often
            &&& often.len() > 16 ==> price_table(xs) == often.take(16)
        }),
{
    let r = ranking(xs);
    lemma_frequent(xs, r, r.len() as int);
    assert(r.take(r.len() as int) =~= r);
}

proof fn lemma_frequent(xs: Seq<Seq<u8>>, r: Seq<Seq<u8>>, n: int)
    requires
        0 <= n <= r.len(),
    ensures
        frequent(xs, r, n) == r.take(n).filter(|v: Seq<u8>| how_often(xs, v) > 3),
    decreases n,
{
    reveal(Seq::filter);
    if n > 0 {
        lemma_frequent(xs, r, n - 1);
        assert(r.take(n).drop_last() =~= r.take(n - 1));
        law_occurrences(xs, r[n - 1]);
    }
}

/// The lookup table lists each PoS block that a block refers to from the enabling height on,
/// once, with its view above the least view. It cannot be made exactly where such a PoS block
/// is not known, has a view below the least, or one more than 65535 above it.
pub proof fn law_pos_lookup(
    blocks: Seq<RawModel>,
    known: Map<Seq<u8>, CommittedBlock>,
    min_view: u64,
    enable: u64,
    n: int,
)
    requires
        0 <= n <= blocks.len(),
    ensures
        match pos_lookup(blocks, known, min_view, enable, n) {
            Ok(entries) => {
                &&& forall|i: int, j: int|
                    #![trigger entries[i], entries[j]]
                    0 <= i < j < entries.len() ==> entries[i].hash != entries[j].hash
                &&& forall|k: int|
                    0 <= k < entries.len() ==> {
                        let e = #[trigger] entries[k];
                        &&& known.contains_key(e.hash)
                        &&& e.height_offset + min_view == known[e.hash].view
                        &&& exists|i: int|
                            0 <= i < n && (#[trigger] blocks[i]).header.height >= enable
                                && blocks[i].header.pos_reference == Some(e.hash)
                    }
                &&& forall|i: int|
                    0 <= i < n && (#[trigger] blocks[i]).header.height >= enable ==> (
                    blocks[i].header.pos_reference matches Some(hash) ==> exists|k: int|
                        0 <= k < entries.len() && #[trigger] entries[k].hash == hash)
            },
            Err(e) => exists|i: int|
                0 <= i < n && (#[trigger] blocks[i]).header.height >= enable && (
                blocks[i].header.pos_reference matches Some(hash) && {
                    ||| e == ExtractError::MissingCommitted && !known.contains_key(hash)
                    ||| e == ExtractError::PosViewBelowMin && known.contains_key(hash)
                        && known[hash].view < min_view
                    ||| e == ExtractError::PosOffsetTooLarge && known.contains_key(hash)
                        && known[hash].view > min_view + 65535
                }),
        },
    decreases n,
{
    if n > 0 {
        law_pos_lookup(blocks, known, min_view, enable, n - 1);
        let last = blocks[n - 1];
        if let Ok(done) = pos_lookup(blocks, known, min_view, enable, n - 1) {
            if let Ok(entries) = pos_lookup(blocks, known, min_view, enable, n) {
                assert forall|k: int| 0 <= k < done.len() implies entries[k] == #[trigger] done[k] by {}
                assert forall|k: int| 0 <= k < entries.len() implies {
                    let e = #[trigger] entries[k];
                    &&& known.contains_key(e.hash)
                    &&& e.height_offset + min_view == known[e.hash].view
                    &&& exists|i: int|
                        0 <= i < n && (#[trigger] blocks[i]).header.height >= enable
                            && blocks[i].header.pos_reference == Some(e.hash)
                } by {
                    if k < done.len() {
                        assert(entries[k] == done[k]);
                        let i = choose|i: int|
                            0 <= i < n - 1 && (#[trigger] blocks[i]).header.height >= enable
                                && blocks[i].header.pos_reference == Some(done[k].hash);
                        assert(blocks[i].header.height >= enable);
                    } else {
                        assert(blocks[n - 1].header.height >= enable);
                    }
                }
                assert forall|i: int, j: int|
                    #![trigger entries[i], entries[j]]
                    0 <= i < j < entries.len() implies entries[i].hash != entries[j].hash by {
                    assert(entries[i] == done[i]);
                    if j < done.len() {
                        assert(entries[j] == done[j]);
                    } else {
                        assert(!listed(done, entries[j].hash));
                    }
                }
                assert forall|i: int|
                    0 <= i < n && (#[trigger] blocks[i]).header.height >= enable implies (
                blocks[i].header.pos_reference matches Some(hash) ==> exists|k: int|
                    0 <= k < entries.len() && #[trigger] entries[k].hash == hash) by {
                    if let Some(hash) = blocks[i].header.pos_reference {
                        if i < n - 1 {
                            let k = choose|k: int|
                                0 <= k < done.len() && #[trigger] done[k].hash == hash;
                            assert(entries[k].hash == hash);
                        } else if listed(done, hash) {
                            let k = choose|k: int|
                                0 <= k < done.len() && #[trigger] done[k].hash == hash;
                            assert(entries[k].hash == hash);
                        } else {
                            assert(entries[done.len() as int].hash == hash);
                        }
                    }
                }
            } else {
                assert(blocks[n - 1].header.height >= enable);
            }
        } else {
            let e = pos_lookup(blocks, known, min_view, enable, n)->Err_0;
            let i = choose|i: int|
                0 <= i < n - 1 && (#[trigger] blocks[i]).header.height >= enable && (
                blocks[i].header.pos_reference matches Some(hash) && {
                    ||| e == ExtractError::MissingCommitted && !known.contains_key(hash)
                    ||| e == ExtractError::PosViewBelowMin && known.contains_key(hash)
                        && known[hash].view < min_view
                    ||| e == ExtractError::PosOffsetTooLarge && known.contains_key(hash)
                        && known[hash].view > min_view + 65535
                });
            assert(blocks[i].header.height >= enable);
        }
    }
}

/// The low 64 bits of the nonces that an address sends with, block by block.
pub open spec fn nonces_sent(blocks: Seq<RawModel>, sender: Seq<u8>) -> Seq<u64> {
    blocks.map_values(
        |b: RawModel|
            b.txs.filter(|t: TxModel| t.sender == sender).map_values(
                |t: TxModel| be_value(t.nonce.skip(24)) as u64,
            ),
    ).flatten()
}

proof fn lemma_own_place(addresses: Seq<Seq<u8>>, v: Seq<u8>, s: nat)
    requires
        s < addresses.len(),
        forall|i: int, j: int|
            #![trigger addresses[i], addresses[j]]
            0 <= i < j < addresses.len() ==> addresses[i] != addresses[j],
    ensures
        last_index(addresses, v) == Some(s) <==> v == addresses[s as int],
{
    crate::cfxpack::table::lemma_last_index(addresses, v);
    if v == addresses[s as int] {
        lemma_placed(addresses, s);
    }
}

proof fn lemma_placed(addresses: Seq<Seq<u8>>, s: nat)
    requires
        s < addresses.len(),
        forall|i: int, j: int|
            #![trigger addresses[i], addresses[j]]
            0 <= i < j < addresses.len() ==> addresses[i] != addresses[j],
    ensures
        last_index(addresses, addresses[s as int]) == Some(s),
    decreases addresses.len(),
{
    let front = addresses.drop_last();
    if s < front.len() {
        assert(addresses[s as int] != addresses[addresses.len() - 1]);
        assert(front[s as int] == addresses[s as int]);
        assert forall|i: int, j: int|
            #![trigger front[i], front[j]]
            0 <= i < j < front.len() implies front[i] != front[j] by {
            assert(addresses[i] != addresses[j]);
        }
        lemma_placed(front, s);
    }
}

proof fn lemma_tx_nonces(txs: Seq<TxModel>, addresses: Seq<Seq<u8>>, s: nat, n: int)
    requires
        0 <= n <= txs.len(),
        s < addresses.len(),
        forall|i: int, j: int|
            #![trigger addresses[i], addresses[j]]
            0 <= i < j < addresses.len() ==> addresses[i] != addresses[j],
    ensures
        tx_nonces(txs, addresses, s, n) == txs.take(n).filter(
            |t: TxModel| t.sender == addresses[s as int],
        ).map_values(|t: TxModel| be_value(t.nonce.skip(24)) as u64),
    decreases n,
{
    reveal(Seq::filter);
    let own = |t: TxModel| t.sender == addresses[s as int];
    let low = |t: TxModel| be_value(t.nonce.skip(24)) as u64;
    if n > 0 {
        lemma_tx_nonces(txs, addresses, s, n - 1);
        lemma_own_place(addresses, txs[n - 1].sender, s);
        assert(txs.take(n).drop_last() =~= txs.take(n - 1));
        let before = txs.take(n - 1).filter(own);
        if own(txs[n - 1]) {
            assert(txs.take(n).filter(own) == before.push(txs[n - 1]));
            assert(before.push(txs[n - 1]).map_values(low) =~= before.map_values(low).push(
                low(txs[n - 1]),
            ));
        }
    } else {
        assert(txs.take(0).filter(own).map_values(low) =~= Seq::empty());
    }
}

proof fn lemma_sender_nonces(blocks: Seq<RawModel>, addresses: Seq<Seq<u8>>, s: nat, n: int)
    requires
        0 <= n <= blocks.len(),
        s < addresses.len(),
        forall|i: int, j: int|
            #![trigger addresses[i], addresses[j]]
            0 <= i < j < addresses.len() ==> addresses[i] != addresses[j],
    ensures
        sender_nonces(blocks, addresses, s, n) == nonces_sent(
            blocks.take(n),
            addresses[s as int],
        ),
    decreases n,
{
    let sender = addresses[s as int];
    let f = |b: RawModel|
        b.txs.filter(|t: TxModel| t.sender == sender).map_values(
            |t: TxModel| be_value(t.nonce.skip(24)) as u64,
        );
    let lists = blocks.take(n).map_values(f);
    if n > 0 {
        lemma_sender_nonces(blocks, addresses, s, n - 1);
        lemma_flatten_last(lists);
        assert(lists.drop_last() =~= blocks.take(n - 1).map_values(f));
        let b = blocks[n - 1];
        lemma_tx_nonces(b.txs, addresses, s, b.txs.len() as int);
        assert(b.txs.take(b.txs.len() as int) =~= b.txs);
        assert(lists.last() == f(b));
    } else {
        assert(lists.len() == 0);
    }
}

/// What a base nonce saves is, over the nonces, the sum of what the length of the code of each
/// has above that of the code of the difference.
pub proof fn law_saving(nonces: Seq<u64>, base: u64)
    requires
        forall|i: int| 0 <= i < nonces.len() ==> base <= #[trigger] nonces[i],
    ensures
        saving(nonces, base) == nonces.map_values(
            |x: u64| uleb(x as nat).len() - uleb((x - base) as nat).len(),
        ).fold_left(0int, |a: int, b: int| a + b),
    decreases nonces.len(),
{
    let f = |x: u64| uleb(x as nat).len() - uleb((x - base) as nat).len();
    if nonces.len() > 0 {
        let front = nonces.drop_last();
        assert forall|i: int| 0 <= i < front.len() implies base <= #[trigger] front[i] by {
            assert(base <= nonces[i]);
        }
        law_saving(front, base);
        assert(nonces.map_values(f).drop_last() =~= front.map_values(f));
        assert(base <= nonces[nonces.len() - 1]);
    }
}

/// A sender has a base nonce exactly where it sends transactions and the least of its nonces
/// saves sixteen bytes or more, and then it is that nonce. Senders are listed by their places.
pub proof fn law_base_nonces(blocks: Seq<RawModel>, addresses: Seq<Seq<u8>>, s: nat, base: u64)
    requires
        s < addresses.len(),
        forall|i: int, j: int|
            #![trigger addresses[i], addresses[j]]
            0 <= i < j < addresses.len() ==> addresses[i] != addresses[j],
    ensures
        ({
            let table = base_table(blocks, addresses, addresses.len() as int);
            let sent = nonces_sent(blocks, addresses[s as int]);
            &&& table.contains((s, base)) <==> {
                &&& sent.contains(base)
                &&& forall|i: int| 0 <= i < sent.len() ==> base <= #[trigger] sent[i]
                &&& saving(sent, base) >= 16
            }
            &&& forall|i: int, j: int|
                #![trigger table[i], table[j]]
                0 <= i < j < table.len() ==> table[i].0 < table[j].0 < addresses.len()
        }),
{
    lemma_sender_nonces(blocks, addresses, s, blocks.len() as int);
    assert(blocks.take(blocks.len() as int) =~= blocks);
    lemma_base_entry(blocks, addresses, s, base, addresses.len() as int);
    let sent = nonces_sent(blocks, addresses[s as int]);
    law_least(sent);
    if sent.contains(base) && forall|i: int| 0 <= i < sent.len() ==> base <= #[trigger] sent[i] {
        let k = choose|k: int| 0 <= k < sent.len() && sent[k] == base;
        let l = choose|l: int| 0 <= l < sent.len() && sent[l] == least(sent);
        assert(base <= sent[l]);
        assert(least(sent) <= sent[k]);
    }
}

proof fn lemma_base_entry(
    blocks: Seq<RawModel>,
    addresses: Seq<Seq<u8>>,
    s: nat,
    base: u64,
    n: int,
)
    requires
        0 <= n,
    ensures
        ({
            let table = base_table(blocks, addresses, n);
            let nonces = sender_nonces(blocks, addresses, s, blocks.len() as int);
            &&& table.contains((s, base)) <==> s < n && nonces.len() > 0 && base == least(nonces)
                && saving(nonces, base) >= 16
            &&& forall|i: int, j: int|
                #![trigger table[i], table[j]]
                0 <= i < j < table.len() ==> table[i].0 < table[j].0 < n
            &&& forall|i: int| 0 <= i < table.len() ==> (#[trigger] table[i]).0 < n
        }),
    decreases n,
{
    if n > 0 {
        lemma_base_entry(blocks, addresses, s, base, n - 1);
        let done = base_table(blocks, addresses, n - 1);
        let table = base_table(blocks, addresses, n);
        assert forall|i: int| 0 <= i < done.len() implies table[i] == #[trigger] done[i] by {}
        if done.contains((s, base)) {
            let k = choose|k: int| 0 <= k < done.len() && done[k] == (s, base);
            assert(table[k] == (s, base));
        }
        if table.contains((s, base)) {
            let k = choose|k: int| 0 <= k < table.len() && table[k] == (s, base);
            if k < done.len() {
                assert(done[k] == (s, base));
            }
        }
        if table.len() > done.len() {
            assert(table[done.len() as int].0 == n - 1);
            assert(table[done.len() as int] == table.last());
        }
        assert forall|i: int| 0 <= i < table.len() implies (#[trigger] table[i]).0 < n by {
            if i < done.len() {
                assert(table[i] == done[i]);
            }
        }
        assert forall|i: int, j: int|
            #![trigger table[i], table[j]]
            0 <= i < j < table.len() implies table[i].0 < table[j].0 < n by {
            assert(table[i] == done[i]);
            if j < done.len() {
                assert(table[j] == done[j]);
            }
        }
    }
}

} // verus!
