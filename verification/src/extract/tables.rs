//! The tables of a packet, which its blocks and transactions refer to.
use crate::bytemap::ByteMap;
use crate::bytes::to_vec;
use crate::cfxpack::codec::{uleb, uleb128_len};
use crate::cfxpack::packet::{views, Action, PosLookupEntry, PosLookupModel, SenderBaseNonce, TxModel};
use crate::cfxpack::table::{last_index, lemma_last_index, TableIndex};
use crate::cfxpack::txform::priority_of;
use crate::cfxpack::types::{low_u64, Address, U256};
use crate::extract::blocks::{effective_pos_reference, least, pos_ref, CommittedBlock, ExtractError, RawBlock, RawModel};
use crate::extract::frequency::{distinct, is_ranking, lemma_distinct, occurrences, ranking, Frequency};
use vstd::prelude::*;

verus! {

/// The addresses that the first `n` transactions name: senders and what they call.
pub open spec fn tx_parties(txs: Seq<TxModel>, n: int) -> Seq<Seq<u8>>
    decreases n,
{
    if n <= 0 {
        Seq::empty()
    } else {
        let sent = tx_parties(txs, n - 1).push(txs[n - 1].sender);
        match txs[n - 1].action {
            Some(address) => sent.push(address),
            None => sent,
        }
    }
}

/// The addresses that the first `n` blocks name: authors, senders and what is called.
pub open spec fn parties(blocks: Seq<RawModel>, n: int) -> Seq<Seq<u8>>
    decreases n,
{
    if n <= 0 {
        Seq::empty()
    } else {
        let b = blocks[n - 1];
        parties(blocks, n - 1).push(b.header.author) + tx_parties(b.txs, b.txs.len() as int)
    }
}

proof fn lemma_parties_grow(txs: Seq<TxModel>, i: int, n: int)
    requires
        0 <= i <= n,
    ensures
        tx_parties(txs, i).len() <= tx_parties(txs, n).len(),
    decreases n,
{
    if i < n {
        lemma_parties_grow(txs, i, n - 1);
    }
}

proof fn lemma_block_parties_grow(blocks: Seq<RawModel>, i: int, n: int)
    requires
        0 <= i <= n,
    ensures
        parties(blocks, i).len() <= parties(blocks, n).len(),
    decreases n,
{
    if i < n {
        lemma_block_parties_grow(blocks, i, n - 1);
    }
}

/// Values that all have `n` bytes.
pub open spec fn all_len(xs: Seq<Seq<u8>>, n: nat) -> bool {
    forall|i: int| 0 <= i < xs.len() ==> (#[trigger] xs[i]).len() == n
}

/// The values of a ranking are among those that were ranked.
proof fn lemma_ranking_len(xs: Seq<Seq<u8>>, r: Seq<Seq<u8>>, n: nat)
    requires
        all_len(xs, n),
        r == ranking(xs),
        is_ranking(xs, r),
    ensures
        all_len(r, n),
{
    lemma_distinct(xs);
    assert forall|i: int| 0 <= i < r.len() implies (#[trigger] r[i]).len() == n by {
        assert(distinct(xs).contains(r[i]));
        let d = choose|d: int| 0 <= d < distinct(xs).len() && distinct(xs)[d] == r[i];
        assert(xs.contains(distinct(xs)[d]));
        let k = choose|k: int| 0 <= k < xs.len() && xs[k] == r[i];
        assert(xs[k].len() == n);
    }
}

/// Counts the addresses that a block's transactions name.
fn count_parties(stats: &mut Frequency, block: &RawBlock, Ghost(xs): Ghost<Seq<Seq<u8>>>)
    requires
        old(stats).counted(xs),
        xs.len() + tx_parties(block@.txs, block@.txs.len() as int).len() <= u64::MAX,
        all_len(xs, 20),
    ensures
        final(stats).counted(xs + tx_parties(block@.txs, block@.txs.len() as int)),
        all_len(xs + tx_parties(block@.txs, block@.txs.len() as int), 20),
{
    let ghost txs = block@.txs;
    let mut j: usize = 0;
    proof {
        assert(xs + tx_parties(txs, 0) =~= xs);
    }
    while j < block.body.len()
        invariant
            j <= block.body@.len(),
            txs == block@.txs,
            txs.len() == block.body@.len(),
            xs.len() + tx_parties(txs, txs.len() as int).len() <= u64::MAX,
            stats.counted(xs + tx_parties(txs, j as int)),
            all_len(xs + tx_parties(txs, j as int), 20),
        decreases block.body@.len() - j,
    {
        let ghost before = xs + tx_parties(txs, j as int);
        let ghost tx = txs[j as int];
        proof {
            lemma_parties_grow(txs, j + 1, txs.len() as int);
            assert(tx == block.body@[j as int]@);
        }
        stats.count(&block.body[j].sender.0, Ghost(before));
        let ghost sent = before.push(tx.sender);
        match &block.body[j].action {
            Action::Call(address) => {
                stats.count(&address.0, Ghost(sent));
                proof {
                    assert(tx.action == Some(address@));
                    assert(xs + tx_parties(txs, j + 1) =~= sent.push(address@));
                }
            },
            Action::Create => {
                proof {
                    assert(tx.action is None);
                    assert(xs + tx_parties(txs, j + 1) =~= sent);
                }
            },
        }
        j += 1;
    }
}

/// The addresses that the blocks name, by how often they do.
pub fn build_address_table(blocks: &Vec<RawBlock>) -> (r: Vec<Address>)
    requires
        parties(views(blocks@), blocks@.len() as int).len() <= u64::MAX,
    ensures
        views(r@) == ranking(parties(views(blocks@), blocks@.len() as int)),
        is_ranking(parties(views(blocks@), blocks@.len() as int), views(r@)),
{
    let ghost all = views(blocks@);
    let ghost n = blocks@.len() as int;
    let mut stats = Frequency::new();
    let mut i: usize = 0;
    while i < blocks.len()
        invariant
            i <= blocks@.len(),
            n == blocks@.len(),
            all == views(blocks@),
            parties(all, n).len() <= u64::MAX,
            stats.counted(parties(all, i as int)),
            all_len(parties(all, i as int), 20),
        decreases blocks@.len() - i,
    {
        let ghost xs = parties(all, i as int);
        let ghost b = all[i as int];
        proof {
            lemma_block_parties_grow(all, i + 1, n);
            assert(b == blocks@[i as int]@);
        }
        stats.count(&blocks[i].header.author.0, Ghost(xs));
        count_parties(&mut stats, &blocks[i], Ghost(xs.push(b.header.author)));
        i += 1;
    }
    let ghost xs = parties(all, n);
    let ranked = stats.ranked(Ghost(xs));
    let ghost r = Seq::new(ranked@.len(), |i: int| ranked@[i].0@);
    proof {
        lemma_ranking_len(xs, r, 20);
    }
    let mut out: Vec<Address> = Vec::new();
    let mut i: usize = 0;
    while i < ranked.len()
        invariant
            i <= ranked@.len(),
            r == Seq::new(ranked@.len(), |i: int| ranked@[i].0@),
            all_len(r, 20),
            views(out@) == r.take(i as int),
        decreases ranked@.len() - i,
    {
        proof {
            assert(r[i as int].len() == 20);
        }
        let ghost before = views(out@);
        out.push(Address::from_slice(ranked[i].0.as_slice()));
        i += 1;
        proof {
            assert(views(out@) =~= before.push(r[i - 1]));
            assert(r.take(i as int) =~= before.push(r[i - 1]));
        }
    }
    proof {
        assert(r.take(r.len() as int) =~= r);
    }
    out
}

/// The difficulties of blocks.
pub open spec fn difficulties(blocks: Seq<RawModel>) -> Seq<Seq<u8>> {
    Seq::new(blocks.len(), |i: int| blocks[i].header.difficulty)
}

/// The different difficulties of the blocks, in the order of their first blocks.
pub fn build_difficulty_table(blocks: &Vec<RawBlock>) -> (r: Vec<U256>)
    ensures
        views(r@) == distinct(difficulties(views(blocks@))),
{
    let ghost all = difficulties(views(blocks@));
    let mut out: Vec<U256> = Vec::new();
    let mut seen: ByteMap<usize> = ByteMap::new();
    let mut i: usize = 0;
    proof {
        assert(all.take(0) =~= Seq::empty());
        assert(views(out@) =~= distinct(all.take(0)));
    }
    while i < blocks.len()
        invariant
            i <= blocks@.len(),
            all == difficulties(views(blocks@)),
            seen.wf(),
            views(out@) == distinct(all.take(i as int)),
            forall|v: Seq<u8>|
                #[trigger] seen@.contains_key(v) <==> distinct(all.take(i as int)).contains(v),
        decreases blocks@.len() - i,
    {
        let value: U256 = blocks[i].header.difficulty;
        let ghost done = distinct(all.take(i as int));
        proof {
            assert(value@ == all[i as int]);
            assert(all.take(i + 1).drop_last() =~= all.take(i as int));
        }
        if !seen.contains_key(&value.0) {
            seen.insert(to_vec(&value.0), i);
            out.push(value);
            proof {
                assert(views(out@) =~= done.push(value@));
                assert forall|v: Seq<u8>| #[trigger]
                    seen@.contains_key(v) <==> done.push(value@).contains(v) by {
                    if v == value@ {
                        assert(done.push(value@)[done.len() as int] == v);
                    } else {
                        if done.contains(v) {
                            let k = choose|k: int| 0 <= k < done.len() && done[k] == v;
                            assert(done.push(value@)[k] == v);
                        }
                        if done.push(value@).contains(v) {
                            let k = choose|k: int|
                                0 <= k < done.push(value@).len() && done.push(value@)[k] == v;
                            assert(done[k] == v);
                        }
                    }
                }
            }
        }
        i += 1;
    }
    proof {
        assert(all.take(i as int) =~= all);
    }
    out
}

/// The prices that the first `n` transactions name.
pub open spec fn tx_prices(txs: Seq<TxModel>, n: int) -> Seq<Seq<u8>>
    decreases n,
{
    if n <= 0 {
        Seq::empty()
    } else {
        tx_prices(txs, n - 1).push(txs[n - 1].gas_price).push(priority_of(txs[n - 1]))
    }
}

/// The prices that the first `n` blocks name: base prices, gas prices and priority fees.
pub open spec fn prices(blocks: Seq<RawModel>, n: int) -> Seq<Seq<u8>>
    decreases n,
{
    if n <= 0 {
        Seq::empty()
    } else {
        let b = blocks[n - 1];
        let based = match b.header.base_price {
            Some((core, espace)) => prices(blocks, n - 1).push(core).push(espace),
            None => prices(blocks, n - 1),
        };
        based + tx_prices(b.txs, b.txs.len() as int)
    }
}

proof fn lemma_prices_len(txs: Seq<TxModel>, n: int)
    requires
        0 <= n,
    ensures
        tx_prices(txs, n).len() == 2 * n,
    decreases n,
{
    if n > 0 {
        lemma_prices_len(txs, n - 1);
    }
}

proof fn lemma_block_prices_grow(blocks: Seq<RawModel>, i: int, n: int)
    requires
        0 <= i <= n,
    ensures
        prices(blocks, i).len() <= prices(blocks, n).len(),
    decreases n,
{
    if i < n {
        lemma_block_prices_grow(blocks, i, n - 1);
    }
}

/// The first `n` values of a list that occur more than three times.
pub open spec fn frequent(xs: Seq<Seq<u8>>, r: Seq<Seq<u8>>, n: int) -> Seq<Seq<u8>>
    decreases n,
{
    if n <= 0 {
        Seq::empty()
    } else if occurrences(xs, r[n - 1]) > 3 {
        frequent(xs, r, n - 1).push(r[n - 1])
    } else {
        frequent(xs, r, n - 1)
    }
}

/// The prices that occur more than three times, by how often they do, and at most
/// sixteen of them.
pub open spec fn price_table(xs: Seq<Seq<u8>>) -> Seq<Seq<u8>> {
    let all = frequent(xs, ranking(xs), ranking(xs).len() as int);
    if all.len() <= 16 {
        all
    } else {
        all.take(16)
    }
}

proof fn lemma_frequent_grows(xs: Seq<Seq<u8>>, r: Seq<Seq<u8>>, i: int, n: int)
    requires
        0 <= i <= n,
    ensures
        frequent(xs, r, i).len() <= frequent(xs, r, n).len(),
        frequent(xs, r, n).take(frequent(xs, r, i).len() as int) == frequent(xs, r, i),
    decreases n,
{
    let m = frequent(xs, r, i).len() as int;
    if i < n {
        lemma_frequent_grows(xs, r, i, n - 1);
        assert(frequent(xs, r, n).take(m) =~= frequent(xs, r, n - 1).take(m));
    } else {
        assert(frequent(xs, r, n).take(m) =~= frequent(xs, r, i));
    }
}

/// Counts the prices of a block's transactions.
fn count_prices(stats: &mut Frequency, block: &RawBlock, Ghost(xs): Ghost<Seq<Seq<u8>>>)
    requires
        old(stats).counted(xs),
        xs.len() + tx_prices(block@.txs, block@.txs.len() as int).len() <= u64::MAX,
        all_len(xs, 32),
    ensures
        final(stats).counted(xs + tx_prices(block@.txs, block@.txs.len() as int)),
        all_len(xs + tx_prices(block@.txs, block@.txs.len() as int), 32),
{
    let ghost txs = block@.txs;
    let mut j: usize = 0;
    proof {
        assert(xs + tx_prices(txs, 0) =~= xs);
        lemma_prices_len(txs, txs.len() as int);
    }
    while j < block.body.len()
        invariant
            j <= block.body@.len(),
            txs == block@.txs,
            txs.len() == block.body@.len(),
            xs.len() + 2 * txs.len() <= u64::MAX,
            stats.counted(xs + tx_prices(txs, j as int)),
            all_len(xs + tx_prices(txs, j as int), 32),
        decreases block.body@.len() - j,
    {
        let ghost before = xs + tx_prices(txs, j as int);
        let ghost tx = txs[j as int];
        proof {
            lemma_prices_len(txs, j as int);
            assert(tx == block.body@[j as int]@);
        }
        stats.count(&block.body[j].gas_price.0, Ghost(before));
        let ghost priced = before.push(tx.gas_price);
        if block.body[j].kind.has_priority_fee() {
            stats.count(&block.body[j].max_priority_gas_price.0, Ghost(priced));
        } else {
            stats.count(&block.body[j].gas_price.0, Ghost(priced));
        }
        proof {
            assert(xs + tx_prices(txs, j + 1) =~= priced.push(priority_of(tx)));
        }
        j += 1;
    }
}

/// The prices that occur often.
pub fn build_gas_price_table(blocks: &Vec<RawBlock>) -> (r: Vec<U256>)
    requires
        prices(views(blocks@), blocks@.len() as int).len() <= u64::MAX,
    ensures
        views(r@) == price_table(prices(views(blocks@), blocks@.len() as int)),
{
    let ghost all = views(blocks@);
    let ghost n = blocks@.len() as int;
    let mut stats = Frequency::new();
    let mut i: usize = 0;
    while i < blocks.len()
        invariant
            i <= blocks@.len(),
            n == blocks@.len(),
            all == views(blocks@),
            prices(all, n).len() <= u64::MAX,
            stats.counted(prices(all, i as int)),
            all_len(prices(all, i as int), 32),
        decreases blocks@.len() - i,
    {
        let ghost xs = prices(all, i as int);
        let ghost b = all[i as int];
        proof {
            lemma_block_prices_grow(all, i + 1, n);
            assert(b == blocks@[i as int]@);
        }
        match &blocks[i].header.base_price {
            Some((core, espace)) => {
                proof {
                    assert(b.header.base_price == Some((core@, espace@)));
                }
                stats.count(&core.0, Ghost(xs));
                stats.count(&espace.0, Ghost(xs.push(core@)));
                count_prices(&mut stats, &blocks[i], Ghost(xs.push(core@).push(espace@)));
            },
            None => {
                proof {
                    assert(b.header.base_price is None);
                }
                count_prices(&mut stats, &blocks[i], Ghost(xs));
            },
        }
        i += 1;
    }
    let ghost xs = prices(all, n);
    let ranked = stats.ranked(Ghost(xs));
    let ghost r = Seq::new(ranked@.len(), |i: int| ranked@[i].0@);
    proof {
        lemma_ranking_len(xs, r, 32);
        assert(frequent(xs, r, 0) =~= Seq::empty());
    }
    let mut out: Vec<U256> = Vec::new();
    let mut i: usize = 0;
    proof {
        assert(views(out@) =~= frequent(xs, r, 0));
    }
    while i < ranked.len() && out.len() < 16
        invariant
            i <= ranked@.len(),
            r == Seq::new(ranked@.len(), |i: int| ranked@[i].0@),
            all_len(r, 32),
            forall|i: int|
                0 <= i < ranked@.len() ==> (#[trigger] ranked@[i]).1 == occurrences(
                    xs,
                    ranked@[i].0@,
                ),
            views(out@) == frequent(xs, r, i as int),
            out@.len() <= 16,
        decreases ranked@.len() - i,
    {
        proof {
            assert(r[i as int].len() == 32);
        }
        if ranked[i].1 > 3 {
            let ghost before = views(out@);
            let value = U256::from_big_endian(ranked[i].0.as_slice());
            proof {
                assert(value@ =~= r[i as int]);
            }
            out.push(value);
            proof {
                assert(views(out@) =~= before.push(r[i as int]));
            }
        }
        i += 1;
    }
    proof {
        lemma_frequent_grows(xs, r, i as int, r.len() as int);
        assert(views(out@).len() == out@.len());
        let whole = frequent(xs, r, r.len() as int);
        if out@.len() < 16 {
            assert(whole == views(out@));
        } else {
            if whole.len() == 16 {
                assert(whole.take(16) =~= whole);
            }
            assert(whole.take(16) == views(out@));
        }
    }
    out
}

/// The nonces of those among the first `n` transactions whose sender has the place `s`
/// in the address table.
pub open spec fn tx_nonces(txs: Seq<TxModel>, addresses: Seq<Seq<u8>>, s: nat, n: int) -> Seq<u64>
    decreases n,
{
    if n <= 0 {
        Seq::empty()
    } else if last_index(addresses, txs[n - 1].sender) == Some(s) {
        tx_nonces(txs, addresses, s, n - 1).push(low_u64(txs[n - 1].nonce))
    } else {
        tx_nonces(txs, addresses, s, n - 1)
    }
}

/// The nonces that the sender with the place `s` uses in the first `n` blocks.
pub open spec fn sender_nonces(
    blocks: Seq<RawModel>,
    addresses: Seq<Seq<u8>>,
    s: nat,
    n: int,
) -> Seq<u64>
    decreases n,
{
    if n <= 0 {
        Seq::empty()
    } else {
        sender_nonces(blocks, addresses, s, n - 1) + tx_nonces(
            blocks[n - 1].txs,
            addresses,
            s,
            blocks[n - 1].txs.len() as int,
        )
    }
}

/// The bytes that nonces take less where they are counted from `base`.
pub open spec fn saving(nonces: Seq<u64>, base: u64) -> int
    decreases nonces.len(),
{
    if nonces.len() == 0 {
        0
    } else {
        let above = if nonces.last() >= base {
            (nonces.last() - base) as nat
        } else {
            0
        };
        saving(nonces.drop_last(), base) + uleb(nonces.last() as nat).len() - uleb(above).len()
    }
}

/// The base nonces of the first `n` senders for which one saves sixteen bytes or more.
pub open spec fn base_table(blocks: Seq<RawModel>, addresses: Seq<Seq<u8>>, n: int) -> Seq<
    (nat, u64),
>
    decreases n,
{
    if n <= 0 {
        Seq::empty()
    } else {
        let done = base_table(blocks, addresses, n - 1);
        let nonces = sender_nonces(blocks, addresses, (n - 1) as nat, blocks.len() as int);
        if nonces.len() > 0 && saving(nonces, least(nonces)) >= 16 {
            done.push(((n - 1) as nat, least(nonces)))
        } else {
            done
        }
    }
}

/// The nonces of the senders, by their places in the address table.
pub open spec fn groups_nonces(
    lists: Seq<Vec<u64>>,
    blocks: Seq<RawModel>,
    addresses: Seq<Seq<u8>>,
    i: int,
    j: int,
) -> bool {
    &&& lists.len() == addresses.len()
    &&& forall|s: int|
        0 <= s < lists.len() ==> (#[trigger] lists[s])@ == sender_nonces(
            blocks,
            addresses,
            s as nat,
            i,
        ) + (if j > 0 {
            tx_nonces(blocks[i].txs, addresses, s as nat, j)
        } else {
            Seq::empty()
        })
}

/// Adds the nonces of a block's transactions.
fn group_block_nonces(
    lists: &mut Vec<Vec<u64>>,
    index: &TableIndex,
    block: &RawBlock,
    Ghost(blocks): Ghost<Seq<RawModel>>,
    Ghost(addresses): Ghost<Seq<Seq<u8>>>,
    Ghost(i): Ghost<int>,
)
    requires
        0 <= i < blocks.len(),
        blocks[i] == block@,
        index.is_of(addresses),
        groups_nonces(old(lists)@, blocks, addresses, i, 0),
    ensures
        groups_nonces(final(lists)@, blocks, addresses, i + 1, 0),
{
    let ghost txs = block@.txs;
    let mut j: usize = 0;
    while j < block.body.len()
        invariant
            j <= block.body@.len(),
            0 <= i < blocks.len(),
            blocks[i] == block@,
            txs == block@.txs,
            txs.len() == block.body@.len(),
            index.is_of(addresses),
            groups_nonces(lists@, blocks, addresses, i, j as int),
        decreases block.body@.len() - j,
    {
        let ghost tx = txs[j as int];
        let ghost before = lists@;
        proof {
            assert(tx == block.body@[j as int]@);
            lemma_last_index(addresses, tx.sender);
        }
        match index.get(Ghost(addresses), &block.body[j].sender.0) {
            Some(s) => {
                let nonce: u64 = block.body[j].nonce.low_u64();
                let list: &mut Vec<u64> = &mut lists[s];
                list.push(nonce);
                proof {
                    assert forall|k: int| 0 <= k < lists@.len() implies (
                    #[trigger] lists@[k])@ == sender_nonces(blocks, addresses, k as nat, i) + (if j
                        + 1 > 0 {
                        tx_nonces(txs, addresses, k as nat, j + 1)
                    } else {
                        Seq::empty()
                    }) by {
                        assert(before[k]@ =~= sender_nonces(blocks, addresses, k as nat, i)
                            + tx_nonces(txs, addresses, k as nat, j as int));
                        if k == s {
                            assert(lists@[k]@ =~= before[k]@.push(low_u64(tx.nonce)));
                        } else {
                            assert(lists@[k] == before[k]);
                        }
                        assert(lists@[k]@ =~= sender_nonces(blocks, addresses, k as nat, i)
                            + tx_nonces(txs, addresses, k as nat, j + 1));
                    }
                }
            },
            None => {
                proof {
                    assert forall|k: int| 0 <= k < lists@.len() implies (
                    #[trigger] lists@[k])@ == sender_nonces(blocks, addresses, k as nat, i) + (if j
                        + 1 > 0 {
                        tx_nonces(txs, addresses, k as nat, j + 1)
                    } else {
                        Seq::empty()
                    }) by {
                        assert(before[k]@ =~= sender_nonces(blocks, addresses, k as nat, i)
                            + tx_nonces(txs, addresses, k as nat, j as int));
                    }
                }
            },
        }
        j += 1;
    }
    proof {
        assert forall|s: int| 0 <= s < lists@.len() implies (#[trigger] lists@[s])@
            =~= sender_nonces(blocks, addresses, s as nat, i + 1) by {
            assert(lists@[s]@ =~= sender_nonces(blocks, addresses, s as nat, i) + tx_nonces(
                txs,
                addresses,
                s as nat,
                j as int,
            ));
        }
        assert forall|s: int| 0 <= s < lists@.len() implies (#[trigger] lists@[s])@
            == sender_nonces(blocks, addresses, s as nat, i + 1) + Seq::empty() by {
            assert(lists@[s]@ =~= sender_nonces(blocks, addresses, s as nat, i + 1));
            assert(lists@[s]@ + Seq::<u64>::empty() =~= lists@[s]@);
        }
    }
}

/// A number takes no more bytes than a greater one.
proof fn lemma_uleb_mono(a: nat, b: nat)
    requires
        a <= b,
    ensures
        1 <= uleb(a).len() <= uleb(b).len(),
    decreases b,
{
    reveal(uleb);
    if b >= 128 {
        if a >= 128 {
            lemma_uleb_mono(a / 128, b / 128);
        } else {
            lemma_uleb_mono(0, b / 128);
        }
    }
}

proof fn lemma_saving_grows(nonces: Seq<u64>, base: u64, i: int)
    requires
        0 <= i <= nonces.len(),
    ensures
        0 <= saving(nonces.take(i), base) <= saving(nonces, base),
    decreases nonces.len() - i,
{
    if i < nonces.len() {
        lemma_saving_grows(nonces, base, i + 1);
        let t = nonces.take(i + 1);
        assert(t.drop_last() =~= nonces.take(i));
        let above = if t.last() >= base {
            (t.last() - base) as nat
        } else {
            0
        };
        lemma_uleb_mono(above, t.last() as nat);
        lemma_saving_positive(nonces.take(i), base);
    } else {
        assert(nonces.take(i) =~= nonces);
        lemma_saving_positive(nonces, base);
    }
}

proof fn lemma_saving_positive(nonces: Seq<u64>, base: u64)
    ensures
        saving(nonces, base) >= 0,
    decreases nonces.len(),
{
    if nonces.len() > 0 {
        lemma_saving_positive(nonces.drop_last(), base);
        let above = if nonces.last() >= base {
            (nonces.last() - base) as nat
        } else {
            0
        };
        lemma_uleb_mono(above, nonces.last() as nat);
    }
}

/// The least of the numbers.
fn least_nonce(nonces: &Vec<u64>) -> (r: u64)
    ensures
        r == least(nonces@),
{
    let mut r: u64 = u64::MAX;
    let mut i: usize = 0;
    proof {
        assert(nonces@.take(0) =~= Seq::empty());
    }
    while i < nonces.len()
        invariant
            i <= nonces@.len(),
            r == least(nonces@.take(i as int)),
        decreases nonces@.len() - i,
    {
        proof {
            assert(nonces@.take(i + 1).drop_last() =~= nonces@.take(i as int));
        }
        if nonces[i] < r {
            r = nonces[i];
        }
        i += 1;
    }
    proof {
        assert(nonces@.take(i as int) =~= nonces@);
    }
    r
}

/// Whether nonces take at least sixteen bytes less where they are counted from `base`.
fn saves_enough(nonces: &Vec<u64>, base: u64) -> (r: bool)
    ensures
        r == (saving(nonces@, base) >= 16),
{
    let mut sum: usize = 0;
    let mut i: usize = 0;
    proof {
        assert(nonces@.take(0) =~= Seq::empty());
    }
    while i < nonces.len()
        invariant
            i <= nonces@.len(),
            sum == saving(nonces@.take(i as int), base),
            sum < 16,
        decreases nonces@.len() - i,
    {
        let nonce: u64 = nonces[i];
        let above: u64 = if nonce >= base {
            nonce - base
        } else {
            0
        };
        proof {
            assert(nonces@.take(i + 1).drop_last() =~= nonces@.take(i as int));
            lemma_uleb_mono(above as nat, nonce as nat);
            lemma_saving_grows(nonces@, base, i + 1);
        }
        sum = sum + (uleb128_len(nonce) - uleb128_len(above));
        if sum >= 16 {
            return true;
        }
        i += 1;
    }
    proof {
        assert(nonces@.take(i as int) =~= nonces@);
    }
    false
}

/// The base nonces of the senders for which one saves enough, by their places in the
/// address table.
pub fn build_sender_base_nonce_table(blocks: &Vec<RawBlock>, addresses: &Vec<Address>) -> (r: Vec<
    SenderBaseNonce,
>)
    ensures
        views(r@) == base_table(views(blocks@), views(addresses@), addresses@.len() as int),
{
    let ghost all = views(blocks@);
    let ghost table = views(addresses@);
    let index = TableIndex::of_addresses(addresses);
    let mut lists: Vec<Vec<u64>> = Vec::new();
    let mut i: usize = 0;
    while i < addresses.len()
        invariant
            i <= addresses@.len(),
            lists@.len() == i,
            forall|s: int| 0 <= s < i ==> (#[trigger] lists@[s])@ == Seq::<u64>::empty(),
        decreases addresses@.len() - i,
    {
        lists.push(Vec::new());
        i += 1;
    }
    let mut i: usize = 0;
    proof {
        assert forall|s: int| 0 <= s < lists@.len() implies (#[trigger] lists@[s])@
            == sender_nonces(all, table, s as nat, 0) + Seq::empty() by {
            assert(lists@[s]@ =~= sender_nonces(all, table, s as nat, 0) + Seq::empty());
        }
        assert(groups_nonces(lists@, all, table, 0, 0));
    }
    while i < blocks.len()
        invariant
            i <= blocks@.len(),
            all == views(blocks@),
            index.is_of(table),
            groups_nonces(lists@, all, table, i as int, 0),
        decreases blocks@.len() - i,
    {
        group_block_nonces(
            &mut lists,
            &index,
            &blocks[i],
            Ghost(all),
            Ghost(table),
            Ghost(i as int),
        );
        i += 1;
    }
    let mut out: Vec<SenderBaseNonce> = Vec::new();
    let mut i: usize = 0;
    proof {
        assert(views(out@) =~= base_table(all, table, 0));
    }
    while i < lists.len()
        invariant
            i <= lists@.len(),
            all == views(blocks@),
            lists@.len() == table.len(),
            groups_nonces(lists@, all, table, all.len() as int, 0),
            views(out@) == base_table(all, table, i as int),
        decreases lists@.len() - i,
    {
        let ghost nonces = sender_nonces(all, table, i as nat, all.len() as int);
        let ghost before = views(out@);
        proof {
            assert(lists@[i as int]@ =~= nonces);
        }
        if lists[i].len() > 0 {
            let base_nonce: u64 = least_nonce(&lists[i]);
            if saves_enough(&lists[i], base_nonce) {
                out.push(SenderBaseNonce { sender_index: i, base_nonce });
                proof {
                    assert(views(out@) =~= before.push((i as nat, base_nonce)));
                }
            }
        }
        i += 1;
    }
    out
}

/// Whether a PoS block is already in a lookup table.
pub open spec fn listed(entries: Seq<PosLookupModel>, hash: Seq<u8>) -> bool {
    exists|k: int| 0 <= k < entries.len() && #[trigger] entries[k].hash == hash
}

/// The PoS blocks that the first `n` blocks refer to, each once and with its view above
/// the least.
pub open spec fn pos_lookup(
    blocks: Seq<RawModel>,
    known: Map<Seq<u8>, CommittedBlock>,
    min_view: u64,
    enable: u64,
    n: int,
) -> Result<Seq<PosLookupModel>, ExtractError>
    decreases n,
{
    if n <= 0 {
        Ok(Seq::empty())
    } else {
        match pos_lookup(blocks, known, min_view, enable, n - 1) {
            Err(e) => Err(e),
            Ok(done) => match pos_ref(blocks[n - 1].header, enable) {
                None => Ok(done),
                Some(hash) => if listed(done, hash) {
                    Ok(done)
                } else if !known.contains_key(hash) {
                    Err(ExtractError::MissingCommitted)
                } else if known[hash].view < min_view {
                    Err(ExtractError::PosViewBelowMin)
                } else if known[hash].view - min_view > u16::MAX {
                    Err(ExtractError::PosOffsetTooLarge)
                } else {
                    Ok(
                        done.push(
                            PosLookupModel {
                                hash,
                                height_offset: (known[hash].view - min_view) as u16,
                            },
                        ),
                    )
                },
            },
        }
    }
}

proof fn lemma_pos_fault(
    blocks: Seq<RawModel>,
    known: Map<Seq<u8>, CommittedBlock>,
    min_view: u64,
    enable: u64,
    i: int,
    n: int,
)
    requires
        0 <= i <= n,
        pos_lookup(blocks, known, min_view, enable, i) is Err,
    ensures
        pos_lookup(blocks, known, min_view, enable, n) == pos_lookup(
            blocks,
            known,
            min_view,
            enable,
            i,
        ),
    decreases n,
{
    if i < n {
        lemma_pos_fault(blocks, known, min_view, enable, i, n - 1);
    }
}

/// The PoS blocks that the blocks refer to.
pub fn build_pos_lookup(
    blocks: &Vec<RawBlock>,
    pos_blocks: &ByteMap<CommittedBlock>,
    min_pos_height: u64,
    pos_reference_enable_height: u64,
) -> (r: Result<Vec<PosLookupEntry>, ExtractError>)
    requires
        pos_blocks.wf(),
    ensures
        ({
            let want = pos_lookup(
                views(blocks@),
                pos_blocks@,
                min_pos_height,
                pos_reference_enable_height,
                blocks@.len() as int,
            );
            match r {
                Ok(entries) => want == Ok::<Seq<PosLookupModel>, ExtractError>(views(entries@)),
                Err(e) => want == Err::<Seq<PosLookupModel>, ExtractError>(e),
            }
        }),
{
    let ghost all = views(blocks@);
    let ghost n = blocks@.len() as int;
    let mut out: Vec<PosLookupEntry> = Vec::new();
    let mut seen: ByteMap<usize> = ByteMap::new();
    let mut i: usize = 0;
    proof {
        assert(views(out@) =~= Seq::empty());
    }
    while i < blocks.len()
        invariant
            i <= blocks@.len(),
            n == blocks@.len(),
            all == views(blocks@),
            pos_blocks.wf(),
            seen.wf(),
            pos_lookup(all, pos_blocks@, min_pos_height, pos_reference_enable_height, i as int)
                == Ok::<Seq<PosLookupModel>, ExtractError>(views(out@)),
            forall|h: Seq<u8>| #[trigger] seen@.contains_key(h) <==> listed(views(out@), h),
        decreases blocks@.len() - i,
    {
        let ghost done = views(out@);
        proof {
            assert(all[i as int] == blocks@[i as int]@);
            if pos_lookup(
                all,
                pos_blocks@,
                min_pos_height,
                pos_reference_enable_height,
                i + 1,
            ) is Err {
                lemma_pos_fault(
                    all,
                    pos_blocks@,
                    min_pos_height,
                    pos_reference_enable_height,
                    i + 1,
                    n,
                );
            }
        }
        match effective_pos_reference(&blocks[i].header, pos_reference_enable_height) {
            Some(hash) => {
                if !seen.contains_key(hash.as_bytes().as_slice()) {
                    let committed: CommittedBlock = match pos_blocks.get(
                        hash.as_bytes().as_slice(),
                    ) {
                        Some(c) => *c,
                        None => {
                            return Err(ExtractError::MissingCommitted);
                        },
                    };
                    if committed.view < min_pos_height {
                        return Err(ExtractError::PosViewBelowMin);
                    }
                    let above: u64 = committed.view - min_pos_height;
                    if above > u16::MAX as u64 {
                        return Err(ExtractError::PosOffsetTooLarge);
                    }
                    let entry = PosLookupEntry { hash, height_offset: above as u16 };
                    let ghost m = entry@;
                    out.push(entry);
                    seen.insert(to_vec(hash.as_bytes().as_slice()), i);
                    proof {
                        let after = views(out@);
                        assert(after =~= done.push(m));
                        assert forall|h: Seq<u8>| #[trigger]
                            seen@.contains_key(h) <==> listed(after, h) by {
                            if listed(done, h) {
                                let k = choose|k: int|
                                    0 <= k < done.len() && #[trigger] done[k].hash == h;
                                assert(after[k].hash == h);
                            }
                            if h == hash@ {
                                assert(after[done.len() as int].hash == h);
                            }
                            if listed(after, h) {
                                let k = choose|k: int|
                                    0 <= k < after.len() && #[trigger] after[k].hash == h;
                                if k < done.len() {
                                    assert(done[k].hash == h);
                                }
                            }
                        }
                    }
                }
            },
            None => {},
        }
        i += 1;
    }
    Ok(out)
}

/// The tables of a packet.
pub struct Tables {
    pub addresses: Vec<Address>,
    pub pos_entries: Vec<PosLookupEntry>,
    pub difficulties: Vec<U256>,
    pub sender_base_nonces: Vec<SenderBaseNonce>,
    pub gas_prices: Vec<U256>,
}

/// Builds the tables of the packet that holds the blocks.
pub fn build_tables(
    blocks: &Vec<RawBlock>,
    pos_blocks: &ByteMap<CommittedBlock>,
    min_pos_height: u64,
    pos_reference_enable_height: u64,
) -> (r: Result<Tables, ExtractError>)
    requires
        pos_blocks.wf(),
        parties(views(blocks@), blocks@.len() as int).len() <= u64::MAX,
        prices(views(blocks@), blocks@.len() as int).len() <= u64::MAX,
    ensures
        ({
            let all = views(blocks@);
            let n = blocks@.len() as int;
            let addresses = ranking(parties(all, n));
            let lookup = pos_lookup(
                all,
                pos_blocks@,
                min_pos_height,
                pos_reference_enable_height,
                n,
            );
            match r {
                Ok(t) => {
                    &&& views(t.addresses@) == addresses
                    &&& is_ranking(parties(all, n), addresses)
                    &&& views(t.difficulties@) == distinct(difficulties(all))
                    &&& views(t.gas_prices@) == price_table(prices(all, n))
                    &&& views(t.sender_base_nonces@) == base_table(
                        all,
                        addresses,
                        addresses.len() as int,
                    )
                    &&& lookup == Ok::<Seq<PosLookupModel>, ExtractError>(views(t.pos_entries@))
                },
                Err(e) => lookup == Err::<Seq<PosLookupModel>, ExtractError>(e),
            }
        }),
{
    let addresses = build_address_table(blocks);
    let difficulties = build_difficulty_table(blocks);
    let gas_prices = build_gas_price_table(blocks);
    let sender_base_nonces = build_sender_base_nonce_table(blocks, &addresses);
    match build_pos_lookup(blocks, pos_blocks, min_pos_height, pos_reference_enable_height) {
        Ok(pos_entries) => Ok(
            Tables { addresses, pos_entries, difficulties, sender_base_nonces, gas_prices },
        ),
        Err(e) => Err(e),
    }
}

/// A value that is in a table has a place in it.
proof fn lemma_has_place(table: Seq<Seq<u8>>, v: Seq<u8>)
    requires
        table.contains(v),
    ensures
        last_index(table, v) is Some,
    decreases table.len(),
{
    let k = choose|k: int| 0 <= k < table.len() && table[k] == v;
    if table.last() != v {
        assert(table.drop_last()[k] == v);
        lemma_has_place(table.drop_last(), v);
    }
}

/// A value that was ranked has a place in the ranking.
proof fn lemma_ranked_place(xs: Seq<Seq<u8>>, r: Seq<Seq<u8>>, k: int)
    requires
        is_ranking(xs, r),
        0 <= k < xs.len(),
    ensures
        last_index(r, xs[k]) is Some,
{
    lemma_distinct(xs);
    let d = distinct(xs);
    assert(d.contains(xs[k]));
    let i = choose|i: int| 0 <= i < d.len() && d[i] == xs[k];
    assert(r.contains(d[i]));
    lemma_has_place(r, xs[k]);
}

/// The addresses that a transaction names are among those of the transactions.
proof fn lemma_tx_party(txs: Seq<TxModel>, j: int, n: int)
    requires
        0 <= j < n,
    ensures
        tx_parties(txs, n).contains(txs[j].sender),
        txs[j].action is Some ==> tx_parties(txs, n).contains(txs[j].action->0),
    decreases n,
{
    let all = tx_parties(txs, n);
    let done = tx_parties(txs, n - 1);
    assert forall|k: int| 0 <= k < done.len() implies all[k] == #[trigger] done[k] by {}
    if j < n - 1 {
        lemma_tx_party(txs, j, n - 1);
        let k = choose|k: int| 0 <= k < done.len() && done[k] == txs[j].sender;
        assert(all[k] == txs[j].sender);
        if txs[j].action is Some {
            let k = choose|k: int| 0 <= k < done.len() && done[k] == txs[j].action->0;
            assert(all[k] == txs[j].action->0);
        }
    } else {
        assert(all[done.len() as int] == txs[j].sender);
        if txs[j].action is Some {
            assert(all[done.len() as int + 1] == txs[j].action->0);
        }
    }
}

/// An address that a block names is among those of the blocks.
proof fn lemma_party(blocks: Seq<RawModel>, i: int, n: int, v: Seq<u8>)
    requires
        0 <= i < n,
        v == blocks[i].header.author || tx_parties(
            blocks[i].txs,
            blocks[i].txs.len() as int,
        ).contains(v),
    ensures
        parties(blocks, n).contains(v),
    decreases n,
{
    let all = parties(blocks, n);
    let done = parties(blocks, n - 1);
    let b = blocks[n - 1];
    let named = tx_parties(b.txs, b.txs.len() as int);
    if i < n - 1 {
        lemma_party(blocks, i, n - 1, v);
        let k = choose|k: int| 0 <= k < done.len() && done[k] == v;
        assert(all[k] == v);
    } else if v == b.header.author {
        assert(all[done.len() as int] == v);
    } else {
        let k = choose|k: int| 0 <= k < named.len() && named[k] == v;
        assert(all[done.len() as int + 1 + k] == v);
    }
}

/// Every address that a block names has a place in the address table, and every
/// difficulty has one in the table of difficulties.
pub proof fn lemma_places(blocks: Seq<RawModel>, addresses: Seq<Seq<u8>>, i: int)
    requires
        is_ranking(parties(blocks, blocks.len() as int), addresses),
        0 <= i < blocks.len(),
    ensures
        last_index(addresses, blocks[i].header.author) is Some,
        last_index(distinct(difficulties(blocks)), blocks[i].header.difficulty) is Some,
        forall|j: int|
            0 <= j < blocks[i].txs.len() ==> last_index(
                addresses,
                (#[trigger] blocks[i].txs[j]).sender,
            ) is Some && (blocks[i].txs[j].action is Some ==> last_index(
                addresses,
                blocks[i].txs[j].action->0,
            ) is Some),
{
    let n = blocks.len() as int;
    let xs = parties(blocks, n);
    let b = blocks[i];
    lemma_party(blocks, i, n, b.header.author);
    lemma_listed_place(xs, addresses, b.header.author);
    let ds = difficulties(blocks);
    lemma_distinct(ds);
    assert(ds[i] == b.header.difficulty);
    assert(distinct(ds).contains(ds[i]));
    lemma_has_place(distinct(ds), b.header.difficulty);
    assert forall|j: int| 0 <= j < b.txs.len() implies last_index(
        addresses,
        (#[trigger] b.txs[j]).sender,
    ) is Some && (b.txs[j].action is Some ==> last_index(
        addresses,
        b.txs[j].action->0,
    ) is Some) by {
        lemma_tx_party(b.txs, j, b.txs.len() as int);
        lemma_party(blocks, i, n, b.txs[j].sender);
        lemma_listed_place(xs, addresses, b.txs[j].sender);
        if b.txs[j].action is Some {
            lemma_party(blocks, i, n, b.txs[j].action->0);
            lemma_listed_place(xs, addresses, b.txs[j].action->0);
        }
    }
}

proof fn lemma_listed_place(xs: Seq<Seq<u8>>, r: Seq<Seq<u8>>, v: Seq<u8>)
    requires
        is_ranking(xs, r),
        xs.contains(v),
    ensures
        last_index(r, v) is Some,
{
    let k = choose|k: int| 0 <= k < xs.len() && xs[k] == v;
    lemma_ranked_place(xs, r, k);
}

} // verus!
