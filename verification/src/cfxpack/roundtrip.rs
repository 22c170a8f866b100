//! A packet that was written is read back, and writes to the same bytes again.
use crate::cfxpack::body::{body_bytes, law_block_area, laid_out, lemma_laid_out, padded, prefix_size, RecordModel};
use crate::cfxpack::codec::{aligned, law_uleb, lemma_uleb_roundtrip, uleb};
use crate::cfxpack::decode::{bare_blocks, blocks_of, decoded, loaded_blocks, offset_of, with_epochs, with_load, Tables};
use crate::cfxpack::encode::{assemble, cleared, encoded, fixed_fields, flag, group_fault, groups_fault, input_fault, lemma_next_pivot, lemma_payloads_len, next_pivot, offsets, packet_restorable, payload, payload_items, payloads, records, repeated, restorable, reward_items, sections, segment, stored, tx_items, tx_place, unlock_items, written_flags, COMPRESS_ABOVE};
use crate::cfxpack::error::PackError;
use crate::cfxpack::packet::{BlockModel, PacketModel, TxModel, FLAG_HAS_TRANSACTIONS, FLAG_PIVOT, FLAG_RESERVED, FLAG_TX_COMPRESSED};
use crate::cfxpack::record::{block_shape, decode_record, encode_record, hash_prefix, law_record, lemma_assoc, lemma_skip_head, record_block, record_bytes, record_fault, record_tx_offset, RecordContext};
use crate::cfxpack::rlp_form::{all_framed, framed};
use crate::cfxpack::roundtrip_tables::{lemma_block_area, lemma_fixed_fields, lemma_header, lemma_tables, packet_bytes, tables_shape};
use crate::cfxpack::roundtrip_tx::{kept_nonce, kept_tx, lemma_fit, lemma_ref, lemma_reward, lemma_tx, lemma_unlock, one_base, reward_shape, tx_context, tx_shape};
use crate::cfxpack::txdecode::{earlier_tx, items_of, load_item, load_items, load_payload, payload_at, txs_before, LoadModel, TxContext};
use crate::cfxpack::txform::{fit_list, list_items_of, priority_of, reward_item, tx_fields, tx_item, tx_parts, unlock_fields, written_nonce};
use crate::cfxpack::types::{lemma_word, low_u64, zeros};
use vstd::prelude::*;

verus! {

/// The parts of a packet have the lengths that their types give them, and every
/// transaction that must call an address does.
pub open spec fn packet_shape(p: PacketModel) -> bool {
    &&& tables_shape(p)
    &&& p.addresses.len() <= u64::MAX
    &&& p.difficulties.len() <= u64::MAX
    &&& p.gas_prices.len() <= u64::MAX
    &&& p.blocks.len() <= u64::MAX
    &&& forall|k: int| 0 <= k < p.blocks.len() ==> block_parts_shape(#[trigger] p.blocks[k])
}

/// The parts of a block have the lengths that their types give them.
pub open spec fn block_parts_shape(b: BlockModel) -> bool {
    &&& block_shape(b)
    &&& b.txs.len() <= u64::MAX
    &&& forall|i: int| 0 <= i < b.txs.len() ==> tx_shape(#[trigger] b.txs[i])
    &&& forall|i: int| 0 <= i < b.rewards.len() ==> reward_shape(#[trigger] b.rewards[i])
    &&& forall|i: int|
        0 <= i < b.unlocks.len() ==> (#[trigger] b.unlocks[i]).identifier.len() == 32
}

/// A block repeats transactions of earlier blocks only: the references that are
/// given point back, and where none are given no hash occurs twice in the block.
pub open spec fn refs_back(p: PacketModel, k: int) -> bool {
    let b = p.blocks[k];
    if b.refs.len() == b.txs.len() {
        forall|i: int|
            0 <= i < b.refs.len() ==> (#[trigger] b.refs[i] matches Some((block, place)) ==> block
                < k && place < p.blocks[block as int].txs.len())
    } else {
        forall|i: int, j: int|
            #![trigger b.txs[i], b.txs[j]]
            0 <= i < j < b.txs.len() ==> b.txs[i].identity != b.txs[j].identity
    }
}

/// A packet that can be read back: every sender has one base nonce, blocks repeat
/// earlier ones only, and exactly the blocks from the height `pos_from` on have a
/// PoS view.
pub open spec fn readable(p: PacketModel, pos_from: Option<u64>) -> bool {
    &&& packet_shape(p)
    &&& one_base(p.base_nonces)
    &&& forall|k: int| #![trigger p.blocks[k]] 0 <= k < p.blocks.len() ==> refs_back(p, k)
    &&& forall|k: int|
        0 <= k < p.blocks.len() ==> (#[trigger] p.blocks[k]).pos_view is Some == (
        pos_from matches Some(h) && p.blocks[k].height >= h)
}

/// The hashes seen before block `k`.
pub open spec fn seen_before(p: PacketModel, k: int) -> Map<Seq<u8>, (nat, nat)> {
    payloads(p, k)->Ok_0.1
}

/// The earlier transaction that transaction `i` of block `k` is written as.
pub open spec fn tx_ref(p: PacketModel, k: int, i: int) -> Option<(nat, nat)> {
    repeated(p.blocks[k], i, tx_items(p, p.blocks[k], seen_before(p, k), i)->Ok_0.1)
}

/// The transactions of block `k` as they are read back.
pub open spec fn kept_txs(p: PacketModel, k: int) -> Seq<TxModel>
    decreases k,
{
    Seq::new(
        p.blocks[k].txs.len(),
        |i: int|
            match tx_ref(p, k, i) {
                Some((block, place)) => if 0 <= block < k {
                    kept_txs(p, block as int)[place as int]
                } else {
                    kept_tx(p, p.blocks[k].txs[i])
                },
                None => kept_tx(p, p.blocks[k].txs[i]),
            },
    )
}

/// The references of block `k` as they are read back.
pub open spec fn kept_refs(p: PacketModel, k: int) -> Seq<Option<(nat, nat)>> {
    Seq::new(p.blocks[k].txs.len(), |i: int| tx_ref(p, k, i))
}

/// The payload of block `k`.
pub open spec fn load_of(p: PacketModel, k: int) -> Seq<u8> {
    payloads(p, p.blocks.len() as int)->Ok_0.0[k]
}

/// Block `k` as it is read back: the flags say how its payload is stored, its roots
/// are shortened, and its transactions carry explicit references.
pub open spec fn kept_block(p: PacketModel, k: int) -> BlockModel {
    let b = p.blocks[k];
    BlockModel {
        state_root: hash_prefix(b.state_root),
        receipts_root: hash_prefix(b.receipts_root),
        logs_bloom: hash_prefix(b.logs_bloom),
        flags: written_flags(b.flags, load_of(p, k)),
        txs: kept_txs(p, k),
        refs: kept_refs(p, k),
        ..b
    }
}

/// A packet as it is read back.
pub open spec fn kept_packet(p: PacketModel) -> PacketModel {
    PacketModel {
        min_pos_height: p.min_pos_height % 0x1_0000_0000,
        blocks: Seq::new(p.blocks.len(), |k: int| kept_block(p, k)),
        ..p
    }
}

/// What the check of a packet's blocks says of each.
pub proof fn lemma_groups(blocks: Seq<BlockModel>, start: int, k: int)
    requires
        0 <= start <= k < blocks.len(),
        groups_fault(blocks, start) is None,
    ensures
        blocks[k].index == k,
        !flag(blocks[k].flags, FLAG_RESERVED),
        next_pivot(blocks, k) is Some,
        blocks[k].epoch == blocks[next_pivot(blocks, k)->0].height,
    decreases blocks.len() - start,
{
    lemma_next_pivot(blocks, start);
    let last = next_pivot(blocks, start)->0;
    if k <= last {
        lemma_group(blocks, start, last, blocks[last].height, k);
        lemma_pivot_ahead(blocks, start, last, k);
    } else {
        lemma_groups(blocks, last + 1, k);
    }
}

proof fn lemma_group(blocks: Seq<BlockModel>, i: int, last: int, epoch: u64, k: int)
    requires
        group_fault(blocks, i, last, epoch) is None,
        i <= k <= last,
    ensures
        blocks[k].index == k,
        !flag(blocks[k].flags, FLAG_RESERVED),
        blocks[k].epoch == epoch,
    decreases last - i + 1,
{
    if i < k {
        lemma_group(blocks, i + 1, last, epoch, k);
    }
}

proof fn lemma_pivot_ahead(blocks: Seq<BlockModel>, start: int, last: int, k: int)
    requires
        0 <= start <= k <= last < blocks.len(),
        next_pivot(blocks, start) == Some(last),
    ensures
        next_pivot(blocks, k) == Some(last),
    decreases k - start,
{
    lemma_next_pivot(blocks, start);
    if start < k {
        assert(!flag(blocks[start].flags, FLAG_PIVOT));
        lemma_pivot_ahead(blocks, start + 1, last, k);
    }
}

/// The last block is a pivot block.
proof fn lemma_groups_last(blocks: Seq<BlockModel>, start: int)
    requires
        0 <= start < blocks.len(),
        groups_fault(blocks, start) is None,
    ensures
        flag(blocks.last().flags, FLAG_PIVOT),
    decreases blocks.len() - start,
{
    lemma_next_pivot(blocks, start);
    let last = next_pivot(blocks, start)->0;
    if last + 1 < blocks.len() {
        lemma_groups_last(blocks, last + 1);
    }
}

/// The places seen lie in blocks before `k`, or before transaction `i` of block `k`.
spec fn seen_ok(p: PacketModel, seen: Map<Seq<u8>, (nat, nat)>, k: int, i: int) -> bool {
    forall|h: Seq<u8>| #[trigger]
        seen.contains_key(h) ==> {
            let (block, place) = seen[h];
            &&& block <= k
            &&& block < k ==> place < p.blocks[block as int].txs.len()
                && p.blocks[block as int].txs[place as int].identity == h
            &&& block == k ==> place < i && p.blocks[k].txs[place as int].identity == h
        }
}

proof fn lemma_seen_items(
    p: PacketModel,
    k: int,
    seen: Map<Seq<u8>, (nat, nat)>,
    n: int,
)
    requires
        0 <= k < p.blocks.len(),
        p.blocks[k].index == k,
        0 <= n <= p.blocks[k].txs.len(),
        seen_ok(p, seen, k, 0),
        tx_items(p, p.blocks[k], seen, n) is Ok,
    ensures
        seen_ok(p, tx_items(p, p.blocks[k], seen, n)->Ok_0.1, k, n),
        tx_items(p, p.blocks[k], seen, n)->Ok_0.0.len() == n,
    decreases n,
{
    let b = p.blocks[k];
    if n > 0 {
        lemma_seen_items(p, k, seen, n - 1);
        let before = tx_items(p, b, seen, n - 1)->Ok_0.1;
        let after = tx_items(p, b, seen, n)->Ok_0.1;
        assert forall|h: Seq<u8>| #[trigger] after.contains_key(h) implies {
            let (block, place) = after[h];
            &&& block <= k
            &&& block < k ==> place < p.blocks[block as int].txs.len()
                && p.blocks[block as int].txs[place as int].identity == h
            &&& block == k ==> place < n && p.blocks[k].txs[place as int].identity == h
        } by {
            if before.contains_key(h) && after[h] == before[h] {
            } else {
                assert(h == b.txs[n - 1].identity);
            }
        }
    }
}

proof fn lemma_seen_before(p: PacketModel, k: int)
    requires
        0 <= k <= p.blocks.len(),
        groups_fault(p.blocks, 0) is None,
        payloads(p, k) is Ok,
    ensures
        seen_ok(p, seen_before(p, k), k, 0),
        payloads(p, k)->Ok_0.0.len() == k,
    decreases k,
{
    if k > 0 {
        lemma_seen_before(p, k - 1);
        lemma_groups(p.blocks, 0, k - 1);
        let b = p.blocks[k - 1];
        let seen = seen_before(p, k - 1);
        let n = b.txs.len() as int;
        lemma_seen_items(p, k - 1, seen, n);
        let after = tx_items(p, b, seen, n)->Ok_0.1;
        assert(seen_before(p, k) == after);
        assert forall|h: Seq<u8>| #[trigger] after.contains_key(h) implies {
            let (block, place) = after[h];
            &&& block <= k
            &&& block < k ==> place < p.blocks[block as int].txs.len()
                && p.blocks[block as int].txs[place as int].identity == h
            &&& block == k ==> place < 0 && p.blocks[k].txs[place as int].identity == h
        } by {}
    }
}

pub proof fn lemma_payloads_prefix(p: PacketModel, k: int, n: int)
    requires
        0 <= k <= n,
        payloads(p, n) is Ok,
    ensures
        payloads(p, k) is Ok,
        payloads(p, k)->Ok_0.0.len() == k,
        payloads(p, n)->Ok_0.0.len() == n,
        forall|i: int|
            0 <= i < k ==> payloads(p, n)->Ok_0.0[i] == #[trigger] payloads(p, k)->Ok_0.0[i],
    decreases n,
{
    lemma_payloads_len(p, k);
    lemma_payloads_len(p, n);
    if k < n {
        lemma_payloads_prefix(p, k, n - 1);
    }
}

/// The references of a block point to earlier blocks.
proof fn lemma_tx_ref(p: PacketModel, k: int, i: int)
    requires
        0 <= k < p.blocks.len(),
        0 <= i < p.blocks[k].txs.len(),
        groups_fault(p.blocks, 0) is None,
        refs_back(p, k),
        payloads(p, k) is Ok,
        tx_items(p, p.blocks[k], seen_before(p, k), i) is Ok,
    ensures
        tx_ref(p, k, i) matches Some((block, place)) ==> block < k && place
            < p.blocks[block as int].txs.len() && (p.blocks[k].refs.len() != p.blocks[k].txs.len()
            ==> p.blocks[block as int].txs[place as int].identity
            == p.blocks[k].txs[i].identity),
{
    let b = p.blocks[k];
    lemma_groups(p.blocks, 0, k);
    lemma_seen_before(p, k);
    lemma_seen_items(p, k, seen_before(p, k), i);
    let seen = tx_items(p, b, seen_before(p, k), i)->Ok_0.1;
    if b.refs.len() == b.txs.len() {
        assert(b.refs[i] == tx_ref(p, k, i));
    } else if seen.contains_key(b.txs[i].identity) {
        let (block, place) = seen[b.txs[i].identity];
        if block == k {
            assert(b.txs[place as int].identity == b.txs[i].identity);
            assert(b.txs[place as int].identity != b.txs[i].identity);
        }
    }
}

proof fn lemma_tx_items_ok(p: PacketModel, b: BlockModel, seen: Map<Seq<u8>, (nat, nat)>, i: int, n: int)
    requires
        0 <= i <= n,
        tx_items(p, b, seen, n) is Ok,
    ensures
        tx_items(p, b, seen, i) is Ok,
        tx_items(p, b, seen, n)->Ok_0.0.len() == n,
        tx_items(p, b, seen, i)->Ok_0.0.len() == i,
        forall|j: int|
            0 <= j < i ==> tx_items(p, b, seen, n)->Ok_0.0[j] == #[trigger] tx_items(
                p,
                b,
                seen,
                i,
            )->Ok_0.0[j],
    decreases n,
{
    lemma_tx_items_len(p, b, seen, n);
    if i < n {
        lemma_tx_items_ok(p, b, seen, i, n - 1);
    }
}

proof fn lemma_tx_items_len(p: PacketModel, b: BlockModel, seen: Map<Seq<u8>, (nat, nat)>, n: int)
    requires
        0 <= n,
        tx_items(p, b, seen, n) is Ok,
    ensures
        tx_items(p, b, seen, n)->Ok_0.0.len() == n,
    decreases n,
{
    if n > 0 {
        lemma_tx_items_len(p, b, seen, n - 1);
    }
}

/// The first `n` items of a payload depend on those items alone.
proof fn lemma_load_items_prefix(
    a: Seq<Seq<u8>>,
    b: Seq<Seq<u8>>,
    n: int,
    epoch: u64,
    c: TxContext,
    previous: Seq<Seq<TxModel>>,
)
    requires
        0 <= n <= a.len(),
        n <= b.len(),
        forall|i: int| 0 <= i < n ==> #[trigger] a[i] == b[i],
    ensures
        load_items(a, n, epoch, c, previous) == load_items(b, n, epoch, c, previous),
    decreases n,
{
    if n > 0 {
        lemma_load_items_prefix(a, b, n - 1, epoch, c, previous);
        assert(a[n - 1] == b[n - 1]);
    }
}

/// One item more is read after those before it.
proof fn lemma_load_push(
    before: Seq<Seq<u8>>,
    raw: Seq<u8>,
    done: LoadModel,
    next: LoadModel,
    epoch: u64,
    c: TxContext,
    previous: Seq<Seq<TxModel>>,
)
    requires
        all_framed(before),
        framed(raw),
        load_items(before, before.len() as int, epoch, c, previous) == Ok::<LoadModel, PackError>(
            done,
        ),
        load_item(done, raw, epoch, c, previous) == Ok::<LoadModel, PackError>(next),
    ensures
        all_framed(before.push(raw)),
        load_items(before.push(raw), before.len() as int + 1, epoch, c, previous) == Ok::<
            LoadModel,
            PackError,
        >(next),
{
    let items = before.push(raw);
    lemma_load_items_prefix(before, items, before.len() as int, epoch, c, previous);
    assert forall|i: int| 0 <= i < items.len() implies framed(#[trigger] items[i]) by {
        if i < before.len() {
            assert(items[i] == before[i]);
        }
    }
}

/// The transactions of the blocks before `k` as they are read back.
pub open spec fn kept_before(p: PacketModel, k: int) -> Seq<Seq<TxModel>> {
    Seq::new(k as nat, |i: int| kept_txs(p, i))
}

/// Transaction `i` of a block is read back.
#[verifier::rlimit(40)]
proof fn lemma_one_tx(p: PacketModel, k: int, i: int, done: LoadModel)
    requires
        0 <= k < p.blocks.len(),
        packet_shape(p),
        one_base(p.base_nonces),
        groups_fault(p.blocks, 0) is None,
        refs_back(p, k),
        payloads(p, k) is Ok,
        0 <= i < p.blocks[k].txs.len(),
        tx_items(p, p.blocks[k], seen_before(p, k), i) is Ok,
        tx_items(p, p.blocks[k], seen_before(p, k), i + 1) is Ok,
    ensures
        ({
            let before = tx_items(p, p.blocks[k], seen_before(p, k), i)->Ok_0.0;
            let items = tx_items(p, p.blocks[k], seen_before(p, k), i + 1)->Ok_0.0;
            let raw = items.last();
            &&& items == before.push(raw)
            &&& framed(raw)
            &&& load_item(done, raw, p.blocks[k].epoch, tx_context(p), kept_before(p, k)) == Ok::<
                LoadModel,
                PackError,
            >(
                LoadModel {
                    txs: done.txs.push(kept_txs(p, k)[i]),
                    refs: done.refs.push(tx_ref(p, k, i)),
                    ..done
                },
            )
        }),
{
    let b = p.blocks[k];
    let previous = kept_before(p, k);
    lemma_tx_ref(p, k, i);
    assert(block_parts_shape(p.blocks[k]));
    assert(tx_shape(b.txs[i]));
    match tx_ref(p, k, i) {
        Some((block, place)) => {
            assert(block_parts_shape(p.blocks[block as int]));
            lemma_ref(block, place);
            assert(previous[block as int] == kept_txs(p, block as int));
            assert(kept_txs(p, block as int).len() == p.blocks[block as int].txs.len());
            assert(earlier_tx(previous, block, place) == Ok::<TxModel, PackError>(
                kept_txs(p, k)[i],
            ));
        },
        None => {
            lemma_tx(p, b.epoch, b.txs[i]);
        },
    }
}

/// The first `n` transactions of a block are read back.
#[verifier::rlimit(40)]
proof fn lemma_load_txs(p: PacketModel, k: int, n: int)
    requires
        0 <= k < p.blocks.len(),
        packet_shape(p),
        one_base(p.base_nonces),
        groups_fault(p.blocks, 0) is None,
        refs_back(p, k),
        payloads(p, k) is Ok,
        0 <= n <= p.blocks[k].txs.len(),
        tx_items(p, p.blocks[k], seen_before(p, k), n) is Ok,
    ensures
        ({
            let items = tx_items(p, p.blocks[k], seen_before(p, k), n)->Ok_0.0;
            &&& items.len() == n
            &&& all_framed(items)
            &&& load_items(items, n, p.blocks[k].epoch, tx_context(p), kept_before(p, k)) == Ok::<
                LoadModel,
                PackError,
            >(
                LoadModel {
                    txs: kept_txs(p, k).take(n),
                    refs: kept_refs(p, k).take(n),
                    rewards: Seq::empty(),
                    unlocks: Seq::empty(),
                },
            )
        }),
    decreases n,
{
    let txs = kept_txs(p, k);
    let refs = kept_refs(p, k);
    if n == 0 {
        assert(txs.take(0) =~= Seq::empty());
        assert(refs.take(0) =~= Seq::empty());
    } else {
        lemma_load_txs(p, k, n - 1);
        let before = tx_items(p, p.blocks[k], seen_before(p, k), n - 1)->Ok_0.0;
        let items = tx_items(p, p.blocks[k], seen_before(p, k), n)->Ok_0.0;
        let done = LoadModel {
            txs: txs.take(n - 1),
            refs: refs.take(n - 1),
            rewards: Seq::empty(),
            unlocks: Seq::empty(),
        };
        lemma_one_tx(p, k, n - 1, done);
        assert(txs.take(n) =~= txs.take(n - 1).push(txs[n - 1]));
        assert(refs.take(n) =~= refs.take(n - 1).push(refs[n - 1]));
        lemma_load_push(
            before,
            items.last(),
            done,
            LoadModel { txs: txs.take(n), refs: refs.take(n), ..done },
            p.blocks[k].epoch,
            tx_context(p),
            kept_before(p, k),
        );
    }
}

/// The interest distributions of a block are read back.
proof fn lemma_load_rewards(
    p: PacketModel,
    k: int,
    head: Seq<Seq<u8>>,
    start: LoadModel,
    n: int,
)
    requires
        0 <= k < p.blocks.len(),
        packet_shape(p),
        0 <= n <= p.blocks[k].rewards.len(),
        reward_items(p.blocks[k].rewards, n) is Ok,
        all_framed(head),
        start.rewards.len() == 0,
        load_items(head, head.len() as int, p.blocks[k].epoch, tx_context(p), kept_before(p, k))
            == Ok::<LoadModel, PackError>(start),
    ensures
        ({
            let items = head + reward_items(p.blocks[k].rewards, n)->Ok_0;
            &&& reward_items(p.blocks[k].rewards, n)->Ok_0.len() == n
            &&& all_framed(items)
            &&& load_items(
                items,
                items.len() as int,
                p.blocks[k].epoch,
                tx_context(p),
                kept_before(p, k),
            ) == Ok::<LoadModel, PackError>(
                LoadModel { rewards: p.blocks[k].rewards.take(n), ..start },
            )
        }),
    decreases n,
{
    let b = p.blocks[k];
    let list = b.rewards;
    let rs = reward_items(list, n)->Ok_0;
    let items = head + rs;
    if n == 0 {
        assert(items =~= head);
        assert(list.take(0) =~= start.rewards);
    } else {
        lemma_load_rewards(p, k, head, start, n - 1);
        let before = head + reward_items(list, n - 1)->Ok_0;
        let raw = reward_item(list[n - 1])->Ok_0;
        assert(items =~= before.push(raw));
        assert(block_parts_shape(p.blocks[k]));
        assert(reward_shape(list[n - 1]));
        lemma_reward(list[n - 1]);
        assert(list.take(n) =~= list.take(n - 1).push(list[n - 1]));
        lemma_load_push(
            before,
            raw,
            LoadModel { rewards: list.take(n - 1), ..start },
            LoadModel { rewards: list.take(n), ..start },
            b.epoch,
            tx_context(p),
            kept_before(p, k),
        );
    }
}

/// The unlockings of a block are read back.
proof fn lemma_load_unlocks(
    p: PacketModel,
    k: int,
    head: Seq<Seq<u8>>,
    start: LoadModel,
    n: int,
)
    requires
        0 <= k < p.blocks.len(),
        packet_shape(p),
        0 <= n <= p.blocks[k].unlocks.len(),
        unlock_items(p.blocks[k].unlocks, n) is Ok,
        all_framed(head),
        start.unlocks.len() == 0,
        load_items(head, head.len() as int, p.blocks[k].epoch, tx_context(p), kept_before(p, k))
            == Ok::<LoadModel, PackError>(start),
    ensures
        ({
            let items = head + unlock_items(p.blocks[k].unlocks, n)->Ok_0;
            &&& unlock_items(p.blocks[k].unlocks, n)->Ok_0.len() == n
            &&& all_framed(items)
            &&& load_items(
                items,
                items.len() as int,
                p.blocks[k].epoch,
                tx_context(p),
                kept_before(p, k),
            ) == Ok::<LoadModel, PackError>(
                LoadModel { unlocks: p.blocks[k].unlocks.take(n), ..start },
            )
        }),
    decreases n,
{
    let b = p.blocks[k];
    let list = b.unlocks;
    let us = unlock_items(list, n)->Ok_0;
    let items = head + us;
    if n == 0 {
        assert(items =~= head);
        assert(list.take(0) =~= start.unlocks);
    } else {
        lemma_load_unlocks(p, k, head, start, n - 1);
        let before = head + unlock_items(list, n - 1)->Ok_0;
        let raw = fit_list(unlock_fields(list[n - 1]))->Ok_0;
        assert(items =~= before.push(raw));
        assert(block_parts_shape(p.blocks[k]));
        assert(list[n - 1].identifier.len() == 32);
        lemma_unlock(list[n - 1]);
        assert(list.take(n) =~= list.take(n - 1).push(list[n - 1]));
        lemma_load_push(
            before,
            raw,
            LoadModel { unlocks: list.take(n - 1), ..start },
            LoadModel { unlocks: list.take(n), ..start },
            b.epoch,
            tx_context(p),
            kept_before(p, k),
        );
    }
}

/// What the payload of block `k` holds when it is read back.
pub open spec fn kept_load(p: PacketModel, k: int) -> LoadModel {
    LoadModel {
        txs: kept_txs(p, k),
        refs: kept_refs(p, k),
        rewards: p.blocks[k].rewards,
        unlocks: p.blocks[k].unlocks,
    }
}

/// The payload of a block is read back from its items.
proof fn lemma_load(p: PacketModel, k: int)
    requires
        0 <= k < p.blocks.len(),
        packet_shape(p),
        one_base(p.base_nonces),
        groups_fault(p.blocks, 0) is None,
        refs_back(p, k),
        payloads(p, k) is Ok,
        payload(p, p.blocks[k], seen_before(p, k)) is Ok,
    ensures
        ({
            let b = p.blocks[k];
            let bytes = payload(p, b, seen_before(p, k))->Ok_0.0;
            if bytes.len() == 0 {
                b.txs.len() == 0 && b.rewards.len() == 0 && b.unlocks.len() == 0
            } else {
                &&& items_of(bytes) matches Ok(items) && load_items(
                    items,
                    items.len() as int,
                    b.epoch,
                    tx_context(p),
                    kept_before(p, k),
                ) == Ok::<LoadModel, PackError>(kept_load(p, k))
            }
        }),
{
    let b = p.blocks[k];
    let seen = seen_before(p, k);
    let n = b.txs.len() as int;
    lemma_load_txs(p, k, n);
    let txs = tx_items(p, b, seen, n)->Ok_0.0;
    let start = load_items(txs, n, b.epoch, tx_context(p), kept_before(p, k))->Ok_0;
    let rn = b.rewards.len() as int;
    lemma_load_rewards(p, k, txs, start, rn);
    let with_rewards = txs + reward_items(b.rewards, rn)->Ok_0;
    let un = b.unlocks.len() as int;
    let middle = LoadModel { rewards: b.rewards.take(rn), ..start };
    lemma_load_unlocks(p, k, with_rewards, middle, un);
    let items = with_rewards + unlock_items(b.unlocks, un)->Ok_0;
    assert(payload_items(p, b, seen)->Ok_0.0 == items);
    assert(kept_txs(p, k).take(n) =~= kept_txs(p, k));
    assert(kept_refs(p, k).take(n) =~= kept_refs(p, k));
    assert(b.rewards.take(rn) =~= b.rewards);
    assert(b.unlocks.take(un) =~= b.unlocks);
    if items.len() > 0 {
        lemma_fit(items);
        crate::cfxpack::rlp_form::lemma_framed_info(fit_list(items)->Ok_0, Seq::empty());
    }
}

/// A longer transaction segment starts with a shorter one.
proof fn lemma_segment_prefix(loads: Seq<Seq<u8>>, m: int, n: int) -> (rest: Seq<u8>)
    requires
        0 <= m <= n <= loads.len(),
    ensures
        segment(loads, n) == segment(loads, m) + rest,
    decreases n,
{
    if m == n {
        assert(segment(loads, n) =~= segment(loads, m) + Seq::<u8>::empty());
        Seq::empty()
    } else {
        let before = lemma_segment_prefix(loads, m, n - 1);
        if loads[n - 1].len() == 0 {
            before
        } else {
            let body = stored(loads[n - 1]);
            let s1 = segment(loads, n - 1);
            let pad = zeros(((4 - s1.len() % 4) % 4) as nat);
            let rest = before + (pad + uleb(body.len()) + body);
            assert(segment(loads, n) =~= segment(loads, m) + rest);
            rest
        }
    }
}

/// Every payload stands at its place in the transaction segment, behind its length.
proof fn lemma_segment_place(loads: Seq<Seq<u8>>, k: int, n: int) -> (rest: Seq<u8>)
    requires
        0 <= k < n <= loads.len(),
        loads[k].len() > 0,
    ensures
        4 * tx_place(loads, k) <= segment(loads, n).len(),
        segment(loads, n).skip(4 * tx_place(loads, k) as int) == uleb(stored(loads[k]).len()) + (stored(
            loads[k],
        ) + rest),
{
    let rest = lemma_segment_prefix(loads, k + 1, n);
    let head = aligned(segment(loads, k), 4);
    let body = stored(loads[k]);
    assert(head.len() % 4 == 0);
    assert(4 * tx_place(loads, k) == head.len());
    lemma_assoc(head, uleb(body.len()), body);
    lemma_assoc(head, uleb(body.len()) + body, rest);
    lemma_assoc(uleb(body.len()), body, rest);
    lemma_skip_head(head, uleb(body.len()) + (body + rest));
    rest
}

/// The flags that are written say how the payload is stored, and keep the others.
proof fn lemma_flags(flags: u8, load: Seq<u8>)
    ensures
        flag(written_flags(flags, load), FLAG_HAS_TRANSACTIONS) == (load.len() > 0),
        flag(written_flags(flags, load), FLAG_TX_COMPRESSED) == (load.len() > COMPRESS_ABOVE),
        flag(written_flags(flags, load), FLAG_PIVOT) == flag(flags, FLAG_PIVOT),
        flag(written_flags(flags, load), FLAG_RESERVED) == flag(flags, FLAG_RESERVED),
        written_flags(written_flags(flags, load), load) == written_flags(flags, load),
{
    let a = flags as int % 8;
    let m = (flags as int / 8) % 4;
    let c = flags as int / 32;
    assert(flags == 32 * c + 8 * m + a);
    let x = if load.len() == 0 {
        0int
    } else if load.len() > COMPRESS_ABOVE {
        24
    } else {
        8
    };
    let w = written_flags(flags, load);
    assert(cleared(flags) == 32 * c + a);
    assert(w == 32 * c + a + x);
    assert(w / 8 == 4 * c + x / 8);
    assert(w / 16 == 2 * c + x / 16);
    assert(w / 2 == 16 * c + x / 2 + a / 2);
    assert(flags / 2 == 16 * c + 4 * m + a / 2);
    assert(w / 128 == c / 4);
    assert(flags / 128 == c / 4);
    assert(w as int / 32 == c && w as int % 8 == a);
    assert(cleared(w) == 32 * c + a);
}

/// The payload of block `k` is found at its place.
proof fn lemma_payload_at(data: Seq<u8>, start: int, loads: Seq<Seq<u8>>, k: int, n: int, flags: u8)
    requires
        0 <= start <= data.len(),
        data.len() <= u64::MAX,
        data.skip(start) == segment(loads, n),
        0 <= k < n <= loads.len(),
        loads[k].len() > 0,
        restorable(loads, n),
        flag(flags, FLAG_TX_COMPRESSED) == (loads[k].len() > COMPRESS_ABOVE),
    ensures
        tx_place(loads, k) <= u64::MAX,
        payload_at(data, start, tx_place(loads, k) as u64, flags) == Ok::<Seq<u8>, PackError>(
            loads[k],
        ),
{
    let rest = lemma_segment_place(loads, k, n);
    let body = stored(loads[k]);
    let place = tx_place(loads, k);
    let at = start + place * 4;
    assert(data.skip(start).len() == data.len() - start);
    assert(data.skip(at) =~= data.skip(start).skip(4 * place as int));
    lemma_uleb_roundtrip(body.len(), Seq::empty());
    assert(data.skip(at).len() == uleb(body.len()).len() + body.len() + rest.len());
    law_uleb(body.len() as u64, body + rest);
    lemma_skip_head(body, rest);
}

/// The records of a packet, one by one.
pub(crate) proof fn lemma_records(p: PacketModel, loads: Seq<Seq<u8>>, n: int, k: int)
    requires
        0 <= k < n,
        records(p, loads, n) is Ok,
    ensures
        records(p, loads, n)->Ok_0.len() == n,
        record_fault(p, p.blocks[k]) is None,
        records(p, loads, n)->Ok_0[k] == record_bytes(
            p,
            p.blocks[k],
            written_flags(p.blocks[k].flags, loads[k]),
            tx_place(loads, k),
        ),
    decreases n,
{
    reveal(encode_record);
    lemma_records_len(p, loads, n);
    if k < n - 1 {
        lemma_records(p, loads, n - 1, k);
    }
}

pub proof fn lemma_records_len(p: PacketModel, loads: Seq<Seq<u8>>, n: int)
    requires
        0 <= n,
        records(p, loads, n) is Ok,
    ensures
        records(p, loads, n)->Ok_0.len() == n,
    decreases n,
{
    if n > 0 {
        lemma_records_len(p, loads, n - 1);
    }
}

/// A packet that can be read back, with its payloads and records.
#[verifier::opaque]
pub open spec fn written(
    p: PacketModel,
    pos_from: Option<u64>,
    loads: Seq<Seq<u8>>,
    recs: Seq<Seq<u8>>,
) -> bool {
    let n = p.blocks.len() as int;
    &&& readable(p, pos_from)
    &&& input_fault(p) is None
    &&& payloads(p, n) is Ok
    &&& loads == payloads(p, n)->Ok_0.0
    &&& restorable(loads, n)
    &&& records(p, loads, n) == Ok::<Seq<Seq<u8>>, PackError>(recs)
    &&& offsets(sections(p, recs))[7] <= u32::MAX
    &&& packet_bytes(p, recs, segment(loads, n)).len() <= u64::MAX
}

/// What the records of a packet are read against.
pub open spec fn record_context(p: PacketModel, pos_from: Option<u64>) -> RecordContext {
    RecordContext {
        min_timestamp: p.min_timestamp,
        min_height: p.min_height,
        addresses: p.addresses,
        difficulties: p.difficulties,
        pos_from,
    }
}

/// The places of the payloads of a packet.
spec fn places(loads: Seq<Seq<u8>>) -> Seq<u64> {
    Seq::new(loads.len(), |k: int| tx_place(loads, k) as u64)
}

/// The record of block `k` is read back.
proof fn lemma_record(
    p: PacketModel,
    pos_from: Option<u64>,
    loads: Seq<Seq<u8>>,
    recs: Seq<Seq<u8>>,
    k: int,
)
    requires
        written(p, pos_from, loads, recs),
        0 <= k < p.blocks.len(),
    ensures
        ({
            let b = p.blocks[k];
            let s = padded(recs[k], prefix_size(recs));
            &&& loads.len() == p.blocks.len()
            &&& recs.len() == p.blocks.len()
            &&& tx_place(loads, k) <= u64::MAX
            &&& recs[k].len() <= u64::MAX
            &&& record_tx_offset(s) == Ok::<u64, PackError>(places(loads)[k])
            &&& decode_record(s, k as nat, record_context(p, pos_from)) == Ok::<
                BlockModel,
                PackError,
            >(record_block(b, written_flags(b.flags, loads[k]), k as nat))
        }),
{
    reveal(written);
    let n = p.blocks.len() as int;
    let seg = segment(loads, n);
    let data = packet_bytes(p, recs, seg);
    lemma_payloads_len(p, n);
    lemma_records(p, loads, n, k);
    let b = p.blocks[k];
    lemma_fixed_fields(p, recs, seg);
    assert(data.skip(125).len() == data.len() - 125);
    if loads[k].len() > 0 {
        let rest = lemma_segment_place(loads, k, n);
    }
    assert(block_parts_shape(p.blocks[k]));
    assert(b.pos_view is Some == (pos_from matches Some(h) && b.height >= h));
    lemma_record_size(p, recs, seg, k);
    let size = prefix_size(recs);
    let r = recs[k];
    let pad = if r.len() > size {
        Seq::empty()
    } else {
        zeros((size - r.len()) as nat)
    };
    assert(padded(r, size) =~= r + pad);
    law_record(
        p,
        b,
        written_flags(b.flags, loads[k]),
        tx_place(loads, k) as u64,
        pad,
        k as nat,
        pos_from,
    );
}

/// A record is no longer than the packet that holds it.
proof fn lemma_record_size(p: PacketModel, recs: Seq<Seq<u8>>, seg: Seq<u8>, k: int)
    requires
        tables_shape(p),
        0 <= k < recs.len(),
    ensures
        recs[k].len() <= packet_bytes(p, recs, seg).len() + 96,
        recs[k].len() <= sections(p, recs).body.len() + 96,
{
    let n = prefix_size(recs);
    lemma_fixed_fields(p, recs, seg);
    crate::cfxpack::roundtrip_tables::lemma_section_order(p, recs);
    lemma_overflow_size(recs, n, 0, k);
    let data = packet_bytes(p, recs, seg);
    assert(data.skip(125).len() == data.len() - 125);
}

proof fn lemma_overflow_size(recs: Seq<Seq<u8>>, n: nat, i: int, k: int)
    requires
        0 <= i <= k < recs.len(),
        n <= 96,
    ensures
        recs[k].len() <= crate::cfxpack::body::overflow_from(recs, n, i).len() + 96,
    decreases k - i,
{
    if i < k {
        lemma_overflow_size(recs, n, i + 1, k);
    }
}

/// The blocks of a packet as their records give them.
spec fn bare_of(p: PacketModel, loads: Seq<Seq<u8>>) -> Seq<BlockModel> {
    Seq::new(
        p.blocks.len(),
        |k: int| record_block(p.blocks[k], written_flags(p.blocks[k].flags, loads[k]), k as nat),
    )
}

proof fn lemma_bare(
    p: PacketModel,
    pos_from: Option<u64>,
    loads: Seq<Seq<u8>>,
    recs: Seq<Seq<u8>>,
    read: Seq<RecordModel>,
    n: int,
)
    requires
        written(p, pos_from, loads, recs),
        0 <= n <= p.blocks.len(),
        read.len() == p.blocks.len(),
        forall|k: int|
            0 <= k < read.len() ==> (#[trigger] read[k]).bytes == padded(
                recs[k],
                prefix_size(recs),
            ),
    ensures
        bare_blocks(read, record_context(p, pos_from), n) == Ok::<Seq<BlockModel>, PackError>(
            bare_of(p, loads).take(n),
        ),
    decreases n,
{
    let all = bare_of(p, loads);
    if n == 0 {
        assert(all.take(0) =~= Seq::empty());
    } else {
        lemma_bare(p, pos_from, loads, recs, read, n - 1);
        lemma_record(p, pos_from, loads, recs, n - 1);
        assert(read[n - 1].bytes == padded(recs[n - 1], prefix_size(recs)));
        assert(all.take(n) =~= all.take(n - 1).push(all[n - 1]));
    }
}

/// The blocks of a packet without their payloads.
spec fn plain_of(p: PacketModel, loads: Seq<Seq<u8>>) -> Seq<BlockModel> {
    Seq::new(
        p.blocks.len(),
        |k: int| BlockModel { epoch: p.blocks[k].epoch, ..bare_of(p, loads)[k] },
    )
}

proof fn lemma_same_next_pivot(a: Seq<BlockModel>, b: Seq<BlockModel>, i: int)
    requires
        a.len() == b.len(),
        0 <= i,
        forall|k: int|
            0 <= k < a.len() ==> flag((#[trigger] a[k]).flags, FLAG_PIVOT) == flag(
                b[k].flags,
                FLAG_PIVOT,
            ),
    ensures
        next_pivot(a, i) == next_pivot(b, i),
    decreases a.len() - i,
{
    if i < a.len() {
        assert(flag(a[i].flags, FLAG_PIVOT) == flag(b[i].flags, FLAG_PIVOT));
        lemma_same_next_pivot(a, b, i + 1);
    }
}

/// The epochs are those of the blocks that were written.
proof fn lemma_epochs(p: PacketModel, loads: Seq<Seq<u8>>)
    requires
        input_fault(p) is None,
        loads.len() == p.blocks.len(),
    ensures
        with_epochs(bare_of(p, loads)) == Ok::<Seq<BlockModel>, PackError>(plain_of(p, loads)),
{
    let bare = bare_of(p, loads);
    assert forall|k: int| 0 <= k < bare.len() implies flag((#[trigger] bare[k]).flags, FLAG_PIVOT)
        == flag(p.blocks[k].flags, FLAG_PIVOT) by {
        lemma_flags(p.blocks[k].flags, loads[k]);
    }
    lemma_groups_last(p.blocks, 0);
    let n = bare.len() - 1;
    assert(flag(bare[n].flags, FLAG_PIVOT) == flag(p.blocks[n].flags, FLAG_PIVOT));
    let got = with_epochs(bare)->Ok_0;
    assert forall|k: int| 0 <= k < bare.len() implies got[k] == plain_of(p, loads)[k] by {
        lemma_groups(p.blocks, 0, k);
        lemma_same_next_pivot(bare, p.blocks, k);
        lemma_next_pivot(p.blocks, k);
        let j = next_pivot(p.blocks, k)->0;
        assert(bare[j].height == p.blocks[j].height);
    }
    assert(got =~= plain_of(p, loads));
}

/// The blocks, of which the first `n` are as they are read back.
spec fn partly_kept(p: PacketModel, loads: Seq<Seq<u8>>, n: int) -> Seq<BlockModel> {
    Seq::new(
        p.blocks.len(),
        |k: int|
            if k < n {
                kept_block(p, k)
            } else {
                plain_of(p, loads)[k]
            },
    )
}

/// The payload of block `k` is read back.
#[verifier::rlimit(40)]
proof fn lemma_one_load(
    p: PacketModel,
    pos_from: Option<u64>,
    loads: Seq<Seq<u8>>,
    recs: Seq<Seq<u8>>,
    k: int,
)
    requires
        written(p, pos_from, loads, recs),
        0 <= k < p.blocks.len(),
    ensures
        ({
            let b = p.blocks[k];
            let data = packet_bytes(p, recs, segment(loads, p.blocks.len() as int));
            &&& load_of(p, k) == loads[k]
            &&& loads[k].len() == 0 ==> b.txs.len() == 0 && b.rewards.len() == 0 && b.unlocks.len()
                == 0
            &&& loads[k].len() > 0 ==> load_payload(
                data,
                offset_of(data, 7) as int,
                places(loads)[k],
                written_flags(b.flags, loads[k]),
                b.epoch,
                tx_context(p),
                kept_before(p, k),
            ) == Ok::<LoadModel, PackError>(kept_load(p, k))
        }),
{
    reveal(written);
    reveal(load_payload);
    let total = p.blocks.len() as int;
    let seg = segment(loads, total);
    let data = packet_bytes(p, recs, seg);
    let b = p.blocks[k];
    let load = loads[k];
    lemma_payloads_len(p, total);
    lemma_payloads_prefix(p, k + 1, total);
    lemma_payloads_prefix(p, k, total);
    assert(load == payloads(p, k + 1)->Ok_0.0[k]);
    assert(payload(p, b, seen_before(p, k)) is Ok);
    assert(load == payload(p, b, seen_before(p, k))->Ok_0.0);
    assert(refs_back(p, k)) by {
        assert(p.blocks[k] == b);
    }
    lemma_load(p, k);
    lemma_flags(b.flags, load);
    if load.len() > 0 {
        lemma_records_len(p, loads, total);
        lemma_count(p, recs);
        lemma_block_area(p, recs, seg);
        lemma_payload_at(
            data,
            offset_of(data, 7) as int,
            loads,
            k,
            total,
            written_flags(b.flags, load),
        );
    }
}

/// Block `k` with its payload, or without one where it has none, is the block as it is
/// read back.
proof fn lemma_plain(p: PacketModel, loads: Seq<Seq<u8>>, k: int)
    requires
        groups_fault(p.blocks, 0) is None,
        loads.len() == p.blocks.len(),
        0 <= k < p.blocks.len(),
        load_of(p, k) == loads[k],
        loads[k].len() == 0 ==> p.blocks[k].txs.len() == 0 && p.blocks[k].rewards.len() == 0
            && p.blocks[k].unlocks.len() == 0,
    ensures
        ({
            let here = plain_of(p, loads)[k];
            &&& here.epoch == p.blocks[k].epoch
            &&& here.flags == written_flags(p.blocks[k].flags, loads[k])
            &&& with_load(here, kept_load(p, k)) == kept_block(p, k)
            &&& loads[k].len() == 0 ==> here == kept_block(p, k)
        }),
{
    let here = plain_of(p, loads)[k];
    let b = p.blocks[k];
    lemma_groups(p.blocks, 0, k);
    if loads[k].len() == 0 {
        assert(kept_txs(p, k) =~= here.txs);
        assert(kept_refs(p, k) =~= here.refs);
        assert(b.rewards =~= here.rewards);
        assert(b.unlocks =~= here.unlocks);
    }
}

/// One block more gets its payload.
proof fn lemma_load_step(
    data: Seq<u8>,
    blocks: Seq<BlockModel>,
    read: Seq<RecordModel>,
    c: TxContext,
    n: int,
    done: Seq<BlockModel>,
    l: LoadModel,
)
    requires
        n > 0,
        loaded_blocks(data, blocks, read, c, n - 1) == Ok::<Seq<BlockModel>, PackError>(done),
        flag(done[n - 1].flags, FLAG_HAS_TRANSACTIONS) ==> load_payload(
            data,
            offset_of(data, 7) as int,
            read[n - 1].offset,
            done[n - 1].flags,
            done[n - 1].epoch,
            c,
            txs_before(done, n - 1),
        ) == Ok::<LoadModel, PackError>(l),
    ensures
        loaded_blocks(data, blocks, read, c, n) == Ok::<Seq<BlockModel>, PackError>(
            if flag(done[n - 1].flags, FLAG_HAS_TRANSACTIONS) {
                done.update(n - 1, with_load(done[n - 1], l))
            } else {
                done
            },
        ),
{
}

/// The blocks of which one more is as it is read back.
proof fn lemma_partly(p: PacketModel, loads: Seq<Seq<u8>>, k: int)
    requires
        0 <= k < p.blocks.len(),
        loads.len() == p.blocks.len(),
    ensures
        partly_kept(p, loads, k)[k] == plain_of(p, loads)[k],
        partly_kept(p, loads, k).update(k, kept_block(p, k)) == partly_kept(p, loads, k + 1),
        txs_before(partly_kept(p, loads, k), k) == kept_before(p, k),
{
    let done = partly_kept(p, loads, k);
    assert(done.update(k, kept_block(p, k)) =~= partly_kept(p, loads, k + 1));
    assert(txs_before(done, k) =~= kept_before(p, k)) by {
        assert forall|i: int| 0 <= i < k implies txs_before(done, k)[i] == kept_before(p, k)[i] by {
            assert(done[i] == kept_block(p, i));
        }
    }
}

/// The payloads of the blocks are read back.
proof fn lemma_loaded(
    p: PacketModel,
    pos_from: Option<u64>,
    loads: Seq<Seq<u8>>,
    recs: Seq<Seq<u8>>,
    read: Seq<RecordModel>,
    n: int,
)
    requires
        written(p, pos_from, loads, recs),
        groups_fault(p.blocks, 0) is None,
        loads.len() == p.blocks.len(),
        0 <= n <= p.blocks.len(),
        read.len() == p.blocks.len(),
        forall|k: int|
            0 <= k < read.len() ==> (#[trigger] read[k]).offset == places(loads)[k],
    ensures
        loaded_blocks(
            packet_bytes(p, recs, segment(loads, p.blocks.len() as int)),
            plain_of(p, loads),
            read,
            tx_context(p),
            n,
        ) == Ok::<Seq<BlockModel>, PackError>(partly_kept(p, loads, n)),
    decreases n,
{
    let plain = plain_of(p, loads);
    if n == 0 {
        assert(partly_kept(p, loads, 0) =~= plain);
    } else {
        let k = n - 1;
        let data = packet_bytes(p, recs, segment(loads, p.blocks.len() as int));
        lemma_loaded(p, pos_from, loads, recs, read, k);
        let done = partly_kept(p, loads, k);
        lemma_one_load(p, pos_from, loads, recs, k);
        lemma_flags(p.blocks[k].flags, loads[k]);
        lemma_plain(p, loads, k);
        lemma_partly(p, loads, k);
        assert(read[k].offset == places(loads)[k]);
        lemma_load_step(data, plain, read, tx_context(p), n, done, kept_load(p, k));
        if loads[k].len() == 0 {
            assert(done.update(k, done[k]) =~= done);
        }
    }
}

/// The number of records fits the field that counts them.
pub proof fn lemma_count(p: PacketModel, recs: Seq<Seq<u8>>)
    requires
        offsets(sections(p, recs))[7] <= u32::MAX,
    ensures
        recs.len() <= u32::MAX,
{
    let n = prefix_size(recs);
    crate::cfxpack::roundtrip_tables::lemma_section_order(p, recs);
    crate::cfxpack::body::lemma_fixed_len(recs, n);
    assert(recs.len() * n >= recs.len()) by (nonlinear_arith)
        requires
            n >= 1,
    ;
}

/// The blocks of a packet that was written are read back.
#[verifier::rlimit(40)]
proof fn lemma_blocks(
    p: PacketModel,
    pos_from: Option<u64>,
    loads: Seq<Seq<u8>>,
    recs: Seq<Seq<u8>>,
)
    requires
        written(p, pos_from, loads, recs),
    ensures
        ({
            let data = packet_bytes(p, recs, segment(loads, p.blocks.len() as int));
            let t = Tables {
                addresses: p.addresses,
                pos_entries: p.pos_entries,
                difficulties: p.difficulties,
                base_nonces: p.base_nonces,
                gas_prices: p.gas_prices,
            };
            blocks_of(data, t, pos_from) == Ok::<Seq<BlockModel>, PackError>(
                kept_packet(p).blocks,
            )
        }),
{
    reveal(written);
    let total = p.blocks.len() as int;
    let seg = segment(loads, total);
    let data = packet_bytes(p, recs, seg);
    let size = prefix_size(recs);
    lemma_payloads_len(p, total);
    lemma_records_len(p, loads, total);
    lemma_count(p, recs);
    lemma_fixed_fields(p, recs, seg);
    lemma_block_area(p, recs, seg);
    let header = offset_of(data, 5) as int;
    let body = offset_of(data, 6) as int;
    let end = offset_of(data, 7) as int;
    let tail = choose|tail: Seq<u8>| #[trigger]
        (body_bytes(recs, size) + tail) == data.skip(body) && end >= data.len() - tail.len();
    assert forall|k: int| 0 <= k < recs.len() implies record_tx_offset(
        padded(#[trigger] recs[k], size),
    ) == Ok::<u64, PackError>(places(loads)[k]) && recs[k].len() <= u64::MAX by {
        lemma_record(p, pos_from, loads, recs, k);
    }
    law_block_area(data, header, body, end, recs, places(loads), size, tail);
    let read = laid_out(recs, places(loads), size, 0);
    lemma_laid_out(recs, places(loads), size, 0);
    lemma_bare(p, pos_from, loads, recs, read, total);
    let bare = bare_of(p, loads);
    assert(bare.take(total) =~= bare);
    lemma_epochs(p, loads);
    lemma_loaded(p, pos_from, loads, recs, read, total);
    assert(partly_kept(p, loads, total) =~= kept_packet(p).blocks);
}

/// A packet that was written is read back, with the parts of it that the format
/// keeps.
#[verifier::rlimit(40)]
pub proof fn law_packet_roundtrip(p: PacketModel, pos_from: Option<u64>)
    requires
        readable(p, pos_from),
        packet_restorable(p),
        encoded(p) is Ok,
        encoded(p)->Ok_0.len() <= u64::MAX,
    ensures
        decoded(encoded(p)->Ok_0, pos_from) == Ok::<PacketModel, PackError>(kept_packet(p)),
{
    reveal(written);
    let n = p.blocks.len() as int;
    let loads = payloads(p, n)->Ok_0.0;
    let recs = records(p, loads, n)->Ok_0;
    let seg = segment(loads, n);
    reveal(packet_bytes);
    assert(encoded(p)->Ok_0 == packet_bytes(p, recs, seg));
    assert(written(p, pos_from, loads, recs));
    lemma_header(p, recs, seg);
    lemma_tables(p, recs, seg);
    lemma_fixed_fields(p, recs, seg);
    lemma_blocks(p, pos_from, loads, recs);
}

/// Blocks that differ in nothing that the check looks at.
pub open spec fn same_frames(a: Seq<BlockModel>, b: Seq<BlockModel>) -> bool {
    &&& a.len() == b.len()
    &&& forall|k: int|
        0 <= k < a.len() ==> {
            &&& (#[trigger] a[k]).index == b[k].index
            &&& a[k].epoch == b[k].epoch
            &&& a[k].height == b[k].height
            &&& flag(a[k].flags, FLAG_PIVOT) == flag(b[k].flags, FLAG_PIVOT)
            &&& flag(a[k].flags, FLAG_RESERVED) == flag(b[k].flags, FLAG_RESERVED)
        }
}

proof fn lemma_same_group(a: Seq<BlockModel>, b: Seq<BlockModel>, i: int, last: int, epoch: u64)
    requires
        same_frames(a, b),
        0 <= i,
        last < a.len(),
    ensures
        group_fault(a, i, last, epoch) == group_fault(b, i, last, epoch),
    decreases last - i + 1,
{
    if i <= last {
        assert(a[i].index == b[i].index);
        lemma_same_group(a, b, i + 1, last, epoch);
    }
}

pub proof fn lemma_same_groups(a: Seq<BlockModel>, b: Seq<BlockModel>, i: int)
    requires
        same_frames(a, b),
        0 <= i,
    ensures
        groups_fault(a, i) == groups_fault(b, i),
    decreases a.len() - i,
{
    if i < a.len() {
        lemma_same_next_pivot(a, b, i);
        lemma_next_pivot(a, i);
        match next_pivot(a, i) {
            Some(last) => {
                assert(a[last].height == b[last].height);
                lemma_same_group(a, b, i, last, a[last].height);
                lemma_same_groups(a, b, last + 1);
            },
            None => {},
        }
    }
}

/// A transaction that was read back is written as it was before.
proof fn lemma_kept_item(p: PacketModel, q: PacketModel, epoch: u64, tx: TxModel)
    requires
        q.addresses == p.addresses,
        q.gas_prices == p.gas_prices,
        q.base_nonces == p.base_nonces,
        tx_item(p, epoch, tx) is Ok,
    ensures
        tx_item(q, epoch, kept_tx(p, tx)) == tx_item(p, epoch, tx),
{
    let kept = kept_tx(p, tx);
    lemma_word(
        kept_nonce(p.base_nonces, last_index_of(p, tx), low_u64(tx.nonce)),
    );
    lemma_word(low_u64(tx.gas));
    assert(priority_of(kept) == priority_of(tx));
    assert(list_items_of(kept) == list_items_of(tx));
    let t = tx_parts(p, tx)->Ok_0;
    assert(tx_parts(q, kept) == tx_parts(p, tx));
    assert(written_nonce(q.base_nonces, t.sender, low_u64(kept.nonce)) == written_nonce(
        p.base_nonces,
        t.sender,
        low_u64(tx.nonce),
    ));
    assert(tx_fields(q, epoch, kept, t) =~= tx_fields(p, epoch, tx, t));
}

spec fn last_index_of(p: PacketModel, tx: TxModel) -> nat {
    crate::cfxpack::table::last_index(p.addresses, tx.sender)->0
}

/// The transactions of a block that was read back are written as they were before.
proof fn lemma_items_again(
    p: PacketModel,
    k: int,
    seen: Map<Seq<u8>, (nat, nat)>,
    n: int,
)
    requires
        0 <= k < p.blocks.len(),
        0 <= n <= p.blocks[k].txs.len(),
        groups_fault(p.blocks, 0) is None,
        refs_back(p, k),
        payloads(p, k) is Ok,
        tx_items(p, p.blocks[k], seen_before(p, k), n) is Ok,
    ensures
        tx_items(kept_packet(p), kept_block(p, k), seen, n) == Ok::<
            (Seq<Seq<u8>>, Map<Seq<u8>, (nat, nat)>),
            PackError,
        >((tx_items(p, p.blocks[k], seen_before(p, k), n)->Ok_0.0, seen)),
    decreases n,
{
    let b = p.blocks[k];
    let qb = kept_block(p, k);
    let q = kept_packet(p);
    if n > 0 {
        lemma_items_again(p, k, seen, n - 1);
        let i = n - 1;
        lemma_tx_ref(p, k, i);
        assert(qb.refs.len() == qb.txs.len());
        assert(repeated(qb, i, seen) == tx_ref(p, k, i));
        match tx_ref(p, k, i) {
            Some((block, place)) => {},
            None => {
                assert(qb.txs[i] == kept_tx(p, b.txs[i]));
                lemma_kept_item(p, q, b.epoch, b.txs[i]);
            },
        }
    }
}

/// The payloads of a packet that was read back are what they were before.
#[verifier::rlimit(40)]
proof fn lemma_payloads_again(p: PacketModel, n: int)
    requires
        0 <= n <= p.blocks.len(),
        groups_fault(p.blocks, 0) is None,
        forall|k: int| #![trigger p.blocks[k]] 0 <= k < p.blocks.len() ==> refs_back(p, k),
        payloads(p, n) is Ok,
    ensures
        payloads(kept_packet(p), n) matches Ok((loads, _)) && loads == payloads(p, n)->Ok_0.0,
    decreases n,
{
    let q = kept_packet(p);
    if n > 0 {
        let k = n - 1;
        lemma_payloads_again(p, k);
        let b = p.blocks[k];
        assert(refs_back(p, k));
        let seen = payloads(q, k)->Ok_0.1;
        lemma_items_again(p, k, seen, b.txs.len() as int);
        assert(q.blocks[k] == kept_block(p, k));
        assert(payload_items(q, q.blocks[k], seen)->Ok_0.0 == payload_items(
            p,
            b,
            seen_before(p, k),
        )->Ok_0.0);
    }
}

/// The record of a block that was read back is what it was before.
proof fn lemma_record_again(p: PacketModel, k: int, load: Seq<u8>, place: nat)
    requires
        0 <= k < p.blocks.len(),
        load == load_of(p, k),
        block_shape(p.blocks[k]),
    ensures
        encode_record(
            kept_packet(p),
            kept_block(p, k),
            written_flags(kept_block(p, k).flags, load),
            place,
        ) == encode_record(p, p.blocks[k], written_flags(p.blocks[k].flags, load), place),
{
    reveal(encode_record);
    let b = p.blocks[k];
    let qb = kept_block(p, k);
    lemma_flags(b.flags, load);
    assert(hash_prefix(b.state_root).take(4) =~= b.state_root.take(4));
    assert(hash_prefix(b.receipts_root).take(4) =~= b.receipts_root.take(4));
    assert(hash_prefix(b.logs_bloom).take(4) =~= b.logs_bloom.take(4));
}

/// The records of a packet that was read back are what they were before.
proof fn lemma_records_again(p: PacketModel, loads: Seq<Seq<u8>>, n: int)
    requires
        packet_shape(p),
        payloads(p, p.blocks.len() as int) is Ok,
        loads == payloads(p, p.blocks.len() as int)->Ok_0.0,
        0 <= n <= p.blocks.len(),
    ensures
        records(kept_packet(p), loads, n) == records(p, loads, n),
    decreases n,
{
    if n > 0 {
        lemma_records_again(p, loads, n - 1);
        assert(block_parts_shape(p.blocks[n - 1]));
        assert(kept_packet(p).blocks[n - 1] == kept_block(p, n - 1));
        lemma_record_again(p, n - 1, loads[n - 1], tx_place(loads, n - 1));
    }
}

proof fn lemma_frames_again(p: PacketModel)
    ensures
        same_frames(kept_packet(p).blocks, p.blocks),
{
    let q = kept_packet(p);
    assert forall|k: int| 0 <= k < q.blocks.len() implies {
        &&& (#[trigger] q.blocks[k]).index == p.blocks[k].index
        &&& q.blocks[k].epoch == p.blocks[k].epoch
        &&& q.blocks[k].height == p.blocks[k].height
        &&& flag(q.blocks[k].flags, FLAG_PIVOT) == flag(p.blocks[k].flags, FLAG_PIVOT)
        &&& flag(q.blocks[k].flags, FLAG_RESERVED) == flag(p.blocks[k].flags, FLAG_RESERVED)
    } by {
        lemma_flags(p.blocks[k].flags, load_of(p, k));
    }
}

proof fn lemma_sections_again(p: PacketModel, recs: Seq<Seq<u8>>, seg: Seq<u8>)
    ensures
        assemble(kept_packet(p), recs, seg) == assemble(p, recs, seg),
{
    let q = kept_packet(p);
    assert(sections(q, recs) == sections(p, recs)) by {
        reveal(sections);
    }
    assert(fixed_fields(q, prefix_size(recs)) == fixed_fields(p, prefix_size(recs)));
}

/// A packet that is read back is written to the same bytes again.
#[verifier::rlimit(40)]
pub proof fn law_packet_rewrite(p: PacketModel, pos_from: Option<u64>)
    requires
        readable(p, pos_from),
        encoded(p) is Ok,
    ensures
        encoded(kept_packet(p)) == encoded(p),
{
    let q = kept_packet(p);
    let n = p.blocks.len() as int;
    lemma_frames_again(p);
    lemma_same_groups(q.blocks, p.blocks, 0);
    assert(q.blocks[0].epoch == p.blocks[0].epoch);
    assert(input_fault(q) == input_fault(p));
    lemma_payloads_again(p, n);
    let loads = payloads(p, n)->Ok_0.0;
    lemma_records_again(p, loads, n);
    lemma_sections_again(p, records(p, loads, n)->Ok_0, segment(loads, n));
}

proof fn lemma_load_of(p: PacketModel, k: int)
    requires
        payloads(p, p.blocks.len() as int) is Ok,
        0 <= k < p.blocks.len(),
    ensures
        payload(p, p.blocks[k], seen_before(p, k)) is Ok,
        load_of(p, k) == payload(p, p.blocks[k], seen_before(p, k))->Ok_0.0,
{
    let n = p.blocks.len() as int;
    lemma_payloads_prefix(p, k, n);
    lemma_payloads_prefix(p, k + 1, n);
    assert(payloads(p, k + 1)->Ok_0.0[k] == payload(
        p,
        p.blocks[k],
        seen_before(p, k),
    )->Ok_0.0);
}

proof fn lemma_payload_present(p: PacketModel, b: BlockModel, seen: Map<Seq<u8>, (nat, nat)>)
    requires
        payload(p, b, seen) is Ok,
        b.txs.len() > 0,
    ensures
        payload(p, b, seen)->Ok_0.0.len() > 0,
{
    lemma_tx_items_len(p, b, seen, b.txs.len() as int);
}

/// The frame of a block that was read back: nothing is lost, and a block with
/// transactions is marked as having some.
#[verifier::rlimit(40)]
pub proof fn lemma_kept_frame(p: PacketModel, k: int)
    requires
        payloads(p, p.blocks.len() as int) is Ok,
        0 <= k < p.blocks.len(),
    ensures
        flag(kept_block(p, k).flags, FLAG_PIVOT) == flag(p.blocks[k].flags, FLAG_PIVOT),
        flag(kept_block(p, k).flags, FLAG_RESERVED) == flag(p.blocks[k].flags, FLAG_RESERVED),
        kept_block(p, k).txs.len() > 0 ==> flag(kept_block(p, k).flags, FLAG_HAS_TRANSACTIONS),
{
    lemma_flags(p.blocks[k].flags, load_of(p, k));
    lemma_load_of(p, k);
    assert(kept_block(p, k).txs.len() == p.blocks[k].txs.len());
    if p.blocks[k].txs.len() > 0 {
        lemma_payload_present(p, p.blocks[k], seen_before(p, k));
    }
}

/// Transactions with one identity are the same, and what a block gives as the earlier place
/// of a transaction is a place of that transaction.
pub open spec fn true_refs(p: PacketModel) -> bool {
    &&& forall|k: int, i: int, l: int, j: int|
        0 <= k < p.blocks.len() && 0 <= l < p.blocks.len() && 0 <= i < p.blocks[k].txs.len() && 0
            <= j < p.blocks[l].txs.len() && (#[trigger] p.blocks[k].txs[i]).identity == (
        #[trigger] p.blocks[l].txs[j]).identity ==> p.blocks[k].txs[i] == p.blocks[l].txs[j]
    &&& forall|k: int, i: int|
        0 <= k < p.blocks.len() && p.blocks[k].refs.len() == p.blocks[k].txs.len() && 0 <= i
            < p.blocks[k].refs.len() ==> (#[trigger] p.blocks[k].refs[i] matches Some(
            (block, place),
        ) ==> p.blocks[block as int].txs[place as int] == p.blocks[k].txs[i])
}

/// A transaction that repeats another is read back as the transaction that it is.
pub proof fn lemma_kept_same(p: PacketModel, k: int, i: int)
    requires
        true_refs(p),
        groups_fault(p.blocks, 0) is None,
        payloads(p, p.blocks.len() as int) is Ok,
        forall|k: int| #![trigger p.blocks[k]] 0 <= k < p.blocks.len() ==> refs_back(p, k),
        0 <= k < p.blocks.len(),
        0 <= i < p.blocks[k].txs.len(),
    ensures
        kept_txs(p, k)[i] == kept_tx(p, p.blocks[k].txs[i]),
    decreases k,
{
    let n = p.blocks.len() as int;
    let b = p.blocks[k];
    assert(refs_back(p, k));
    lemma_payloads_prefix(p, k, n);
    lemma_payloads_prefix(p, k + 1, n);
    let seen = seen_before(p, k);
    assert(payload(p, b, seen) is Ok);
    assert(tx_items(p, b, seen, b.txs.len() as int) is Ok);
    lemma_tx_items_ok(p, b, seen, i, b.txs.len() as int);
    lemma_tx_ref(p, k, i);
    match tx_ref(p, k, i) {
        Some((block, place)) => {
            lemma_kept_same(p, block as int, place as int);
            if b.refs.len() == b.txs.len() {
                assert(b.refs[i] == Some((block, place)));
            }
            assert(p.blocks[block as int].txs[place as int] == p.blocks[k].txs[i]);
        },
        None => {},
    }
}

} // verus!
