//! What counting, comparing, updating, packing and tracing come to.
use crate::bench::counted;
use crate::cfxpack::container_law::lemma_total;
use crate::cfxpack::decode::decoded;
use crate::cfxpack::error::PackError;
use crate::cfxpack::packet::BlockModel;
use crate::cfxpack::verify::{verified, VerifyReport};
use crate::extract::pack::{packed_bytes, packing, totals, with_file, with_outs, OutModel, Totals};
use crate::extract::shards::{busy, ActiveShard};
use crate::key_law::law_padding;
use crate::raw::{first_difference, roundtrip_report, RoundtripError};
use crate::snapshot::updated;
use crate::store::empty_persisted;
use crate::text::hex_of;
use crate::text_law::law_hex_digits;
use crate::bytes::{lemma_lex_irreflexive, lex_lt};
use crate::trace::{pair_less, pairs_text, root_text, step_account, step_value};
use crate::trie::{keccak_digest, layer_root};
use crate::types::{CommitRoot, MptKeyValue};
use vstd::prelude::*;

verus! {

/// A packet is counted as its blocks and all their transactions, where it can be read and the
/// sum can be held.
pub proof fn law_counted(data: Seq<u8>)
    ensures
        match decoded(data, None) {
            Err(e) => counted(data) == Err::<(nat, nat), PackError>(e),
            Ok(p) => {
                let n = p.blocks.map_values(|b: BlockModel| b.txs).flatten().len();
                &&& n <= usize::MAX ==> counted(data) == Ok::<(nat, nat), PackError>(
                    (p.blocks.len(), n),
                )
                &&& n > usize::MAX ==> counted(data) == Err::<(nat, nat), PackError>(
                    PackError::ValueTooLarge,
                )
            },
        },
{
    if let Ok(p) = decoded(data, None) {
        lemma_total(p.blocks, p.blocks.len() as int);
        assert(p.blocks.take(p.blocks.len() as int) =~= p.blocks);
    }
}

/// Two byte strings agree up to the first place at which they differ. There one of them ends, or
/// their bytes are not the same.
pub proof fn law_first_difference(a: Seq<u8>, b: Seq<u8>, from: int)
    requires
        0 <= from <= a.len(),
        from <= b.len(),
    ensures
        ({
            let d = first_difference(a, b, from);
            &&& from <= d <= a.len()
            &&& d <= b.len()
            &&& forall|i: int| from <= i < d ==> #[trigger] a[i] == b[i]
            &&& d < a.len() && d < b.len() ==> a[d] != b[d]
        }),
    decreases a.len() - from,
{
    if from < a.len() && from < b.len() && a[from] == b[from] {
        law_first_difference(a, b, from + 1);
    }
}

/// A packet that is written again passes where its bytes are the same and pass the check.
pub proof fn law_roundtrip_report(data: Seq<u8>, again: Seq<u8>)
    ensures
        roundtrip_report(data, again) is Ok <==> data == again && verified(data) is Ok,
        data == again ==> (verified(data) matches Ok(v) ==> roundtrip_report(data, again) == Ok::<
            VerifyReport,
            RoundtripError,
        >(v)),
{
}

/// After updates a key has the record that the last update of it made, if that is live, and none
/// if it is a tombstone. A key that no update names has what it had.
pub proof fn law_updated(
    m: Map<Seq<u8>, Option<Seq<u8>>>,
    updates: Seq<(Seq<u8>, Option<Seq<u8>>)>,
    key: Seq<u8>,
    i: int,
)
    ensures
        (forall|j: int| 0 <= j < updates.len() ==> (#[trigger] updates[j]).0 != key) ==> {
            &&& updated(m, updates).contains_key(key) == m.contains_key(key)
            &&& m.contains_key(key) ==> updated(m, updates)[key] == m[key]
        },
        0 <= i < updates.len() && updates[i].0 == key && (forall|j: int|
            i < j < updates.len() ==> (#[trigger] updates[j]).0 != key) ==> {
            &&& updates[i].1 is Some ==> updated(m, updates).contains_key(key) && updated(
                m,
                updates,
            )[key] == updates[i].1
            &&& updates[i].1 is None ==> !updated(m, updates).contains_key(key)
        },
    decreases updates.len(),
{
    if updates.len() > 0 {
        let front = updates.drop_last();
        law_updated(m, front, key, i);
        assert(updates[updates.len() - 1] == updates.last());
        if forall|j: int| 0 <= j < updates.len() ==> (#[trigger] updates[j]).0 != key {
            assert forall|j: int| 0 <= j < front.len() implies (#[trigger] front[j]).0 != key by {
                assert(front[j] == updates[j]);
            }
        }
        if 0 <= i < updates.len() - 1 && updates[i].0 == key && (forall|j: int|
            i < j < updates.len() ==> (#[trigger] updates[j]).0 != key) {
            assert(front[i] == updates[i]);
            assert forall|j: int| i < j < front.len() implies (#[trigger] front[j]).0 != key by {
                assert(front[j] == updates[j]);
            }
        }
    }
}

/// The bytes of packets are the sum of their lengths.
pub proof fn law_packed_bytes(outs: Seq<OutModel>)
    ensures
        packed_bytes(outs) == outs.map_values(|o: OutModel| o.bytes.len() as int).fold_left(
            0int,
            |a: int, b: int| a + b,
        ),
    decreases outs.len(),
{
    let f = |o: OutModel| o.bytes.len() as int;
    if outs.len() > 0 {
        law_packed_bytes(outs.drop_last());
        assert(outs.map_values(f).drop_last() =~= outs.drop_last().map_values(f));
    }
}

/// The packets of a container that is full reach the target, and did not without the last. Those
/// of a container that is not full do not. All containers together hold all packets in order.
pub proof fn law_packing(outs: Seq<OutModel>, target: u64)
    requires
        target > 0,
    ensures
        ({
            let p = packing(outs, target);
            &&& p.closed.flatten() + p.open == outs
            &&& packed_bytes(p.open) < target
            &&& forall|i: int|
                0 <= i < p.closed.len() ==> {
                    let c = #[trigger] p.closed[i];
                    c.len() > 0 && packed_bytes(c) >= target && packed_bytes(c.drop_last()) < target
                }
        }),
    decreases outs.len(),
{
    let p = packing(outs, target);
    if outs.len() > 0 {
        law_packing(outs.drop_last(), target);
        let q = packing(outs.drop_last(), target);
        let open = q.open.push(outs.last());
        assert(open.drop_last() =~= q.open);
        assert(q.closed.flatten() + open =~= (q.closed.flatten() + q.open).push(outs.last()));
        assert(outs.drop_last().push(outs.last()) =~= outs);
        if packed_bytes(open) >= target {
            assert(p.closed == q.closed.push(open));
            assert(p.closed.drop_last() =~= q.closed);
            p.closed.lemma_flatten_and_flatten_alt_are_equivalent();
            q.closed.lemma_flatten_and_flatten_alt_are_equivalent();
            assert(p.closed.flatten() =~= q.closed.flatten() + open);
            assert(p.closed.flatten() + p.open =~= outs);
            assert forall|i: int| 0 <= i < p.closed.len() implies {
                let c = #[trigger] p.closed[i];
                c.len() > 0 && packed_bytes(c) >= target && packed_bytes(c.drop_last()) < target
            } by {
                if i < q.closed.len() {
                    assert(p.closed[i] == q.closed[i]);
                }
            }
        }
    } else {
        assert(p.closed.flatten() + p.open =~= outs);
    }
}

/// What one more file adds to the totals: one file, its groups, their epochs, blocks and
/// transactions, and its bytes.
pub proof fn law_file_totals(t: Totals, outs: Seq<OutModel>, shard_epochs: u64)
    ensures
        ({
            let s = with_file(t, outs, shard_epochs);
            let sum = |f: spec_fn(OutModel) -> int|
                outs.map_values(f).fold_left(0int, |a: int, b: int| a + b);
            &&& s.files == t.files + 1
            &&& s.groups == t.groups + outs.len()
            &&& s.epochs == t.epochs + sum(|o: OutModel| o.epoch_count as int)
            &&& s.blocks == t.blocks + sum(|o: OutModel| o.block_count as int)
            &&& s.transactions == t.transactions + sum(|o: OutModel| o.transaction_count as int)
            &&& s.bytes == t.bytes + crate::cfxpack::container::container(
                crate::extract::pack::groups_of(outs),
                shard_epochs,
            )->Ok_0.len()
        }),
{
    lemma_outs(t, outs, outs.len() as int);
    assert(outs.take(outs.len() as int) =~= outs);
}

proof fn lemma_outs(t: Totals, outs: Seq<OutModel>, n: int)
    requires
        0 <= n <= outs.len(),
    ensures
        ({
            let s = with_outs(t, outs, n);
            &&& s.files == t.files
            &&& s.bytes == t.bytes
            &&& s.groups == t.groups + n
            &&& s.epochs == t.epochs + outs.take(n).map_values(
                |o: OutModel| o.epoch_count as int,
            ).fold_left(0int, |a: int, b: int| a + b)
            &&& s.blocks == t.blocks + outs.take(n).map_values(
                |o: OutModel| o.block_count as int,
            ).fold_left(0int, |a: int, b: int| a + b)
            &&& s.transactions == t.transactions + outs.take(n).map_values(
                |o: OutModel| o.transaction_count as int,
            ).fold_left(0int, |a: int, b: int| a + b)
        }),
    decreases n,
{
    if n > 0 {
        lemma_outs(t, outs, n - 1);
        lemma_out_sum(outs, |o: OutModel| o.epoch_count as int, n);
        lemma_out_sum(outs, |o: OutModel| o.block_count as int, n);
        lemma_out_sum(outs, |o: OutModel| o.transaction_count as int, n);
    } else {
        assert(outs.take(0).map_values(|o: OutModel| o.epoch_count as int).len() == 0);
        assert(outs.take(0).map_values(|o: OutModel| o.block_count as int).len() == 0);
        assert(outs.take(0).map_values(|o: OutModel| o.transaction_count as int).len() == 0);
    }
}

proof fn lemma_out_sum(outs: Seq<OutModel>, f: spec_fn(OutModel) -> int, n: int)
    requires
        0 < n <= outs.len(),
    ensures
        outs.take(n).map_values(f).fold_left(0int, |a: int, b: int| a + b) == outs.take(
            n - 1,
        ).map_values(f).fold_left(0int, |a: int, b: int| a + b) + f(outs[n - 1]),
{
    assert(outs.take(n).map_values(f).drop_last() =~= outs.take(n - 1).map_values(f));
    assert(outs.take(n).map_values(f).last() == f(outs[n - 1]));
}

/// How many workers are busy.
pub proof fn law_busy(active: Seq<Option<ActiveShard>>, n: int)
    requires
        0 <= n <= active.len(),
    ensures
        busy(active, n) == active.take(n).filter(|a: Option<ActiveShard>| a is Some).len(),
    decreases n,
{
    reveal(Seq::filter);
    if n > 0 {
        law_busy(active, n - 1);
        assert(active.take(n).drop_last() =~= active.take(n - 1));
    }
}

/// A store that nothing was saved to holds a state without records and commits, with the paddings
/// of empty layers and periods of 2000 epochs.
pub proof fn law_empty_persisted(pre: Seq<u8>)
    requires
        pre.len() == 64,
        pre.subrange(0, 32) == layer_root(Map::empty()),
        pre.subrange(32, 64) == layer_root(Map::empty()),
    ensures
        ({
            let p = empty_persisted();
            &&& p.snapshot == Map::<Seq<u8>, Seq<u8>>::empty()
            &&& p.intermediate == Map::<Seq<u8>, Option<Seq<u8>>>::empty()
            &&& p.delta == Map::<Seq<u8>, Option<Seq<u8>>>::empty()
            &&& p.intermediate_padding == keccak_digest(pre)@
            &&& p.delta_padding == keccak_digest(pre)@
            &&& p.height == 0
            &&& p.snapshot_epoch_count == 2000
            &&& p.last_root is None
        }),
{
    law_padding(layer_root(Map::empty()), layer_root(Map::empty()), pre);
}

/// The account of a step goes on by 37 from step to step, modulo 64, and starts at 11.
pub proof fn law_step_account(step: u32)
    ensures
        step_account(0) == 11,
        step < u32::MAX ==> step_account((step + 1) as u32) as int == (step_account(step) + 37) % 64,
{
    lemma_account(0);
    lemma_account(step);
    if step < u32::MAX {
        let next = (step + 1) as u32;
        lemma_account(next);
        let x = step * 37 + 11;
        assert(next * 37 + 11 == x + 37);
        vstd::arithmetic::div_mod::lemma_add_mod_noop(x, 37, 64);
    }
}

#[verifier::spinoff_prover]
proof fn lemma_account(step: u32)
    ensures
        step_account(step) as int == (step * 37 + 11) % 64,
{
    lemma_wrap(step * 37);
}

/// Two to the 32nd is a multiple of 64.
proof fn lemma_wrap(x: int)
    requires
        0 <= x,
    ensures
        (x % 0x1_0000_0000 + 11) % 0x1_0000_0000 % 64 == (x + 11) % 64,
{
    let q = x / 0x1_0000_0000;
    let a = x % 0x1_0000_0000 + 11;
    assert(x + 11 == 64 * (0x400_0000 * q) + a);
    vstd::arithmetic::div_mod::lemma_mod_multiples_vanish(0x400_0000 * q, a, 64);
    if a >= 0x1_0000_0000 {
        assert(a % 0x1_0000_0000 == a - 0x1_0000_0000);
    } else {
        assert(a % 0x1_0000_0000 == a);
    }
}

/// The value of a step has one to 47 bytes, by the step; the first is the sum of account and step,
/// and each is one more than the one before, modulo 256.
pub proof fn law_step_value(step: u32, id: u8, i: int)
    ensures
        ({
            let v = step_value(step, id);
            &&& v.len() == 1 + step % 47
            &&& v[0] as int == (id + step) % 256
            &&& 0 < i < v.len() ==> v[i] as int == (v[i - 1] + 1) % 256
        }),
{
}

/// The text of a commit root is four hashes in hexadecimal, 64 digits each, with colons between
/// them: those of the snapshot, the intermediate layer, the delta layer and the state.
pub proof fn law_root_text(r: CommitRoot)
    ensures
        ({
            let s = root_text(r);
            &&& s.len() == 259
            &&& s.subrange(0, 64) == hex_of(r.snapshot_root@)
            &&& s[64] == ':'
            &&& s.subrange(65, 129) == hex_of(r.intermediate_delta_root@)
            &&& s[129] == ':'
            &&& s.subrange(130, 194) == hex_of(r.delta_root@)
            &&& s[194] == ':'
            &&& s.subrange(195, 259) == hex_of(r.state_root_hash@)
        }),
{
    reveal_strlit(":");
    law_hex_digits(r.snapshot_root@);
    law_hex_digits(r.intermediate_delta_root@);
    law_hex_digits(r.delta_root@);
    law_hex_digits(r.state_root_hash@);
    let s = root_text(r);
    assert(s.subrange(0, 64) =~= hex_of(r.snapshot_root@));
    assert(s.subrange(65, 129) =~= hex_of(r.intermediate_delta_root@));
    assert(s.subrange(130, 194) =~= hex_of(r.delta_root@));
    assert(s.subrange(195, 259) =~= hex_of(r.state_root_hash@));
}

/// The text of pairs: key and value of each in hexadecimal with an equals sign between them, and
/// commas between the pairs.
pub proof fn law_pairs_text(values: Seq<MptKeyValue>, order: Seq<usize>, n: int)
    requires
        1 <= n,
    ensures
        pairs_text(values, order, 0).len() == 0,
        pairs_text(values, order, 1) == hex_of(values[order[0] as int].0@) + seq!['=']
            + hex_of(values[order[0] as int].1@),
        pairs_text(values, order, n + 1) == pairs_text(values, order, n) + seq![','] + hex_of(
            values[order[n] as int].0@,
        ) + seq!['='] + hex_of(values[order[n] as int].1@),
{
    reveal_strlit(",");
    reveal_strlit("=");
    assert("="@ =~= seq!['=']);
    assert(","@ =~= seq![',']);
    assert(pairs_text(values, order, 1) =~= hex_of(values[order[0] as int].0@) + seq!['=']
        + hex_of(values[order[0] as int].1@));
}

/// Pairs are ordered by their keys, and by their values where the keys are equal.
pub proof fn law_pair_order(a: MptKeyValue, b: MptKeyValue)
    ensures
        lex_lt(a.0@, b.0@) ==> pair_less(a, b),
        a.0@ == b.0@ ==> (pair_less(a, b) <==> lex_lt(a.1@, b.1@)),
        a.0@ != b.0@ && !lex_lt(a.0@, b.0@) ==> !pair_less(a, b),
{
    lemma_lex_irreflexive(a.0@);
}

} // verus!
