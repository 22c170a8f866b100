//! What is read from a node's databases, and what runs add up to.
use crate::cfxpack::code_law::law_join;
use crate::cfxpack::encode::flag;
use crate::cfxpack::error::PackError;
use crate::cfxpack::item_law::law_stripped;
use crate::cfxpack::packet::{RewardAccountModel, RewardModel};
use crate::cfxpack::rlp_form::{all_framed, framed, item_info, join, law_list_items, law_str_bytes, law_str_num, lemma_list_info, lemma_split_items, max_payload, nth_item, rlp_list, rlp_num, rlp_str};
use crate::cfxpack::txdecode::{bytes_at, hashes_of, reward_account_of, reward_accounts_of, short_word_at, word_field};
use crate::cfxpack::txform::stripped;
use crate::cfxpack::types::{lemma_pow256, zeros};
use crate::extract::blocks::BlockReward;
use crate::extract::config::{run_fault, ExtractReport};
use crate::extract::db::{start_number, stored_as_is, stored_epoch_hash, stored_hashes, stored_pos_reward, stored_reward, stored_share, stored_shares};
use crate::extract::flagpatch::{no_reward, patched, with_zero_flag, zero_count};
use crate::extract::flag_run::{with_patched, RunModel};
use crate::extract::shards::report_sums;
use vstd::prelude::*;

verus! {

/// The items of a list that was written.
proof fn lemma_nth(items: Seq<Seq<u8>>, i: int)
    requires
        all_framed(items),
        join(items).len() <= max_payload(),
        0 <= i < items.len(),
    ensures
        nth_item(rlp_list(items.flatten()), i) == Some(items[i]),
{
    law_join(items);
    let p = join(items);
    let s = rlp_list(p);
    lemma_list_info(p, Seq::empty());
    assert(s + Seq::<u8>::empty() =~= s);
    lemma_split_items(items);
    let (h, v) = item_info(s)->0;
    assert(s.subrange(h as int, (h + v) as int) =~= p);
}

/// A stored list of blocks reads as the hashes that it was made of.
pub proof fn law_stored_hashes(hashes: Seq<Seq<u8>>)
    requires
        forall|i: int| 0 <= i < hashes.len() ==> (#[trigger] hashes[i]).len() == 32,
        hashes.map_values(|h: Seq<u8>| rlp_str(h)).flatten().len() <= 0xffff_ffff,
    ensures
        stored_hashes(rlp_list(hashes.map_values(|h: Seq<u8>| rlp_str(h)).flatten())) == Ok::<
            Seq<Seq<u8>>,
            PackError,
        >(hashes),
{
    let items = hashes.map_values(|h: Seq<u8>| rlp_str(h));
    law_join(items);
    assert(all_framed(items)) by {
        assert forall|i: int| 0 <= i < items.len() implies framed(#[trigger] items[i]) by {
            assert(hashes[i].len() == 32);
            assert(items[i] == rlp_str(hashes[i]));
        }
    }
    law_list_items(items);
    lemma_hashes(hashes, items, hashes.len() as int);
    assert(hashes.take(hashes.len() as int) =~= hashes);
}

proof fn lemma_hashes(hashes: Seq<Seq<u8>>, items: Seq<Seq<u8>>, n: int)
    requires
        0 <= n <= hashes.len(),
        items == hashes.map_values(|h: Seq<u8>| rlp_str(h)),
        forall|i: int| 0 <= i < hashes.len() ==> (#[trigger] hashes[i]).len() == 32,
    ensures
        hashes_of(items, n) == Ok::<Seq<Seq<u8>>, PackError>(hashes.take(n)),
    decreases n,
{
    if n > 0 {
        lemma_hashes(hashes, items, n - 1);
        assert(hashes[n - 1].len() == 32);
        law_str_bytes(hashes[n - 1]);
        reveal(bytes_at);
        assert(hashes.take(n) =~= hashes.take(n - 1).push(hashes[n - 1]));
    } else {
        assert(hashes.take(0) =~= Seq::empty());
    }
}

/// The first block number of an epoch is the first item of its stored context.
pub proof fn law_start_number(v: u64, others: Seq<Seq<u8>>)
    requires
        all_framed(others),
        (seq![rlp_num(v as nat)] + others).flatten().len() <= 0xffff_ffff,
    ensures
        start_number(rlp_list((seq![rlp_num(v as nat)] + others).flatten())) == Ok::<
            nat,
            PackError,
        >(v as nat),
{
    let items = seq![rlp_num(v as nat)] + others;
    law_join(items);
    lemma_pow256();
    law_str_num(v as nat, 8);
    crate::cfxpack::rlp_form::lemma_be_min_len(v as nat, 8);
    assert(all_framed(items)) by {
        assert forall|i: int| 0 <= i < items.len() implies framed(#[trigger] items[i]) by {
            if i > 0 {
                assert(items[i] == others[i - 1]);
            } else {
                assert(items[i] == rlp_str(crate::cfxpack::rlp_form::be_min(v as nat)));
            }
        }
    }
    lemma_nth(items, 0);
}

/// A word without leading zeros that is filled up again.
proof fn lemma_word_back(items: Seq<Seq<u8>>, i: int, w: Seq<u8>)
    requires
        w.len() == 32,
        0 <= i < items.len(),
        items[i] == rlp_str(stripped(w)),
    ensures
        short_word_at(items, i) == Ok::<Seq<u8>, PackError>(w),
        word_field(items, i) == Ok::<Seq<u8>, PackError>(w),
        framed(items[i]),
{
    reveal(bytes_at);
    reveal(word_field);
    law_stripped(w);
    let b = stripped(w);
    law_str_bytes(b);
    assert(zeros((32 - b.len()) as nat) + b =~= w);
}

/// A stored reward is a pair whose second part lists the total reward and the base reward, in
/// this order and without leading zeros. What else is listed does not matter.
pub proof fn law_stored_reward(
    first: Seq<u8>,
    total: Seq<u8>,
    base: Seq<u8>,
    others: Seq<Seq<u8>>,
)
    requires
        framed(first),
        all_framed(others),
        total.len() == 32,
        base.len() == 32,
        ({
            let fields = seq![rlp_str(stripped(total)), rlp_str(stripped(base))] + others;
            &&& fields.flatten().len() <= 0xffff_ffff
            &&& seq![first, rlp_list(fields.flatten())].flatten().len() <= 0xffff_ffff
        }),
    ensures
        ({
            let fields = seq![rlp_str(stripped(total)), rlp_str(stripped(base))] + others;
            stored_reward(rlp_list(seq![first, rlp_list(fields.flatten())].flatten())) == Ok::<
                (Seq<u8>, Seq<u8>),
                PackError,
            >((total, base))
        }),
{
    let fields = seq![rlp_str(stripped(total)), rlp_str(stripped(base))] + others;
    law_join(fields);
    lemma_word_back(fields, 0, total);
    lemma_word_back(fields, 1, base);
    assert(all_framed(fields)) by {
        assert forall|i: int| 0 <= i < fields.len() implies framed(#[trigger] fields[i]) by {
            if i > 1 {
                assert(fields[i] == others[i - 2]);
            }
        }
    }
    law_list_items(fields);
    let pair = seq![first, rlp_list(fields.flatten())];
    law_join(pair);
    assert(framed(rlp_list(fields.flatten())));
    assert(all_framed(pair)) by {
        assert forall|i: int| 0 <= i < pair.len() implies framed(#[trigger] pair[i]) by {}
    }
    lemma_nth(pair, 1);
}

/// A share as it is stored: address, identifier and reward.
pub open spec fn share_bytes(a: RewardAccountModel) -> Seq<u8> {
    rlp_list(
        seq![rlp_str(a.address), rlp_str(a.identifier), rlp_str(stripped(a.reward))].flatten(),
    )
}

proof fn lemma_share(a: RewardAccountModel)
    requires
        a.address.len() == 20,
        a.identifier.len() == 32,
        a.reward.len() == 32,
    ensures
        reward_account_of(share_bytes(a)) == Ok::<RewardAccountModel, PackError>(a),
        stored_share(share_bytes(a)) == Ok::<RewardAccountModel, PackError>(a),
        framed(share_bytes(a)),
{
    reveal(bytes_at);
    let items = seq![rlp_str(a.address), rlp_str(a.identifier), rlp_str(stripped(a.reward))];
    law_join(items);
    law_stripped(a.reward);
    law_str_bytes(a.address);
    law_str_bytes(a.identifier);
    lemma_word_back(items, 2, a.reward);
    assert(all_framed(items)) by {
        assert forall|i: int| 0 <= i < items.len() implies framed(#[trigger] items[i]) by {}
    }
    assert(join(items).len() <= 200) by {
        assert(items.drop_first() =~= seq![items[1], items[2]]);
        assert(items.drop_first().drop_first() =~= seq![items[2]]);
        assert(items.drop_first().drop_first().drop_first() =~= Seq::empty());
        reveal_with_fuel(join, 4);
    }
    law_list_items(items);
}

/// A stored PoS reward is a pair: the list of the shares, and the hash of the block in whose
/// epoch it was distributed. A share lists address, identifier and reward.
pub proof fn law_stored_pos_reward(r: RewardModel)
    requires
        r.epoch_hash.len() == 32,
        forall|i: int|
            0 <= i < r.accounts.len() ==> (#[trigger] r.accounts[i]).address.len() == 20
                && r.accounts[i].identifier.len() == 32 && r.accounts[i].reward.len() == 32,
        ({
            let shares = rlp_list(
                r.accounts.map_values(|a: RewardAccountModel| share_bytes(a)).flatten(),
            );
            &&& r.accounts.map_values(|a: RewardAccountModel| share_bytes(a)).flatten().len()
                <= 0xffff_ffff
            &&& seq![shares, rlp_str(r.epoch_hash)].flatten().len() <= 0xffff_ffff
        }),
    ensures
        ({
            let shares = rlp_list(
                r.accounts.map_values(|a: RewardAccountModel| share_bytes(a)).flatten(),
            );
            let value = rlp_list(seq![shares, rlp_str(r.epoch_hash)].flatten());
            &&& stored_epoch_hash(value) == Ok::<Seq<u8>, PackError>(r.epoch_hash)
            &&& stored_pos_reward(value) == Ok::<RewardModel, PackError>(r)
            &&& stored_as_is(value) == Ok::<RewardModel, PackError>(r)
        }),
{
    let items = r.accounts.map_values(|a: RewardAccountModel| share_bytes(a));
    law_join(items);
    assert(all_framed(items)) by {
        assert forall|i: int| 0 <= i < items.len() implies framed(#[trigger] items[i]) by {
            assert(r.accounts[i].address.len() == 20);
            lemma_share(r.accounts[i]);
        }
    }
    law_list_items(items);
    let pair = seq![rlp_list(items.flatten()), rlp_str(r.epoch_hash)];
    law_join(pair);
    law_str_bytes(r.epoch_hash);
    assert(framed(rlp_list(items.flatten())));
    assert(all_framed(pair)) by {
        assert forall|i: int| 0 <= i < pair.len() implies framed(#[trigger] pair[i]) by {}
    }
    lemma_nth(pair, 0);
    lemma_nth(pair, 1);
    lemma_shares(r.accounts, items, r.accounts.len() as int);
    assert(r.accounts.take(r.accounts.len() as int) =~= r.accounts);
}

proof fn lemma_shares(accounts: Seq<RewardAccountModel>, items: Seq<Seq<u8>>, n: int)
    requires
        0 <= n <= accounts.len(),
        items == accounts.map_values(|a: RewardAccountModel| share_bytes(a)),
        forall|i: int|
            0 <= i < accounts.len() ==> (#[trigger] accounts[i]).address.len() == 20
                && accounts[i].identifier.len() == 32 && accounts[i].reward.len() == 32,
    ensures
        reward_accounts_of(items, n) == Ok::<Seq<RewardAccountModel>, PackError>(accounts.take(n)),
        stored_shares(items, n) == Ok::<Seq<RewardAccountModel>, PackError>(accounts.take(n)),
    decreases n,
{
    if n > 0 {
        lemma_shares(accounts, items, n - 1);
        assert(accounts[n - 1].address.len() == 20);
        lemma_share(accounts[n - 1]);
        assert(accounts.take(n) =~= accounts.take(n - 1).push(accounts[n - 1]));
    } else {
        assert(accounts.take(0) =~= Seq::empty());
    }
}

/// The flag for a total reward of zero is the seventh bit. Setting it changes no other, and a
/// block gets it where no reward is on record or the total is zero.
pub proof fn law_zero_flag(flags: u8, reward: Option<BlockReward>)
    ensures
        (with_zero_flag(flags) as int / 64) % 2 == 1,
        with_zero_flag(flags) as int % 64 == flags as int % 64,
        with_zero_flag(flags) as int / 128 == flags as int / 128,
        no_reward(reward) <==> (reward matches Some(r) ==> forall|i: int|
            0 <= i < 32 ==> #[trigger] r.total_reward@[i] == 0),
{
    if let Some(r) = reward {
        if forall|i: int| 0 <= i < 32 ==> #[trigger] r.total_reward@[i] == 0 {
            assert(r.total_reward@ =~= zeros(32));
        } else {
            assert(r.total_reward@ == zeros(32) ==> forall|i: int|
                0 <= i < 32 ==> #[trigger] r.total_reward@[i] == 0);
        }
    }
}

/// Patching a container keeps its length and every byte but the flags of blocks whose total
/// reward is zero, and of those every bit but the seventh, which it sets.
pub proof fn law_patched(
    data: Seq<u8>,
    sites: Seq<(nat, Seq<u8>)>,
    zero: Seq<bool>,
    i: int,
    k: int,
)
    requires
        sites.len() == zero.len(),
        0 <= i < data.len(),
    ensures
        ({
            let after = patched(data, sites, zero, sites.len() as int);
            &&& after.len() == data.len()
            &&& (forall|j: int| 0 <= j < sites.len() && zero[j] ==> (#[trigger] sites[j]).0 != i)
                ==> after[i] == data[i]
            &&& 0 <= k < sites.len() && sites[k].0 == i && zero[k] ==> {
                &&& (after[i] as int / 64) % 2 == 1
                &&& after[i] as int % 64 == data[i] as int % 64
                &&& after[i] as int / 128 == data[i] as int / 128
            }
        }),
{
    law_zero_flag(data[i], None);
}

/// How many blocks have a total reward of zero.
pub proof fn law_zero_count(zero: Seq<bool>, n: int)
    requires
        0 <= n <= zero.len(),
    ensures
        zero_count(zero, n) == zero.take(n).filter(|z: bool| z).len(),
    decreases n,
{
    reveal(Seq::filter);
    if n > 0 {
        law_zero_count(zero, n - 1);
        assert(zero.take(n).drop_last() =~= zero.take(n - 1));
    }
}

/// The totals of a run are the sums over its reports.
pub proof fn law_report_sums(reports: Seq<ExtractReport>)
    ensures
        ({
            let s = report_sums(reports, reports.len() as int);
            &&& s.blocks == reports.map_values(|r: ExtractReport| r.block_count as int).fold_left(
                0int,
                |a: int, b: int| a + b,
            )
            &&& s.transactions == reports.map_values(|r: ExtractReport| r.transaction_count as int).fold_left(
                0int,
                |a: int, b: int| a + b,
            )
            &&& s.bytes == reports.map_values(|r: ExtractReport| r.packet_bytes as int).fold_left(
                0int,
                |a: int, b: int| a + b,
            )
            &&& s.load_epochs == reports.map_values(|r: ExtractReport| r.timing.load_epochs_ms as int).fold_left(
                0int,
                |a: int, b: int| a + b,
            )
            &&& s.read_blocks == reports.map_values(|r: ExtractReport| r.timing.read_blocks_ms as int).fold_left(
                0int,
                |a: int, b: int| a + b,
            )
            &&& s.build_tables == reports.map_values(|r: ExtractReport| r.timing.build_tables_ms as int).fold_left(
                0int,
                |a: int, b: int| a + b,
            )
            &&& s.build_blocks == reports.map_values(|r: ExtractReport| r.timing.build_blocks_ms as int).fold_left(
                0int,
                |a: int, b: int| a + b,
            )
            &&& s.encode == reports.map_values(|r: ExtractReport| r.timing.encode_ms as int).fold_left(
                0int,
                |a: int, b: int| a + b,
            )
            &&& s.verify == reports.map_values(|r: ExtractReport| r.timing.verify_ms as int).fold_left(
                0int,
                |a: int, b: int| a + b,
            )
            &&& s.write == reports.map_values(|r: ExtractReport| r.timing.write_ms as int).fold_left(
                0int,
                |a: int, b: int| a + b,
            )
        }),
{
    lemma_report_sums(reports, reports.len() as int);
    assert(reports.take(reports.len() as int) =~= reports);
}

proof fn lemma_sum_step(reports: Seq<ExtractReport>, f: spec_fn(ExtractReport) -> int, n: int)
    requires
        0 < n <= reports.len(),
    ensures
        reports.take(n).map_values(f).fold_left(0int, |a: int, b: int| a + b) == reports.take(
            n - 1,
        ).map_values(f).fold_left(0int, |a: int, b: int| a + b) + f(reports[n - 1]),
{
    assert(reports.take(n).map_values(f).drop_last() =~= reports.take(n - 1).map_values(f));
    assert(reports.take(n).map_values(f).last() == f(reports[n - 1]));
}

proof fn lemma_report_sums(reports: Seq<ExtractReport>, n: int)
    requires
        0 <= n <= reports.len(),
    ensures
        ({
            let s = report_sums(reports, n);
            &&& s.blocks == reports.take(n).map_values(|r: ExtractReport| r.block_count as int).fold_left(
                0int,
                |a: int, b: int| a + b,
            )
            &&& s.transactions == reports.take(n).map_values(|r: ExtractReport| r.transaction_count as int).fold_left(
                0int,
                |a: int, b: int| a + b,
            )
            &&& s.bytes == reports.take(n).map_values(|r: ExtractReport| r.packet_bytes as int).fold_left(
                0int,
                |a: int, b: int| a + b,
            )
            &&& s.load_epochs == reports.take(n).map_values(|r: ExtractReport| r.timing.load_epochs_ms as int).fold_left(
                0int,
                |a: int, b: int| a + b,
            )
            &&& s.read_blocks == reports.take(n).map_values(|r: ExtractReport| r.timing.read_blocks_ms as int).fold_left(
                0int,
                |a: int, b: int| a + b,
            )
            &&& s.build_tables == reports.take(n).map_values(|r: ExtractReport| r.timing.build_tables_ms as int).fold_left(
                0int,
                |a: int, b: int| a + b,
            )
            &&& s.build_blocks == reports.take(n).map_values(|r: ExtractReport| r.timing.build_blocks_ms as int).fold_left(
                0int,
                |a: int, b: int| a + b,
            )
            &&& s.encode == reports.take(n).map_values(|r: ExtractReport| r.timing.encode_ms as int).fold_left(
                0int,
                |a: int, b: int| a + b,
            )
            &&& s.verify == reports.take(n).map_values(|r: ExtractReport| r.timing.verify_ms as int).fold_left(
                0int,
                |a: int, b: int| a + b,
            )
            &&& s.write == reports.take(n).map_values(|r: ExtractReport| r.timing.write_ms as int).fold_left(
                0int,
                |a: int, b: int| a + b,
            )
        }),
    decreases n,
{
    if n > 0 {
        lemma_report_sums(reports, n - 1);
        lemma_sum_step(reports, |r: ExtractReport| r.block_count as int, n);
        lemma_sum_step(reports, |r: ExtractReport| r.transaction_count as int, n);
        lemma_sum_step(reports, |r: ExtractReport| r.packet_bytes as int, n);
        lemma_sum_step(reports, |r: ExtractReport| r.timing.load_epochs_ms as int, n);
        lemma_sum_step(reports, |r: ExtractReport| r.timing.read_blocks_ms as int, n);
        lemma_sum_step(reports, |r: ExtractReport| r.timing.build_tables_ms as int, n);
        lemma_sum_step(reports, |r: ExtractReport| r.timing.build_blocks_ms as int, n);
        lemma_sum_step(reports, |r: ExtractReport| r.timing.encode_ms as int, n);
        lemma_sum_step(reports, |r: ExtractReport| r.timing.verify_ms as int, n);
        lemma_sum_step(reports, |r: ExtractReport| r.timing.write_ms as int, n);
    } else {
        assert(reports.take(0).map_values(|r: ExtractReport| r.block_count as int).len() == 0);
        assert(reports.take(0).map_values(|r: ExtractReport| r.transaction_count as int).len() == 0);
        assert(reports.take(0).map_values(|r: ExtractReport| r.packet_bytes as int).len() == 0);
        assert(reports.take(0).map_values(|r: ExtractReport| r.timing.load_epochs_ms as int).len() == 0);
        assert(reports.take(0).map_values(|r: ExtractReport| r.timing.read_blocks_ms as int).len() == 0);
        assert(reports.take(0).map_values(|r: ExtractReport| r.timing.build_tables_ms as int).len() == 0);
        assert(reports.take(0).map_values(|r: ExtractReport| r.timing.build_blocks_ms as int).len() == 0);
        assert(reports.take(0).map_values(|r: ExtractReport| r.timing.encode_ms as int).len() == 0);
        assert(reports.take(0).map_values(|r: ExtractReport| r.timing.verify_ms as int).len() == 0);
        assert(reports.take(0).map_values(|r: ExtractReport| r.timing.write_ms as int).len() == 0);
    }
}

/// A run can start where it has epochs, its shards have epochs, there is a worker, the size of a
/// container is not zero where one is given, and its last epoch fits in 64 bits.
pub proof fn law_run(start: u64, count: u64, shard: u64, jobs: usize, target: Option<u64>)
    ensures
        run_fault(start, count, shard, jobs, target) is None <==> {
            &&& count > 0
            &&& shard > 0
            &&& jobs > 0
            &&& target matches Some(t) ==> t > 0
            &&& start + count <= u64::MAX
        },
{
}

/// What one file more adds to a run: one file that was scanned; one that changed, and its name,
/// where its bytes are others than before; its blocks, and those of them whose total reward is
/// zero; and its bytes, where it changed and is written.
pub proof fn law_with_patched(
    r: RunModel,
    name: Seq<char>,
    data: Seq<u8>,
    sites: Seq<(nat, Seq<u8>)>,
    zero: Seq<bool>,
    dry_run: bool,
)
    ensures
        ({
            let n = with_patched(r, name, data, sites, zero, dry_run);
            let changed = patched(data, sites, zero, sites.len() as int) != data;
            &&& n.totals.scanned == r.totals.scanned + 1
            &&& changed ==> n.totals.changed == r.totals.changed + 1 && n.names == r.names.push(
                name,
            )
            &&& !changed ==> n.totals.changed == r.totals.changed && n.names == r.names
            &&& n.totals.blocks == r.totals.blocks + sites.len()
            &&& n.totals.flagged == r.totals.flagged + zero.filter(|z: bool| z).len()
            &&& changed && !dry_run ==> n.totals.rewritten == r.totals.rewritten + data.len()
            &&& !changed || dry_run ==> n.totals.rewritten == r.totals.rewritten
        }),
{
    law_zero_count(zero, zero.len() as int);
    assert(zero.take(zero.len() as int) =~= zero);
}

} // verus!
