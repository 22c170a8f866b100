//! What codes, prices, actions and transactions are read to, whoever has written them.
use crate::cfxpack::code_law::lemma_fold_front;
use crate::cfxpack::codec::{qc5e_word, read_qc5e_spec, read_qc8_spec, read_uleb, uleb_at, untagged, unzigzag, Qc5eModel};
use crate::cfxpack::error::PackError;
use crate::cfxpack::packet::{TxKind, TxModel};
use crate::cfxpack::rlp_form::{list_items, str_bytes, str_num};
use crate::cfxpack::txdecode::{action_of, bytes_at, common_of, first_base, identified, num_at, price_of, tx_content, tx_of, word_field, wrapping_sum, TxContext};
use crate::cfxpack::types::word;
use crate::trie::keccak_digest;
use vstd::prelude::*;

verus! {

/// The value of LEB128 digits.
pub open spec fn seven_bits(s: Seq<u8>) -> int {
    s.fold_right(|b: u8, a: int| b as int % 128 + 128 * a, 0int)
}

proof fn lemma_uleb_at(s: Seq<u8>, n: int)
    requires
        1 <= n <= s.len(),
        forall|i: int| 0 <= i < n - 1 ==> #[trigger] s[i] >= 128,
        s[n - 1] < 128,
    ensures
        uleb_at(s) == Some((seven_bits(s.take(n)) as nat, n as nat)),
        seven_bits(s.take(n)) >= 0,
    decreases n,
{
    let rest = s.drop_first();
    if n == 1 {
        assert(s.take(1) =~= seq![s[0]] + Seq::<u8>::empty());
        lemma_fold_front(s[0], Seq::empty(), 0);
        assert(Seq::<u8>::empty().fold_right(|b: u8, a: int| b as int % 128 + 128 * a, 0int) == 0);
    } else {
        assert forall|i: int| 0 <= i < n - 2 implies #[trigger] rest[i] >= 128 by {
            assert(s[i + 1] >= 128);
        }
        lemma_uleb_at(rest, n - 1);
        assert(s[0] >= 128);
        assert(s.take(n) =~= seq![s[0]] + rest.take(n - 1));
        lemma_fold_front(s[0], rest.take(n - 1), 0);
    }
}

proof fn lemma_no_end(s: Seq<u8>)
    requires
        forall|i: int| 0 <= i < s.len() ==> #[trigger] s[i] >= 128,
    ensures
        uleb_at(s) is None,
    decreases s.len(),
{
    if s.len() > 0 {
        let rest = s.drop_first();
        assert forall|i: int| 0 <= i < rest.len() implies #[trigger] rest[i] >= 128 by {
            assert(s[i + 1] >= 128);
        }
        lemma_no_end(rest);
        assert(s[0] >= 128);
    }
}

/// A LEB128 number ends with the first byte below 128. It is read where it takes at most ten bytes
/// and fits in 64 bits, and what follows is left.
pub proof fn law_uleb_read(s: Seq<u8>, n: int)
    requires
        1 <= n <= s.len(),
        forall|i: int| 0 <= i < n - 1 ==> #[trigger] s[i] >= 128,
        s[n - 1] < 128,
    ensures
        n <= 10 && seven_bits(s.take(n)) <= u64::MAX ==> read_uleb(s) == Ok::<
            (u64, Seq<u8>),
            PackError,
        >((seven_bits(s.take(n)) as u64, s.skip(n))),
        n > 10 || seven_bits(s.take(n)) > u64::MAX ==> read_uleb(s) == Err::<
            (u64, Seq<u8>),
            PackError,
        >(PackError::VarintTooLong),
{
    reveal(read_uleb);
    lemma_uleb_at(s, n);
}

/// A number without an end is cut short, or too long where there are ten bytes of it.
pub proof fn law_uleb_cut(s: Seq<u8>)
    requires
        forall|i: int| 0 <= i < s.len() ==> #[trigger] s[i] >= 128,
    ensures
        s.len() < 10 ==> read_uleb(s) == Err::<(u64, Seq<u8>), PackError>(PackError::Truncated),
        s.len() >= 10 ==> read_uleb(s) == Err::<(u64, Seq<u8>), PackError>(
            PackError::VarintTooLong,
        ),
{
    reveal(read_uleb);
    lemma_no_end(s);
}

/// A QC8 value takes eight bytes and as many more as its two top bits tell; the others are the low
/// bits of the word.
pub proof fn law_qc8_read(s: Seq<u8>, w: Seq<u8>)
    requires
        s.len() > 0,
        w.len() == 32,
    ensures
        s.len() < 8 + s[0] / 64 ==> read_qc8_spec(s) == Err::<(Seq<u8>, Seq<u8>), PackError>(
            PackError::Truncated,
        ),
        s.len() >= 8 + s[0] / 64 ==> ({
            let n = 8 + s[0] as int / 64;
            (forall|i: int| 0 <= i < 32 - n ==> #[trigger] w[i] == 0) && w[32 - n] == s[0] % 64
                && w.skip(33 - n) == s.subrange(1, n) ==> read_qc8_spec(s) == Ok::<
                (Seq<u8>, Seq<u8>),
                PackError,
            >((w, s.skip(n)))
        }),
{
    reveal(read_qc8_spec);
    let n = 8 + s[0] as int / 64;
    if s.len() >= n && (forall|i: int| 0 <= i < 32 - n ==> #[trigger] w[i] == 0) && w[32 - n] == s[0]
        % 64 && w.skip(33 - n) == s.subrange(1, n) {
        lemma_untagged(s, w, n);
    }
}

proof fn lemma_untagged(s: Seq<u8>, w: Seq<u8>, n: int)
    requires
        1 <= n <= 32,
        s.len() >= n,
        w.len() == 32,
        forall|i: int| 0 <= i < 32 - n ==> #[trigger] w[i] == 0,
        w[32 - n] == s[0] % 64,
        w.skip(33 - n) == s.subrange(1, n),
    ensures
        untagged(s, n) == w,
{
    let u = untagged(s, n);
    assert forall|i: int| 0 <= i < 32 implies u[i] == w[i] by {
        if i > 32 - n {
            assert(w.skip(33 - n)[i - 33 + n] == w[i]);
            assert(s.subrange(1, n)[i - 33 + n] == u[i]);
        }
    }
    assert(u =~= w);
}

/// A QC5E value below 64 is one byte: zero, or a number of the enumeration. Another takes four
/// bytes and as many more as its two top bits tell.
pub proof fn law_qc5e_read(s: Seq<u8>, w: Seq<u8>, known: Seq<u64>)
    requires
        s.len() > 0,
        w.len() == 32,
    ensures
        s[0] < 64 ==> read_qc5e_spec(s) == Ok::<(Qc5eModel, Seq<u8>), PackError>(
            (Qc5eModel::Enumerated(s[0]), s.skip(1)),
        ),
        s[0] == 0 ==> qc5e_word(Qc5eModel::Enumerated(s[0]), known) == Ok::<Seq<u8>, PackError>(
            Seq::new(32, |i: int| 0u8),
        ),
        0 < s[0] <= known.len() ==> qc5e_word(Qc5eModel::Enumerated(s[0]), known) == Ok::<
            Seq<u8>,
            PackError,
        >(word(known[s[0] - 1])),
        s[0] > known.len() ==> qc5e_word(Qc5eModel::Enumerated(s[0]), known) == Err::<
            Seq<u8>,
            PackError,
        >(PackError::UnknownEnum),
        s[0] >= 64 && s.len() < 4 + s[0] / 64 ==> read_qc5e_spec(s) == Err::<
            (Qc5eModel, Seq<u8>),
            PackError,
        >(PackError::Truncated),
        s[0] >= 64 && s.len() >= 4 + s[0] / 64 ==> ({
            let n = 4 + s[0] as int / 64;
            (forall|i: int| 0 <= i < 32 - n ==> #[trigger] w[i] == 0) && w[32 - n] == s[0] % 64
                && w.skip(33 - n) == s.subrange(1, n) ==> read_qc5e_spec(s) == Ok::<
                (Qc5eModel, Seq<u8>),
                PackError,
            >((Qc5eModel::Word(w), s.skip(n)))
        }),
{
    reveal(read_qc5e_spec);
    let n = 4 + s[0] as int / 64;
    if s[0] >= 64 && s.len() >= n && (forall|i: int| 0 <= i < 32 - n ==> #[trigger] w[i] == 0) && w[32
        - n] == s[0] % 64 && w.skip(33 - n) == s.subrange(1, n) {
        lemma_untagged(s, w, n);
    }
}

/// A price is read by its mode: zero and a place of the price table, or one and the price itself.
pub proof fn law_price_read(raw: Seq<u8>, table: Seq<Seq<u8>>, items: Seq<Seq<u8>>)
    requires
        list_items(raw) == Some(items),
        items.len() >= 2,
    ensures
        str_num(items[0], 1) == Some(0nat) ==> (str_num(items[1], 8) matches Some(i) ==> {
            &&& i < table.len() ==> price_of(raw, table) == Ok::<Seq<u8>, PackError>(
                table[i as int],
            )
            &&& i >= table.len() ==> price_of(raw, table) == Err::<Seq<u8>, PackError>(
                PackError::TableIndex,
            )
        }),
        str_num(items[0], 1) == Some(1nat) ==> (str_bytes(items[1]) matches Some(b) ==> {
            &&& b.len() <= 32 ==> price_of(raw, table) == Ok::<Seq<u8>, PackError>(
                Seq::new((32 - b.len()) as nat, |i: int| 0u8) + b,
            )
            &&& b.len() > 32 ==> price_of(raw, table) == Err::<Seq<u8>, PackError>(
                PackError::WordTooLong,
            )
        }),
        (str_num(items[0], 1) matches Some(mode) && mode > 1) ==> price_of(raw, table) == Err::<
            Seq<u8>,
            PackError,
        >(PackError::PriceMode),
{
    reveal(price_of);
    reveal(num_at);
    reveal(bytes_at);
    reveal(word_field);
}

/// An action is read by its mode: zero for a creation, or one and the place of the address that is
/// called.
pub proof fn law_action_read(raw: Seq<u8>, table: Seq<Seq<u8>>, items: Seq<Seq<u8>>)
    requires
        list_items(raw) == Some(items),
        items.len() >= 1,
    ensures
        str_num(items[0], 1) == Some(0nat) ==> action_of(raw, table) == Ok::<
            Option<Seq<u8>>,
            PackError,
        >(None),
        str_num(items[0], 1) == Some(1nat) && items.len() >= 2 ==> (str_num(
            items[1],
            8,
        ) matches Some(i) ==> {
            &&& i < table.len() ==> action_of(raw, table) == Ok::<Option<Seq<u8>>, PackError>(
                Some(table[i as int]),
            )
            &&& i >= table.len() ==> action_of(raw, table) == Err::<Option<Seq<u8>>, PackError>(
                PackError::TableIndex,
            )
        }),
        (str_num(items[0], 1) matches Some(mode) && mode > 1) ==> action_of(raw, table) == Err::<
            Option<Seq<u8>>,
            PackError,
        >(PackError::ActionMode),
{
    reveal(action_of);
    reveal(num_at);
}

proof fn lemma_first_base(bases: Seq<(nat, u64)>, sender: nat, m: int)
    ensures
        (forall|j: int| 0 <= j < bases.len() ==> (#[trigger] bases[j]).0 != sender) ==> first_base(
            bases,
            sender,
        ) == 0,
        0 <= m < bases.len() && bases[m].0 == sender && (forall|j: int|
            0 <= j < m ==> (#[trigger] bases[j]).0 != sender) ==> first_base(bases, sender)
            == bases[m].1,
    decreases bases.len(),
{
    if bases.len() > 0 {
        let rest = bases.drop_first();
        lemma_first_base(rest, sender, m - 1);
        if forall|j: int| 0 <= j < bases.len() ==> (#[trigger] bases[j]).0 != sender {
            assert(bases[0].0 != sender);
            assert forall|j: int| 0 <= j < rest.len() implies (#[trigger] rest[j]).0 != sender by {
                assert(bases[j + 1].0 != sender);
            }
        }
        if 0 < m < bases.len() && bases[m].0 == sender && (forall|j: int|
            0 <= j < m ==> (#[trigger] bases[j]).0 != sender) {
            assert(bases[0].0 != sender);
            assert(rest[m - 1] == bases[m]);
            assert forall|j: int| 0 <= j < m - 1 implies (#[trigger] rest[j]).0 != sender by {
                assert(bases[j + 1].0 != sender);
            }
        }
    }
}

/// A transaction that is read has the sender at the place that its third item tells; the nonce of
/// its fourth above the first base nonce of that place, or above zero; the gas of its seventh, the
/// value of its ninth, and the type that its first two tell. In the native space its storage limit
/// and its distance from the epoch follow, and then its data, which follow at once in eSpace.
pub proof fn law_tx_fields_read(items: Seq<Seq<u8>>, epoch: u64, c: TxContext, m: int)
    requires
        tx_of(items, epoch, c) is Ok,
    ensures
        ({
            let tx = tx_of(items, epoch, c)->Ok_0;
            let space = str_num(items[0], 1)->0;
            let number = str_num(items[1], 8)->0;
            let place = str_num(items[2], 8)->0;
            let nonce = str_num(items[3], 8)->0;
            &&& items.len() >= 10
            &&& place < c.addresses.len() && tx.sender == c.addresses[place as int]
            &&& (forall|j: int|
                0 <= j < c.base_nonces.len() ==> (#[trigger] c.base_nonces[j]).0 != place)
                ==> tx.nonce == word(nonce as u64)
            &&& 0 <= m < c.base_nonces.len() && c.base_nonces[m].0 == place && (forall|j: int|
                0 <= j < m ==> (#[trigger] c.base_nonces[j]).0 != place) ==> c.base_nonces[m].1
                + nonce <= u64::MAX && tx.nonce == word((c.base_nonces[m].1 + nonce) as u64)
            &&& tx.gas == word(str_num(items[6], 8)->0 as u64)
            &&& str_bytes(items[8]) matches Some(b) && b.len() <= 32 && tx.value == Seq::new(
                (32 - b.len()) as nat,
                |i: int| 0u8,
            ) + b
            &&& price_of(items[4], c.gas_prices) == Ok::<Seq<u8>, PackError>(tx.gas_price)
            &&& space == 0 || space == 2
            &&& space == 0 ==> {
                &&& number == 0 && tx.kind == TxKind::Cip155 || number == 1 && tx.kind
                    == TxKind::Cip2930 || number == 2 && tx.kind == TxKind::Cip1559
                &&& tx.storage_limit == str_num(items[9], 8)->0 as u64
                &&& (tx.epoch_height - epoch - unzigzag(str_num(items[10], 8)->0 as u64))
                    % 0x1_0000_0000_0000_0000 == 0
                &&& items.len() >= 12 && str_bytes(items[11]) == Some(tx.data)
                &&& tx.authorizations.len() == 0
            }
            &&& space == 2 ==> {
                &&& number == 0 && tx.kind == TxKind::Eip155 || number == 1 && tx.kind
                    == TxKind::Eip2930 || number == 2 && tx.kind == TxKind::Eip1559 || number == 4
                    && tx.kind == TxKind::Eip7702
                &&& tx.storage_limit == 0 && tx.epoch_height == 0
                &&& str_bytes(items[9]) == Some(tx.data)
            }
        }),
{
    reveal(num_at);
    reveal(bytes_at);
    reveal(word_field);
    let f = common_of(items, c)->Ok_0;
    let place = str_num(items[2], 8)->0;
    lemma_first_base(c.base_nonces, place, m);
    if f.marker == 0 {
        let d = unzigzag(str_num(items[10], 8)->0 as u64);
        let h = wrapping_sum(epoch, d);
        assert(h == epoch + d || h == epoch + d - 0x1_0000_0000_0000_0000);
        assert((h - epoch - d) % 0x1_0000_0000_0000_0000 == 0);
    }
}

/// A transaction that is read is known by the digest of its own content.
pub proof fn law_tx_identity_read(items: Seq<Seq<u8>>, epoch: u64, c: TxContext)
    requires
        tx_of(items, epoch, c) is Ok,
    ensures
        ({
            let tx = tx_of(items, epoch, c)->Ok_0;
            tx.identity == keccak_digest(tx_content(tx))@
        }),
{
    let tx = tx_of(items, epoch, c)->Ok_0;
    let bare = TxModel { identity: Seq::empty(), ..tx };
    reveal(tx_content);
    assert(tx_content(bare) == tx_content(tx));
    assert(tx == identified(bare));
}

} // verus!
