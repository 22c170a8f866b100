//! The written form of transactions and PoS events: items of an RLP list.
use crate::bytes::append_bytes;
use crate::cfxpack::codec::{zigzag, zigzag_encode};
use crate::cfxpack::error::PackError;
use crate::cfxpack::packet::{views, AccessListItem, AccessModel, Action, AuthorizationListItem, AuthorizationModel, Packet, PacketModel, PosRewardAccount, PosRewardEntry, RewardAccountModel, RewardModel, SenderBaseNonce, SignedTransaction, TxKind, TxModel, UnlockEntry, UnlockModel};
use crate::cfxpack::rlp_form::{encode_list, encode_num, encode_str, join, lemma_be_min_len, lemma_list_info, max_payload, be_min, rlp_list, rlp_num, rlp_str, framed, lemma_framed_info};
use crate::cfxpack::table::{last_index, lemma_last_index, TableIndex};
use crate::cfxpack::types::{lemma_pow256, low_u64, U256};
use vstd::prelude::*;

verus! {

/// A list of the given items, where it is not too long to be written.
pub open spec fn fit_list(items: Seq<Seq<u8>>) -> Result<Seq<u8>, PackError> {
    if join(items).len() <= max_payload() {
        Ok(rlp_list(join(items)))
    } else {
        Err(PackError::ItemTooLong)
    }
}

/// A string, where it is not too long to be written.
pub open spec fn fit_str(b: Seq<u8>) -> Result<Seq<u8>, PackError> {
    if b.len() <= max_payload() {
        Ok(rlp_str(b))
    } else {
        Err(PackError::ItemTooLong)
    }
}

/// Every byte string as an item.
pub open spec fn str_items(list: Seq<Seq<u8>>) -> Seq<Seq<u8>> {
    Seq::new(list.len(), |i: int| rlp_str(list[i]))
}

/// An address with its storage keys.
pub open spec fn access_item(a: AccessModel) -> Result<Seq<u8>, PackError> {
    match fit_list(str_items(a.keys)) {
        Err(e) => Err(e),
        Ok(keys) => fit_list(seq![rlp_str(a.address), keys]),
    }
}

/// The first `n` entries of an access list.
pub open spec fn access_items(list: Seq<AccessModel>, n: int) -> Result<Seq<Seq<u8>>, PackError>
    decreases n,
{
    if n <= 0 {
        Ok(Seq::empty())
    } else {
        match access_items(list, n - 1) {
            Err(e) => Err(e),
            Ok(items) => match access_item(list[n - 1]) {
                Err(e) => Err(e),
                Ok(item) => Ok(items.push(item)),
            },
        }
    }
}

/// An access list.
pub open spec fn access_list_item(list: Seq<AccessModel>) -> Result<Seq<u8>, PackError> {
    match access_items(list, list.len() as int) {
        Err(e) => Err(e),
        Ok(items) => fit_list(items),
    }
}

/// The bytes of a word without leading zeros.
pub open spec fn stripped(w: Seq<u8>) -> Seq<u8>
    decreases w.len(),
{
    if w.len() == 0 || w[0] != 0 {
        w
    } else {
        stripped(w.drop_first())
    }
}

/// The fields of an authorization.
pub open spec fn authorization_fields(a: AuthorizationModel) -> Seq<Seq<u8>> {
    seq![
        rlp_str(stripped(a.chain_id)),
        rlp_str(a.address),
        rlp_num(a.nonce as nat),
        rlp_num(a.y_parity as nat),
        rlp_str(stripped(a.r)),
        rlp_str(stripped(a.s)),
    ]
}

/// The first `n` entries of an authorization list.
pub open spec fn authorization_items(list: Seq<AuthorizationModel>, n: int) -> Result<
    Seq<Seq<u8>>,
    PackError,
>
    decreases n,
{
    if n <= 0 {
        Ok(Seq::empty())
    } else {
        match authorization_items(list, n - 1) {
            Err(e) => Err(e),
            Ok(items) => match fit_list(authorization_fields(list[n - 1])) {
                Err(e) => Err(e),
                Ok(item) => Ok(items.push(item)),
            },
        }
    }
}

/// An authorization list.
pub open spec fn authorization_list_item(list: Seq<AuthorizationModel>) -> Result<
    Seq<u8>,
    PackError,
> {
    match authorization_items(list, list.len() as int) {
        Err(e) => Err(e),
        Ok(items) => fit_list(items),
    }
}

/// The fields of a price: its place in the price table, or the price itself.
pub open spec fn price_fields(v: Seq<u8>, table: Seq<Seq<u8>>) -> Seq<Seq<u8>> {
    match last_index(table, v) {
        Some(i) => seq![rlp_num(0), rlp_num(i)],
        None => seq![rlp_num(1), rlp_str(v)],
    }
}

/// The fields of an action, or nothing where the called address is in no table.
pub open spec fn action_fields(action: Option<Seq<u8>>, addresses: Seq<Seq<u8>>) -> Option<
    Seq<Seq<u8>>,
> {
    match action {
        None => Some(seq![rlp_num(0)]),
        Some(address) => match last_index(addresses, address) {
            Some(i) => Some(seq![rlp_num(1), rlp_num(i)]),
            None => None,
        },
    }
}

/// The base nonce of a sender: the last one given for it.
pub open spec fn base_of(bases: Seq<(nat, u64)>, sender: nat) -> Option<u64>
    decreases bases.len(),
{
    if bases.len() == 0 {
        None
    } else if bases.last().0 == sender {
        Some(bases.last().1)
    } else {
        base_of(bases.drop_last(), sender)
    }
}

/// A nonce as it is written: what it has above the base nonce of its sender.
pub open spec fn written_nonce(bases: Seq<(nat, u64)>, sender: nat, nonce: u64) -> u64 {
    match base_of(bases, sender) {
        Some(base) => if nonce >= base {
            (nonce - base) as u64
        } else {
            0
        },
        None => nonce,
    }
}

/// The difference of two numbers in two's complement.
pub open spec fn difference(a: u64, b: u64) -> u64 {
    if a >= b {
        (a - b) as u64
    } else {
        (a - b + 0x1_0000_0000_0000_0000) as u64
    }
}

/// The price that stands in the place of the priority fee.
pub open spec fn priority_of(tx: TxModel) -> Seq<u8> {
    if tx.kind.has_priority() {
        tx.priority_price
    } else {
        tx.gas_price
    }
}

/// The lists that a transaction of its type has: an access list, authorizations.
pub open spec fn list_items_of(tx: TxModel) -> Result<Seq<Seq<u8>>, PackError> {
    if !tx.kind.lists_access() {
        Ok(Seq::empty())
    } else {
        match access_list_item(tx.access_list) {
            Err(e) => Err(e),
            Ok(access) => if tx.kind is Eip7702 {
                match authorization_list_item(tx.authorizations) {
                    Err(e) => Err(e),
                    Ok(authorizations) => Ok(seq![access, authorizations]),
                }
            } else {
                Ok(seq![access])
            },
        }
    }
}

/// The parts of a transaction that refer to tables or vary in length.
pub struct TxParts {
    pub sender: nat,
    pub price: Seq<u8>,
    pub priority: Seq<u8>,
    pub action: Seq<u8>,
    pub data: Seq<u8>,
    pub lists: Seq<Seq<u8>>,
}

/// The parts of a transaction, or why it cannot be written.
pub open spec fn tx_parts(p: PacketModel, tx: TxModel) -> Result<TxParts, PackError> {
    match last_index(p.addresses, tx.sender) {
        None => Err(PackError::MissingSender),
        Some(sender) => match fit_list(price_fields(tx.gas_price, p.gas_prices)) {
            Err(e) => Err(e),
            Ok(price) => match fit_list(price_fields(priority_of(tx), p.gas_prices)) {
                Err(e) => Err(e),
                Ok(priority) => match action_fields(tx.action, p.addresses) {
                    None => Err(PackError::MissingActionAddress),
                    Some(action_parts) => match fit_list(action_parts) {
                        Err(e) => Err(e),
                        Ok(action) => match fit_str(tx.data) {
                            Err(e) => Err(e),
                            Ok(data) => match list_items_of(tx) {
                                Err(e) => Err(e),
                                Ok(lists) => Ok(
                                    TxParts { sender, price, priority, action, data, lists },
                                ),
                            },
                        },
                    },
                },
            },
        },
    }
}

/// The fields that all transactions begin with.
pub open spec fn common_fields(p: PacketModel, tx: TxModel, t: TxParts) -> Seq<Seq<u8>> {
    seq![
        rlp_num(
            if tx.kind.is_native() {
                0
            } else {
                2
            },
        ),
        rlp_num(tx.kind.number()),
        rlp_num(t.sender),
        rlp_num(written_nonce(p.base_nonces, t.sender, low_u64(tx.nonce)) as nat),
        t.price,
        t.priority,
        rlp_num(low_u64(tx.gas) as nat),
        t.action,
        rlp_str(tx.value),
    ]
}

/// The fields that the native space adds.
pub open spec fn native_fields(tx: TxModel, epoch: u64) -> Seq<Seq<u8>> {
    if tx.kind.is_native() {
        seq![
            rlp_num(tx.storage_limit as nat),
            rlp_num(zigzag(difference(tx.epoch_height, epoch)) as nat),
        ]
    } else {
        Seq::empty()
    }
}

/// The fields of a transaction of a block in the epoch `epoch`.
pub open spec fn tx_fields(p: PacketModel, epoch: u64, tx: TxModel, t: TxParts) -> Seq<Seq<u8>> {
    common_fields(p, tx, t) + native_fields(tx, epoch) + seq![t.data] + t.lists
}

/// A transaction of a block in the epoch `epoch`, or why it cannot be written.
pub open spec fn tx_item(p: PacketModel, epoch: u64, tx: TxModel) -> Result<Seq<u8>, PackError> {
    match tx_parts(p, tx) {
        Err(e) => Err(e),
        Ok(t) => fit_list(tx_fields(p, epoch, tx, t)),
    }
}

/// The fields of a reference to the transaction at place `place` of block `block`.
pub open spec fn ref_fields(block: nat, place: nat) -> Seq<Seq<u8>> {
    seq![rlp_num(1), rlp_num(block), rlp_num(place)]
}

/// The fields of one account's share of an interest distribution.
pub open spec fn reward_account_fields(a: RewardAccountModel) -> Seq<Seq<u8>> {
    seq![rlp_str(a.address), rlp_str(a.identifier), rlp_str(a.reward)]
}

/// The first `n` shares of an interest distribution.
pub open spec fn reward_account_items(list: Seq<RewardAccountModel>, n: int) -> Result<
    Seq<Seq<u8>>,
    PackError,
>
    decreases n,
{
    if n <= 0 {
        Ok(Seq::empty())
    } else {
        match reward_account_items(list, n - 1) {
            Err(e) => Err(e),
            Ok(items) => match fit_list(reward_account_fields(list[n - 1])) {
                Err(e) => Err(e),
                Ok(item) => Ok(items.push(item)),
            },
        }
    }
}

/// An interest distribution.
pub open spec fn reward_item(r: RewardModel) -> Result<Seq<u8>, PackError> {
    match reward_account_items(r.accounts, r.accounts.len() as int) {
        Err(e) => Err(e),
        Ok(items) => match fit_list(items) {
            Err(e) => Err(e),
            Ok(accounts) => fit_list(seq![rlp_num(3), accounts, rlp_str(r.epoch_hash)]),
        },
    }
}

/// The fields of an unlocking.
pub open spec fn unlock_fields(u: UnlockModel) -> Seq<Seq<u8>> {
    seq![rlp_num(4), rlp_str(u.identifier), rlp_num(u.unlocked as nat)]
}

pub proof fn lemma_join_push(items: Seq<Seq<u8>>, x: Seq<u8>)
    ensures
        join(items.push(x)) == join(items) + x,
    decreases items.len(),
{
    if items.len() == 0 {
        reveal_with_fuel(join, 2);
        assert(items.push(x).drop_first() =~= Seq::empty());
        assert(join(items.push(x)) =~= x);
        assert(join(items) + x =~= x);
    } else {
        let rest = items.drop_first();
        lemma_join_push(rest, x);
        assert(items.push(x).drop_first() =~= rest.push(x));
        assert(join(items.push(x)) =~= join(items) + x);
    }
}

/// Items that are gathered into a list.
pub struct ListBuilder {
    payload: Vec<u8>,
    count: usize,
    items: Ghost<Seq<Seq<u8>>>,
}

impl ListBuilder {
    pub closed spec fn wf(&self) -> bool {
        &&& self.payload@ == join(self.items@)
        &&& self.count == self.items@.len()
        &&& self.count <= self.payload@.len()
    }

    /// The items gathered so far.
    pub closed spec fn items(&self) -> Seq<Seq<u8>> {
        self.items@
    }

    pub fn new() -> (r: Self)
        ensures
            r.wf(),
            r.items() == Seq::<Seq<u8>>::empty(),
    {
        ListBuilder { payload: Vec::new(), count: 0, items: Ghost(Seq::empty()) }
    }

    /// Whether nothing was gathered.
    pub fn is_empty(&self) -> (r: bool)
        requires
            self.wf(),
        ensures
            r == (self.items().len() == 0),
    {
        self.count == 0
    }

    /// Adds one item.
    pub fn push(&mut self, item: &[u8])
        requires
            old(self).wf(),
            item@.len() > 0,
        ensures
            final(self).wf(),
            final(self).items() == old(self).items().push(item@),
    {
        append_bytes(&mut self.payload, item);
        proof {
            lemma_join_push(self.items@, item@);
            assert(self.count < self.payload.len());
        }
        self.count = self.count + 1;
        self.items = Ghost(self.items@.push(item@));
    }

    /// Adds a number.
    pub fn push_num(&mut self, v: u64)
        requires
            old(self).wf(),
        ensures
            final(self).wf(),
            final(self).items() == old(self).items().push(rlp_num(v as nat)),
    {
        let item = encode_num(v);
        proof {
            lemma_num_framed(v);
            lemma_framed_info(rlp_num(v as nat), Seq::empty());
        }
        self.push(item.as_slice());
    }

    /// Adds a short byte string.
    pub fn push_str(&mut self, b: &[u8])
        requires
            old(self).wf(),
            b@.len() <= 255,
        ensures
            final(self).wf(),
            final(self).items() == old(self).items().push(rlp_str(b@)),
    {
        let item = encode_str(b);
        proof {
            lemma_str_framed(b@);
            lemma_framed_info(rlp_str(b@), Seq::empty());
        }
        self.push(item.as_slice());
    }

    /// The list of the items.
    pub fn finish(self) -> (r: Result<Vec<u8>, PackError>)
        requires
            self.wf(),
        ensures
            match r {
                Ok(bytes) => fit_list(self.items()) == Ok::<Seq<u8>, PackError>(bytes@)
                    && bytes@.len() > 0,
                Err(e) => fit_list(self.items()) == Err::<Seq<u8>, PackError>(e),
            },
    {
        if self.payload.len() as u64 > 0xffff_ffff {
            return Err(PackError::ItemTooLong);
        }
        proof {
            lemma_list_info(self.payload@, Seq::empty());
        }
        Ok(encode_list(self.payload.as_slice(), self.count))
    }
}

pub proof fn lemma_num_framed(v: u64)
    ensures
        framed(rlp_num(v as nat)),
        be_min(v as nat).len() <= 8,
        rlp_num(v as nat).len() <= 9,
{
    lemma_pow256();
    lemma_be_min_len(v as nat, 8);
}

pub proof fn lemma_str_framed(b: Seq<u8>)
    requires
        b.len() <= max_payload(),
    ensures
        framed(rlp_str(b)),
        b.len() <= 55 ==> rlp_str(b).len() <= 56,
{
}

/// Writes a price.
fn price_bytes(value: &U256, gas_price_index: &TableIndex, Ghost(table): Ghost<Seq<Seq<u8>>>) -> (r:
    Result<Vec<u8>, PackError>)
    requires
        gas_price_index.is_of(table),
    ensures
        match r {
            Ok(bytes) => fit_list(price_fields(value@, table)) == Ok::<Seq<u8>, PackError>(bytes@)
                && bytes@.len() > 0,
            Err(e) => fit_list(price_fields(value@, table)) == Err::<Seq<u8>, PackError>(e),
        },
{
    let mut list = ListBuilder::new();
    match gas_price_index.get(Ghost(table), &value.0) {
        Some(index) => {
            list.push_num(0);
            list.push_num(index as u64);
        },
        None => {
            list.push_num(1);
            list.push_str(&value.0);
        },
    }
    proof {
        assert(list.items() =~= price_fields(value@, table));
    }
    list.finish()
}

/// Writes an action.
fn action_bytes(
    action: &Action,
    address_index: &TableIndex,
    Ghost(addresses): Ghost<Seq<Seq<u8>>>,
) -> (r: Result<Vec<u8>, PackError>)
    requires
        address_index.is_of(addresses),
    ensures
        match r {
            Ok(bytes) => action_fields(action@, addresses) is Some && fit_list(
                action_fields(action@, addresses)->0,
            ) == Ok::<Seq<u8>, PackError>(bytes@) && bytes@.len() > 0,
            Err(e) => match action_fields(action@, addresses) {
                None => e == PackError::MissingActionAddress,
                Some(parts) => fit_list(parts) == Err::<Seq<u8>, PackError>(e),
            },
        },
{
    let mut list = ListBuilder::new();
    match action {
        Action::Create => {
            list.push_num(0);
        },
        Action::Call(address) => match address_index.get(Ghost(addresses), &address.0) {
            Some(index) => {
                list.push_num(1);
                list.push_num(index as u64);
            },
            None => {
                return Err(PackError::MissingActionAddress);
            },
        },
    }
    proof {
        assert(list.items() =~= action_fields(action@, addresses)->0);
    }
    list.finish()
}

fn access_item_bytes(item: &AccessListItem) -> (r: Result<Vec<u8>, PackError>)
    ensures
        match r {
            Ok(bytes) => access_item(item@) == Ok::<Seq<u8>, PackError>(bytes@) && bytes@.len() > 0,
            Err(e) => access_item(item@) == Err::<Seq<u8>, PackError>(e),
        },
{
    let ghost all = str_items(views(item.storage_keys@));
    let mut keys = ListBuilder::new();
    let mut i: usize = 0;
    proof {
        assert(all.take(0) =~= Seq::empty());
    }
    while i < item.storage_keys.len()
        invariant
            i <= item.storage_keys@.len(),
            all == str_items(views(item.storage_keys@)),
            keys.wf(),
            keys.items() == all.take(i as int),
        decreases item.storage_keys@.len() - i,
    {
        keys.push_str(&item.storage_keys[i].0);
        i += 1;
        proof {
            assert(keys.items() =~= all.take(i as int));
        }
    }
    proof {
        assert(all.take(i as int) =~= all);
    }
    let keys_bytes = match keys.finish() {
        Ok(b) => b,
        Err(e) => {
            return Err(e);
        },
    };
    let mut list = ListBuilder::new();
    list.push_str(&item.address.0);
    list.push(keys_bytes.as_slice());
    proof {
        assert(list.items() =~= seq![rlp_str(item@.address), keys_bytes@]);
    }
    list.finish()
}

fn access_list_bytes(list: &Vec<AccessListItem>) -> (r: Result<Vec<u8>, PackError>)
    ensures
        match r {
            Ok(bytes) => access_list_item(views(list@)) == Ok::<Seq<u8>, PackError>(bytes@)
                && bytes@.len() > 0,
            Err(e) => access_list_item(views(list@)) == Err::<Seq<u8>, PackError>(e),
        },
{
    let ghost all = views(list@);
    let mut items = ListBuilder::new();
    let mut i: usize = 0;
    while i < list.len()
        invariant
            i <= list@.len(),
            all == views(list@),
            items.wf(),
            access_items(all, i as int) == Ok::<Seq<Seq<u8>>, PackError>(items.items()),
        decreases list@.len() - i,
    {
        match access_item_bytes(&list[i]) {
            Ok(b) => items.push(b.as_slice()),
            Err(e) => {
                proof {
                    lemma_access_fault(all, i as int, all.len() as int);
                }
                return Err(e);
            },
        }
        i += 1;
    }
    items.finish()
}

proof fn lemma_access_fault(list: Seq<AccessModel>, i: int, n: int)
    requires
        0 <= i < n <= list.len(),
        access_items(list, i) is Ok,
        access_item(list[i]) is Err,
    ensures
        access_items(list, n) == Err::<Seq<Seq<u8>>, PackError>(access_item(list[i])->Err_0),
    decreases n,
{
    if n > i + 1 {
        lemma_access_fault(list, i, n - 1);
    }
}

/// The bytes of a word without leading zeros.
fn strip(w: &U256) -> (r: Vec<u8>)
    ensures
        r@ == stripped(w@),
        r@.len() <= 32,
{
    let mut i: usize = 0;
    proof {
        assert(w@.skip(0) =~= w@);
    }
    while i < 32 && w.0[i] == 0
        invariant
            i <= 32,
            stripped(w@) == stripped(w@.skip(i as int)),
        decreases 32 - i,
    {
        proof {
            assert(w@.skip(i as int).drop_first() =~= w@.skip(i + 1));
        }
        i += 1;
    }
    proof {
        assert(w@.subrange(i as int, 32) =~= w@.skip(i as int));
    }
    crate::bytes::to_vec(&w.0[i..32])
}

fn authorization_bytes(a: &AuthorizationListItem) -> (r: Result<Vec<u8>, PackError>)
    ensures
        match r {
            Ok(bytes) => fit_list(authorization_fields(a@)) == Ok::<Seq<u8>, PackError>(bytes@)
                && bytes@.len() > 0,
            Err(e) => fit_list(authorization_fields(a@)) == Err::<Seq<u8>, PackError>(e),
        },
{
    let mut list = ListBuilder::new();
    list.push_str(strip(&a.chain_id).as_slice());
    list.push_str(&a.address.0);
    list.push_num(a.nonce);
    list.push_num(a.y_parity as u64);
    list.push_str(strip(&a.r).as_slice());
    list.push_str(strip(&a.s).as_slice());
    proof {
        assert(list.items() =~= authorization_fields(a@));
    }
    list.finish()
}

fn authorization_list_bytes(list: &Vec<AuthorizationListItem>) -> (r: Result<Vec<u8>, PackError>)
    ensures
        match r {
            Ok(bytes) => authorization_list_item(views(list@)) == Ok::<Seq<u8>, PackError>(bytes@)
                && bytes@.len() > 0,
            Err(e) => authorization_list_item(views(list@)) == Err::<Seq<u8>, PackError>(e),
        },
{
    let ghost all = views(list@);
    let mut items = ListBuilder::new();
    let mut i: usize = 0;
    while i < list.len()
        invariant
            i <= list@.len(),
            all == views(list@),
            items.wf(),
            authorization_items(all, i as int) == Ok::<Seq<Seq<u8>>, PackError>(items.items()),
        decreases list@.len() - i,
    {
        match authorization_bytes(&list[i]) {
            Ok(b) => items.push(b.as_slice()),
            Err(e) => {
                proof {
                    lemma_authorization_fault(all, i as int, all.len() as int);
                }
                return Err(e);
            },
        }
        i += 1;
    }
    items.finish()
}

proof fn lemma_authorization_fault(list: Seq<AuthorizationModel>, i: int, n: int)
    requires
        0 <= i < n <= list.len(),
        authorization_items(list, i) is Ok,
        fit_list(authorization_fields(list[i])) is Err,
    ensures
        authorization_items(list, n) == Err::<Seq<Seq<u8>>, PackError>(
            fit_list(authorization_fields(list[i]))->Err_0,
        ),
    decreases n,
{
    if n > i + 1 {
        lemma_authorization_fault(list, i, n - 1);
    }
}

/// The base nonces by sender.
pub struct NonceIndex {
    bases: Vec<Option<u64>>,
}

impl NonceIndex {
    /// The index is that of `bases`, for the first `n` senders.
    pub closed spec fn is_of(&self, bases: Seq<(nat, u64)>, n: nat) -> bool {
        &&& self.bases@.len() == n
        &&& forall|i: int| 0 <= i < n ==> #[trigger] self.bases@[i] == base_of(bases, i as nat)
    }

    /// The index of a table of base nonces, for the first `n` senders.
    pub fn new(table: &Vec<SenderBaseNonce>, n: usize) -> (r: Self)
        ensures
            r.is_of(views(table@), n as nat),
    {
        let ghost all = views(table@);
        let mut bases: Vec<Option<u64>> = Vec::new();
        let mut k: usize = 0;
        while k < n
            invariant
                k <= n,
                bases@.len() == k,
                forall|i: int| 0 <= i < k ==> #[trigger] bases@[i] is None,
            decreases n - k,
        {
            bases.push(None);
            k += 1;
        }
        let mut i: usize = 0;
        proof {
            assert(all.take(0) =~= Seq::empty());
        }
        while i < table.len()
            invariant
                i <= table@.len(),
                all == views(table@),
                bases@.len() == n,
                forall|j: int|
                    0 <= j < n ==> #[trigger] bases@[j] == base_of(all.take(i as int), j as nat),
            decreases table@.len() - i,
        {
            let ghost before = bases@;
            let entry: SenderBaseNonce = table[i];
            proof {
                assert(all.take(i + 1).drop_last() =~= all.take(i as int));
                assert(all.take(i + 1).last() == entry@);
            }
            if entry.sender_index < n {
                bases[entry.sender_index] = Some(entry.base_nonce);
            }
            proof {
                assert forall|j: int| 0 <= j < n implies #[trigger] bases@[j] == base_of(
                    all.take(i + 1),
                    j as nat,
                ) by {
                    assert(before[j] == base_of(all.take(i as int), j as nat));
                }
            }
            i += 1;
        }
        proof {
            assert(all.take(i as int) =~= all);
        }
        NonceIndex { bases }
    }

    /// A nonce as it is written.
    pub fn written(
        &self,
        Ghost(bases): Ghost<Seq<(nat, u64)>>,
        Ghost(n): Ghost<nat>,
        sender: usize,
        nonce: u64,
    ) -> (r: u64)
        requires
            self.is_of(bases, n),
            sender < n,
        ensures
            r == written_nonce(bases, sender as nat, nonce),
    {
        proof {
            assert(self.bases@[sender as int] == base_of(bases, sender as nat));
        }
        match self.bases[sender] {
            Some(base) => {
                if nonce >= base {
                    nonce - base
                } else {
                    0
                }
            },
            None => nonce,
        }
    }
}

/// What transactions are written against: the packet and the indices of its tables.
pub struct TxIndex<'a> {
    pub packet: &'a Packet,
    pub addresses: &'a TableIndex,
    pub gas_prices: &'a TableIndex,
    pub nonces: &'a NonceIndex,
}

impl<'a> TxIndex<'a> {
    /// The indices are those of the packet.
    pub open spec fn wf(&self) -> bool {
        &&& self.addresses.is_of(self.packet@.addresses)
        &&& self.gas_prices.is_of(self.packet@.gas_prices)
        &&& self.nonces.is_of(self.packet@.base_nonces, self.packet@.addresses.len())
    }
}

/// The written parts of a transaction.
struct PartBytes {
    sender: usize,
    price: Vec<u8>,
    priority: Vec<u8>,
    action: Vec<u8>,
    data: Vec<u8>,
    access: Option<Vec<u8>>,
    authorizations: Option<Vec<u8>>,
}

impl PartBytes {
    spec fn lists(&self) -> Seq<Seq<u8>> {
        match self.access {
            None => Seq::empty(),
            Some(access) => match self.authorizations {
                None => seq![access@],
                Some(authorizations) => seq![access@, authorizations@],
            },
        }
    }

    spec fn parts(&self) -> TxParts {
        TxParts {
            sender: self.sender as nat,
            price: self.price@,
            priority: self.priority@,
            action: self.action@,
            data: self.data@,
            lists: self.lists(),
        }
    }

    spec fn wf(&self) -> bool {
        &&& self.price@.len() > 0
        &&& self.priority@.len() > 0
        &&& self.action@.len() > 0
        &&& self.data@.len() > 0
        &&& self.access matches Some(a) ==> a@.len() > 0
        &&& self.authorizations matches Some(a) ==> a@.len() > 0 && self.access is Some
    }
}

fn part_bytes(index: &TxIndex<'_>, tx: &SignedTransaction) -> (r: Result<PartBytes, PackError>)
    requires
        index.wf(),
    ensures
        match r {
            Ok(parts) => tx_parts(index.packet@, tx@) == Ok::<TxParts, PackError>(parts.parts())
                && parts.wf() && parts.sender < index.packet@.addresses.len(),
            Err(e) => tx_parts(index.packet@, tx@) == Err::<TxParts, PackError>(e),
        },
{
    let ghost p = index.packet@;
    let sender: usize = match index.addresses.get(Ghost(p.addresses), &tx.sender.0) {
        Some(i) => i,
        None => {
            return Err(PackError::MissingSender);
        },
    };
    proof {
        lemma_last_index(p.addresses, tx@.sender);
    }
    let price = match price_bytes(&tx.gas_price, index.gas_prices, Ghost(p.gas_prices)) {
        Ok(b) => b,
        Err(e) => {
            return Err(e);
        },
    };
    let priority_price: &U256 = if tx.kind.has_priority_fee() {
        &tx.max_priority_gas_price
    } else {
        &tx.gas_price
    };
    let priority = match price_bytes(priority_price, index.gas_prices, Ghost(p.gas_prices)) {
        Ok(b) => b,
        Err(e) => {
            return Err(e);
        },
    };
    let action = match action_bytes(&tx.action, index.addresses, Ghost(p.addresses)) {
        Ok(b) => b,
        Err(e) => {
            return Err(e);
        },
    };
    if tx.data.len() as u64 > 0xffff_ffff {
        return Err(PackError::ItemTooLong);
    }
    let data = encode_str(tx.data.as_slice());
    proof {
        lemma_str_framed(tx@.data);
        lemma_framed_info(rlp_str(tx@.data), Seq::empty());
    }
    let mut access: Option<Vec<u8>> = None;
    let mut authorizations: Option<Vec<u8>> = None;
    if tx.kind.has_access_list() {
        match access_list_bytes(&tx.access_list) {
            Ok(b) => {
                access = Some(b);
            },
            Err(e) => {
                return Err(e);
            },
        }
        if matches!(tx.kind, TxKind::Eip7702) {
            match authorization_list_bytes(&tx.authorization_list) {
                Ok(b) => {
                    authorizations = Some(b);
                },
                Err(e) => {
                    return Err(e);
                },
            }
        }
    }
    Ok(PartBytes { sender, price, priority, action, data, access, authorizations })
}

/// Writes a transaction of a block in the epoch `block_epoch`.
pub fn append_tx(index: &TxIndex<'_>, block_epoch: u64, tx: &SignedTransaction) -> (r: Result<
    Vec<u8>,
    PackError,
>)
    requires
        index.wf(),
    ensures
        match r {
            Ok(bytes) => tx_item(index.packet@, block_epoch, tx@) == Ok::<Seq<u8>, PackError>(
                bytes@,
            ) && bytes@.len() > 0,
            Err(e) => tx_item(index.packet@, block_epoch, tx@) == Err::<Seq<u8>, PackError>(e),
        },
{
    let parts = match part_bytes(index, tx) {
        Ok(parts) => parts,
        Err(e) => {
            return Err(e);
        },
    };
    let nonce: u64 = index.nonces.written(
        Ghost(index.packet@.base_nonces),
        Ghost(index.packet@.addresses.len()),
        parts.sender,
        tx.nonce.low_u64(),
    );
    let mut list = ListBuilder::new();
    list.push_num(
        if tx.kind.native() {
            0
        } else {
            2
        },
    );
    list.push_num(tx.kind.type_id());
    list.push_num(parts.sender as u64);
    list.push_num(nonce);
    list.push(parts.price.as_slice());
    list.push(parts.priority.as_slice());
    list.push_num(tx.gas.low_u64());
    list.push(parts.action.as_slice());
    list.push_str(&tx.value.0);
    let ghost t = parts.parts();
    let ghost common = common_fields(index.packet@, tx@, t);
    proof {
        assert(list.items() =~= common);
    }
    if tx.kind.native() {
        list.push_num(tx.storage_limit);
        list.push_num(zigzag_encode(tx.epoch_height.wrapping_sub(block_epoch)));
    }
    let ghost native = native_fields(tx@, block_epoch);
    proof {
        assert(list.items() =~= common + native);
    }
    list.push(parts.data.as_slice());
    let ghost with_data = list.items();
    proof {
        assert(with_data =~= common + native + seq![t.data]);
    }
    match &parts.access {
        Some(access) => list.push(access.as_slice()),
        None => {},
    }
    match &parts.authorizations {
        Some(authorizations) => list.push(authorizations.as_slice()),
        None => {},
    }
    proof {
        assert(list.items() =~= with_data + t.lists);
    }
    list.finish()
}

/// Writes a reference to an earlier transaction.
pub fn ref_bytes(block: usize, place: usize) -> (r: Result<Vec<u8>, PackError>)
    ensures
        match r {
            Ok(bytes) => fit_list(ref_fields(block as nat, place as nat)) == Ok::<
                Seq<u8>,
                PackError,
            >(bytes@) && bytes@.len() > 0,
            Err(e) => fit_list(ref_fields(block as nat, place as nat)) == Err::<
                Seq<u8>,
                PackError,
            >(e),
        },
{
    let mut list = ListBuilder::new();
    list.push_num(1);
    list.push_num(block as u64);
    list.push_num(place as u64);
    proof {
        assert(list.items() =~= ref_fields(block as nat, place as nat));
    }
    list.finish()
}

fn reward_account_bytes(a: &PosRewardAccount) -> (r: Result<Vec<u8>, PackError>)
    ensures
        match r {
            Ok(bytes) => fit_list(reward_account_fields(a@)) == Ok::<Seq<u8>, PackError>(bytes@)
                && bytes@.len() > 0,
            Err(e) => fit_list(reward_account_fields(a@)) == Err::<Seq<u8>, PackError>(e),
        },
{
    let mut list = ListBuilder::new();
    list.push_str(&a.address.0);
    list.push_str(&a.pos_identifier.0);
    list.push_str(&a.reward.0);
    proof {
        assert(list.items() =~= reward_account_fields(a@));
    }
    list.finish()
}

proof fn lemma_reward_fault(list: Seq<RewardAccountModel>, i: int, n: int)
    requires
        0 <= i < n <= list.len(),
        reward_account_items(list, i) is Ok,
        fit_list(reward_account_fields(list[i])) is Err,
    ensures
        reward_account_items(list, n) == Err::<Seq<Seq<u8>>, PackError>(
            fit_list(reward_account_fields(list[i]))->Err_0,
        ),
    decreases n,
{
    if n > i + 1 {
        lemma_reward_fault(list, i, n - 1);
    }
}

/// Writes an interest distribution.
pub fn reward_bytes(entry: &PosRewardEntry) -> (r: Result<Vec<u8>, PackError>)
    ensures
        match r {
            Ok(bytes) => reward_item(entry@) == Ok::<Seq<u8>, PackError>(bytes@) && bytes@.len()
                > 0,
            Err(e) => reward_item(entry@) == Err::<Seq<u8>, PackError>(e),
        },
{
    let ghost all = views(entry.account_rewards@);
    let mut items = ListBuilder::new();
    let mut i: usize = 0;
    while i < entry.account_rewards.len()
        invariant
            i <= entry.account_rewards@.len(),
            all == views(entry.account_rewards@),
            items.wf(),
            reward_account_items(all, i as int) == Ok::<Seq<Seq<u8>>, PackError>(items.items()),
        decreases entry.account_rewards@.len() - i,
    {
        match reward_account_bytes(&entry.account_rewards[i]) {
            Ok(b) => items.push(b.as_slice()),
            Err(e) => {
                proof {
                    lemma_reward_fault(all, i as int, all.len() as int);
                }
                return Err(e);
            },
        }
        i += 1;
    }
    let accounts = match items.finish() {
        Ok(b) => b,
        Err(e) => {
            return Err(e);
        },
    };
    let mut list = ListBuilder::new();
    list.push_num(3);
    list.push(accounts.as_slice());
    list.push_str(&entry.execution_epoch_hash.0);
    proof {
        assert(list.items() =~= seq![rlp_num(3), accounts@, rlp_str(entry@.epoch_hash)]);
    }
    list.finish()
}

/// Writes an unlocking.
pub fn unlock_bytes(entry: &UnlockEntry) -> (r: Result<Vec<u8>, PackError>)
    ensures
        match r {
            Ok(bytes) => fit_list(unlock_fields(entry@)) == Ok::<Seq<u8>, PackError>(bytes@)
                && bytes@.len() > 0,
            Err(e) => fit_list(unlock_fields(entry@)) == Err::<Seq<u8>, PackError>(e),
        },
{
    let mut list = ListBuilder::new();
    list.push_num(4);
    list.push_str(&entry.identifier.0);
    list.push_num(entry.unlocked);
    proof {
        assert(list.items() =~= unlock_fields(entry@));
    }
    list.finish()
}

} // verus!
