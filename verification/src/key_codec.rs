//! Logical storage keys and their two byte forms.
//!
//! The snapshot holds canonical keys: the address followed by a suffix that names
//! what is stored. The delta layers hold delta keys, in which a hash spreads the
//! addresses, and the storage keys of one address, over the trie.
use crate::bytes::{append_bytes, bytes_eq, starts_with, to_vec};
use crate::trie::{keccak, keccak256, keccak_digest};
use crate::types::{Error, Result, Space, H256, MERKLE_NULL_NODE};
use vstd::prelude::*;

verus! {

/// Length of an address.
pub const ACCOUNT_BYTES: usize = 20;

/// Length of the account part of a delta key.
pub const ACCOUNT_KEYPART_BYTES: usize = 32;

/// Length of the hash that leads the account part of a delta key.
pub const ACCOUNT_PADDING_BYTES: usize = 12;

/// Length of a padding, and of the padded storage prefix of a delta key.
pub const KEY_PADDING_BYTES: usize = 32;

/// The byte that marks a key of the Ethereum space.
pub const EVM_SPACE_TYPE: u8 = 0x81;

/// "data"
pub const STORAGE_PREFIX: [u8; 4] = [0x64u8, 0x61, 0x74, 0x61];

/// "code"
pub const CODE_HASH_PREFIX: [u8; 4] = [0x63u8, 0x6f, 0x64, 0x65];

/// "deposit"
pub const DEPOSIT_LIST_PREFIX: [u8; 7] = [0x64u8, 0x65, 0x70, 0x6f, 0x73, 0x69, 0x74];

/// "vote"
pub const VOTE_LIST_PREFIX: [u8; 4] = [0x76u8, 0x6f, 0x74, 0x65];

/// What a key refers to within one space.
#[derive(Clone, Debug, PartialEq, Eq)]
pub enum StorageKey {
    Account(Vec<u8>),
    StorageRoot(Vec<u8>),
    Storage { address: Vec<u8>, storage_key: Vec<u8> },
    CodeRoot(Vec<u8>),
    Code { address: Vec<u8>, code_hash: Vec<u8> },
    DepositList(Vec<u8>),
    VoteList(Vec<u8>),
    Empty,
    AddressPrefix(Vec<u8>),
}

/// A storage key in its space.
#[derive(Clone, Debug, PartialEq, Eq)]
pub struct StorageKeyWithSpace {
    pub key: StorageKey,
    pub space: Space,
}

/// The 32 bytes that randomise the delta keys of one period.
#[derive(Clone, Copy, Debug, PartialEq, Eq)]
pub struct DeltaMptKeyPadding(pub [u8; 32]);

/// What a [`StorageKey`] holds.
pub enum KeyPart {
    Account(Seq<u8>),
    StorageRoot(Seq<u8>),
    Storage { address: Seq<u8>, storage_key: Seq<u8> },
    CodeRoot(Seq<u8>),
    Code { address: Seq<u8>, code_hash: Seq<u8> },
    DepositList(Seq<u8>),
    VoteList(Seq<u8>),
    Empty,
    AddressPrefix(Seq<u8>),
}

/// What a [`StorageKeyWithSpace`] holds.
pub struct KeyModel {
    pub key: KeyPart,
    pub space: Space,
}

impl View for StorageKey {
    type V = KeyPart;

    open spec fn view(&self) -> KeyPart {
        match *self {
            StorageKey::Account(a) => KeyPart::Account(a@),
            StorageKey::StorageRoot(a) => KeyPart::StorageRoot(a@),
            StorageKey::Storage { address, storage_key } => KeyPart::Storage {
                address: address@,
                storage_key: storage_key@,
            },
            StorageKey::CodeRoot(a) => KeyPart::CodeRoot(a@),
            StorageKey::Code { address, code_hash } => KeyPart::Code {
                address: address@,
                code_hash: code_hash@,
            },
            StorageKey::DepositList(a) => KeyPart::DepositList(a@),
            StorageKey::VoteList(a) => KeyPart::VoteList(a@),
            StorageKey::Empty => KeyPart::Empty,
            StorageKey::AddressPrefix(p) => KeyPart::AddressPrefix(p@),
        }
    }
}

impl View for StorageKeyWithSpace {
    type V = KeyModel;

    open spec fn view(&self) -> KeyModel {
        KeyModel { key: self.key@, space: self.space }
    }
}

impl View for DeltaMptKeyPadding {
    type V = Seq<u8>;

    open spec fn view(&self) -> Seq<u8> {
        self.0@
    }
}

/// The bytes that mark a space within a key.
pub open spec fn marker(space: Space) -> Seq<u8> {
    match space {
        Space::Native => Seq::empty(),
        Space::Ethereum => seq![EVM_SPACE_TYPE],
    }
}

impl KeyPart {
    /// The address that the key belongs to.
    pub open spec fn address(self) -> Seq<u8> {
        match self {
            KeyPart::Account(a) => a,
            KeyPart::StorageRoot(a) => a,
            KeyPart::Storage { address, .. } => address,
            KeyPart::CodeRoot(a) => a,
            KeyPart::Code { address, .. } => address,
            KeyPart::DepositList(a) => a,
            KeyPart::VoteList(a) => a,
            KeyPart::Empty => Seq::empty(),
            KeyPart::AddressPrefix(p) => p,
        }
    }

    /// The bytes that follow the address in a canonical key.
    pub open spec fn suffix(self) -> Seq<u8> {
        match self {
            KeyPart::Account(_) => Seq::empty(),
            KeyPart::StorageRoot(_) => STORAGE_PREFIX@,
            KeyPart::Storage { storage_key, .. } => STORAGE_PREFIX@ + storage_key,
            KeyPart::CodeRoot(_) => CODE_HASH_PREFIX@,
            KeyPart::Code { code_hash, .. } => CODE_HASH_PREFIX@ + code_hash,
            KeyPart::DepositList(_) => DEPOSIT_LIST_PREFIX@,
            KeyPart::VoteList(_) => VOTE_LIST_PREFIX@,
            KeyPart::Empty => Seq::empty(),
            KeyPart::AddressPrefix(_) => Seq::empty(),
        }
    }

    /// The bytes that follow the account part in a delta key.
    pub open spec fn delta_suffix(self, padding: Seq<u8>) -> Seq<u8> {
        match self {
            KeyPart::Storage { storage_key, .. } => STORAGE_PREFIX@ + storage_spread(
                storage_key,
                padding,
            ) + storage_key,
            _ => self.suffix(),
        }
    }
}

/// The account part of a delta key: a hash that depends on the padding, then the address.
pub open spec fn account_key(address: Seq<u8>, padding: Seq<u8>) -> Seq<u8> {
    keccak256(padding.take(12) + address).take(12) + address
}

/// The 28 bytes that spread the storage keys of an address.
pub open spec fn storage_spread(storage_key: Seq<u8>, padding: Seq<u8>) -> Seq<u8> {
    keccak256(padding + storage_key).subrange(4, 32)
}

/// Keys that stand for themselves: short account keys and prefixes.
pub open spec fn is_bare(k: KeyPart) -> bool {
    match k {
        KeyPart::Account(a) => a.len() < 20,
        KeyPart::Empty => true,
        KeyPart::AddressPrefix(_) => true,
        _ => false,
    }
}

/// The key has byte forms: it stands for itself, or has a full address.
pub open spec fn encodable(k: KeyPart) -> bool {
    is_bare(k) || k.address().len() == 20
}

/// The canonical form of a key.
pub open spec fn canonical(k: KeyModel) -> Seq<u8> {
    if is_bare(k.key) {
        k.key.address()
    } else {
        k.key.address() + marker(k.space) + k.key.suffix()
    }
}

/// The delta form of a key under a padding. Prefixes have none of their own: the
/// empty string stands for them.
pub open spec fn delta_key(k: KeyModel, padding: Seq<u8>) -> Seq<u8> {
    match k.key {
        KeyPart::Empty => Seq::empty(),
        KeyPart::AddressPrefix(_) => Seq::empty(),
        _ => if is_bare(k.key) {
            k.key.address()
        } else {
            account_key(k.key.address(), padding) + marker(k.space) + k.key.delta_suffix(padding)
        },
    }
}

/// What the first 32 bytes of a delta key are, and which 32 bytes the hash is taken of.
proof fn lemma_account_lead(k: KeyModel, padding: Seq<u8>)
    requires
        !is_bare(k.key),
        k.key.address().len() == 20,
        padding.len() == 32,
    ensures
        delta_key(k, padding).len() >= 32,
        delta_key(k, padding).subrange(12, 32) == k.key.address(),
        forall|pre: Seq<u8>|
            pre.len() == 32 && pre.subrange(0, 12) == padding.subrange(0, 12) && pre.subrange(
                12,
                32,
            ) == k.key.address() ==> delta_key(k, padding).subrange(0, 12)
                == #[trigger] keccak_digest(pre)@.subrange(0, 12),
{
    let a = k.key.address();
    let head = account_key(a, padding);
    let d = delta_key(k, padding);
    assert(head.len() == 32);
    assert(d.subrange(12, 32) =~= a);
    assert forall|pre: Seq<u8>|
        pre.len() == 32 && pre.subrange(0, 12) == padding.subrange(0, 12) && pre.subrange(12, 32)
            == a implies d.subrange(0, 12) == #[trigger] keccak_digest(pre)@.subrange(0, 12) by {
        assert(pre =~= padding.take(12) + a);
        assert(d.subrange(0, 12) =~= keccak_digest(pre)@.subrange(0, 12));
    }
}

/// What a suffix after a full address says in a canonical key.
pub open spec fn canonical_part(address: Seq<u8>, rest: Seq<u8>) -> Option<KeyPart> {
    if rest.len() == 0 {
        Some(KeyPart::Account(address))
    } else if STORAGE_PREFIX@.is_prefix_of(rest) {
        if rest.len() == 4 {
            Some(KeyPart::StorageRoot(address))
        } else {
            Some(KeyPart::Storage { address, storage_key: rest.skip(4) })
        }
    } else if CODE_HASH_PREFIX@.is_prefix_of(rest) {
        if rest.len() == 4 {
            Some(KeyPart::CodeRoot(address))
        } else {
            Some(KeyPart::Code { address, code_hash: rest.skip(4) })
        }
    } else if rest == DEPOSIT_LIST_PREFIX@ {
        Some(KeyPart::DepositList(address))
    } else if rest == VOTE_LIST_PREFIX@ {
        Some(KeyPart::VoteList(address))
    } else {
        None
    }
}

/// Whether byte `n` of a key marks the Ethereum space.
pub open spec fn marked(raw: Seq<u8>, n: int) -> bool {
    raw.len() > n && raw[n] == EVM_SPACE_TYPE
}

/// The key that a canonical form stands for.
pub open spec fn canonical_decode(raw: Seq<u8>) -> Option<KeyModel> {
    if raw.len() == 0 {
        Some(KeyModel { key: KeyPart::Empty, space: Space::Native })
    } else if raw.len() < 20 {
        Some(KeyModel { key: KeyPart::AddressPrefix(raw), space: Space::Native })
    } else {
        let space = if marked(raw, 20) {
            Space::Ethereum
        } else {
            Space::Native
        };
        match canonical_part(raw.take(20), raw.skip(20 + marker(space).len() as int)) {
            Some(key) => Some(KeyModel { key, space }),
            None => None,
        }
    }
}

/// What a suffix after the account part says in a delta key, or why it says nothing.
/// Whatever follows "deposit" or "vote" is ignored.
pub open spec fn delta_part(address: Seq<u8>, rest: Seq<u8>) -> core::result::Result<
    KeyPart,
    Seq<char>,
> {
    if STORAGE_PREFIX@.is_prefix_of(rest) {
        if rest.len() == 4 {
            Ok(KeyPart::StorageRoot(address))
        } else if rest.len() < 32 {
            Err("storage delta key missing padded storage key"@)
        } else {
            Ok(KeyPart::Storage { address, storage_key: rest.skip(32) })
        }
    } else if CODE_HASH_PREFIX@.is_prefix_of(rest) {
        if rest.len() == 4 {
            Ok(KeyPart::CodeRoot(address))
        } else {
            Ok(KeyPart::Code { address, code_hash: rest.skip(4) })
        }
    } else if DEPOSIT_LIST_PREFIX@.is_prefix_of(rest) {
        Ok(KeyPart::DepositList(address))
    } else if VOTE_LIST_PREFIX@.is_prefix_of(rest) {
        Ok(KeyPart::VoteList(address))
    } else {
        Err("unknown delta key suffix"@)
    }
}

/// The key that a delta form stands for, or why it stands for none.
pub open spec fn delta_decode(raw: Seq<u8>) -> core::result::Result<KeyModel, Seq<char>> {
    let address = raw.subrange(12, 32);
    if raw.len() < 32 {
        Ok(KeyModel { key: KeyPart::Account(raw), space: Space::Native })
    } else if raw.len() == 32 {
        Ok(KeyModel { key: KeyPart::Account(address), space: Space::Native })
    } else if raw.len() == 33 && raw[32] == EVM_SPACE_TYPE {
        Ok(KeyModel { key: KeyPart::Account(address), space: Space::Ethereum })
    } else if raw[32] >= 0x80 && raw[32] != EVM_SPACE_TYPE {
        Err("unknown delta space marker"@)
    } else {
        let space = if marked(raw, 32) {
            Space::Ethereum
        } else {
            Space::Native
        };
        match delta_part(address, raw.skip(32 + marker(space).len() as int)) {
            Ok(key) => Ok(KeyModel { key, space }),
            Err(why) => Err(why),
        }
    }
}

/// The padding of a period that starts from the given roots.
pub open spec fn padding_of(snapshot_root: Seq<u8>, intermediate_root: Seq<u8>) -> Seq<u8> {
    keccak256(snapshot_root + intermediate_root)
}

impl Default for DeltaMptKeyPadding {
    fn default() -> (r: Self)
        ensures
            r@ == padding_of(MERKLE_NULL_NODE@, MERKLE_NULL_NODE@),
    {
        DeltaMptKeyPadding::genesis()
    }
}

impl DeltaMptKeyPadding {
    /// The padding of an empty state.
    pub fn genesis() -> (r: Self)
        ensures
            r@ == padding_of(MERKLE_NULL_NODE@, MERKLE_NULL_NODE@),
    {
        DeltaMptKeyPadding::from_roots(H256(MERKLE_NULL_NODE), H256(MERKLE_NULL_NODE))
    }

    /// The padding of a period that starts from the given roots.
    pub fn from_roots(snapshot_root: H256, intermediate_delta_root: H256) -> (r: Self)
        ensures
            r@ == padding_of(snapshot_root@, intermediate_delta_root@),
    {
        let mut buffer: Vec<u8> = Vec::with_capacity(64);
        append_bytes(&mut buffer, &snapshot_root.0);
        append_bytes(&mut buffer, &intermediate_delta_root.0);
        proof {
            assert(buffer@ =~= snapshot_root@ + intermediate_delta_root@);
        }
        DeltaMptKeyPadding(keccak(buffer.as_slice()).0)
    }
}

/// The message for an address that is not 20 bytes long.
pub open spec fn bad_address() -> Seq<char> {
    "address must be 20 bytes"@
}

fn checked_address(address: &[u8]) -> (r: Result<&[u8]>)
    ensures
        match r {
            Ok(a) => address@.len() == 20 && a@ == address@,
            Err(e) => address@.len() != 20 && e is InvalidKey && e->InvalidKey_0@ == bad_address(),
        },
{
    if address.len() == ACCOUNT_BYTES {
        Ok(address)
    } else {
        Err(Error::InvalidKey("address must be 20 bytes"))
    }
}

/// The address, the mark of the space and the suffix.
fn snapshot_key(address: &[u8], space: Space, prefix: &[u8], suffix: &[u8]) -> (r: Result<Vec<u8>>)
    ensures
        match r {
            Ok(k) => address@.len() == 20 && k@ == address@ + marker(space) + (prefix@ + suffix@),
            Err(e) => address@.len() != 20 && e is InvalidKey && e->InvalidKey_0@ == bad_address(),
        },
{
    match checked_address(address) {
        Ok(address) => {
            let mut key: Vec<u8> = to_vec(address);
            if space == Space::Ethereum {
                key.push(EVM_SPACE_TYPE);
            }
            append_bytes(&mut key, prefix);
            append_bytes(&mut key, suffix);
            proof {
                assert(key@ =~= address@ + marker(space) + (prefix@ + suffix@));
            }
            Ok(key)
        },
        Err(e) => Err(e),
    }
}

fn new_account_key(address: &[u8], padding: &DeltaMptKeyPadding) -> (key: Vec<u8>)
    ensures
        key@ == account_key(address@, padding@),
{
    let mut padded: Vec<u8> = to_vec(&padding.0[0..12]);
    append_bytes(&mut padded, address);
    proof {
        assert(padded@ =~= padding@.take(12) + address@);
    }
    let hash = keccak(padded.as_slice());
    let mut key: Vec<u8> = to_vec(&hash.0[0..12]);
    append_bytes(&mut key, address);
    proof {
        assert(key@ =~= account_key(address@, padding@));
    }
    key
}

fn storage_key_padding(storage_key: &[u8], padding: &DeltaMptKeyPadding) -> (r: DeltaMptKeyPadding)
    ensures
        r@ == keccak256(padding@ + storage_key@),
{
    let mut padded: Vec<u8> = to_vec(&padding.0);
    append_bytes(&mut padded, storage_key);
    DeltaMptKeyPadding(keccak(padded.as_slice()).0)
}

/// The account part, the mark of the space and the suffix.
fn marked_account_key(
    address: &[u8],
    space: Space,
    padding: &DeltaMptKeyPadding,
    prefix: &[u8],
    suffix: &[u8],
) -> (r: Result<Vec<u8>>)
    ensures
        match r {
            Ok(k) => address@.len() == 20 && k@ == account_key(address@, padding@) + marker(space)
                + (prefix@ + suffix@),
            Err(e) => address@.len() != 20 && e is InvalidKey && e->InvalidKey_0@ == bad_address(),
        },
{
    match checked_address(address) {
        Ok(address) => {
            let mut key: Vec<u8> = new_account_key(address, padding);
            if space == Space::Ethereum {
                key.push(EVM_SPACE_TYPE);
            }
            append_bytes(&mut key, prefix);
            append_bytes(&mut key, suffix);
            proof {
                assert(key@ =~= account_key(address@, padding@) + marker(space) + (prefix@
                    + suffix@));
            }
            Ok(key)
        },
        Err(e) => Err(e),
    }
}

impl StorageKeyWithSpace {
    /// A key of the native space.
    pub fn native(key: StorageKey) -> (r: Self)
        ensures
            r.key == key,
            r.space == Space::Native,
    {
        StorageKeyWithSpace { key, space: Space::Native }
    }

    /// A key of the Ethereum space.
    pub fn ethereum(key: StorageKey) -> (r: Self)
        ensures
            r.key == key,
            r.space == Space::Ethereum,
    {
        StorageKeyWithSpace { key, space: Space::Ethereum }
    }

    /// The canonical form of the key.
    pub fn to_key_bytes(&self) -> (r: Result<Vec<u8>>)
        ensures
            match r {
                Ok(k) => encodable(self@.key) && k@ == canonical(self@),
                Err(e) => !encodable(self@.key) && e is InvalidKey && e->InvalidKey_0@
                    == bad_address(),
            },
    {
        let none: Vec<u8> = Vec::new();
        let none: &[u8] = none.as_slice();
        proof {
            assert(forall|s: Seq<u8>| #[trigger] (s + none@) =~= s);
        }
        match &self.key {
            StorageKey::Account(address) => {
                if address.len() < ACCOUNT_BYTES {
                    return Ok(to_vec(address.as_slice()));
                }
                snapshot_key(address.as_slice(), self.space, none, none)
            },
            StorageKey::StorageRoot(address) => {
                snapshot_key(address.as_slice(), self.space, &STORAGE_PREFIX, none)
            },
            StorageKey::Storage { address, storage_key } => {
                snapshot_key(
                    address.as_slice(),
                    self.space,
                    &STORAGE_PREFIX,
                    storage_key.as_slice(),
                )
            },
            StorageKey::CodeRoot(address) => {
                snapshot_key(address.as_slice(), self.space, &CODE_HASH_PREFIX, none)
            },
            StorageKey::Code { address, code_hash } => {
                snapshot_key(address.as_slice(), self.space, &CODE_HASH_PREFIX, code_hash.as_slice())
            },
            StorageKey::DepositList(address) => {
                snapshot_key(address.as_slice(), self.space, &DEPOSIT_LIST_PREFIX, none)
            },
            StorageKey::VoteList(address) => {
                snapshot_key(address.as_slice(), self.space, &VOTE_LIST_PREFIX, none)
            },
            StorageKey::Empty => Ok(Vec::new()),
            StorageKey::AddressPrefix(prefix) => Ok(to_vec(prefix.as_slice())),
        }
    }

    /// The delta form of the key under `padding`.
    pub fn to_delta_mpt_key_bytes(&self, padding: &DeltaMptKeyPadding) -> (r: Result<Vec<u8>>)
        ensures
            match r {
                Ok(k) => encodable(self@.key) && k@ == delta_key(self@, padding@),
                Err(e) => !encodable(self@.key) && e is InvalidKey && e->InvalidKey_0@
                    == bad_address(),
            },
            forall|pre: Seq<u8>|
                r is Ok && pre.len() == 32 && pre.subrange(0, 12) == padding@.subrange(0, 12) && (
                match self@.key {
                    KeyPart::Account(a) => a == pre.subrange(12, 32),
                    KeyPart::StorageRoot(a) => a == pre.subrange(12, 32),
                    KeyPart::Storage { address, .. } => address == pre.subrange(12, 32),
                    KeyPart::CodeRoot(a) => a == pre.subrange(12, 32),
                    KeyPart::Code { address, .. } => address == pre.subrange(12, 32),
                    KeyPart::DepositList(a) => a == pre.subrange(12, 32),
                    KeyPart::VoteList(a) => a == pre.subrange(12, 32),
                    KeyPart::Empty => false,
                    KeyPart::AddressPrefix(_) => false,
                }) ==> {
                    &&& r->Ok_0@.len() >= 32
                    &&& r->Ok_0@.subrange(0, 12) == #[trigger] keccak_digest(pre)@.subrange(0, 12)
                    &&& r->Ok_0@.subrange(12, 32) == pre.subrange(12, 32)
                },
    {
        let none: Vec<u8> = Vec::new();
        let none: &[u8] = none.as_slice();
        proof {
            assert(forall|s: Seq<u8>| #[trigger] (s + none@) =~= s);
            if !is_bare(self@.key) && self@.key.address().len() == 20 {
                lemma_account_lead(self@, padding@);
            }
        }
        match &self.key {
            StorageKey::Account(address) => {
                if address.len() < ACCOUNT_BYTES {
                    return Ok(to_vec(address.as_slice()));
                }
                marked_account_key(address.as_slice(), self.space, padding, none, none)
            },
            StorageKey::StorageRoot(address) => {
                marked_account_key(address.as_slice(), self.space, padding, &STORAGE_PREFIX, none)
            },
            StorageKey::Storage { address, storage_key } => {
                let spread = storage_key_padding(storage_key.as_slice(), padding);
                let mut suffix: Vec<u8> = to_vec(&spread.0[4..32]);
                append_bytes(&mut suffix, storage_key.as_slice());
                proof {
                    assert(STORAGE_PREFIX@ + suffix@ =~= self@.key.delta_suffix(padding@));
                }
                marked_account_key(
                    address.as_slice(),
                    self.space,
                    padding,
                    &STORAGE_PREFIX,
                    suffix.as_slice(),
                )
            },
            StorageKey::CodeRoot(address) => {
                marked_account_key(address.as_slice(), self.space, padding, &CODE_HASH_PREFIX, none)
            },
            StorageKey::Code { address, code_hash } => {
                marked_account_key(
                    address.as_slice(),
                    self.space,
                    padding,
                    &CODE_HASH_PREFIX,
                    code_hash.as_slice(),
                )
            },
            StorageKey::DepositList(address) => {
                marked_account_key(
                    address.as_slice(),
                    self.space,
                    padding,
                    &DEPOSIT_LIST_PREFIX,
                    none,
                )
            },
            StorageKey::VoteList(address) => {
                marked_account_key(address.as_slice(), self.space, padding, &VOTE_LIST_PREFIX, none)
            },
            StorageKey::Empty => Ok(Vec::new()),
            StorageKey::AddressPrefix(_) => Ok(Vec::new()),
        }
    }

    /// The key that a delta form stands for.
    pub fn from_delta_mpt_key(raw: &[u8]) -> (r: Result<Self>)
        ensures
            match r {
                Ok(k) => delta_decode(raw@) == core::result::Result::<KeyModel, Seq<char>>::Ok(k@),
                Err(e) => e is InvalidKey && delta_decode(raw@) == core::result::Result::<
                    KeyModel,
                    Seq<char>,
                >::Err(e->InvalidKey_0@),
            },
    {
        if raw.len() < ACCOUNT_KEYPART_BYTES {
            return Ok(StorageKeyWithSpace::native(StorageKey::Account(to_vec(raw))));
        }
        let address: Vec<u8> = to_vec(&raw[12..32]);
        if raw.len() == ACCOUNT_KEYPART_BYTES {
            return Ok(StorageKeyWithSpace::native(StorageKey::Account(address)));
        }
        let mark: u8 = raw[ACCOUNT_KEYPART_BYTES];
        if raw.len() == ACCOUNT_KEYPART_BYTES + 1 && mark == EVM_SPACE_TYPE {
            return Ok(StorageKeyWithSpace::ethereum(StorageKey::Account(address)));
        }
        let (space, rest): (Space, &[u8]) = if mark >= 0x80 {
            if mark != EVM_SPACE_TYPE {
                return Err(Error::InvalidKey("unknown delta space marker"));
            }
            (Space::Ethereum, &raw[33..raw.len()])
        } else {
            (Space::Native, &raw[32..raw.len()])
        };
        proof {
            assert(rest@ =~= raw@.skip(32 + marker(space).len() as int));
        }
        let key: StorageKey = if starts_with(rest, &STORAGE_PREFIX) {
            if rest.len() == STORAGE_PREFIX.len() {
                StorageKey::StorageRoot(address)
            } else {
                if rest.len() < KEY_PADDING_BYTES {
                    return Err(Error::InvalidKey("storage delta key missing padded storage key"));
                }
                let storage_key: Vec<u8> = to_vec(&rest[32..rest.len()]);
                proof {
                    assert(storage_key@ =~= rest@.skip(32));
                }
                StorageKey::Storage { address, storage_key }
            }
        } else if starts_with(rest, &CODE_HASH_PREFIX) {
            let code_hash: Vec<u8> = to_vec(&rest[4..rest.len()]);
            if code_hash.len() == 0 {
                StorageKey::CodeRoot(address)
            } else {
                proof {
                    assert(code_hash@ =~= rest@.skip(4));
                }
                StorageKey::Code { address, code_hash }
            }
        } else if starts_with(rest, &DEPOSIT_LIST_PREFIX) {
            StorageKey::DepositList(address)
        } else if starts_with(rest, &VOTE_LIST_PREFIX) {
            StorageKey::VoteList(address)
        } else {
            return Err(Error::InvalidKey("unknown delta key suffix"));
        };
        Ok(StorageKeyWithSpace { key, space })
    }

    /// The key that a canonical form stands for.
    pub fn from_key_bytes(raw: &[u8]) -> (r: Result<Self>)
        ensures
            match r {
                Ok(k) => canonical_decode(raw@) == Some(k@),
                Err(e) => canonical_decode(raw@) is None && e is InvalidKey && e->InvalidKey_0@
                    == "unknown snapshot key suffix"@,
            },
    {
        if raw.len() == 0 {
            return Ok(StorageKeyWithSpace::native(StorageKey::Empty));
        }
        if raw.len() < ACCOUNT_BYTES {
            return Ok(StorageKeyWithSpace::native(StorageKey::AddressPrefix(to_vec(raw))));
        }
        let address: Vec<u8> = to_vec(&raw[0..20]);
        let (space, rest): (Space, &[u8]) = if raw.len() > ACCOUNT_BYTES && raw[ACCOUNT_BYTES]
            == EVM_SPACE_TYPE {
            (Space::Ethereum, &raw[21..raw.len()])
        } else {
            (Space::Native, &raw[20..raw.len()])
        };
        proof {
            assert(address@ =~= raw@.take(20));
            assert(rest@ =~= raw@.skip(20 + marker(space).len() as int));
        }
        let key: StorageKey = if rest.len() == 0 {
            StorageKey::Account(address)
        } else if starts_with(rest, &STORAGE_PREFIX) {
            let suffix: Vec<u8> = to_vec(&rest[4..rest.len()]);
            if suffix.len() == 0 {
                StorageKey::StorageRoot(address)
            } else {
                proof {
                    assert(suffix@ =~= rest@.skip(4));
                }
                StorageKey::Storage { address, storage_key: suffix }
            }
        } else if starts_with(rest, &CODE_HASH_PREFIX) {
            let suffix: Vec<u8> = to_vec(&rest[4..rest.len()]);
            if suffix.len() == 0 {
                StorageKey::CodeRoot(address)
            } else {
                proof {
                    assert(suffix@ =~= rest@.skip(4));
                }
                StorageKey::Code { address, code_hash: suffix }
            }
        } else if bytes_eq(rest, &DEPOSIT_LIST_PREFIX) {
            StorageKey::DepositList(address)
        } else if bytes_eq(rest, &VOTE_LIST_PREFIX) {
            StorageKey::VoteList(address)
        } else {
            return Err(Error::InvalidKey("unknown snapshot key suffix"));
        };
        Ok(StorageKeyWithSpace { key, space })
    }
}

/// A key that a layer can hold under a form of its own: a full address, and
/// nothing empty where a suffix tells keys apart.
pub open spec fn storable(k: KeyModel) -> bool {
    &&& !is_bare(k.key)
    &&& k.key.address().len() == 20
    &&& match k.key {
        KeyPart::Storage { storage_key, .. } => storage_key.len() > 0,
        KeyPart::Code { code_hash, .. } => code_hash.len() > 0,
        _ => true,
    }
}

/// A key that its delta form gives back: every storable key, storage keys that
/// are empty, and short account keys of the native space.
pub open spec fn delta_storable(k: KeyModel) -> bool {
    match k.key {
        KeyPart::Account(a) => a.len() == 20 || a.len() < 20 && k.space == Space::Native,
        KeyPart::Storage { address, .. } => address.len() == 20,
        _ => storable(k),
    }
}

proof fn lemma_skip_marker(head: Seq<u8>, space: Space, suffix: Seq<u8>)
    requires
        suffix.len() > 0 ==> suffix[0] < 0x80,
    ensures
        ({
            let raw = head + marker(space) + suffix;
            &&& raw.take(head.len() as int) == head
            &&& raw.skip(head.len() as int + marker(space).len() as int) == suffix
            &&& marked(raw, head.len() as int) == (space == Space::Ethereum)
            &&& raw.len() > head.len() && space == Space::Native ==> raw[head.len() as int] < 0x80
        }),
{
    let raw = head + marker(space) + suffix;
    assert(raw.take(head.len() as int) =~= head);
    assert(raw.skip(head.len() as int + marker(space).len() as int) =~= suffix);
    if space == Space::Native && suffix.len() > 0 {
        assert(raw[head.len() as int] == suffix[0]);
    }
    if space == Space::Ethereum {
        assert(raw[head.len() as int] == EVM_SPACE_TYPE);
    }
}

proof fn lemma_suffix_prefix(p: Seq<u8>, s: Seq<u8>)
    ensures
        p.is_prefix_of(p + s),
        (p + s).skip(p.len() as int) == s,
        p.is_prefix_of(p),
{
    assert(p =~= (p + s).subrange(0, p.len() as int));
    assert((p + s).skip(p.len() as int) =~= s);
    assert(p =~= p.subrange(0, p.len() as int));
}

/// Decoding the canonical form of a storable key gives the key back.
pub proof fn law_canonical_roundtrip(k: KeyModel)
    requires
        storable(k),
    ensures
        canonical_decode(canonical(k)) == Some(k),
{
    let a = k.key.address();
    let rest = k.key.suffix();
    lemma_skip_marker(a, k.space, rest);
    match k.key {
        KeyPart::Storage { storage_key, .. } => {
            lemma_suffix_prefix(STORAGE_PREFIX@, storage_key);
        },
        KeyPart::Code { code_hash, .. } => {
            lemma_suffix_prefix(CODE_HASH_PREFIX@, code_hash);
            assert(rest[0] == 0x63);
            assert(!STORAGE_PREFIX@.is_prefix_of(rest)) by {
                assert(rest.subrange(0, 4)[0] == 0x63);
            }
        },
        KeyPart::StorageRoot(_) => {
            lemma_suffix_prefix(STORAGE_PREFIX@, Seq::empty());
        },
        KeyPart::CodeRoot(_) => {
            lemma_suffix_prefix(CODE_HASH_PREFIX@, Seq::empty());
            assert(!STORAGE_PREFIX@.is_prefix_of(rest)) by {
                assert(rest.subrange(0, 4)[0] == 0x63);
            }
        },
        KeyPart::DepositList(_) => {
            assert(!STORAGE_PREFIX@.is_prefix_of(rest)) by {
                assert(rest.subrange(0, 4)[1] == 0x65);
                assert(STORAGE_PREFIX@[1] == 0x61);
            }
            assert(!CODE_HASH_PREFIX@.is_prefix_of(rest)) by {
                assert(rest.subrange(0, 4)[0] == 0x64);
                assert(CODE_HASH_PREFIX@[0] == 0x63);
            }
        },
        KeyPart::VoteList(_) => {
            assert(rest.subrange(0, 4)[0] == 0x76);
            assert(STORAGE_PREFIX@[0] == 0x64);
            assert(CODE_HASH_PREFIX@[0] == 0x63);
            assert(DEPOSIT_LIST_PREFIX@[0] == 0x64);
        },
        _ => {},
    }
}

/// Decoding the delta form of a key gives the key back, under any padding.
pub proof fn law_delta_roundtrip(k: KeyModel, padding: Seq<u8>)
    requires
        delta_storable(k),
        padding.len() == 32,
    ensures
        delta_decode(delta_key(k, padding)) == core::result::Result::<KeyModel, Seq<char>>::Ok(k),
{
    if !is_bare(k.key) {
        lemma_delta_roundtrip(k, padding);
    }
}

proof fn lemma_delta_roundtrip(k: KeyModel, padding: Seq<u8>)
    requires
        delta_storable(k),
        !is_bare(k.key),
        padding.len() == 32,
    ensures
        delta_decode(delta_key(k, padding)) == core::result::Result::<KeyModel, Seq<char>>::Ok(k),
{
    let a = k.key.address();
    let head = account_key(a, padding);
    let rest = k.key.delta_suffix(padding);
    let raw = delta_key(k, padding);
    assert(head.len() == 32);
    assert(head.subrange(12, 32) =~= a);
    assert(raw.subrange(12, 32) =~= head.subrange(12, 32));
    lemma_skip_marker(head, k.space, rest);
    match k.key {
        KeyPart::Storage { storage_key, .. } => {
            let spread = storage_spread(storage_key, padding);
            assert(rest =~= STORAGE_PREFIX@ + (spread + storage_key));
            lemma_suffix_prefix(STORAGE_PREFIX@, spread + storage_key);
            assert(rest.skip(32) =~= storage_key);
        },
        KeyPart::Code { code_hash, .. } => {
            lemma_suffix_prefix(CODE_HASH_PREFIX@, code_hash);
            assert(!STORAGE_PREFIX@.is_prefix_of(rest)) by {
                assert(rest.subrange(0, 4)[0] == 0x63);
            }
        },
        KeyPart::StorageRoot(_) => {
            lemma_suffix_prefix(STORAGE_PREFIX@, Seq::empty());
        },
        KeyPart::CodeRoot(_) => {
            lemma_suffix_prefix(CODE_HASH_PREFIX@, Seq::empty());
            assert(!STORAGE_PREFIX@.is_prefix_of(rest)) by {
                assert(rest.subrange(0, 4)[0] == 0x63);
            }
        },
        KeyPart::DepositList(_) => {
            lemma_suffix_prefix(DEPOSIT_LIST_PREFIX@, Seq::empty());
            assert(!STORAGE_PREFIX@.is_prefix_of(rest)) by {
                assert(rest.subrange(0, 4)[1] == 0x65);
                assert(STORAGE_PREFIX@[1] == 0x61);
            }
            assert(!CODE_HASH_PREFIX@.is_prefix_of(rest)) by {
                assert(rest.subrange(0, 4)[0] == 0x64);
                assert(CODE_HASH_PREFIX@[0] == 0x63);
            }
        },
        KeyPart::VoteList(_) => {
            lemma_suffix_prefix(VOTE_LIST_PREFIX@, Seq::empty());
            assert(rest.subrange(0, 4)[0] == 0x76);
            assert(STORAGE_PREFIX@[0] == 0x64);
            assert(CODE_HASH_PREFIX@[0] == 0x63);
            assert(!DEPOSIT_LIST_PREFIX@.is_prefix_of(rest));
        },
        _ => {
            assert(raw.len() == 32 + marker(k.space).len());
        },
    }
}

/// Under one padding, different keys have different delta forms.
pub proof fn law_delta_injective(k1: KeyModel, k2: KeyModel, padding: Seq<u8>)
    requires
        delta_storable(k1),
        delta_storable(k2),
        padding.len() == 32,
        delta_key(k1, padding) == delta_key(k2, padding),
    ensures
        k1 == k2,
{
    law_delta_roundtrip(k1, padding);
    law_delta_roundtrip(k2, padding);
}

/// Different storable keys have different canonical forms.
pub proof fn law_canonical_injective(k1: KeyModel, k2: KeyModel)
    requires
        storable(k1),
        storable(k2),
        canonical(k1) == canonical(k2),
    ensures
        k1 == k2,
{
    law_canonical_roundtrip(k1);
    law_canonical_roundtrip(k2);
}

} // verus!
