//! What the two byte forms of a key hold, byte by byte.
use crate::key_codec::{
    account_key, canonical, canonical_decode, canonical_part, delta_decode, delta_key, delta_part,
    marked, marker, padding_of, storable, storage_spread, KeyModel, KeyPart, CODE_HASH_PREFIX,
    DEPOSIT_LIST_PREFIX, STORAGE_PREFIX, VOTE_LIST_PREFIX,
};
use crate::trie::keccak_digest;
use crate::types::Space;
use vstd::prelude::*;

verus! {

/// The mark of a space is nothing in the native space and the byte 0x81 in the other.
pub proof fn law_marker()
    ensures
        marker(Space::Native) == Seq::<u8>::empty(),
        marker(Space::Ethereum) == seq![0x81u8],
{
}

/// The canonical form of a key with a full address is the address, the byte 0x81 in the
/// Ethereum space, then nothing for an account, "data" and the storage key, "code" and the
/// code hash, "deposit" or "vote".
pub proof fn law_canonical_form(k: KeyModel, address: Seq<u8>, rest: Seq<u8>)
    requires
        address.len() == 20,
        address == match k.key {
            KeyPart::Account(a) => a,
            KeyPart::StorageRoot(a) => a,
            KeyPart::Storage { address, .. } => address,
            KeyPart::CodeRoot(a) => a,
            KeyPart::Code { address, .. } => address,
            KeyPart::DepositList(a) => a,
            KeyPart::VoteList(a) => a,
            KeyPart::Empty => Seq::empty(),
            KeyPart::AddressPrefix(_) => Seq::empty(),
        },
        rest == match k.key {
            KeyPart::Account(_) => Seq::<u8>::empty(),
            KeyPart::StorageRoot(_) => seq![0x64u8, 0x61, 0x74, 0x61],
            KeyPart::Storage { storage_key, .. } => seq![0x64u8, 0x61, 0x74, 0x61] + storage_key,
            KeyPart::CodeRoot(_) => seq![0x63u8, 0x6f, 0x64, 0x65],
            KeyPart::Code { code_hash, .. } => seq![0x63u8, 0x6f, 0x64, 0x65] + code_hash,
            KeyPart::DepositList(_) => seq![0x64u8, 0x65, 0x70, 0x6f, 0x73, 0x69, 0x74],
            KeyPart::VoteList(_) => seq![0x76u8, 0x6f, 0x74, 0x65],
            KeyPart::Empty => Seq::empty(),
            KeyPart::AddressPrefix(_) => Seq::empty(),
        },
    ensures
        canonical(k) == match k.space {
            Space::Native => address + rest,
            Space::Ethereum => address + seq![0x81u8] + rest,
        },
{
    lemma_words();
    assert(address + marker(Space::Native) =~= address);
}

/// The four words that stand in a key.
proof fn lemma_words()
    ensures
        STORAGE_PREFIX@ == seq![0x64u8, 0x61, 0x74, 0x61],
        CODE_HASH_PREFIX@ == seq![0x63u8, 0x6f, 0x64, 0x65],
        DEPOSIT_LIST_PREFIX@ == seq![0x64u8, 0x65, 0x70, 0x6f, 0x73, 0x69, 0x74],
        VOTE_LIST_PREFIX@ == seq![0x76u8, 0x6f, 0x74, 0x65],
{
    assert(STORAGE_PREFIX@ =~= seq![0x64u8, 0x61, 0x74, 0x61]);
    assert(CODE_HASH_PREFIX@ =~= seq![0x63u8, 0x6f, 0x64, 0x65]);
    assert(DEPOSIT_LIST_PREFIX@ =~= seq![0x64u8, 0x65, 0x70, 0x6f, 0x73, 0x69, 0x74]);
    assert(VOTE_LIST_PREFIX@ =~= seq![0x76u8, 0x6f, 0x74, 0x65]);
}

/// Short account keys and prefixes stand for themselves in the canonical form, whatever
/// the space. In the delta form a short account key does too, and a prefix is empty.
pub proof fn law_bare_form(a: Seq<u8>, space: Space, padding: Seq<u8>)
    ensures
        a.len() < 20 ==> canonical(KeyModel { key: KeyPart::Account(a), space }) == a,
        a.len() < 20 ==> delta_key(KeyModel { key: KeyPart::Account(a), space }, padding) == a,
        canonical(KeyModel { key: KeyPart::AddressPrefix(a), space }) == a,
        delta_key(KeyModel { key: KeyPart::AddressPrefix(a), space }, padding).len() == 0,
        canonical(KeyModel { key: KeyPart::Empty, space }).len() == 0,
        delta_key(KeyModel { key: KeyPart::Empty, space }, padding).len() == 0,
{
}

/// A delta key opens with 12 bytes of the digest of 32 bytes: the first 12 of the padding,
/// then the address. The address comes next, then what the canonical form holds after the
/// address, but that 28 bytes stand before a storage key: the last 28 of the digest of the
/// padding followed by the storage key.
pub proof fn law_delta_form(
    k: KeyModel,
    padding: Seq<u8>,
    address: Seq<u8>,
    pre: Seq<u8>,
    spread: Seq<u8>,
    rest: Seq<u8>,
)
    requires
        address.len() == 20,
        address == match k.key {
            KeyPart::Account(a) => a,
            KeyPart::StorageRoot(a) => a,
            KeyPart::Storage { address, .. } => address,
            KeyPart::CodeRoot(a) => a,
            KeyPart::Code { address, .. } => address,
            KeyPart::DepositList(a) => a,
            KeyPart::VoteList(a) => a,
            KeyPart::Empty => Seq::empty(),
            KeyPart::AddressPrefix(_) => Seq::empty(),
        },
        padding.len() == 32,
        pre.len() == 32,
        pre.subrange(0, 12) == padding.subrange(0, 12),
        pre.subrange(12, 32) == address,
        match k.key {
            KeyPart::Storage { storage_key, .. } => {
                &&& spread.len() == 32 + storage_key.len()
                &&& spread.subrange(0, 32) == padding
                &&& spread.skip(32) == storage_key
            },
            _ => true,
        },
        rest == match k.key {
            KeyPart::Account(_) => Seq::<u8>::empty(),
            KeyPart::StorageRoot(_) => seq![0x64u8, 0x61, 0x74, 0x61],
            KeyPart::Storage { storage_key, .. } => seq![0x64u8, 0x61, 0x74, 0x61] + keccak_digest(
                spread,
            )@.subrange(4, 32) + storage_key,
            KeyPart::CodeRoot(_) => seq![0x63u8, 0x6f, 0x64, 0x65],
            KeyPart::Code { code_hash, .. } => seq![0x63u8, 0x6f, 0x64, 0x65] + code_hash,
            KeyPart::DepositList(_) => seq![0x64u8, 0x65, 0x70, 0x6f, 0x73, 0x69, 0x74],
            KeyPart::VoteList(_) => seq![0x76u8, 0x6f, 0x74, 0x65],
            KeyPart::Empty => Seq::empty(),
            KeyPart::AddressPrefix(_) => Seq::empty(),
        },
    ensures
        delta_key(k, padding) == match k.space {
            Space::Native => keccak_digest(pre)@.subrange(0, 12) + address + rest,
            Space::Ethereum => keccak_digest(pre)@.subrange(0, 12) + address + seq![0x81u8] + rest,
        },
{
    lemma_words();
    assert(pre =~= padding.take(12) + address);
    assert(account_key(address, padding) =~= keccak_digest(pre)@.subrange(0, 12) + address);
    assert(account_key(address, padding) + marker(Space::Native) =~= account_key(address, padding));
    match k.key {
        KeyPart::Storage { storage_key, .. } => {
            assert(spread =~= padding + storage_key);
        },
        _ => {},
    }
}

/// A padding shows in the lead of a delta key. Where two paddings give the same key the
/// same first 12 bytes, the paddings agree in their first 12 bytes, or two different strings
/// of 32 bytes have digests that agree there.
pub proof fn law_padding_shows(
    address: Seq<u8>,
    space: Space,
    p1: Seq<u8>,
    p2: Seq<u8>,
    pre1: Seq<u8>,
    pre2: Seq<u8>,
)
    requires
        address.len() == 20,
        p1.len() == 32 && p2.len() == 32,
        pre1.len() == 32 && pre2.len() == 32,
        pre1.subrange(0, 12) == p1.subrange(0, 12) && pre1.subrange(12, 32) == address,
        pre2.subrange(0, 12) == p2.subrange(0, 12) && pre2.subrange(12, 32) == address,
        ({
            let k = KeyModel { key: KeyPart::Account(address), space };
            delta_key(k, p1).subrange(0, 12) == delta_key(k, p2).subrange(0, 12)
        }),
    ensures
        keccak_digest(pre1)@.subrange(0, 12) == keccak_digest(pre2)@.subrange(0, 12),
        pre1 == pre2 <==> p1.subrange(0, 12) == p2.subrange(0, 12),
{
    let k = KeyModel { key: KeyPart::Account(address), space };
    law_delta_form(k, p1, address, pre1, Seq::empty(), Seq::empty());
    law_delta_form(k, p2, address, pre2, Seq::empty(), Seq::empty());
    assert(delta_key(k, p1).subrange(0, 12) =~= keccak_digest(pre1)@.subrange(0, 12));
    assert(delta_key(k, p2).subrange(0, 12) =~= keccak_digest(pre2)@.subrange(0, 12));
    if p1.subrange(0, 12) == p2.subrange(0, 12) {
        assert(pre1 =~= pre1.subrange(0, 12) + pre1.subrange(12, 32));
        assert(pre2 =~= pre2.subrange(0, 12) + pre2.subrange(12, 32));
    }
}

/// The padding of a period is the digest of 64 bytes: the root of the snapshot, then that of
/// the intermediate layer.
pub proof fn law_padding(snapshot: Seq<u8>, intermediate: Seq<u8>, pre: Seq<u8>)
    requires
        pre.len() == 64,
        pre.subrange(0, 32) == snapshot,
        pre.subrange(32, 64) == intermediate,
    ensures
        padding_of(snapshot, intermediate) == keccak_digest(pre)@,
{
    assert(pre =~= snapshot + intermediate);
}

/// Whatever a canonical key is decoded to has that canonical form, and what cannot be
/// decoded is the canonical form of no storable key.
pub proof fn law_canonical_decode(raw: Seq<u8>, other: KeyModel)
    ensures
        match canonical_decode(raw) {
            Some(k) => canonical(k) == raw && (raw.len() >= 20 ==> storable(k)),
            None => raw.len() > 20 && (storable(other) ==> canonical(other) != raw),
        },
{
    if storable(other) {
        crate::key_codec::law_canonical_roundtrip(other);
    }
    if raw.len() >= 20 {
        let space = if marked(raw, 20) {
            Space::Ethereum
        } else {
            Space::Native
        };
        let n = 20 + marker(space).len() as int;
        let address = raw.take(20);
        let rest = raw.skip(n);
        assert(raw =~= address + marker(space) + rest);
        if canonical_part(address, rest) is Some {
            if STORAGE_PREFIX@.is_prefix_of(rest) {
                assert(rest =~= STORAGE_PREFIX@ + rest.skip(4));
                assert(rest.len() == 4 ==> rest =~= STORAGE_PREFIX@);
            } else if CODE_HASH_PREFIX@.is_prefix_of(rest) {
                assert(rest =~= CODE_HASH_PREFIX@ + rest.skip(4));
                assert(rest.len() == 4 ==> rest =~= CODE_HASH_PREFIX@);
            }
        }
    }
}

/// What a delta key is decoded to: its address stands in bytes 12 to 32, and what follows
/// the hash in its delta form is what follows it in the bytes, but for the 28 bytes before a
/// storage key and for whatever follows "deposit" or "vote".
pub proof fn law_delta_decode(raw: Seq<u8>, padding: Seq<u8>)
    requires
        raw.len() >= 32,
        padding.len() == 32,
    ensures
        match delta_decode(raw) {
            Ok(k) => {
                let d = delta_key(k, padding);
                let n: int = if k.space == Space::Ethereum {
                    33
                } else {
                    32
                };
                &&& d.len() >= n
                &&& raw.len() >= d.len()
                &&& raw.subrange(12, n) == d.subrange(12, n)
                &&& match k.key {
                    KeyPart::Storage { storage_key, .. } => {
                        &&& raw.len() == d.len()
                        &&& raw.len() == n + 32 + storage_key.len()
                        &&& raw.subrange(n, n + 4) == d.subrange(n, n + 4)
                        &&& raw.skip(n + 32) == storage_key
                    },
                    KeyPart::DepositList(_) => raw.subrange(n, n + 7) == d.subrange(n, n + 7),
                    KeyPart::VoteList(_) => raw.subrange(n, n + 4) == d.subrange(n, n + 4),
                    KeyPart::Empty => false,
                    KeyPart::AddressPrefix(_) => false,
                    _ => raw.skip(12) == d.skip(12),
                }
            },
            Err(why) => {
                let n: int = if raw[32] == 0x81 {
                    33
                } else {
                    32
                };
                &&& raw.len() > 32
                &&& !(raw.len() == 33 && raw[32] == 0x81)
                &&& why == "unknown delta space marker"@ || why
                    == "storage delta key missing padded storage key"@ || why
                    == "unknown delta key suffix"@
                &&& why == "unknown delta space marker"@ <== raw[32] >= 0x80 && raw[32] != 0x81
                &&& raw[32] < 0x80 || raw[32] == 0x81 ==> {
                    &&& (raw.len() >= n + 4 && raw.subrange(n, n + 4)
                        == seq![0x64u8, 0x61, 0x74, 0x61] ==> n + 4 < raw.len() < n + 32)
                    &&& (n + 4 < raw.len() < n + 32 && raw.subrange(n, n + 4)
                        == seq![0x64u8, 0x61, 0x74, 0x61] ==> why
                        == "storage delta key missing padded storage key"@)
                    &&& (!(raw.len() >= n + 4 && raw.subrange(n, n + 4)
                        == seq![0x64u8, 0x61, 0x74, 0x61]) ==> why == "unknown delta key suffix"@)
                    &&& raw.len() >= n + 4 ==> raw.subrange(n, n + 4)
                        != seq![0x63u8, 0x6f, 0x64, 0x65] && raw.subrange(n, n + 4)
                        != seq![0x76u8, 0x6f, 0x74, 0x65]
                    &&& raw.len() >= n + 7 ==> raw.subrange(n, n + 7)
                        != seq![0x64u8, 0x65, 0x70, 0x6f, 0x73, 0x69, 0x74]
                }
            },
        },
        (raw[32] >= 0x80 && raw[32] != 0x81 && raw.len() > 32) ==> delta_decode(raw) is Err,
{
    lemma_words();
    let address = raw.subrange(12, 32);
    let head = account_key(address, padding);
    assert(head.len() == 32);
    assert(head.subrange(12, 32) =~= address);
    if raw.len() > 32 && (raw[32] < 0x80 || raw[32] == 0x81) {
        let space = if raw[32] == 0x81 {
            Space::Ethereum
        } else {
            Space::Native
        };
        let n = 32 + marker(space).len() as int;
        let rest = raw.skip(n);
        assert(raw.subrange(n, n + 4) =~= rest.subrange(0, 4) || raw.len() < n + 4);
        assert(raw.subrange(n, n + 7) =~= rest.subrange(0, 7) || raw.len() < n + 7);
        if raw.len() > 33 || raw[32] != 0x81 {
            match delta_part(address, rest) {
                Ok(key) => {
                    let d = delta_key(KeyModel { key, space }, padding);
                    assert(d.subrange(12, n) =~= raw.subrange(12, n)) by {
                        assert forall|i: int| 12 <= i < n implies d[i] == raw[i] by {
                            if i < 32 {
                                assert(d[i] == head[i]);
                                assert(head[i] == head.subrange(12, 32)[i - 12]);
                            }
                        }
                    }
                    match key {
                        KeyPart::Storage { storage_key, .. } => {
                            assert(storage_spread(storage_key, padding).len() == 28);
                            assert(d.subrange(n, n + 4) =~= STORAGE_PREFIX@);
                            assert(raw.skip(n + 32) =~= storage_key);
                        },
                        KeyPart::DepositList(_) => {
                            assert(d.subrange(n, n + 7) =~= DEPOSIT_LIST_PREFIX@);
                        },
                        KeyPart::VoteList(_) => {
                            assert(d.subrange(n, n + 4) =~= VOTE_LIST_PREFIX@);
                        },
                        KeyPart::Code { code_hash, .. } => {
                            assert(rest =~= CODE_HASH_PREFIX@ + code_hash);
                            lemma_after_hash(raw, d, n, rest);
                        },
                        KeyPart::StorageRoot(_) => {
                            assert(rest =~= STORAGE_PREFIX@);
                            lemma_after_hash(raw, d, n, rest);
                        },
                        KeyPart::CodeRoot(_) => {
                            assert(rest =~= CODE_HASH_PREFIX@);
                            lemma_after_hash(raw, d, n, rest);
                        },
                        _ => {},
                    }
                },
                Err(_) => {},
            }
        } else {
            let d = delta_key(KeyModel { key: KeyPart::Account(address), space }, padding);
            assert(d.skip(12) =~= raw.skip(12)) by {
                assert(d =~= head + seq![0x81u8]);
                assert forall|i: int| 12 <= i < 32 implies d[i] == raw[i] by {
                    assert(head[i] == head.subrange(12, 32)[i - 12]);
                }
            }
            assert(d.subrange(12, 33) =~= d.skip(12));
            assert(raw.subrange(12, 33) =~= raw.skip(12));
        }
    } else if raw.len() == 32 {
        let d = delta_key(KeyModel { key: KeyPart::Account(address), space: Space::Native }, padding);
        assert(d =~= head);
        assert(d.skip(12) =~= head.subrange(12, 32));
        assert(raw.skip(12) =~= address);
    }
}

/// Fewer than 32 bytes are a short account key of the native space.
pub proof fn law_delta_decode_short(raw: Seq<u8>)
    requires
        raw.len() < 32,
    ensures
        delta_decode(raw) == core::result::Result::<KeyModel, Seq<char>>::Ok(
            KeyModel { key: KeyPart::Account(raw), space: Space::Native },
        ),
{
}

proof fn lemma_after_hash(raw: Seq<u8>, d: Seq<u8>, n: int, rest: Seq<u8>)
    requires
        12 <= n <= raw.len(),
        n <= d.len(),
        raw.skip(n) == rest,
        d.skip(n) =~= rest,
        raw.subrange(12, n) == d.subrange(12, n),
    ensures
        raw.skip(12) == d.skip(12),
{
    assert(raw.skip(12) =~= raw.subrange(12, n) + raw.skip(n));
    assert(d.skip(12) =~= d.subrange(12, n) + d.skip(n));
}

} // verus!
