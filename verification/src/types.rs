//! Hashes, spaces, commit roots and errors shared by every layer.
use crate::bytes::append_bytes;
use crate::text::{append_hex, hex_of};
use crate::trie::{keccak, keccak256, keccak_digest};
use vstd::prelude::*;
use vstd::string::StringExecFns;

verus! {

/// A 32-byte hash.
#[derive(Clone, Copy, Debug, Eq, PartialOrd, Ord, Hash)]
pub struct H256(pub [u8; 32]);

impl View for H256 {
    type V = Seq<u8>;

    open spec fn view(&self) -> Seq<u8> {
        self.0@
    }
}

impl PartialEq for H256 {
    fn eq(&self, other: &Self) -> (r: bool) {
        let mut i: usize = 0;
        while i < 32
            invariant
                i <= 32,
                forall|j: int| 0 <= j < i ==> self.0@[j] == other.0@[j],
            decreases 32 - i,
        {
            if self.0[i] != other.0[i] {
                return false;
            }
            i += 1;
        }
        proof {
            assert(self.0 =~= other.0);
        }
        true
    }
}

impl vstd::std_specs::cmp::PartialEqSpecImpl for H256 {
    open spec fn obeys_eq_spec() -> bool {
        true
    }

    open spec fn eq_spec(&self, other: &Self) -> bool {
        *self == *other
    }
}

impl Default for H256 {
    fn default() -> (r: Self)
        ensures
            r@ == Seq::new(32, |i: int| 0u8),
    {
        H256::zero()
    }
}

impl H256 {
    /// The hash whose bytes are all zero.
    pub fn zero() -> (r: Self)
        ensures
            r@ == Seq::new(32, |i: int| 0u8),
    {
        let r = H256([0u8; 32]);
        proof {
            assert(r@ =~= Seq::new(32, |i: int| 0u8));
        }
        r
    }

    /// The hash in hexadecimal digits, with `0x` before them.
    pub fn to_hex(&self) -> (r: String)
        ensures
            r@ == "0x"@ + hex_of(self@),
    {
        let mut out: String = String::from_str("0x");
        append_hex(&mut out, &self.0);
        out
    }

    /// The bytes of the hash.
    pub fn as_bytes(&self) -> (r: &[u8; 32])
        ensures
            r@ == self@,
    {
        &self.0
    }
}

/// Hashes with the same bytes are the same hash.
pub proof fn lemma_h256_ext(a: H256, b: H256)
    ensures
        a@ == b@ ==> a == b,
{
    if a@ == b@ {
        assert(a.0 =~= b.0);
    }
}

/// Root of an empty trie, and the hash that fills an empty child slot: the
/// Keccak-256 digest of the empty string.
pub const MERKLE_NULL_NODE: [u8; 32] = [
    0xc5u8, 0xd2, 0x46, 0x01, 0x86, 0xf7, 0x23, 0x3c, 0x92, 0x7e, 0x7d, 0xb2, 0xdc, 0xc7, 0x03,
    0xc0, 0xe5, 0x00, 0xb6, 0x53, 0xca, 0x82, 0x27, 0x3b, 0x7b, 0xfa, 0xd8, 0x04, 0x5d, 0x85, 0xa4,
    0x70,
];

/// The two address spaces: native and Ethereum-compatible.
#[derive(Clone, Copy, Debug, PartialEq, Eq, Hash, Structural)]
pub enum Space {
    Native,
    Ethereum,
}

/// A canonical key with its value.
pub type MptKeyValue = (Vec<u8>, Box<[u8]>);

/// The roots of the three layers after a commit, and the hash that binds them.
#[derive(Clone, Copy, Debug)]
pub struct CommitRoot {
    pub snapshot_root: H256,
    pub intermediate_delta_root: H256,
    pub delta_root: H256,
    pub state_root_hash: H256,
    pub delta_mpt_key_padding: [u8; 32],
}

/// The hash that binds the roots of the three layers.
pub open spec fn state_root(snapshot: Seq<u8>, intermediate: Seq<u8>, delta: Seq<u8>) -> Seq<u8> {
    keccak256(snapshot + intermediate + delta)
}

/// The state root is the digest of 96 bytes: the root of the snapshot, then that of the
/// intermediate layer, then that of the delta layer.
pub proof fn law_state_root(
    snapshot: Seq<u8>,
    intermediate: Seq<u8>,
    delta: Seq<u8>,
    pre: Seq<u8>,
)
    requires
        pre.len() == 96,
        pre.subrange(0, 32) == snapshot,
        pre.subrange(32, 64) == intermediate,
        pre.subrange(64, 96) == delta,
    ensures
        state_root(snapshot, intermediate, delta) == keccak_digest(pre)@,
{
    assert(pre =~= snapshot + intermediate + delta);
}

/// A state root commits to the three roots. Two triples of roots with one state root are
/// the same triple, or the 96 bytes of each are two different strings with one digest.
pub proof fn law_state_root_commits(
    a: CommitRoot,
    b: CommitRoot,
    pre_a: Seq<u8>,
    pre_b: Seq<u8>,
)
    requires
        pre_a.len() == 96,
        pre_a.subrange(0, 32) == a.snapshot_root@,
        pre_a.subrange(32, 64) == a.intermediate_delta_root@,
        pre_a.subrange(64, 96) == a.delta_root@,
        pre_b.len() == 96,
        pre_b.subrange(0, 32) == b.snapshot_root@,
        pre_b.subrange(32, 64) == b.intermediate_delta_root@,
        pre_b.subrange(64, 96) == b.delta_root@,
        state_root(a.snapshot_root@, a.intermediate_delta_root@, a.delta_root@) == state_root(
            b.snapshot_root@,
            b.intermediate_delta_root@,
            b.delta_root@,
        ),
    ensures
        keccak_digest(pre_a)@ == keccak_digest(pre_b)@,
        pre_a == pre_b ==> a.snapshot_root == b.snapshot_root && a.intermediate_delta_root
            == b.intermediate_delta_root && a.delta_root == b.delta_root,
        a.snapshot_root == b.snapshot_root && a.intermediate_delta_root
            == b.intermediate_delta_root && a.delta_root == b.delta_root ==> pre_a == pre_b,
{
    law_state_root(a.snapshot_root@, a.intermediate_delta_root@, a.delta_root@, pre_a);
    law_state_root(b.snapshot_root@, b.intermediate_delta_root@, b.delta_root@, pre_b);
    lemma_h256_ext(a.snapshot_root, b.snapshot_root);
    lemma_h256_ext(a.intermediate_delta_root, b.intermediate_delta_root);
    lemma_h256_ext(a.delta_root, b.delta_root);
    if a.snapshot_root == b.snapshot_root && a.intermediate_delta_root == b.intermediate_delta_root
        && a.delta_root == b.delta_root {
        assert(pre_a =~= pre_a.subrange(0, 32) + pre_a.subrange(32, 64) + pre_a.subrange(64, 96));
        assert(pre_b =~= pre_b.subrange(0, 32) + pre_b.subrange(32, 64) + pre_b.subrange(64, 96));
    }
}

impl CommitRoot {
    /// Binds three layer roots into a commit root.
    pub fn new(
        snapshot_root: H256,
        intermediate_delta_root: H256,
        delta_root: H256,
        delta_mpt_key_padding: [u8; 32],
    ) -> (r: Self)
        ensures
            r.snapshot_root == snapshot_root,
            r.intermediate_delta_root == intermediate_delta_root,
            r.delta_root == delta_root,
            r.delta_mpt_key_padding == delta_mpt_key_padding,
            r.state_root_hash@ == state_root(
                snapshot_root@,
                intermediate_delta_root@,
                delta_root@,
            ),
            forall|pre: Seq<u8>|
                pre.len() == 96 && pre.subrange(0, 32) == snapshot_root@ && pre.subrange(32, 64)
                    == intermediate_delta_root@ && pre.subrange(64, 96) == delta_root@
                    ==> r.state_root_hash@ == #[trigger] keccak_digest(pre)@,
    {
        proof {
            assert forall|pre: Seq<u8>|
                pre.len() == 96 && pre.subrange(0, 32) == snapshot_root@ && pre.subrange(32, 64)
                    == intermediate_delta_root@ && pre.subrange(64, 96) == delta_root@ implies
                state_root(snapshot_root@, intermediate_delta_root@, delta_root@)
                == #[trigger] keccak_digest(pre)@ by {
                law_state_root(snapshot_root@, intermediate_delta_root@, delta_root@, pre);
            }
        }
        let mut buf: Vec<u8> = Vec::with_capacity(96);
        append_bytes(&mut buf, &snapshot_root.0);
        append_bytes(&mut buf, &intermediate_delta_root.0);
        append_bytes(&mut buf, &delta_root.0);
        proof {
            assert(buf@ =~= snapshot_root@ + intermediate_delta_root@ + delta_root@);
        }
        let state_root_hash = keccak(buf.as_slice());
        CommitRoot {
            snapshot_root,
            intermediate_delta_root,
            delta_root,
            state_root_hash,
            delta_mpt_key_padding,
        }
    }
}

impl PartialEq for CommitRoot {
    fn eq(&self, other: &Self) -> (r: bool) {
        let padding = H256(self.delta_mpt_key_padding);
        let other_padding = H256(other.delta_mpt_key_padding);
        self.snapshot_root == other.snapshot_root && self.intermediate_delta_root
            == other.intermediate_delta_root && self.delta_root == other.delta_root
            && self.state_root_hash == other.state_root_hash && padding == other_padding
    }
}

impl vstd::std_specs::cmp::PartialEqSpecImpl for CommitRoot {
    open spec fn obeys_eq_spec() -> bool {
        true
    }

    open spec fn eq_spec(&self, other: &Self) -> bool {
        *self == *other
    }
}

/// Why an operation on the state failed.
#[derive(Debug)]
pub enum Error {
    /// A key or an address that no layer can hold.
    InvalidKey(&'static str),
    /// Storage could not be read or written.
    Io(String),
    /// Stored bytes could not be decoded.
    Codec(String),
}

impl Error {
    /// The text that describes the error.
    pub open spec fn text(&self) -> Seq<char> {
        match *self {
            Error::InvalidKey(msg) => "invalid key: "@ + msg@,
            Error::Io(e) => "io error: "@ + e@,
            Error::Codec(e) => "codec error: "@ + e@,
        }
    }

    /// A one-line description of the error.
    pub fn to_string(&self) -> (r: String)
        ensures
            r@ == self.text(),
    {
        match self {
            Error::InvalidKey(msg) => String::from_str("invalid key: ").concat(msg),
            Error::Io(e) => String::from_str("io error: ").concat(e.as_str()),
            Error::Codec(e) => String::from_str("codec error: ").concat(e.as_str()),
        }
    }
}

pub type Result<T> = std::result::Result<T, Error>;

} // verus!
