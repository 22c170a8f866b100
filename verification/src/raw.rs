//! Packets from data that was read, and back.
use crate::cfxpack::decode::{decode_packet, decoded};
use crate::cfxpack::encode::{encode_packet, encoded};
use crate::cfxpack::error::PackError;
use crate::cfxpack::packet::{Block, Packet, PosLookupEntry, SenderBaseNonce};
use crate::cfxpack::verify::{verified, verify_packet, VerifyReport};
use vstd::prelude::*;

verus! {

pub type RawExecutionData = Packet;

pub type RawBlockData = Block;

pub type RawPosLookupEntry = PosLookupEntry;

pub type RawSenderBaseNonce = SenderBaseNonce;

/// Writes a packet.
pub fn encode_raw_data(raw: &RawExecutionData) -> (r: Result<Vec<u8>, PackError>)
    ensures
        match r {
            Ok(bytes) => encoded(raw@) == Ok::<Seq<u8>, PackError>(bytes@),
            Err(e) => encoded(raw@) == Err::<Seq<u8>, PackError>(e),
        },
{
    encode_packet(raw)
}

/// The first place at which two byte strings differ: where one of them ends, if not
/// before.
pub open spec fn first_difference(a: Seq<u8>, b: Seq<u8>, from: int) -> int
    decreases a.len() - from,
{
    if 0 <= from < a.len() && from < b.len() && a[from] == b[from] {
        first_difference(a, b, from + 1)
    } else {
        from
    }
}

/// The first place at which two byte strings differ.
pub fn first_diff(a: &[u8], b: &[u8]) -> (r: usize)
    ensures
        r == first_difference(a@, b@, 0),
        r <= a@.len(),
        r <= b@.len(),
        a@ == b@ <==> r == a@.len() && r == b@.len(),
{
    let mut i: usize = 0;
    while i < a.len() && i < b.len() && a[i] == b[i]
        invariant
            i <= a@.len(),
            i <= b@.len(),
            first_difference(a@, b@, 0) == first_difference(a@, b@, i as int),
            forall|k: int| 0 <= k < i ==> #[trigger] a@[k] == b@[k],
        decreases a@.len() - i,
    {
        i += 1;
    }
    proof {
        if i == a@.len() && i == b@.len() {
            assert(a@ =~= b@);
        }
    }
    i
}

/// Why a packet does not come back as it was.
#[derive(Clone, Copy, Debug, PartialEq, Eq, Structural)]
pub enum RoundtripError {
    Packet(PackError),
    Changed { reencoded_len: usize, first_diff: usize },
}

/// A packet that was decoded and encoded again, and whether that gave the same bytes.
#[derive(Debug)]
pub struct Roundtrip {
    pub reencoded: Vec<u8>,
    pub report: Result<VerifyReport, RoundtripError>,
}

/// What the check says of a packet that came back as `again`.
pub open spec fn roundtrip_report(data: Seq<u8>, again: Seq<u8>) -> Result<
    VerifyReport,
    RoundtripError,
> {
    if again != data {
        Err(
            RoundtripError::Changed {
                reencoded_len: again.len() as usize,
                first_diff: first_difference(data, again, 0) as usize,
            },
        )
    } else {
        match verified(again) {
            Ok(v) => Ok(v),
            Err(e) => Err(RoundtripError::Packet(e)),
        }
    }
}

/// Decodes a packet, encodes it again, and compares.
pub fn roundtrip_packet(data: &[u8]) -> (r: Result<Roundtrip, PackError>)
    ensures
        match r {
            Ok(t) => decoded(data@, None) matches Ok(p) && encoded(p) == Ok::<
                Seq<u8>,
                PackError,
            >(t.reencoded@) && t.report == roundtrip_report(data@, t.reencoded@),
            Err(e) => match decoded(data@, None) {
                Err(f) => e == f,
                Ok(p) => encoded(p) == Err::<Seq<u8>, PackError>(e),
            },
        },
{
    let p = match decode_packet(data) {
        Ok(p) => p,
        Err(e) => {
            return Err(e);
        },
    };
    let reencoded = match encode_packet(&p) {
        Ok(b) => b,
        Err(e) => {
            return Err(e);
        },
    };
    let at: usize = first_diff(data, reencoded.as_slice());
    if at != data.len() || at != reencoded.len() {
        let report: Result<VerifyReport, RoundtripError> = Err(
            RoundtripError::Changed { reencoded_len: reencoded.len(), first_diff: at },
        );
        return Ok(Roundtrip { reencoded, report });
    }
    let report: Result<VerifyReport, RoundtripError> = match verify_packet(reencoded.as_slice()) {
        Ok(v) => Ok(v),
        Err(e) => Err(RoundtripError::Packet(e)),
    };
    Ok(Roundtrip { reencoded, report })
}

} // verus!
