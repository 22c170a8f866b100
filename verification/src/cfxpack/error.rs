//! Why a packet could not be written or read.
use vstd::prelude::*;

verus! {

/// Why a packet or container could not be written or read.
#[derive(Clone, Copy, Debug, PartialEq, Eq, Structural)]
pub enum PackError {
    Truncated,
    VarintTooLong,
    ValueTooLarge,
    UnknownEnum,
    NoBlocks,
    EpochRange,
    NoPivot,
    BlockIndex,
    ReservedFlag,
    BlockEpoch,
    MissingAuthor,
    TimestampBelowMin,
    MissingDifficulty,
    HeightBelowMin,
    MissingSender,
    MissingActionAddress,
    ItemTooLong,
    Compress,
    OffsetTooLarge,
    ShortHeader,
    PrefixSize,
    OffsetOrder,
    OffsetBeyondEnd,
    AddressTable,
    PosTable,
    TablePadding,
    BlockArea,
    OverflowArea,
    ShortRecord,
    TableIndex,
    FieldOverflow,
    NoFinalPivot,
    PayloadOffset,
    PayloadLength,
    Decompress,
    Rlp,
    DuplicateRef,
    SpaceMarker,
    NativeType,
    EthereumType,
    PriceMode,
    ActionMode,
    WordTooLong,
    AddressLength,
    HashLength,
    NonceOverflow,
    NotContainer,
    TruncatedDirectory,
    PayloadBounds,
    ContainerTooLarge,
    NonContiguous,
    ResumeGap,
    NoFiles,
    ShardName,
}

} // verus!
