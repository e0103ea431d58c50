use vstd::prelude::*;

verus! {

/// Every way a SLEEP operation can fail: all are deterministic
/// data-integrity errors, none is transient or retryable.
#[derive(Clone, Copy, PartialEq, Eq, Structural, Debug)]
pub enum SleepError {
    /// The header buffer is not exactly 32 bytes long.
    MalformedHeader,
    /// The first three bytes are not the magic sequence `0x05 0x02 0x57`.
    BadMagic,
    /// The file-type byte is none of bitfield (0), signatures (1), tree (2).
    UnknownFileType,
    /// The version byte is not 0.
    UnsupportedVersion,
    /// The algorithm name is neither `BLAKE2b` nor `Ed25519`.
    UnknownAlgorithm,
    /// A header byte after the algorithm name and before offset 32 is nonzero.
    CorruptPadding,
    /// An entry slice is not exactly the declared entry size.
    TruncatedEntry,
    /// The file body length is not a multiple of the entry size.
    MisalignedBody,
    /// A flat-tree computation would leave the representable index range.
    InvalidIndex,
    /// A leaf (depth-0 node) was asked for its children.
    LeafHasNoChildren,
    /// The stored hash at this flat-tree index disagrees with the hash
    /// recomputed from its two children.
    HashMismatch(u64),
    /// A node needed by the requested validation is not in the tree yet.
    IncompleteTree,
    /// No single node spans exactly the given number of leaves.
    NoSingleRoot,
}

} // verus!
