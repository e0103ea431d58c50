use vstd::prelude::*;

use crate::error::SleepError;

verus! {

/// Algorithm named in the header, used over the file body.
#[derive(Clone, Copy, PartialEq, Eq, Structural, Debug)]
pub enum HashAlgorithm {
    /// The BLAKE2b hash, the algorithm of tree and bitfield files.
    BLAKE2b,
    /// The Ed25519 signature scheme, the algorithm of signatures files.
    Ed25519,
}

/// Kind of SLEEP file this header opens.
#[derive(Clone, Copy, PartialEq, Eq, Structural, Debug)]
pub enum FileType {
    /// A presence bitmap over data blocks.
    BitField,
    /// Signatures over tree roots.
    Signatures,
    /// Hash-tree nodes over data blocks.
    Tree,
}

/// SLEEP format revision.
#[derive(Clone, Copy, PartialEq, Eq, Structural, Debug)]
pub enum Version {
    /// The only revision defined so far; encoded as byte 0.
    V0,
}

/// The 32-byte SLEEP file header: magic, file type, version, entry size,
/// and the name of the hash algorithm, zero-padded to 32 bytes.
#[derive(Clone, Copy, PartialEq, Eq, Structural, Debug)]
pub struct Header {
    pub file_type: FileType,
    pub version: Version,
    pub entry_size: u16,
    pub hash_algorithm: HashAlgorithm,
}

/// The byte that encodes a file type at offset 3.
pub open spec fn file_type_byte(t: FileType) -> u8 {
    match t {
        FileType::BitField => 0,
        FileType::Signatures => 1,
        FileType::Tree => 2,
    }
}

/// The ASCII bytes of an algorithm's name: `BLAKE2b` or `Ed25519`,
/// both 7 bytes long.
pub open spec fn algorithm_name(a: HashAlgorithm) -> Seq<u8> {
    match a {
        HashAlgorithm::BLAKE2b => seq![66u8, 76u8, 65u8, 75u8, 69u8, 50u8, 98u8],
        HashAlgorithm::Ed25519 => seq![69u8, 100u8, 50u8, 53u8, 53u8, 49u8, 57u8],
    }
}

/// The exact 32 bytes that serialize a header: magic, file type, version,
/// big-endian entry size, name length 7, the 7-byte name, 17 zero bytes.
pub open spec fn spec_serialize_header(h: Header) -> Seq<u8> {
    seq![
        5u8,
        2u8,
        87u8,
        file_type_byte(h.file_type),
        0u8,
        (h.entry_size / 256) as u8,
        (h.entry_size % 256) as u8,
        7u8,
    ] + algorithm_name(h.hash_algorithm) + Seq::new(17, |i: int| 0u8)
}

/// What parsing a header buffer yields: the checks run in the order
/// length, magic, file type, version, algorithm name, padding, and the
/// first violated one names the error. Only 7-byte algorithm names can
/// be recognized, so any other name length is an unknown algorithm.
pub open spec fn spec_parse_header(s: Seq<u8>) -> Result<Header, SleepError> {
    if s.len() != 32 {
        Err(SleepError::MalformedHeader)
    } else if !(s[0] == 5u8 && s[1] == 2u8 && s[2] == 87u8) {
        Err(SleepError::BadMagic)
    } else if s[3] != 0u8 && s[3] != 1u8 && s[3] != 2u8 {
        Err(SleepError::UnknownFileType)
    } else if s[4] != 0u8 {
        Err(SleepError::UnsupportedVersion)
    } else if !(s[7] == 7u8 && (s.subrange(8, 15) == algorithm_name(HashAlgorithm::BLAKE2b)
        || s.subrange(8, 15) == algorithm_name(HashAlgorithm::Ed25519))) {
        Err(SleepError::UnknownAlgorithm)
    } else if exists|j: int| 15 <= j < 32 && s[j] != 0u8 {
        Err(SleepError::CorruptPadding)
    } else {
        Ok(Header {
            file_type: if s[3] == 0u8 {
                FileType::BitField
            } else if s[3] == 1u8 {
                FileType::Signatures
            } else {
                FileType::Tree
            },
            version: Version::V0,
            entry_size: (s[5] * 256 + s[6]) as u16,
            hash_algorithm: if s.subrange(8, 15) == algorithm_name(HashAlgorithm::BLAKE2b) {
                HashAlgorithm::BLAKE2b
            } else {
                HashAlgorithm::Ed25519
            },
        })
    }
}

impl Header {
    /// A fresh header of the given type, entry size and algorithm,
    /// at the only defined version.
    pub fn new(tree_type: FileType, entry_size: u16, hash_algorithm: HashAlgorithm) -> (h: Header)
        ensures
            h == (Header { file_type: tree_type, version: Version::V0, entry_size, hash_algorithm }),
    {
        Header { file_type: tree_type, version: Version::V0, entry_size, hash_algorithm }
    }

    /// Parse a 32-byte buffer into a header, or say exactly which check failed.
    #[verifier::loop_isolation(false)]
    pub fn from_vec(buffer: &Vec<u8>) -> (r: Result<Header, SleepError>)
        ensures
            r == spec_parse_header(buffer@),
    {
        if buffer.len() != 32 {
            return Err(SleepError::MalformedHeader);
        }
        if !(buffer[0] == 5 && buffer[1] == 2 && buffer[2] == 87) {
            return Err(SleepError::BadMagic);
        }
        if buffer[3] != 0 && buffer[3] != 1 && buffer[3] != 2 {
            return Err(SleepError::UnknownFileType);
        }
        if buffer[4] != 0 {
            return Err(SleepError::UnsupportedVersion);
        }
        let is_blake = buffer[7] == 7 && buffer[8] == 66 && buffer[9] == 76 && buffer[10] == 65
            && buffer[11] == 75 && buffer[12] == 69 && buffer[13] == 50 && buffer[14] == 98;
        let is_ed = buffer[7] == 7 && buffer[8] == 69 && buffer[9] == 100 && buffer[10] == 50
            && buffer[11] == 53 && buffer[12] == 53 && buffer[13] == 49 && buffer[14] == 57;
        proof {
            let sub = buffer@.subrange(8, 15);
            let blake = algorithm_name(HashAlgorithm::BLAKE2b);
            let ed = algorithm_name(HashAlgorithm::Ed25519);
            assert(sub[0] == buffer@[8] && sub[1] == buffer@[9] && sub[2] == buffer@[10]
                && sub[3] == buffer@[11] && sub[4] == buffer@[12] && sub[5] == buffer@[13]
                && sub[6] == buffer@[14]);
            if is_blake {
                assert(sub =~= blake);
            }
            if is_ed {
                assert(sub =~= ed);
            }
            if !is_blake && !is_ed && buffer@[7] == 7u8 {
                if sub == blake {
                    assert(buffer@[8] == blake[0] && buffer@[9] == blake[1]
                        && buffer@[10] == blake[2] && buffer@[11] == blake[3]
                        && buffer@[12] == blake[4] && buffer@[13] == blake[5]
                        && buffer@[14] == blake[6]);
                    assert(false);
                }
                if sub == ed {
                    assert(buffer@[8] == ed[0] && buffer@[9] == ed[1] && buffer@[10] == ed[2]
                        && buffer@[11] == ed[3] && buffer@[12] == ed[4] && buffer@[13] == ed[5]
                        && buffer@[14] == ed[6]);
                    assert(false);
                }
            }
            assert((is_blake || is_ed) == (buffer@[7] == 7u8 && (sub == blake || sub == ed)));
        }
        if !is_blake && !is_ed {
            return Err(SleepError::UnknownAlgorithm);
        }
        let mut i: usize = 15;
        while i < 32
            invariant
                15 <= i <= 32,
                buffer@.len() == 32,
                forall|j: int| 15 <= j < i ==> buffer@[j] == 0u8,
            decreases 32 - i,
        {
            if buffer[i] != 0 {
                proof {
                    assert(15 <= i < 32 && buffer@[i as int] != 0u8);
                }
                return Err(SleepError::CorruptPadding);
            }
            i = i + 1;
        }
        let file_type = if buffer[3] == 0 {
            FileType::BitField
        } else if buffer[3] == 1 {
            FileType::Signatures
        } else {
            FileType::Tree
        };
        let entry_size: u16 = (buffer[5] as u16) * 256 + (buffer[6] as u16);
        let hash_algorithm = if is_blake {
            HashAlgorithm::BLAKE2b
        } else {
            HashAlgorithm::Ed25519
        };
        Ok(Header { file_type, version: Version::V0, entry_size, hash_algorithm })
    }

    /// Serialize this header back into its exact 32-byte form.
    pub fn to_vec(&self) -> (r: Vec<u8>)
        ensures
            r@ == spec_serialize_header(*self),
            r@.len() == 32,
    {
        let mut v: Vec<u8> = Vec::new();
        v.push(5);
        v.push(2);
        v.push(87);
        v.push(match self.file_type {
            FileType::BitField => 0,
            FileType::Signatures => 1,
            FileType::Tree => 2,
        });
        v.push(0);
        v.push((self.entry_size / 256) as u8);
        v.push((self.entry_size % 256) as u8);
        v.push(7);
        match self.hash_algorithm {
            HashAlgorithm::BLAKE2b => {
                v.push(66);
                v.push(76);
                v.push(65);
                v.push(75);
                v.push(69);
                v.push(50);
                v.push(98);
            },
            HashAlgorithm::Ed25519 => {
                v.push(69);
                v.push(100);
                v.push(50);
                v.push(53);
                v.push(53);
                v.push(49);
                v.push(57);
            },
        }
        let mut i: usize = 0;
        while i < 17
            invariant
                0 <= i <= 17,
                v@.len() == 15 + i,
                v@.subrange(0, 15) == (seq![
                    5u8,
                    2u8,
                    87u8,
                    file_type_byte(self.file_type),
                    0u8,
                    (self.entry_size / 256) as u8,
                    (self.entry_size % 256) as u8,
                    7u8,
                ] + algorithm_name(self.hash_algorithm)),
                forall|j: int| 15 <= j < v@.len() ==> v@[j] == 0u8,
            decreases 17 - i,
        {
            v.push(0);
            i = i + 1;
        }
        proof {
            assert(v@ =~= spec_serialize_header(*self));
        }
        v
    }
}

/// Round trip: parsing the serialization of any header gives that header back.
pub proof fn lemma_header_round_trip(h: Header)
    ensures
        spec_parse_header(spec_serialize_header(h)) == Ok::<Header, SleepError>(h),
{
    let s = spec_serialize_header(h);
    assert(s.len() == 32);
    assert(s.subrange(8, 15) =~= algorithm_name(h.hash_algorithm));
    match h.hash_algorithm {
        HashAlgorithm::BLAKE2b => {
            assert(s.subrange(8, 15) == algorithm_name(HashAlgorithm::BLAKE2b));
        },
        HashAlgorithm::Ed25519 => {
            assert(s.subrange(8, 15)[0] == 69u8);
            assert(s.subrange(8, 15) != algorithm_name(HashAlgorithm::BLAKE2b));
        },
    }
    assert(forall|j: int| 15 <= j < 32 ==> s[j] == 0u8);
    assert((h.entry_size / 256) * 256 + (h.entry_size % 256) == h.entry_size) by {
        vstd::arithmetic::div_mod::lemma_fundamental_div_mod(h.entry_size as int, 256);
    }
    assert(spec_parse_header(s) == Ok::<Header, SleepError>(h));
}

/// Rejection: a 32-byte buffer whose first byte is not 0x05 always
/// parses to a bad-magic error.
pub proof fn lemma_bad_magic_rejected(s: Seq<u8>)
    requires
        s.len() == 32,
        s[0] != 5u8,
    ensures
        spec_parse_header(s) == Err::<Header, SleepError>(SleepError::BadMagic),
{
}

/// Rejection: with the magic intact, a file-type byte above 2 (such as 9)
/// always parses to an unknown-file-type error.
pub proof fn lemma_unknown_file_type_rejected(s: Seq<u8>)
    requires
        s.len() == 32,
        s[0] == 5u8 && s[1] == 2u8 && s[2] == 87u8,
        s[3] != 0u8 && s[3] != 1u8 && s[3] != 2u8,
    ensures
        spec_parse_header(s) == Err::<Header, SleepError>(SleepError::UnknownFileType),
{
}

} // verus!
