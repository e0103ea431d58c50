use vstd::prelude::*;

use crate::error::SleepError;

verus! {

/// The byte width of a tree or bitfield entry: a 32-byte hash followed
/// by an 8-byte big-endian byte length.
pub const ENTRY_SIZE: usize = 40;

/// One fixed-size record of a tree or bitfield file body: the hash of a
/// leaf block or of a pair of children, and the total byte length of the
/// data the node spans.
#[derive(Clone, Copy, PartialEq, Eq, Debug)]
pub struct Entry {
    pub hash: [u8; 32],
    pub byte_length: u64,
}

/// The value of a byte sequence read as a big-endian integer: the last
/// byte is the least significant.
pub open spec fn be_val(s: Seq<u8>) -> nat
    decreases s.len(),
{
    if s.len() == 0 {
        0
    } else {
        be_val(s.drop_last()) * 256 + (s.last() as nat)
    }
}

/// The `n`-byte big-endian encoding of `v % 256^n`.
pub open spec fn be_bytes(v: nat, n: nat) -> Seq<u8>
    decreases n,
{
    if n == 0 {
        Seq::empty()
    } else {
        be_bytes(v / 256, (n - 1) as nat).push((v % 256) as u8)
    }
}

/// 256 to the power `n`: the number of values `n` bytes can hold.
pub open spec fn p256(n: nat) -> nat
    decreases n,
{
    if n == 0 {
        1
    } else {
        256 * p256((n - 1) as nat)
    }
}

/// Reading back the big-endian encoding of a value below 256^n gives
/// the value itself.
pub proof fn lemma_be_val_of_be_bytes(v: nat, n: nat)
    requires
        v < p256(n),
    ensures
        be_bytes(v, n).len() == n,
        be_val(be_bytes(v, n)) == v,
    decreases n,
{
    if n > 0 {
        assert(v / 256 < p256((n - 1) as nat)) by {
            if v / 256 >= p256((n - 1) as nat) {
                assert(v >= 256 * p256((n - 1) as nat)) by (nonlinear_arith)
                    requires
                        v / 256 >= p256((n - 1) as nat),
                ;
            }
        }
        lemma_be_val_of_be_bytes(v / 256, (n - 1) as nat);
        assert(be_bytes(v, n).drop_last() =~= be_bytes(v / 256, (n - 1) as nat));
        assert((v / 256) * 256 + v % 256 == v) by {
            vstd::arithmetic::div_mod::lemma_fundamental_div_mod(v as int, 256);
        }
    }
}

/// Encoding a byte sequence's big-endian value gives the sequence back.
pub proof fn lemma_be_bytes_of_be_val(s: Seq<u8>)
    ensures
        be_bytes(be_val(s), s.len()) == s,
    decreases s.len(),
{
    if s.len() == 0 {
        assert(be_bytes(be_val(s), s.len()) =~= s);
    } else {
        let v = be_val(s);
        let p = be_val(s.drop_last());
        assert(v == p * 256 + s.last());
        assert(v % 256 == s.last() && v / 256 == p) by {
            vstd::arithmetic::div_mod::lemma_fundamental_div_mod_converse(
                v as int,
                256,
                p as int,
                s.last() as int,
            );
        }
        lemma_be_bytes_of_be_val(s.drop_last());
        assert(be_bytes(v, s.len()) =~= s);
    }
}

/// Whether `e` is exactly what a 40-byte record `s` decodes to.
pub open spec fn parses_to(s: Seq<u8>, e: Entry) -> bool {
    &&& s.len() == 40
    &&& e.hash@ == s.subrange(0, 32)
    &&& e.byte_length as nat == be_val(s.subrange(32, 40))
}

/// The exact 40 bytes that serialize an entry: the hash, then the
/// byte length big-endian.
pub open spec fn spec_serialize_entry(e: Entry) -> Seq<u8> {
    e.hash@ + be_bytes(e.byte_length as nat, 8)
}

/// A record decodes to at most one entry.
pub proof fn lemma_entry_parse_unique(s: Seq<u8>, e1: Entry, e2: Entry)
    requires
        parses_to(s, e1),
        parses_to(s, e2),
    ensures
        e1 == e2,
{
    assert(e1.hash =~= e2.hash);
}

/// Round trip: every entry's serialization decodes back to that entry.
pub proof fn lemma_entry_round_trip(e: Entry)
    ensures
        parses_to(spec_serialize_entry(e), e),
{
    let s = spec_serialize_entry(e);
    assert(p256(8) == 0x10000000000000000) by {
        reveal_with_fuel(p256, 9);
    }
    lemma_be_val_of_be_bytes(e.byte_length as nat, 8);
    assert(s.subrange(0, 32) =~= e.hash@);
    assert(s.subrange(32, 40) =~= be_bytes(e.byte_length as nat, 8));
}

impl Entry {
    /// A fresh entry from a hash and the byte length it stands for.
    pub fn new(hash: [u8; 32], byte_length: u64) -> (e: Entry)
        ensures
            e == (Entry { hash, byte_length }),
    {
        Entry { hash, byte_length }
    }

    /// Decode one record from a slice of exactly 40 bytes; any other
    /// length is a truncated entry.
    #[verifier::loop_isolation(false)]
    pub fn from_bytes(bytes: &[u8]) -> (r: Result<Entry, SleepError>)
        ensures
            match r {
                Ok(e) => parses_to(bytes@, e),
                Err(err) => bytes@.len() != 40 && err == SleepError::TruncatedEntry,
            },
    {
        if bytes.len() != ENTRY_SIZE {
            return Err(SleepError::TruncatedEntry);
        }
        let mut hash = [0u8; 32];
        let mut i: usize = 0;
        while i < 32
            invariant
                0 <= i <= 32,
                forall|j: int| 0 <= j < i ==> hash@[j] == bytes@[j],
            decreases 32 - i,
        {
            hash[i] = bytes[i];
            i = i + 1;
        }
        let mut v: u64 = 0;
        let mut k: usize = 32;
        while k < 40
            invariant
                32 <= k <= 40,
                v as nat == be_val(bytes@.subrange(32, k as int)),
                (v as nat) < p256((k - 32) as nat),
            decreases 40 - k,
        {
            proof {
                assert(p256(8) == 0x10000000000000000) by {
                    reveal_with_fuel(p256, 9);
                }
                assert(p256((k - 32) as nat) <= p256(7)) by {
                    lemma_p256_increases((k - 32) as nat, 7);
                }
                assert(p256(7) == 0x100000000000000) by {
                    reveal_with_fuel(p256, 8);
                }
                assert(bytes@.subrange(32, k + 1).drop_last() =~= bytes@.subrange(32, k as int));
            }
            v = v * 256 + (bytes[k] as u64);
            k = k + 1;
        }
        proof {
            assert(bytes@.subrange(32, 40) == bytes@.subrange(32, 40 as int));
            assert(hash@ =~= bytes@.subrange(0, 32));
        }
        Ok(Entry { hash, byte_length: v })
    }

    /// Encode this entry into its exact 40-byte record.
    #[verifier::loop_isolation(false)]
    pub fn to_vec(&self) -> (r: Vec<u8>)
        ensures
            r@ == spec_serialize_entry(*self),
            r@.len() == 40,
    {
        let mut v: Vec<u8> = Vec::new();
        let mut i: usize = 0;
        while i < 32
            invariant
                0 <= i <= 32,
                v@ =~= self.hash@.subrange(0, i as int),
            decreases 32 - i,
        {
            v.push(self.hash[i]);
            i = i + 1;
        }
        proof {
            assert(v@ =~= self.hash@);
        }
        let mut digits: Vec<u8> = Vec::new();
        let mut tmp: u64 = self.byte_length;
        let mut k: usize = 0;
        while k < 8
            invariant
                0 <= k <= 8,
                digits@.len() == k,
                be_bytes(self.byte_length as nat, 8) =~= be_bytes(tmp as nat, (8 - k) as nat)
                    + digits@,
            decreases 8 - k,
        {
            proof {
                assert(be_bytes(tmp as nat, (8 - k) as nat) =~= be_bytes(
                    (tmp / 256) as nat,
                    (8 - (k + 1)) as nat,
                ).push((tmp % 256) as u8));
            }
            digits.insert(0, (tmp % 256) as u8);
            tmp = tmp / 256;
            k = k + 1;
            proof {
                assert(be_bytes(self.byte_length as nat, 8) =~= be_bytes(
                    tmp as nat,
                    (8 - k) as nat,
                ) + digits@);
            }
        }
        let mut j: usize = 0;
        while j < 8
            invariant
                0 <= j <= 8,
                digits@.len() == 8,
                v@ =~= self.hash@ + digits@.subrange(0, j as int),
            decreases 8 - j,
        {
            v.push(digits[j]);
            j = j + 1;
        }
        proof {
            assert(be_bytes(tmp as nat, 0) =~= Seq::<u8>::empty());
            assert(digits@ =~= be_bytes(self.byte_length as nat, 8));
            assert(v@ =~= spec_serialize_entry(*self));
        }
        v
    }
}

/// `p256` is non-decreasing in the exponent.
pub proof fn lemma_p256_increases(a: nat, b: nat)
    requires
        a <= b,
    ensures
        p256(a) <= p256(b),
    decreases b,
{
    if a < b && b > 0 {
        lemma_p256_increases(a, (b - 1) as nat);
        assert(p256((b - 1) as nat) <= 256 * p256((b - 1) as nat)) by {
            lemma_p256_pos((b - 1) as nat);
        }
    }
}

/// `p256` is positive.
pub proof fn lemma_p256_pos(n: nat)
    ensures
        p256(n) >= 1,
    decreases n,
{
    if n > 0 {
        lemma_p256_pos((n - 1) as nat);
    }
}

/// Split a file body into its fixed-size records and decode each one.
/// A body whose length is not a multiple of the entry size is
/// misaligned; records of any width other than 40 bytes cannot decode.
#[verifier::loop_isolation(false)]
pub fn parse_body(body: &[u8], entry_size: u16) -> (r: Result<Vec<Entry>, SleepError>)
    requires
        entry_size > 0,
    ensures
        match r {
            Ok(es) => {
                &&& body@.len() % (entry_size as nat) == 0
                &&& body@.len() == es@.len() * 40
                &&& forall|i: int|
                    0 <= i < es@.len() ==> parses_to(
                        body@.subrange(i * 40, i * 40 + 40),
                        #[trigger] es@[i],
                    )
            },
            Err(err) => {
                if body@.len() % (entry_size as nat) != 0 {
                    err == SleepError::MisalignedBody
                } else {
                    err == SleepError::TruncatedEntry && entry_size != 40 && body@.len() > 0
                }
            },
        },
{
    if body.len() % (entry_size as usize) != 0 {
        return Err(SleepError::MisalignedBody);
    }
    if body.len() == 0 {
        let es: Vec<Entry> = Vec::new();
        return Ok(es);
    }
    if entry_size as usize != ENTRY_SIZE {
        return Err(SleepError::TruncatedEntry);
    }
    let n = body.len() / 40;
    proof {
        assert(body@.len() == n * 40) by {
            vstd::arithmetic::div_mod::lemma_fundamental_div_mod(body@.len() as int, 40);
        }
    }
    let mut es: Vec<Entry> = Vec::new();
    let mut i: usize = 0;
    while i < n
        invariant
            0 <= i <= n,
            es@.len() == i,
            forall|t: int|
                0 <= t < i ==> parses_to(body@.subrange(t * 40, t * 40 + 40), #[trigger] es@[t]),
        decreases n - i,
    {
        proof {
            assert(i * 40 + 40 <= n * 40) by (nonlinear_arith)
                requires
                    i < n,
            ;
            assert(i * 40 >= 0) by (nonlinear_arith)
                requires
                    i >= 0,
            ;
        }
        let chunk = vstd::slice::slice_subrange(body, i * 40, i * 40 + 40);
        let e = match Entry::from_bytes(chunk) {
            Ok(e) => e,
            Err(_) => {
                proof {
                    assert(false);
                }
                return Err(SleepError::TruncatedEntry);
            },
        };
        es.push(e);
        i = i + 1;
    }
    Ok(es)
}

} // verus!
