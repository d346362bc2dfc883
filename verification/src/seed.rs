use vstd::prelude::*;
use vstd::string::StrSliceExecFns;

use crate::card::Card;

use rand::seq::SliceRandom;
use rand::RngExt;
use rand::SeedableRng;
use zero85::ToZ85;

verus! {

/// A reproducible deal key: 32 bytes, carried as z85 text at the borders.
pub struct Seed {
    key: [u8; 32],
}

impl View for Seed {
    type V = Seq<u8>;

    closed spec fn view(&self) -> Seq<u8> {
        self.key@
    }
}

// ---------------------------------------------------------------------------
// z85 decoding.  Five digits of the 85-character alphabet encode one
// 32-bit value, written out as four big-endian bytes.  Decoding is plain
// table-and-base-85 arithmetic, so it is implemented here, verified;
// only encoding is taken from the outside crate.
// ---------------------------------------------------------------------------

/// The value of a z85 digit: the character's index in the z85 alphabet
/// `0..9a..zA..Z.-:+=^!/*?&<>()[]{}@%$#`, or nothing for any other
/// character.
pub open spec fn z85_digit(c: char) -> Option<u8> {
    let v = c as u32;
    if 48 <= v && v <= 57 {
        Some((v - 48) as u8)
    } else if 97 <= v && v <= 122 {
        Some((v - 87) as u8)
    } else if 65 <= v && v <= 90 {
        Some((v - 29) as u8)
    } else if v == 46 {
        Some(62u8)
    } else if v == 45 {
        Some(63u8)
    } else if v == 58 {
        Some(64u8)
    } else if v == 43 {
        Some(65u8)
    } else if v == 61 {
        Some(66u8)
    } else if v == 94 {
        Some(67u8)
    } else if v == 33 {
        Some(68u8)
    } else if v == 47 {
        Some(69u8)
    } else if v == 42 {
        Some(70u8)
    } else if v == 63 {
        Some(71u8)
    } else if v == 38 {
        Some(72u8)
    } else if v == 60 {
        Some(73u8)
    } else if v == 62 {
        Some(74u8)
    } else if v == 40 {
        Some(75u8)
    } else if v == 41 {
        Some(76u8)
    } else if v == 91 {
        Some(77u8)
    } else if v == 93 {
        Some(78u8)
    } else if v == 123 {
        Some(79u8)
    } else if v == 125 {
        Some(80u8)
    } else if v == 64 {
        Some(81u8)
    } else if v == 37 {
        Some(82u8)
    } else if v == 36 {
        Some(83u8)
    } else if v == 35 {
        Some(84u8)
    } else {
        None
    }
}

/// The value of the five-digit block at position `b` of a text.
pub open spec fn block_val(text: Seq<char>, b: int) -> int
    recommends
        0 <= b,
        5 * b + 5 <= text.len(),
{
    let d0 = z85_digit(text[5 * b])->Some_0 as int;
    let d1 = z85_digit(text[5 * b + 1])->Some_0 as int;
    let d2 = z85_digit(text[5 * b + 2])->Some_0 as int;
    let d3 = z85_digit(text[5 * b + 3])->Some_0 as int;
    let d4 = z85_digit(text[5 * b + 4])->Some_0 as int;
    (((d0 * 85 + d1) * 85 + d2) * 85 + d3) * 85 + d4
}

/// Whether the block at position `b` is well formed: five z85 digits
/// encoding a value that fits 32 bits.
pub open spec fn block_ok(text: Seq<char>, b: int) -> bool
    recommends
        0 <= b,
        5 * b + 5 <= text.len(),
{
    &&& z85_digit(text[5 * b]) is Some
    &&& z85_digit(text[5 * b + 1]) is Some
    &&& z85_digit(text[5 * b + 2]) is Some
    &&& z85_digit(text[5 * b + 3]) is Some
    &&& z85_digit(text[5 * b + 4]) is Some
    &&& block_val(text, b) < 4294967296
}

/// The `j`-th of the four big-endian bytes of the block at position `b`.
pub open spec fn block_byte(text: Seq<char>, b: int, j: int) -> u8
    recommends
        0 <= b,
        5 * b + 5 <= text.len(),
        0 <= j < 4,
{
    let divisor = if j == 0 {
        16777216int
    } else if j == 1 {
        65536int
    } else if j == 2 {
        256int
    } else {
        1int
    };
    (block_val(text, b) / divisor % 256) as u8
}

/// What decoding a text as z85 yields: four bytes for every five digits,
/// or nothing when the text is empty, its length is not a multiple of
/// five, it holds a character outside the z85 alphabet, or a block's
/// value does not fit 32 bits.
pub open spec fn z85_decode(text: Seq<char>) -> Option<Seq<u8>> {
    if text.len() == 0 || text.len() % 5 != 0 {
        None
    } else if exists|b: int| 0 <= b < text.len() / 5 && !(#[trigger] block_ok(text, b)) {
        None
    } else {
        Some(Seq::new((text.len() / 5 * 4) as nat, |i: int| block_byte(text, i / 4, i % 4)))
    }
}

/// The value of a z85 digit.
fn digit_of(c: char) -> (r: Option<u8>)
    ensures
        r == z85_digit(c),
{
    let v = c as u32;
    if 48 <= v && v <= 57 {
        Some((v - 48) as u8)
    } else if 97 <= v && v <= 122 {
        Some((v - 87) as u8)
    } else if 65 <= v && v <= 90 {
        Some((v - 29) as u8)
    } else if v == 46 {
        Some(62u8)
    } else if v == 45 {
        Some(63u8)
    } else if v == 58 {
        Some(64u8)
    } else if v == 43 {
        Some(65u8)
    } else if v == 61 {
        Some(66u8)
    } else if v == 94 {
        Some(67u8)
    } else if v == 33 {
        Some(68u8)
    } else if v == 47 {
        Some(69u8)
    } else if v == 42 {
        Some(70u8)
    } else if v == 63 {
        Some(71u8)
    } else if v == 38 {
        Some(72u8)
    } else if v == 60 {
        Some(73u8)
    } else if v == 62 {
        Some(74u8)
    } else if v == 40 {
        Some(75u8)
    } else if v == 41 {
        Some(76u8)
    } else if v == 91 {
        Some(77u8)
    } else if v == 93 {
        Some(78u8)
    } else if v == 123 {
        Some(79u8)
    } else if v == 125 {
        Some(80u8)
    } else if v == 64 {
        Some(81u8)
    } else if v == 37 {
        Some(82u8)
    } else if v == 36 {
        Some(83u8)
    } else if v == 35 {
        Some(84u8)
    } else {
        None
    }
}

/// Decodes z85 text: four bytes for every five digits, or nothing for any
/// text the z85 format rejects.
pub fn z85_decode_exec(s: &str) -> (r: Option<Vec<u8>>)
    ensures
        match r {
            Some(v) => z85_decode(s@) == Some(v@),
            None => z85_decode(s@) is None,
        },
{
    let n = s.unicode_len();
    if n == 0 || n % 5 != 0 {
        return None;
    }
    let mut out: Vec<u8> = Vec::new();
    let mut pos: usize = 0;
    while pos < n
        invariant
            n == s@.len(),
            n % 5 == 0,
            n > 0,
            pos % 5 == 0,
            pos <= n,
            forall|b: int| 0 <= b < pos / 5 ==> #[trigger] block_ok(s@, b),
            out@.len() == pos / 5 * 4,
            forall|i: int|
                0 <= i < out@.len() ==> #[trigger] out@[i] == block_byte(s@, i / 4, i % 4),
        decreases n - pos,
    {
        proof {
            assert(pos + 5 <= n);
        }
        let ghost blk = pos as int / 5;
        let c0 = s.get_char(pos);
        let c1 = s.get_char(pos + 1);
        let c2 = s.get_char(pos + 2);
        let c3 = s.get_char(pos + 3);
        let c4 = s.get_char(pos + 4);
        proof {
            assert(5 * blk == pos);
        }
        let d0 = match digit_of(c0) {
            Some(d) => d,
            None => {
                proof {
                    assert(!block_ok(s@, blk));
                }
                return None;
            },
        };
        let d1 = match digit_of(c1) {
            Some(d) => d,
            None => {
                proof {
                    assert(!block_ok(s@, blk));
                }
                return None;
            },
        };
        let d2 = match digit_of(c2) {
            Some(d) => d,
            None => {
                proof {
                    assert(!block_ok(s@, blk));
                }
                return None;
            },
        };
        let d3 = match digit_of(c3) {
            Some(d) => d,
            None => {
                proof {
                    assert(!block_ok(s@, blk));
                }
                return None;
            },
        };
        let d4 = match digit_of(c4) {
            Some(d) => d,
            None => {
                proof {
                    assert(!block_ok(s@, blk));
                }
                return None;
            },
        };
        let v: u64 = ((((d0 as u64) * 85 + (d1 as u64)) * 85 + (d2 as u64)) * 85 + (d3 as u64))
            * 85 + (d4 as u64);
        proof {
            assert(v == block_val(s@, blk));
        }
        if v >= 4294967296 {
            proof {
                assert(!block_ok(s@, blk));
            }
            return None;
        }
        proof {
            assert(block_ok(s@, blk));
        }
        let ghost out_before = out@;
        out.push((v / 16777216 % 256) as u8);
        out.push((v / 65536 % 256) as u8);
        out.push((v / 256 % 256) as u8);
        out.push((v % 256) as u8);
        proof {
            assert forall|i: int|
                0 <= i < out@.len() implies #[trigger] out@[i] == block_byte(s@, i / 4, i % 4) by {
                if i < out_before.len() {
                    assert(out@[i] == out_before[i]);
                } else {
                    assert(i / 4 == blk && 0 <= i % 4 < 4);
                }
            }
        }
        pos = pos + 5;
    }
    proof {
        assert(out@ =~= Seq::new((s@.len() / 5 * 4) as nat, |i: int| block_byte(s@, i / 4, i % 4)));
    }
    Some(out)
}

// ---------------------------------------------------------------------------
// The trusted border: z85 encoding and the random number generator.
// ---------------------------------------------------------------------------

/// The z85 text of a byte string whose length is a positive multiple of
/// four: five digits for every four bytes.
pub uninterp spec fn z85_of(bytes: Seq<u8>) -> Seq<char>;

/// The permutation that a Fisher-Yates shuffle driven by the standard
/// generator under the given 32-byte key applies to a deck.
pub uninterp spec fn shuffled_of(deck: Seq<Card>, key: Seq<u8>) -> Seq<Card>;

/// Relies on zero85's `ToZ85::to_z85` for `[u8]`: a 32-byte string always
/// encodes, to five digits for every four bytes, the text depends on the
/// bytes alone, and each block is exactly the five base-85 digits of one
/// four-byte value, so the text decodes back to exactly the input.
#[verifier::external_body]
fn key_to_z85(key: &[u8; 32]) -> (r: String)
    ensures
        r@ == z85_of(key@),
        r@.len() == 40,
        z85_decode(r@) == Some(key@),
{
    key.as_slice().to_z85().unwrap()
}

/// Relies on rand's thread generator: a fresh 32-byte key.  Nothing is
/// promised of the value.
#[verifier::external_body]
fn random_key() -> (r: [u8; 32])
{
    rand::rng().random()
}

/// Relies on rand's `StdRng::from_seed` and `SliceRandom::shuffle`: the
/// shuffle permutes the deck in place, and with the seeded standard
/// generator the permutation depends on the deck and the key alone.
#[verifier::external_body]
pub(crate) fn shuffle_with_key(deck: &mut Vec<Card>, key: &[u8; 32])
    ensures
        final(deck)@.to_multiset() == old(deck)@.to_multiset(),
        final(deck)@ == shuffled_of(old(deck)@, key@),
        final(deck)@.len() == old(deck)@.len(),
{
    let mut rng = rand::rngs::StdRng::from_seed(*key);
    deck.shuffle(&mut rng);
}

/// Parses a seed's z85 text, if it decodes to at least 32 bytes; the key
/// is the first 32 of them.
pub fn parse_seed(s: &str) -> (r: Option<Seed>)
    ensures
        match r {
            Some(seed) => z85_decode(s@) matches Some(b) && b.len() >= 32 && seed@ == b.subrange(
                0,
                32,
            ),
            None => z85_decode(s@) is None || (z85_decode(s@) matches Some(b) && b.len() < 32),
        },
{
    match z85_decode_exec(s) {
        None => None,
        Some(bytes) => {
            if bytes.len() < 32 {
                None
            } else {
                Some(Seed::from_string(s))
            }
        },
    }
}

impl Seed {
    /// The 32-byte key itself.
    pub(crate) fn key_bytes(&self) -> (r: &[u8; 32])
        ensures
            r@ == self@,
    {
        &self.key
    }

    /// A seed's key is always exactly 32 bytes.
    pub proof fn lemma_key_len(&self)
        ensures
            self@.len() == 32,
    {
    }

    /// Parses a seed from its z85 text.  The text must decode to at least
    /// 32 bytes; the key is the first 32 of them.
    pub fn from_string(seed: &str) -> (r: Seed)
        requires
            z85_decode(seed@) matches Some(b) && b.len() >= 32,
        ensures
            z85_decode(seed@) matches Some(b) && r@ == b.subrange(0, 32),
    {
        match z85_decode_exec(seed) {
            None => vstd::pervasive::unreached(),
            Some(bytes) => {
                let mut key: [u8; 32] = [0u8; 32];
                let mut i: usize = 0;
                while i < 32
                    invariant
                        i <= 32,
                        bytes@.len() >= 32,
                        key@.len() == 32,
                        forall|j: int| 0 <= j < i ==> key@[j] == bytes@[j],
                    decreases 32 - i,
                {
                    key[i] = bytes[i];
                    i = i + 1;
                }
                let r = Seed { key };
                proof {
                    assert(r@ =~= z85_decode(seed@)->Some_0.subrange(0, 32));
                }
                r
            },
        }
    }

    /// The seed's z85 text: 40 characters, which decode back to this very
    /// seed.
    pub fn to_string(&self) -> (r: String)
        ensures
            r@ == z85_of(self@),
            r@.len() == 40,
            z85_decode(r@) == Some(self@),
            self@.len() == 32,
    {
        proof {
            self.lemma_key_len();
        }
        key_to_z85(&self.key)
    }

    /// A fresh random seed.
    pub fn random() -> (r: Seed)
        ensures
            r@.len() == 32,
    {
        Seed { key: random_key() }
    }
}

} // verus!
