//! The 64-character binary codec for IEEE-754 bit patterns.
//!
//! A double is exchanged as the 64 bits of its big-endian bit pattern,
//! written as the characters '0' and '1'.  This module encodes and decodes
//! the `u64` bit pattern itself; interpreting it as a floating-point value
//! is the caller's concern.
use vstd::prelude::*;
use vstd::arithmetic::power2::{pow2, lemma_pow2_pos, lemma_pow2_adds, lemma_pow2_strictly_increases, lemma2_to64, lemma2_to64_rest};
use vstd::arithmetic::div_mod::{lemma_fundamental_div_mod, lemma_div_denominator, lemma_basic_div};

verus! {

/// The character standing for bit `i` (counting from the most significant
/// bit) of the pattern `b`.
pub open spec fn bit_char(b: u64, i: int) -> char {
    if (b as int / pow2((63 - i) as nat) as int) % 2 == 1 {
        '1'
    } else {
        '0'
    }
}

/// The 64-character encoding of the pattern `b`, most significant bit first.
pub open spec fn encoded_bits(b: u64) -> Seq<char> {
    Seq::new(64, |i: int| bit_char(b, i))
}

/// A well-formed encoding: exactly 64 characters, each '0' or '1'.
pub open spec fn is_bit_string(s: Seq<char>) -> bool {
    s.len() == 64 && forall|i: int| 0 <= i < 64 ==> s[i] == '0' || s[i] == '1'
}

/// The value read from a bit string, most significant bit first.
pub open spec fn bits_value(s: Seq<char>) -> int
    decreases s.len(),
{
    if s.len() == 0 {
        0
    } else {
        2 * bits_value(s.drop_last()) + if s.last() == '1' {
            1int
        } else {
            0int
        }
    }
}

/// Why a string failed to decode.
#[derive(Clone, Copy, PartialEq, Eq, Structural, Debug)]
pub enum DecodeError {
    /// The string is not exactly 64 characters long.
    BadLength,
    /// A character other than '0' or '1' occurs.
    BadChar,
}

/// Encode the bit pattern `b` as its 64-character binary string.
pub fn encode_bits(b: u64) -> (r: String)
    ensures
        r@ == encoded_bits(b),
{
    let mut r = String::new();
    let mut p: u64 = 0x8000_0000_0000_0000;
    let mut i: usize = 0;
    proof {
        lemma2_to64_rest();
    }
    while i < 64
        invariant
            0 <= i <= 64,
            i < 64 ==> p as int == pow2((63 - i) as nat) as int,
            r@ =~= encoded_bits(b).take(i as int),
        decreases 64 - i,
    {
        proof {
            lemma_pow2_pos((63 - i) as nat);
        }
        let bit = (b / p) % 2;
        if bit == 1 {
            r.append("1");
        } else {
            r.append("0");
        }
        proof {
            reveal_strlit("0");
            reveal_strlit("1");
            assert(r@ =~= encoded_bits(b).take(i + 1));
            if i < 63 {
                lemma_pow2_adds((63 - (i + 1)) as nat, 1);
                lemma2_to64();
            }
        }
        p = p / 2;
        i = i + 1;
    }
    proof {
        assert(r@ =~= encoded_bits(b));
    }
    r
}

/// Decode a 64-character binary string back into the bit pattern it encodes.
/// Succeeds exactly on well-formed encodings.
pub fn decode_bits(s: &str) -> (r: Result<u64, DecodeError>)
    ensures
        r is Ok <==> is_bit_string(s@),
        r is Ok ==> r->Ok_0 as int == bits_value(s@),
        r == Result::<u64, DecodeError>::Err(DecodeError::BadLength) <==> s@.len() != 64,
        r == Result::<u64, DecodeError>::Err(DecodeError::BadChar) <==> (s@.len() == 64
            && exists|i: int| 0 <= i < 64 && s@[i] != '0' && s@[i] != '1'),
{
    let n = s.unicode_len();
    if n != 64 {
        return Err(DecodeError::BadLength);
    }
    let mut v: u64 = 0;
    let mut i: usize = 0;
    proof {
        lemma2_to64();
        lemma2_to64_rest();
    }
    while i < 64
        invariant
            0 <= i <= 64,
            s@.len() == 64,
            forall|k: int| 0 <= k < i ==> s@[k] == '0' || s@[k] == '1',
            v as int == bits_value(s@.take(i as int)),
            (v as int) < pow2(i as nat) as int,
            pow2(64) == 0x1_0000_0000_0000_0000,
        decreases 64 - i,
    {
        let c = s.get_char(i);
        proof {
            lemma2_to64();
            lemma_pow2_adds(i as nat, 1);
            if i + 1 < 64 {
                lemma_pow2_strictly_increases((i + 1) as nat, 64);
            }
            assert(pow2((i + 1) as nat) <= pow2(64));
            assert(s@.take(i + 1).drop_last() =~= s@.take(i as int));
        }
        if c == '1' {
            v = 2 * v + 1;
        } else if c == '0' {
            v = 2 * v;
        } else {
            assert(s@[i as int] != '0' && s@[i as int] != '1');
            return Err(DecodeError::BadChar);
        }
        i = i + 1;
    }
    proof {
        assert(s@.take(64) =~= s@);
    }
    Ok(v)
}

/// The value of the first `k` encoded characters is the pattern shifted
/// right by `64 - k` bit positions.
proof fn lemma_encoded_prefix(b: u64, k: int)
    requires
        0 <= k <= 64,
    ensures
        bits_value(encoded_bits(b).take(k)) == b as int / pow2((64 - k) as nat) as int,
    decreases k,
{
    lemma_pow2_pos((64 - k) as nat);
    if k == 0 {
        lemma2_to64();
        lemma2_to64_rest();
        assert((b as int) < pow2(64) as int);
        lemma_basic_div(b as int, pow2(64) as int);
        assert(bits_value(encoded_bits(b).take(0)) == 0);
    } else {
        lemma_encoded_prefix(b, k - 1);
        lemma_pow2_pos((64 - k + 1) as nat);
        lemma_pow2_pos((63 - (k - 1)) as nat);
        assert(encoded_bits(b).take(k).drop_last() =~= encoded_bits(b).take(k - 1));
        assert(encoded_bits(b).take(k).last() == bit_char(b, k - 1));
        let m = (64 - k) as nat;
        // pow2(m + 1) == pow2(m) * 2, so dividing by pow2(m + 1) is dividing
        // by pow2(m) and then by 2.
        lemma_pow2_adds(m, 1);
        lemma2_to64();
        lemma_div_denominator(b as int, pow2(m) as int, 2);
        let x = b as int / pow2(m) as int;
        assert(b as int / pow2((m + 1) as nat) as int == x / 2);
        lemma_fundamental_div_mod(x, 2);
        assert(x == 2 * (x / 2) + x % 2);
        assert(bits_value(encoded_bits(b).take(k)) == 2 * (x / 2) + if bit_char(b, k - 1)
            == '1' {
            1int
        } else {
            0int
        });
        assert((63 - (k - 1)) as nat == m);
        assert(bit_char(b, k - 1) == '1' <==> x % 2 == 1);
        assert(x % 2 == 0 || x % 2 == 1);
    }
}

/// Round trip: the encoding of any 64-bit pattern is a well-formed bit
/// string, and decoding it yields the original pattern again.
pub proof fn lemma_codec_round_trip(b: u64)
    ensures
        is_bit_string(encoded_bits(b)),
        bits_value(encoded_bits(b)) == b as int,
{
    assert forall|i: int| 0 <= i < 64 implies encoded_bits(b)[i] == '0' || encoded_bits(b)[i]
        == '1' by {
        assert(encoded_bits(b)[i] == bit_char(b, i));
    }
    lemma_encoded_prefix(b, 64);
    lemma2_to64();
    assert(encoded_bits(b).take(64) =~= encoded_bits(b));
    assert(b as int / pow2(0) as int == b as int);
}

} // verus!
