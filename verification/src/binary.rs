//! The `Byte` primitive and the bit-sequence conversions used by the codec.
//!
//! A payload is carried through the codec as a flat sequence of booleans,
//! eight per byte, most-significant bit first. The spec functions here are
//! the mathematical model of that representation.

use vstd::prelude::*;

use crate::errors::StegError;

verus! {

/// Value of a bit sequence read most-significant bit first.
pub open spec fn bits_value(s: Seq<bool>) -> nat
    decreases s.len(),
{
    if s.len() == 0 {
        0
    } else {
        2 * bits_value(s.drop_last()) + (if s.last() {
            1nat
        } else {
            0nat
        })
    }
}

/// The eight bits of a byte value, most significant first.
pub open spec fn byte_bits(v: u8) -> Seq<bool> {
    seq![
        v as int / 128 % 2 == 1,
        v as int / 64 % 2 == 1,
        v as int / 32 % 2 == 1,
        v as int / 16 % 2 == 1,
        v as int / 8 % 2 == 1,
        v as int / 4 % 2 == 1,
        v as int / 2 % 2 == 1,
        v as int % 2 == 1,
    ]
}

/// The flat bit sequence of a byte sequence: eight bits per byte, in order.
pub open spec fn bits_of_bytes(bytes: Seq<u8>) -> Seq<bool> {
    Seq::new(8 * bytes.len(), |i: int| byte_bits(bytes[i / 8])[i % 8])
}

/// Two to the power `n`.
pub open spec fn two_pow(n: nat) -> nat
    decreases n,
{
    if n == 0 {
        1nat
    } else {
        2 * two_pow((n - 1) as nat)
    }
}

/// Reading a byte's bits back as a value restores the byte. This is the
/// bit-sequence round trip at the level of the mathematical model; the
/// executable round trip is `Byte::from_bool_array(&b.to_bit_vec())`.
#[verifier::rlimit(60)]
pub proof fn lemma_byte_bits_round_trip(v: u8)
    ensures
        bits_value(byte_bits(v)) == v,
{
    let b0 = v as int / 128 % 2 == 1;
    let b1 = v as int / 64 % 2 == 1;
    let b2 = v as int / 32 % 2 == 1;
    let b3 = v as int / 16 % 2 == 1;
    let b4 = v as int / 8 % 2 == 1;
    let b5 = v as int / 4 % 2 == 1;
    let b6 = v as int / 2 % 2 == 1;
    let b7 = v as int % 2 == 1;
    let i0: int = if b0 { 1 } else { 0 };
    let i1: int = if b1 { 1 } else { 0 };
    let i2: int = if b2 { 1 } else { 0 };
    let i3: int = if b3 { 1 } else { 0 };
    let i4: int = if b4 { 1 } else { 0 };
    let i5: int = if b5 { 1 } else { 0 };
    let i6: int = if b6 { 1 } else { 0 };
    let i7: int = if b7 { 1 } else { 0 };
    assert(bits_value(Seq::<bool>::empty()) == 0);
    assert(seq![b0].drop_last() =~= Seq::<bool>::empty());
    assert(bits_value(seq![b0]) == i0);
    assert(seq![b0, b1].drop_last() =~= seq![b0]);
    assert(bits_value(seq![b0, b1]) == 2 * i0 + i1);
    assert(seq![b0, b1, b2].drop_last() =~= seq![b0, b1]);
    assert(bits_value(seq![b0, b1, b2]) == 4 * i0 + 2 * i1 + i2);
    assert(seq![b0, b1, b2, b3].drop_last() =~= seq![b0, b1, b2]);
    assert(bits_value(seq![b0, b1, b2, b3]) == 8 * i0 + 4 * i1 + 2 * i2 + i3);
    assert(seq![b0, b1, b2, b3, b4].drop_last() =~= seq![b0, b1, b2, b3]);
    assert(bits_value(seq![b0, b1, b2, b3, b4]) == 16 * i0 + 8 * i1 + 4 * i2 + 2 * i3 + i4);
    assert(seq![b0, b1, b2, b3, b4, b5].drop_last() =~= seq![b0, b1, b2, b3, b4]);
    assert(bits_value(seq![b0, b1, b2, b3, b4, b5]) == 32 * i0 + 16 * i1 + 8 * i2 + 4 * i3 + 2 * i4
        + i5);
    assert(seq![b0, b1, b2, b3, b4, b5, b6].drop_last() =~= seq![b0, b1, b2, b3, b4, b5]);
    assert(bits_value(seq![b0, b1, b2, b3, b4, b5, b6]) == 64 * i0 + 32 * i1 + 16 * i2 + 8 * i3 + 4
        * i4 + 2 * i5 + i6);
    assert(byte_bits(v).drop_last() =~= seq![b0, b1, b2, b3, b4, b5, b6]);
    assert(bits_value(byte_bits(v)) == 128 * i0 + 64 * i1 + 32 * i2 + 16 * i3 + 8 * i4 + 4 * i5 + 2
        * i6 + i7);
    assert(128 * ((v / 128) % 2) + 64 * ((v / 64) % 2) + 32 * ((v / 32) % 2) + 16 * ((v / 16) % 2)
        + 8 * ((v / 8) % 2) + 4 * ((v / 4) % 2) + 2 * ((v / 2) % 2) + (v % 2) == v) by (bit_vector);
}

/// An eight-bit value, the unit in which the codec assembles payloads.
#[derive(Clone, Copy, Debug, PartialEq, Eq, Structural)]
pub struct Byte {
    value: u8,
}

impl View for Byte {
    type V = u8;

    closed spec fn view(&self) -> u8 {
        self.value
    }
}

impl Byte {
    /// Constructs a byte from a raw value; total.
    pub fn new(value: u8) -> (r: Byte)
        ensures
            r@ == value,
    {
        Byte { value }
    }

    /// The raw value.
    pub fn get_value(&self) -> (r: u8)
        ensures
            r == self@,
    {
        self.value
    }

    /// Folds a bit sequence of at most eight bits into a byte,
    /// most-significant bit first; shorter sequences are left-padded with
    /// implicit zeroes. Longer sequences are rejected.
    pub fn from_bool_array(bit_array: &[bool]) -> (r: Result<Byte, StegError>)
        ensures
            bit_array@.len() <= 8 ==> (r matches Ok(b) && b@ == bits_value(bit_array@)),
            bit_array@.len() > 8 ==> r == Err::<Byte, StegError>(StegError::BitSequenceTooLong),
    {
        if bit_array.len() > 8 {
            return Err(StegError::BitSequenceTooLong);
        }
        let ghost s = bit_array@;
        let mut acc: u8 = 0;
        let mut i: usize = 0;
        proof {
            assert(s.take(0) =~= Seq::<bool>::empty());
        }
        while i < bit_array.len()
            invariant
                i <= bit_array.len() <= 8,
                s == bit_array@,
                acc == bits_value(s.take(i as int)),
                acc < two_pow(i as nat),
            decreases bit_array.len() - i,
        {
            proof {
                assert(s.take(i + 1).drop_last() =~= s.take(i as int));
                assert(two_pow(8) == 256) by {
                    reveal_with_fuel(two_pow, 9);
                }
                assert(two_pow(i as nat) <= two_pow(7)) by {
                    lemma_two_pow_increases(i as nat, 7);
                }
                assert(two_pow(7) == 128) by {
                    reveal_with_fuel(two_pow, 8);
                }
            }
            let bit = bit_array[i];
            acc = acc * 2 + (if bit {
                1
            } else {
                0
            });
            i = i + 1;
        }
        proof {
            assert(s.take(bit_array@.len() as int) =~= s);
        }
        Ok(Byte { value: acc })
    }

    /// Parses an eight-character binary string, `'1'` for a set bit and any
    /// other character for a clear one.
    pub fn from_str(bit_str: &str) -> (r: Result<Byte, StegError>)
        ensures
            bit_str@.len() == 8 ==> (r matches Ok(b) && b@ == bits_value(
                bit_str@.map_values(|c: char| c == '1'),
            )),
            bit_str@.len() != 8 ==> r == Err::<Byte, StegError>(StegError::BadBitStringLength),
    {
        if bit_str.unicode_len() != 8 {
            return Err(StegError::BadBitStringLength);
        }
        let mut bits: Vec<bool> = Vec::new();
        let mut i: usize = 0;
        while i < 8
            invariant
                i <= 8,
                bit_str@.len() == 8,
                bits@ =~= bit_str@.map_values(|c: char| c == '1').take(i as int),
            decreases 8 - i,
        {
            bits.push(bit_str.get_char(i) == '1');
            i = i + 1;
        }
        proof {
            let mapped = bit_str@.map_values(|c: char| c == '1');
            assert(mapped.take(8) =~= mapped);
        }
        Byte::from_bool_array(bits.as_slice())
    }

    /// Clears the least-significant bit.
    pub fn empty_least_significant_bit(&mut self)
        ensures
            final(self)@ == old(self)@ - old(self)@ % 2,
    {
        if self.value % 2 == 1 {
            self.value = self.value - 1;
        }
    }

    /// Clears the least-significant bit, then sets it to `bit`.
    pub fn store_bit(&mut self, bit: bool)
        ensures
            final(self)@ == old(self)@ - old(self)@ % 2 + (if bit {
                1int
            } else {
                0int
            }),
            final(self)@ / 2 == old(self)@ / 2,
            (final(self)@ % 2 == 1) == bit,
    {
        self.empty_least_significant_bit();
        if bit {
            self.value = self.value + 1;
        }
    }

    /// Sets the least-significant bit to a uniformly random value. Only the
    /// seven high bits are promised to survive; the new low bit may be
    /// anything. Used for camouflage padding, never for payload bits.
    pub fn store_random_bit(&mut self)
        ensures
            final(self)@ / 2 == old(self)@ / 2,
    {
        let bit = random_bit();
        self.store_bit(bit);
    }

    /// The eight bits of this byte, most-significant first.
    pub fn to_bit_vec(&self) -> (r: Vec<bool>)
        ensures
            r@ == byte_bits(self@),
    {
        let v = self.value;
        let mut r: Vec<bool> = Vec::new();
        r.push(v / 128 % 2 == 1);
        r.push(v / 64 % 2 == 1);
        r.push(v / 32 % 2 == 1);
        r.push(v / 16 % 2 == 1);
        r.push(v / 8 % 2 == 1);
        r.push(v / 4 % 2 == 1);
        r.push(v / 2 % 2 == 1);
        r.push(v % 2 == 1);
        proof {
            assert(r@ =~= byte_bits(self@));
        }
        r
    }

    /// The fixed eight-character binary rendering of this byte.
    pub fn to_string(&self) -> (r: String)
        ensures
            r@ == byte_bits(self@).map_values(|b: bool| if b {
                '1'
            } else {
                '0'
            }),
    {
        let bits = self.to_bit_vec();
        let mut r = String::new();
        let mut i: usize = 0;
        proof {
            reveal_strlit("1");
            reveal_strlit("0");
        }
        while i < bits.len()
            invariant
                i <= bits.len(),
                bits@ == byte_bits(self@),
                ("1")@ =~= seq!['1'],
                ("0")@ =~= seq!['0'],
                r@ =~= bits@.map_values(|b: bool| if b {
                    '1'
                } else {
                    '0'
                }).take(i as int),
            decreases bits.len() - i,
        {
            if bits[i] {
                r.append("1");
            } else {
                r.append("0");
            }
            i = i + 1;
        }
        proof {
            let mapped = byte_bits(self@).map_values(|b: bool| if b {
                '1'
            } else {
                '0'
            });
            assert(mapped.take(mapped.len() as int) =~= mapped);
        }
        r
    }
}

/// `two_pow` is monotone.
proof fn lemma_two_pow_increases(m: nat, n: nat)
    requires
        m <= n,
    ensures
        two_pow(m) <= two_pow(n),
    decreases n,
{
    if m < n {
        lemma_two_pow_increases(m, (n - 1) as nat);
    }
}

/// True when the character fits in a single byte, that is, is ASCII.
pub fn is_one_byte_char(chr: char) -> (r: bool)
    ensures
        r == ((chr as u32) < 128),
{
    (chr as u32) < 128
}

/// True when every character of the message fits in a single byte.
pub fn is_one_byte_chars_message(msg: &str) -> (r: bool)
    ensures
        r == vstd::utf8::is_ascii_chars(msg@),
{
    msg.is_ascii()
}

/// Converts a boolean to the byte value one or zero.
pub fn convert_bool_to_u8(bool_value: bool) -> (r: u8)
    ensures
        r == (if bool_value {
            1int
        } else {
            0int
        }),
{
    if bool_value {
        1
    } else {
        0
    }
}

/// Appending a byte to a sequence appends its eight bits to the flat form.
pub proof fn lemma_bits_of_bytes_push(bytes: Seq<u8>, b: u8)
    ensures
        bits_of_bytes(bytes.push(b)) =~= bits_of_bytes(bytes) + byte_bits(b),
{
    let lhs = bits_of_bytes(bytes.push(b));
    let rhs = bits_of_bytes(bytes) + byte_bits(b);
    assert forall|i: int| 0 <= i < lhs.len() implies lhs[i] == rhs[i] by {
        if i < 8 * bytes.len() {
            assert(0 <= i / 8 < bytes.len());
        } else {
            assert(i / 8 == bytes.len());
            assert(i % 8 == i - 8 * bytes.len());
        }
    }
}

/// Flattens a byte vector into its bit sequence, eight bits per byte.
pub fn convert_byte_vec_to_bit_array(byte_array: &[Byte]) -> (r: Vec<bool>)
    ensures
        r@ == bits_of_bytes(byte_array@.map_values(|b: Byte| b@)),
{
    let ghost values = byte_array@.map_values(|b: Byte| b@);
    let mut r: Vec<bool> = Vec::new();
    let mut i: usize = 0;
    proof {
        assert(r@ =~= bits_of_bytes(values.take(0)));
    }
    while i < byte_array.len()
        invariant
            i <= byte_array.len(),
            values == byte_array@.map_values(|b: Byte| b@),
            r@ == bits_of_bytes(values.take(i as int)),
        decreases byte_array.len() - i,
    {
        let mut bitvec = byte_array[i].to_bit_vec();
        r.append(&mut bitvec);
        proof {
            assert(values.take(i + 1) =~= values.take(i as int).push(values[i as int]));
            lemma_bits_of_bytes_push(values.take(i as int), values[i as int]);
        }
        i = i + 1;
    }
    proof {
        assert(values.take(values.len() as int) =~= values);
    }
    r
}

/// Wraps each raw value in a `Byte`.
pub fn convert_u8_vec_to_byte_array(u8_array: &[u8]) -> (r: Vec<Byte>)
    ensures
        r@.map_values(|b: Byte| b@) =~= u8_array@,
{
    let mut r: Vec<Byte> = Vec::new();
    let mut i: usize = 0;
    while i < u8_array.len()
        invariant
            i <= u8_array.len(),
            r@.len() == i,
            forall|j: int| 0 <= j < i ==> r@[j]@ == u8_array@[j],
        decreases u8_array.len() - i,
    {
        r.push(Byte::new(u8_array[i]));
        i = i + 1;
    }
    proof {
        assert(r@.map_values(|b: Byte| b@) =~= u8_array@);
    }
    r
}

/// Relies on `rand::random::<bool>()` for the camouflage padding bit.
/// Nothing is assumed of the outcome; callers must hold for either value.
#[verifier::external_body]
fn random_bit() -> bool {
    rand::random::<bool>()
}

} // verus!
