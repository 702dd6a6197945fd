//! The pixel buffer and the encode/decode state machine.
//!
//! An image is a raster-ordered vector of RGBA pixels. The codec hides a
//! payload three bits per pixel, one bit in the least-significant bit of
//! each of the red, green and blue channels; alpha and the seven high bits
//! of every channel are never altered. Reading the image back yields a flat
//! bit stream (`lsb_seq`), and the decoder reassembles eight-bit bytes from
//! it even though byte boundaries fall inside pixels: eight bits per byte
//! and three bits per pixel realign only every three bytes.

use vstd::prelude::*;

use crate::binary::Byte;
use crate::binary::bits_of_bytes;
use crate::binary::bits_value;
use crate::binary::byte_bits;
use crate::binary::convert_byte_vec_to_bit_array;
use crate::binary::convert_u8_vec_to_byte_array;
use crate::binary::is_one_byte_chars_message;
use crate::binary::lemma_byte_bits_round_trip;
use crate::cypher::aes_dec_of;
use crate::cypher::key_of;
use crate::cypher::simple_decrypt;
use crate::cypher::simple_encrypt;
use crate::cypher::spec_decrypt;
use crate::cypher::spec_encrypt;
use crate::cypher::zero_iv;
use crate::errors::StegError;
use vstd::pervasive::VecAdditionalExecFns;
use vstd::slice::slice_subrange;
use vstd::utf8::encode_utf8;
use vstd::utf8::is_ascii_chars;

verus! {

/// The sentinel terminator byte appended after the encrypted payload: the
/// character `'~'`. A ciphertext byte that happens to hold this value ends
/// the recovered message early; that collision is a known limitation of the
/// sentinel framing.
pub const ENDING_CHAR: u8 = 126;

/// One pixel: four eight-bit channels.
#[derive(Clone, Copy, Debug, PartialEq, Eq, Structural)]
pub struct Rgba {
    pub red: u8,
    pub green: u8,
    pub blue: u8,
    pub alpha: u8,
}

/// A raster image held as plain pixel values, together with the path it was
/// read from. Pixels are stored row by row: the pixel at `(x, y)` sits at
/// index `y * width + x`.
#[derive(Clone, Debug)]
pub struct DotMatrix {
    pub width: u32,
    pub height: u32,
    pub pixels: Vec<Rgba>,
    pub input_filepath: String,
}

/// The least-significant bit of channel `c` (red, green, blue in that
/// order) of a pixel.
pub open spec fn channel_bit(p: Rgba, c: int) -> bool {
    if c == 0 {
        p.red % 2 == 1
    } else if c == 1 {
        p.green % 2 == 1
    } else {
        p.blue % 2 == 1
    }
}

/// The seven high bits of every color channel and the whole alpha channel
/// agree; only the three least-significant color bits may differ.
pub open spec fn same_high_bits(p: Rgba, q: Rgba) -> bool {
    &&& p.red / 2 == q.red / 2
    &&& p.green / 2 == q.green / 2
    &&& p.blue / 2 == q.blue / 2
    &&& p.alpha == q.alpha
}

/// The image's flat bit stream: the three LSB slots of each pixel in raster
/// order.
pub open spec fn lsb_seq(m: DotMatrix) -> Seq<bool> {
    Seq::new(3 * m.pixels@.len(), |i: int| channel_bit(m.pixels@[i / 3], i % 3))
}

impl DotMatrix {
    /// Number of pixels.
    pub open spec fn pixel_count(&self) -> int {
        self.width as int * self.height as int
    }

    /// The pixel vector holds exactly one entry per coordinate.
    pub open spec fn wf(&self) -> bool {
        self.pixels@.len() == self.pixel_count()
    }

    /// Total number of LSB bit slots.
    pub open spec fn spec_capacity(&self) -> int {
        3 * self.pixel_count()
    }

    /// Picture dimensions as a `(width, height)` pair.
    pub fn get_dimensions(&self) -> (r: (u32, u32))
        ensures
            r == (self.width, self.height),
    {
        (self.width, self.height)
    }

    /// The path the picture was read from.
    pub fn get_input_filepath(&self) -> (r: String)
        ensures
            r@ == self.input_filepath@,
    {
        self.input_filepath.clone()
    }

    /// Total number of LSB bit slots: three per pixel.
    pub fn capacity_bits(&self) -> (r: u128)
        ensures
            r == self.spec_capacity(),
    {
        proof {
            let w = self.width as int;
            let h = self.height as int;
            assert(3 * w * h == 3 * (w * h) && 0 <= w * h < 0x10000000000000000)
                by (nonlinear_arith)
                requires
                    0 <= w < 0x100000000,
                    0 <= h < 0x100000000,
            ;
        }
        3u128 * (self.width as u128) * (self.height as u128)
    }

    /// True when `x` lies within the picture's width.
    pub fn x_in_dimensions(&self, x: u32) -> (r: bool)
        ensures
            r == (x < self.width),
    {
        x < self.width
    }

    /// True when `y` lies within the picture's height.
    pub fn y_in_dimensions(&self, y: u32) -> (r: bool)
        ensures
            r == (y < self.height),
    {
        y < self.height
    }

    /// True when a bit stream of the given length fits: the capacity must
    /// strictly exceed the length.
    pub fn is_big_enough_to_store_message(&self, message_length: u32) -> (r: bool)
        ensures
            r == ((message_length as int) < self.spec_capacity()),
    {
        (message_length as u128) < self.capacity_bits()
    }

    /// The raster index of the pixel at `(x, y)`.
    fn pixel_index(&self, x: u32, y: u32) -> (idx: usize)
        requires
            self.wf(),
            x < self.width,
            y < self.height,
        ensures
            idx == y as int * self.width as int + x as int,
            idx < self.pixels@.len(),
    {
        proof {
            broadcast use vstd::std_specs::vec::axiom_spec_len;

            assert(self.pixels.len() <= usize::MAX);
            assert((y as int * self.width as int + x as int) < (self.width as int
                * self.height as int)) by (nonlinear_arith)
                requires
                    x < self.width,
                    y < self.height,
            ;
        }
        (y as usize) * (self.width as usize) + (x as usize)
    }

    /// The three LSB slots of the pixel at `(x, y)`, as a boolean triplet.
    pub fn get_3bits_at(&self, x: u32, y: u32) -> (r: Result<[bool; 3], StegError>)
        requires
            self.wf(),
            x < self.width,
            y < self.height,
        ensures
            r matches Ok(t) && forall|c: int|
                0 <= c < 3 ==> t@[c] == lsb_seq(*self)[3 * (y as int * self.width as int
                    + x as int) + c],
    {
        let idx = self.pixel_index(x, y);
        let p = self.pixels[idx];
        let r = [p.red % 2 != 0, p.green % 2 != 0, p.blue % 2 != 0];
        proof {
            let k = y as int * self.width as int + x as int;
            assert forall|c: int| 0 <= c < 3 implies r@[c] == lsb_seq(*self)[3 * k + c] by {
                assert((3 * k + c) / 3 == k);
                assert((3 * k + c) % 3 == c);
            }
        }
        Ok(r)
    }

    /// Stores up to three bits in the LSB slots of the pixel at `(x, y)`,
    /// red first, leaving channels beyond `bits.len()` untouched.
    fn store_3bits_at(&mut self, x: u32, y: u32, bits: &[bool])
        requires
            old(self).wf(),
            x < old(self).width,
            y < old(self).height,
            bits@.len() <= 3,
        ensures
            final(self).wf(),
            final(self).width == old(self).width,
            final(self).height == old(self).height,
            final(self).input_filepath == old(self).input_filepath,
            ({
                let idx = y as int * old(self).width as int + x as int;
                &&& forall|k: int|
                    0 <= k < old(self).pixels@.len() && k != idx ==> final(self).pixels@[k] == old(
                        self,
                    ).pixels@[k]
                &&& same_high_bits(old(self).pixels@[idx], final(self).pixels@[idx])
                &&& forall|c: int|
                    0 <= c < bits@.len() ==> channel_bit(final(self).pixels@[idx], c) == bits@[c]
                &&& forall|c: int|
                    bits@.len() <= c < 3 ==> channel_bit(final(self).pixels@[idx], c)
                        == channel_bit(old(self).pixels@[idx], c)
            }),
    {
        let idx = self.pixel_index(x, y);
        let p = self.pixels[idx];
        let mut red = Byte::new(p.red);
        let mut green = Byte::new(p.green);
        let mut blue = Byte::new(p.blue);
        if bits.len() >= 1 {
            red.store_bit(bits[0]);
        }
        if bits.len() >= 2 {
            green.store_bit(bits[1]);
        }
        if bits.len() == 3 {
            blue.store_bit(bits[2]);
        }
        self.pixels.set(
            idx,
            Rgba {
                red: red.get_value(),
                green: green.get_value(),
                blue: blue.get_value(),
                alpha: p.alpha,
            },
        );
    }

    /// Overwrites the three LSB slots of every pixel from `(x, y)` to the
    /// end of the image with random bits, so that the payload's end cannot
    /// be told from the unused remainder. Covers every remaining pixel.
    fn store_random_from(&mut self, x: u32, y: u32)
        requires
            old(self).wf(),
            x < old(self).width,
            y < old(self).height,
        ensures
            final(self).wf(),
            final(self).width == old(self).width,
            final(self).height == old(self).height,
            final(self).input_filepath == old(self).input_filepath,
            forall|k: int|
                0 <= k < y as int * old(self).width as int + x as int ==> final(self).pixels@[k]
                    == old(self).pixels@[k],
            forall|k: int|
                y as int * old(self).width as int + x as int <= k < old(self).pixels@.len()
                    ==> same_high_bits(old(self).pixels@[k], final(self).pixels@[k]),
    {
        let (max_x, max_y) = self.get_dimensions();
        let mut cx = x;
        let mut cy = y;
        let ghost start = y as int * old(self).width as int + x as int;
        loop
            invariant
                old(self).wf(),
                self.wf(),
                self.width == old(self).width,
                self.height == old(self).height,
                self.input_filepath == old(self).input_filepath,
                max_x == self.width,
                max_y == self.height,
                cx < max_x,
                cy < max_y,
                start == y as int * max_x as int + x as int,
                start <= cy as int * max_x as int + cx as int,
                forall|k: int| 0 <= k < start ==> self.pixels@[k] == old(self).pixels@[k],
                forall|k: int|
                    start <= k < cy as int * max_x as int + cx as int ==> same_high_bits(
                        old(self).pixels@[k],
                        self.pixels@[k],
                    ),
                forall|k: int|
                    cy as int * max_x as int + cx as int <= k < self.pixels@.len()
                        ==> self.pixels@[k] == old(self).pixels@[k],
            decreases self.pixels@.len() - (cy as int * max_x as int + cx as int),
        {
            let ghost pre = *self;
            let idx = self.pixel_index(cx, cy);
            let p = self.pixels[idx];
            let mut red = Byte::new(p.red);
            let mut green = Byte::new(p.green);
            let mut blue = Byte::new(p.blue);
            red.store_random_bit();
            green.store_random_bit();
            blue.store_random_bit();
            self.pixels.set(
                idx,
                Rgba {
                    red: red.get_value(),
                    green: green.get_value(),
                    blue: blue.get_value(),
                    alpha: p.alpha,
                },
            );
            match move_cursor_to_next_pixel(&mut cx, &mut cy, (max_x, max_y)) {
                Ok(()) => {},
                Err(_) => {
                    proof {
                        let w = max_x as int;
                        let h = max_y as int;
                        assert((h - 1) * w + (w - 1) == w * h - 1) by (nonlinear_arith);
                        let cur = cy as int * w + cx as int;
                        assert(cur == self.pixels@.len() - 1);
                        assert(same_high_bits(old(self).pixels@[cur], self.pixels@[cur]));
                        assert forall|k: int|
                            start <= k < old(self).pixels@.len() implies same_high_bits(
                            old(self).pixels@[k],
                            self.pixels@[k],
                        ) by {
                            if k < cur {
                                assert(self.pixels@[k] == pre.pixels@[k]);
                                assert(same_high_bits(old(self).pixels@[k], pre.pixels@[k]));
                            }
                        }
                    }
                    return ;
                },
            }
        }
    }
}

/// What a successful encode does to the image: the payload bits stand in
/// the first LSB slots, every channel keeps its seven high bits and alpha
/// is never altered. When the payload does not end on a pixel boundary,
/// the unused channels of its final pixel are left untouched; every pixel
/// after the payload is wholly re-randomized, so nothing is said of its
/// slots.
pub open spec fn wrote_payload(m0: DotMatrix, m1: DotMatrix, bits: Seq<bool>) -> bool {
    &&& m1.width == m0.width
    &&& m1.height == m0.height
    &&& m1.pixels@.len() == m0.pixels@.len()
    &&& bits.len() < 3 * m0.pixels@.len()
    &&& forall|k: int|
        0 <= k < m0.pixels@.len() ==> same_high_bits(m0.pixels@[k], m1.pixels@[k])
    &&& forall|i: int| 0 <= i < bits.len() ==> lsb_seq(m1)[i] == bits[i]
    &&& bits.len() % 3 != 0 ==> forall|i: int|
        bits.len() <= i < 3 * (bits.len() / 3 + 1) ==> lsb_seq(m1)[i] == lsb_seq(m0)[i]
}

/// The flat bit sequence of a payload: the ciphertext, the terminator byte,
/// eight bits per byte.
pub open spec fn payload_bits(ct: Seq<u8>) -> Seq<bool> {
    bits_of_bytes(ct.push(ENDING_CHAR))
}

impl DotMatrix {
    /// Hides a message in the image. The message and password must be
    /// ASCII and the password at least eight characters; the message is
    /// encrypted under the password, the terminator byte is appended, and
    /// the resulting bit stream must fit strictly below the capacity.
    /// On success the image holds the payload bits, and every pixel after
    /// the last one holding payload bits is wholly re-randomized
    /// (`wrote_payload`); on any error the image is untouched.
    #[verifier::loop_isolation(false)]
    #[verifier::rlimit(60)]
    pub fn encode(&mut self, message: &str, password: &str) -> (r: Result<(), StegError>)
        requires
            old(self).wf(),
        ensures
            final(self).wf(),
            final(self).width == old(self).width,
            final(self).height == old(self).height,
            final(self).input_filepath == old(self).input_filepath,
            !is_ascii_chars(message@) ==> r == Err::<(), StegError>(StegError::NonAsciiMessage)
                && *final(self) == *old(self),
            is_ascii_chars(message@) && !is_ascii_chars(password@) ==> r == Err::<(), StegError>(
                StegError::NonAsciiPassword,
            ) && *final(self) == *old(self),
            is_ascii_chars(message@) && is_ascii_chars(password@) && password@.len() < 8 ==> r
                == Err::<(), StegError>(StegError::PasswordTooShort) && *final(self) == *old(self),
            is_ascii_chars(message@) && is_ascii_chars(password@) && password@.len() >= 8 ==> ({
                let ct = spec_encrypt(message@, password@);
                let n = 8 * (ct.len() + 1);
                &&& n >= old(self).spec_capacity() ==> r == Err::<(), StegError>(
                    StegError::MessageTooLong,
                ) && *final(self) == *old(self)
                &&& n < old(self).spec_capacity() ==> r == Ok::<(), StegError>(()) && wrote_payload(
                    *old(self),
                    *final(self),
                    payload_bits(ct),
                ) && aes_dec_of(ct, key_of(password@), zero_iv()) == Some(encode_utf8(message@))
                &&& ct.len() == 16 * (encode_utf8(message@).len() / 16 + 1)
            }),
    {
        if !is_one_byte_chars_message(message) {
            return Err(StegError::NonAsciiMessage);
        }
        if !is_one_byte_chars_message(password) {
            return Err(StegError::NonAsciiPassword);
        }
        if password.unicode_len() < 8 {
            return Err(StegError::PasswordTooShort);
        }
        let ghost ct = spec_encrypt(message@, password@);
        let mut encrypted_message = match simple_encrypt(message, password) {
            Ok(v) => v,
            Err(e) => {
                return Err(e);
            },
        };
        add_ending_char(&mut encrypted_message);
        let byte_vec = convert_u8_vec_to_byte_array(encrypted_message.as_slice());
        let vector = convert_byte_vec_to_bit_array(byte_vec.as_slice());
        let message_length = vector.len();
        let ghost bits = vector@;
        proof {
            assert(byte_vec@.map_values(|b: Byte| b@) == encrypted_message@);
            assert(bits == payload_bits(ct));
            assert(bits.len() == 8 * (ct.len() + 1));
        }
        if !((message_length as u128) < self.capacity_bits()) {
            return Err(StegError::MessageTooLong);
        }
        let mut x: u32 = 0;
        let mut y: u32 = 0;
        let (max_x, max_y) = self.get_dimensions();
        let mut parsing_cursor: usize = 0;
        proof {
            let w = self.width as int;
            let h = self.height as int;
            assert(w * h >= 1 ==> w >= 1 && h >= 1) by (nonlinear_arith)
                requires
                    w >= 0,
                    h >= 0,
            ;
        }
        loop
            invariant
                self.wf(),
                self.width == old(self).width,
                self.height == old(self).height,
                self.input_filepath == old(self).input_filepath,
                max_x == self.width,
                max_y == self.height,
                x < max_x,
                y < max_y,
                bits == vector@,
                message_length == bits.len(),
                bits.len() < 3 * self.pixels@.len(),
                parsing_cursor == 3 * (y as int * max_x as int + x as int),
                parsing_cursor <= bits.len(),
                forall|k: int|
                    0 <= k < y as int * max_x as int + x as int ==> same_high_bits(
                        old(self).pixels@[k],
                        self.pixels@[k],
                    ),
                forall|k: int|
                    y as int * max_x as int + x as int <= k < self.pixels@.len()
                        ==> self.pixels@[k] == old(self).pixels@[k],
                forall|i: int| 0 <= i < parsing_cursor ==> lsb_seq(*self)[i] == bits[i],
            decreases self.pixels@.len() - (y as int * max_x as int + x as int),
        {
            let ghost k = y as int * max_x as int + x as int;
            let ghost before = *self;
            if message_length - parsing_cursor <= 2 {
                if parsing_cursor == message_length {
                    // The payload ended exactly on the pixel boundary: this
                    // pixel holds no payload bits, so the random padding
                    // must cover it together with everything after it.
                    self.store_random_from(x, y);
                    proof {
                        lemma_padding_from_boundary(*old(self), before, *self, bits, k);
                    }
                    return Ok(());
                }
                let rest = slice_subrange(vector.as_slice(), parsing_cursor, message_length);
                self.store_3bits_at(x, y, rest);
                proof {
                    assert(k == y as int * before.width as int + x as int);
                    assert forall|c: int|
                        0 <= c < min_of(bits.len() - parsing_cursor, 3) implies channel_bit(
                        self.pixels@[k],
                        c,
                    ) == bits[parsing_cursor + c] by {
                        assert(channel_bit(self.pixels@[k], c) == rest@[c]);
                    }
                    lemma_store_extends_written(before, *self, bits, k, parsing_cursor as int);
                }
                if self.x_in_dimensions(x + 1) {
                    let ghost mid = *self;
                    self.store_random_from(x + 1, y);
                    proof {
                        lemma_padding_keeps_payload(before, mid, *self, bits, k);
                    }
                } else if self.y_in_dimensions(y + 1) {
                    let ghost mid = *self;
                    proof {
                        let w = max_x as int;
                        let yy = y as int;
                        assert((yy + 1) * w == yy * w + w) by (nonlinear_arith);
                    }
                    self.store_random_from(0, y + 1);
                    proof {
                        lemma_padding_keeps_payload(before, mid, *self, bits, k);
                    }
                } else {
                    proof {
                        lemma_padding_keeps_payload(before, *self, *self, bits, k);
                    }
                }
                return Ok(());
            } else {
                let three = slice_subrange(vector.as_slice(), parsing_cursor, parsing_cursor + 3);
                self.store_3bits_at(x, y, three);
                proof {
                    assert(k == y as int * before.width as int + x as int);
                    assert forall|c: int|
                        0 <= c < min_of(bits.len() - parsing_cursor, 3) implies channel_bit(
                        self.pixels@[k],
                        c,
                    ) == bits[parsing_cursor + c] by {
                        assert(channel_bit(self.pixels@[k], c) == three@[c]);
                    }
                    lemma_store_extends_written(before, *self, bits, k, parsing_cursor as int);
                }
                parsing_cursor = parsing_cursor + 3;
                match move_cursor_to_next_pixel(&mut x, &mut y, (max_x, max_y)) {
                    Ok(()) => {},
                    Err(_) => {
                        // The capacity check leaves the final pixel for the
                        // payload's tail, so the cursor cannot run out here;
                        // the proof shows this defensive arm is dead.
                        proof {
                            let w = max_x as int;
                            let h = max_y as int;
                            assert((h - 1) * w + (w - 1) == w * h - 1) by (nonlinear_arith);
                            assert(false);
                        }
                        return Err(StegError::NoMorePixels);
                    },
                }
            }
        }
    }

    /// Recovers the hidden message. Walks the pixels in raster order,
    /// reading three bits per pixel; bits are collected in an accumulator
    /// until a byte completes, bits belonging to the next byte wait in a
    /// spillover buffer, and a completed byte is examined one pixel after
    /// it completes. The first byte equal to the terminator ends the walk
    /// and the bytes before it are decrypted; if the image is exhausted
    /// first, nothing was hidden. The result is exactly `decode_spec`.
    #[verifier::loop_isolation(false)]
    #[verifier::rlimit(60)]
    pub fn decode(&self, password: &str) -> (r: Result<String, StegError>)
        requires
            self.wf(),
        ensures
            r matches Ok(s) ==> decode_spec(*self, password@) == Ok::<Seq<char>, StegError>(s@),
            r matches Err(e) ==> decode_spec(*self, password@) == Err::<Seq<char>, StegError>(e),
    {
        if !is_one_byte_chars_message(password) {
            return Err(StegError::NonAsciiPassword);
        }
        let (max_x, max_y) = self.get_dimensions();
        if max_x == 0 || max_y == 0 {
            proof {
                let w = self.width as int;
                let h = self.height as int;
                assert(w == 0 || h == 0 ==> w * h == 0) by (nonlinear_arith);
                assert(self.pixels@.len() == 0);
                assert(forall|j: int| !found_term_at(*self, j));
            }
            return Err(StegError::NothingHidden);
        }
        let ghost s = lsb_seq(*self);
        let mut x: u32 = 0;
        let mut y: u32 = 0;
        let mut boolean_byte_vector: Vec<bool> = Vec::new();
        let mut remains_of_previous_bit_vector: Vec<bool> = Vec::new();
        let mut message: Vec<u8> = Vec::new();
        proof {
            assert(s.subrange(0, 0) =~= Seq::<bool>::empty());
        }
        loop
            invariant
                x < max_x,
                y < max_y,
                ({
                    let k = y as int * max_x as int + x as int;
                    let c = message@.len() as int;
                    let d = 3 * k - 8 * c;
                    &&& 0 <= d <= 10
                    &&& forall|i: int|
                        0 <= i < c ==> message@[i] == stream_byte_at(*self, i) && message@[i]
                            != ENDING_CHAR
                    &&& d < 8 ==> boolean_byte_vector@ == s.subrange(8 * c, 3 * k)
                        && remains_of_previous_bit_vector@.len() == 0
                    &&& d >= 8 ==> boolean_byte_vector@ == s.subrange(8 * c, 8 * c + 8)
                        && remains_of_previous_bit_vector@ == s.subrange(8 * c + 8, 3 * k)
                }),
            decreases self.pixels@.len() - (y as int * max_x as int + x as int),
        {
            let ghost k = y as int * max_x as int + x as int;
            let ghost c = message@.len() as int;
            let ghost d = 3 * k - 8 * c;
            let bool_triplet = match self.get_3bits_at(x, y) {
                Ok(t) => t,
                Err(e) => {
                    return Err(e);
                },
            };
            proof {
                assert((y as int * max_x as int + x as int) < (max_x as int * max_y as int))
                    by (nonlinear_arith)
                    requires
                        x < max_x,
                        y < max_y,
                ;
                assert(bool_triplet@ =~= s.subrange(3 * k, 3 * k + 3));
            }
            if boolean_byte_vector.len() == 6 {
                push_bits_in_vector_from_bool_triplet_from_n_up_to_m(
                    &mut boolean_byte_vector,
                    bool_triplet,
                    0,
                    1,
                );
                push_bits_in_vector_from_bool_triplet_from_n_up_to_m(
                    &mut remains_of_previous_bit_vector,
                    bool_triplet,
                    2,
                    2,
                );
                proof {
                    assert(boolean_byte_vector@ =~= s.subrange(8 * c, 8 * c + 8));
                    assert(remains_of_previous_bit_vector@ =~= s.subrange(8 * c + 8, 3 * k + 3));
                }
            } else if boolean_byte_vector.len() == 7 {
                push_bits_in_vector_from_bool_triplet_from_n_up_to_m(
                    &mut boolean_byte_vector,
                    bool_triplet,
                    0,
                    0,
                );
                push_bits_in_vector_from_bool_triplet_from_n_up_to_m(
                    &mut remains_of_previous_bit_vector,
                    bool_triplet,
                    1,
                    2,
                );
                proof {
                    assert(boolean_byte_vector@ =~= s.subrange(8 * c, 8 * c + 8));
                    assert(remains_of_previous_bit_vector@ =~= s.subrange(8 * c + 8, 3 * k + 3));
                }
            } else if boolean_byte_vector.len() == 8 {
                let charac = match Byte::from_bool_array(boolean_byte_vector.as_slice()) {
                    Ok(b) => b.get_value(),
                    Err(e) => {
                        return Err(e);
                    },
                };
                proof {
                    assert(charac == stream_byte_at(*self, c));
                }
                if charac == ENDING_CHAR {
                    proof {
                        assert(found_term_at(*self, c));
                        let jc = choose|j: int| found_term_at(*self, j);
                        lemma_found_term_unique(*self, jc, c);
                        assert(Seq::new(c as nat, |i: int| stream_byte_at(*self, i) as u8)
                            =~= message@);
                        assert(hidden_bytes(*self) == Some(message@));
                    }
                    return simple_decrypt(&message, password);
                } else {
                    message.push(charac);
                    boolean_byte_vector = remains_of_previous_bit_vector;
                    remains_of_previous_bit_vector = Vec::new();
                    push_bits_in_vector_from_bool_triplet_from_n_up_to_m(
                        &mut boolean_byte_vector,
                        bool_triplet,
                        0,
                        2,
                    );
                    proof {
                        assert(boolean_byte_vector@ =~= s.subrange(8 * (c + 1), 3 * (k + 1)));
                    }
                }
            } else {
                push_bits_in_vector_from_bool_triplet_from_n_up_to_m(
                    &mut boolean_byte_vector,
                    bool_triplet,
                    0,
                    2,
                );
                proof {
                    assert(boolean_byte_vector@ =~= s.subrange(8 * c, 3 * (k + 1)));
                }
            }
            match move_cursor_to_next_pixel(&mut x, &mut y, (max_x, max_y)) {
                Ok(()) => {},
                Err(_) => {
                    proof {
                        let w = max_x as int;
                        let h = max_y as int;
                        assert((h - 1) * w + (w - 1) == w * h - 1) by (nonlinear_arith);
                        let cfin = message@.len() as int;
                        assert(3 * self.pixels@.len() - 8 * cfin <= 10);
                        assert forall|j: int| !found_term_at(*self, j) by {
                            if 0 <= j < cfin {
                                assert(stream_byte_at(*self, j) == message@[j]);
                            }
                        }
                        assert(hidden_bytes(*self) is None);
                    }
                    return Err(StegError::NothingHidden);
                },
            }
        }
    }
}

/// The value of byte `j` of the image's bit stream: bits `8j..8j+8` read
/// most-significant first.
pub open spec fn stream_byte_at(m: DotMatrix, j: int) -> nat {
    bits_value(lsb_seq(m).subrange(8 * j, 8 * j + 8))
}

/// The decoder recognises byte `j` as the terminator: it holds the sentinel
/// value, no earlier byte does, and the byte completes early enough to be
/// examined. A byte finishes during pixel `ceil(8(j+1)/3) - 1` but is only
/// converted one pixel later, so that following pixel must exist:
/// `8(j+1) <= 3(count - 1)`, written here as `8j + 11 <= 3·count`.
pub open spec fn found_term_at(m: DotMatrix, j: int) -> bool {
    &&& 0 <= j
    &&& 8 * j + 11 <= 3 * m.pixels@.len()
    &&& stream_byte_at(m, j) == ENDING_CHAR
    &&& forall|i: int| 0 <= i < j ==> stream_byte_at(m, i) != ENDING_CHAR
}

/// The payload hidden in the image: the stream bytes before the first
/// reachable terminator, or `None` where no such terminator exists.
pub open spec fn hidden_bytes(m: DotMatrix) -> Option<Seq<u8>> {
    if exists|j: int| found_term_at(m, j) {
        let j = choose|j: int| found_term_at(m, j);
        Some(Seq::new(j as nat, |i: int| stream_byte_at(m, i) as u8))
    } else {
        None
    }
}

/// At most one byte index can be the recognised terminator.
pub proof fn lemma_found_term_unique(m: DotMatrix, j1: int, j2: int)
    requires
        found_term_at(m, j1),
        found_term_at(m, j2),
    ensures
        j1 == j2,
{
    if j1 < j2 {
        assert(stream_byte_at(m, j1) != ENDING_CHAR);
    }
    if j2 < j1 {
        assert(stream_byte_at(m, j2) != ENDING_CHAR);
    }
}

/// The exact outcome of `decode` on an image and password.
pub open spec fn decode_spec(m: DotMatrix, pw: Seq<char>) -> Result<Seq<char>, StegError> {
    if !is_ascii_chars(pw) {
        Err(StegError::NonAsciiPassword)
    } else {
        match hidden_bytes(m) {
            Some(ct) => spec_decrypt(ct, pw),
            None => Err(StegError::NothingHidden),
        }
    }
}

/// The heart of the round trip: an image that a successful encode filled
/// with the payload of ciphertext `ct` hides exactly `ct` — provided no
/// ciphertext byte equals the terminator (the sentinel-collision
/// limitation of the framing) and the payload ends at least one full pixel
/// before the image does, so that the decoder reaches the pixel on which
/// it converts the terminator byte.
pub proof fn lemma_payload_recovered(m0: DotMatrix, m1: DotMatrix, ct: Seq<u8>)
    requires
        wrote_payload(m0, m1, payload_bits(ct)),
        forall|i: int| 0 <= i < ct.len() ==> ct[i] != ENDING_CHAR,
        8 * (ct.len() + 1) + 3 <= 3 * m0.pixels@.len(),
    ensures
        hidden_bytes(m1) == Some(ct),
{
    let payload = ct.push(ENDING_CHAR);
    let bits = payload_bits(ct);
    let s = lsb_seq(m1);
    assert(bits.len() == 8 * payload.len());
    assert forall|j: int| 0 <= j <= ct.len() implies stream_byte_at(m1, j) == payload[j] by {
        assert(s.subrange(8 * j, 8 * j + 8) =~= byte_bits(payload[j])) by {
            assert forall|t: int| 0 <= t < 8 implies s.subrange(8 * j, 8 * j + 8)[t] == byte_bits(
                payload[j],
            )[t] by {
                assert(s[8 * j + t] == bits[8 * j + t]);
                assert((8 * j + t) / 8 == j);
                assert((8 * j + t) % 8 == t);
            }
        }
        lemma_byte_bits_round_trip(payload[j]);
    }
    assert(found_term_at(m1, ct.len() as int));
    let jc = choose|j: int| found_term_at(m1, j);
    lemma_found_term_unique(m1, jc, ct.len() as int);
    assert(Seq::new(ct.len(), |i: int| stream_byte_at(m1, i) as u8) =~= ct);
}

/// The round trip, end to end: after a successful encode of an ASCII
/// message under an ASCII password, decoding the resulting image with the
/// same password returns exactly the message. The two side conditions are
/// the encode postcondition's cipher facts; the two extra premises are the
/// inputs the round trip genuinely needs: a ciphertext free of the
/// terminator byte, and a payload that ends at least one pixel before the
/// image does.
pub proof fn lemma_encode_decode_round_trip(
    m0: DotMatrix,
    m1: DotMatrix,
    msg: Seq<char>,
    pw: Seq<char>,
)
    requires
        is_ascii_chars(msg),
        is_ascii_chars(pw),
        wrote_payload(m0, m1, payload_bits(spec_encrypt(msg, pw))),
        aes_dec_of(spec_encrypt(msg, pw), key_of(pw), zero_iv()) == Some(encode_utf8(msg)),
        forall|i: int|
            0 <= i < spec_encrypt(msg, pw).len() ==> spec_encrypt(msg, pw)[i] != ENDING_CHAR,
        8 * (spec_encrypt(msg, pw).len() + 1) + 3 <= 3 * m0.pixels@.len(),
    ensures
        decode_spec(m1, pw) == Ok::<Seq<char>, StegError>(msg),
{
    let ct = spec_encrypt(msg, pw);
    lemma_payload_recovered(m0, m1, ct);
    vstd::utf8::encode_utf8_valid_utf8(msg);
    vstd::utf8::encode_utf8_decode_utf8(msg);
}

/// After `store_3bits_at` wrote `bits[cursor..]` (up to three bits) into
/// pixel `k`, every payload slot written so far holds its bit, and the
/// slots of pixel `k` beyond the written bits are unchanged.
proof fn lemma_store_extends_written(
    m0: DotMatrix,
    m1: DotMatrix,
    bits: Seq<bool>,
    k: int,
    cursor: int,
)
    requires
        m0.pixels@.len() == m1.pixels@.len(),
        0 <= k < m0.pixels@.len(),
        cursor == 3 * k,
        cursor <= bits.len(),
        forall|j: int| 0 <= j < m0.pixels@.len() && j != k ==> m1.pixels@[j] == m0.pixels@[j],
        forall|c: int|
            0 <= c < min_of(bits.len() - cursor, 3) ==> channel_bit(m1.pixels@[k], c) == bits[cursor
                + c],
        forall|c: int|
            min_of(bits.len() - cursor, 3) <= c < 3 ==> channel_bit(m1.pixels@[k], c)
                == channel_bit(m0.pixels@[k], c),
        forall|i: int| 0 <= i < cursor ==> lsb_seq(m0)[i] == bits[i],
    ensures
        forall|i: int|
            0 <= i < min_of(bits.len() as int, cursor + 3) ==> lsb_seq(m1)[i] == bits[i],
        forall|i: int|
            bits.len() <= i < cursor + 3 && i < 3 * m1.pixels@.len() ==> lsb_seq(m1)[i] == lsb_seq(
                m0,
            )[i],
        forall|i: int|
            cursor + 3 <= i < 3 * m1.pixels@.len() ==> lsb_seq(m1)[i] == lsb_seq(m0)[i],
{
    assert forall|i: int| 0 <= i < 3 * m1.pixels@.len() implies (if i < min_of(
        bits.len() as int,
        cursor + 3,
    ) {
        lsb_seq(m1)[i] == bits[i]
    } else if cursor <= i < cursor + 3 || cursor + 3 <= i {
        lsb_seq(m1)[i] == lsb_seq(m0)[i]
    } else {
        true
    }) by {
        let p = i / 3;
        let c = i % 3;
        assert(i == 3 * p + c);
        if p != k {
            assert(m1.pixels@[p] == m0.pixels@[p]);
        }
    }
}

/// The smaller of two integers.
pub open spec fn min_of(a: int, b: int) -> int {
    if a < b {
        a
    } else {
        b
    }
}

/// Random padding after the final payload pixel `k` neither moves the
/// payload bits nor the untouched slots of pixel `k`, and every pixel keeps
/// its high bits.
proof fn lemma_padding_keeps_payload(
    m0: DotMatrix,
    m1: DotMatrix,
    m2: DotMatrix,
    bits: Seq<bool>,
    k: int,
)
    requires
        m0.pixels@.len() == m1.pixels@.len(),
        m1.pixels@.len() == m2.pixels@.len(),
        0 <= k < m0.pixels@.len(),
        3 * k <= bits.len() <= 3 * k + 2,
        bits.len() < 3 * m0.pixels@.len(),
        forall|j: int| 0 <= j < k ==> same_high_bits(m0.pixels@[j], m1.pixels@[j]),
        same_high_bits(m0.pixels@[k], m1.pixels@[k]),
        forall|j: int| k < j < m1.pixels@.len() ==> m1.pixels@[j] == m0.pixels@[j],
        forall|j: int| 0 <= j <= k ==> m2.pixels@[j] == m1.pixels@[j],
        forall|j: int|
            k < j < m2.pixels@.len() ==> same_high_bits(m1.pixels@[j], m2.pixels@[j]),
        forall|i: int| 0 <= i < bits.len() ==> lsb_seq(m1)[i] == bits[i],
        forall|i: int|
            bits.len() <= i < 3 * k + 3 ==> lsb_seq(m1)[i] == lsb_seq(m0)[i],
    ensures
        forall|j: int| 0 <= j < m2.pixels@.len() ==> same_high_bits(m0.pixels@[j], m2.pixels@[j]),
        forall|i: int| 0 <= i < bits.len() ==> lsb_seq(m2)[i] == bits[i],
        forall|i: int|
            bits.len() <= i < 3 * (bits.len() / 3 + 1) ==> lsb_seq(m2)[i] == lsb_seq(m0)[i],
{
    assert(bits.len() / 3 == k);
    assert forall|j: int| 0 <= j < m2.pixels@.len() implies same_high_bits(
        m0.pixels@[j],
        m2.pixels@[j],
    ) by {
        if j <= k {
            assert(m2.pixels@[j] == m1.pixels@[j]);
        } else {
            assert(m1.pixels@[j] == m0.pixels@[j]);
        }
    }
    assert forall|i: int| 0 <= i < 3 * k + 3 implies lsb_seq(m2)[i] == lsb_seq(m1)[i] by {
        let p = i / 3;
        assert(i == 3 * p + i % 3);
        assert(p <= k);
        assert(m2.pixels@[p] == m1.pixels@[p]);
    }
}

/// When the payload ends exactly on the pixel boundary before pixel `k`,
/// random padding from pixel `k` onward neither moves a payload bit nor a
/// high bit: the payload pixels are untouched by the padding, and the
/// padded pixels were untouched by the payload.
proof fn lemma_padding_from_boundary(
    m0: DotMatrix,
    m1: DotMatrix,
    m2: DotMatrix,
    bits: Seq<bool>,
    k: int,
)
    requires
        m0.pixels@.len() == m1.pixels@.len(),
        m1.pixels@.len() == m2.pixels@.len(),
        0 <= k < m0.pixels@.len(),
        bits.len() == 3 * k,
        forall|j: int| 0 <= j < k ==> same_high_bits(m0.pixels@[j], m1.pixels@[j]),
        forall|j: int| k <= j < m1.pixels@.len() ==> m1.pixels@[j] == m0.pixels@[j],
        forall|j: int| 0 <= j < k ==> m2.pixels@[j] == m1.pixels@[j],
        forall|j: int|
            k <= j < m2.pixels@.len() ==> same_high_bits(m1.pixels@[j], m2.pixels@[j]),
        forall|i: int| 0 <= i < bits.len() ==> lsb_seq(m1)[i] == bits[i],
    ensures
        forall|j: int| 0 <= j < m2.pixels@.len() ==> same_high_bits(m0.pixels@[j], m2.pixels@[j]),
        forall|i: int| 0 <= i < bits.len() ==> lsb_seq(m2)[i] == bits[i],
{
    assert forall|j: int| 0 <= j < m2.pixels@.len() implies same_high_bits(
        m0.pixels@[j],
        m2.pixels@[j],
    ) by {
        if j < k {
            assert(m2.pixels@[j] == m1.pixels@[j]);
        } else {
            assert(m1.pixels@[j] == m0.pixels@[j]);
        }
    }
    assert forall|i: int| 0 <= i < bits.len() implies lsb_seq(m2)[i] == lsb_seq(m1)[i] by {
        let p = i / 3;
        assert(i == 3 * p + i % 3);
        assert(p < k);
        assert(m2.pixels@[p] == m1.pixels@[p]);
    }
}

/// Advances a raster cursor one pixel: `x` first, wrapping to the start of
/// the next row, failing exactly at the final pixel.
pub fn move_cursor_to_next_pixel(x: &mut u32, y: &mut u32, dimensions: (u32, u32)) -> (r: Result<
    (),
    StegError,
>)
    requires
        *old(x) < dimensions.0,
        *old(y) < dimensions.1,
    ensures
        (r is Err) == (*old(x) + 1 == dimensions.0 && *old(y) + 1 == dimensions.1),
        r matches Err(e) ==> e == StegError::NoMorePixels && *final(x) == *old(x) && *final(y)
            == *old(y),
        r is Ok ==> *final(x) < dimensions.0 && *final(y) < dimensions.1 && *final(y) as int
            * dimensions.0 as int + *final(x) as int == *old(y) as int * dimensions.0 as int + *old(
            x,
        ) as int + 1,
{
    if *x + 1 == dimensions.0 {
        if *y + 1 == dimensions.1 {
            Err(StegError::NoMorePixels)
        } else {
            *x = 0;
            *y = *y + 1;
            proof {
                let yo = *old(y) as int;
                let w = dimensions.0 as int;
                assert((yo + 1) * w == yo * w + w) by (nonlinear_arith);
            }
            Ok(())
        }
    } else {
        *x = *x + 1;
        Ok(())
    }
}

/// Appends the sentinel terminator byte to a payload.
pub fn add_ending_char(message: &mut Vec<u8>)
    ensures
        final(message)@ == old(message)@.push(ENDING_CHAR),
{
    message.push(ENDING_CHAR);
}

/// Appends the bits `n..=m` of a triplet to a vector; an empty range
/// (`n > m`) appends nothing.
pub fn push_bits_in_vector_from_bool_triplet_from_n_up_to_m(
    vector: &mut Vec<bool>,
    bool_triplet: [bool; 3],
    n: usize,
    m: usize,
)
    requires
        m < 3,
    ensures
        n <= m ==> final(vector)@ == old(vector)@ + bool_triplet@.subrange(n as int, m as int + 1),
        n > m ==> final(vector)@ == old(vector)@,
{
    if m < n {
        return ;
    }
    let mut i: usize = n;
    while i <= m
        invariant
            n <= i <= m + 1,
            m < 3,
            vector@ == old(vector)@ + bool_triplet@.subrange(n as int, i as int),
        decreases m + 1 - i,
    {
        proof {
            assert(bool_triplet@.subrange(n as int, i + 1) =~= bool_triplet@.subrange(
                n as int,
                i as int,
            ).push(bool_triplet@[i as int]));
        }
        vector.push(bool_triplet[i]);
        i = i + 1;
    }
}

} // verus!
