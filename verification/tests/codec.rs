use stegano::dot_matrix::DotMatrix;
use stegano::dot_matrix::Rgba;
use stegano::dot_matrix::add_ending_char;
use stegano::dot_matrix::move_cursor_to_next_pixel;
use stegano::dot_matrix::push_bits_in_vector_from_bool_triplet_from_n_up_to_m;
use stegano::errors::StegError;

fn solid_image(width: u32, height: u32, pixel: Rgba) -> DotMatrix {
    DotMatrix {
        width,
        height,
        pixels: vec![pixel; (width * height) as usize],
        input_filepath: String::from("test.png"),
    }
}

fn image_with_lsb_bits(width: u32, height: u32, bits: &[bool]) -> DotMatrix {
    let count = (width * height) as usize;
    let mut pixels = Vec::with_capacity(count);
    for k in 0..count {
        let bit = |i: usize| -> u8 {
            if i < bits.len() && bits[i] {
                1
            } else {
                0
            }
        };
        pixels.push(Rgba {
            red: bit(3 * k),
            green: bit(3 * k + 1),
            blue: bit(3 * k + 2),
            alpha: 255,
        });
    }
    DotMatrix { width, height, pixels, input_filepath: String::from("test.png") }
}

fn byte_bits_msb_first(v: u8) -> Vec<bool> {
    (0..8).map(|i| (v >> (7 - i)) & 1 == 1).collect()
}

#[test]
fn test_scenario_hundred_by_hundred() {
    let base = Rgba { red: 200, green: 100, blue: 50, alpha: 77 };
    let mut image = solid_image(100, 100, base);
    let message = "Hello how is the weather today";
    let password = "Password";

    image.encode(message, password).expect("the payload fits easily");
    let decoded = image.decode(password).expect("the payload must decode");
    assert_eq!(decoded, message.to_string());

    // A wrong password must not panic or hang: it either fails cipher
    // decryption or yields corrupted text, never the message's bytes in a
    // crash.
    let wrong = image.decode("Passw0rd");
    match wrong {
        Ok(text) => assert_ne!(text, message.to_string()),
        Err(_) => {},
    }
}

#[test]
fn test_encode_preserves_high_bits_and_alpha() {
    let base = Rgba { red: 200, green: 101, blue: 50, alpha: 77 };
    let mut image = solid_image(50, 40, base);
    image.encode("short note", "longpassword").unwrap();
    for p in &image.pixels {
        assert_eq!(p.red >> 1, base.red >> 1);
        assert_eq!(p.green >> 1, base.green >> 1);
        assert_eq!(p.blue >> 1, base.blue >> 1);
        assert_eq!(p.alpha, base.alpha);
    }
}

#[test]
fn test_capacity_rejection_leaves_pixels_untouched() {
    let base = Rgba { red: 9, green: 8, blue: 7, alpha: 6 };
    let mut image = solid_image(2, 2, base);
    let before = image.pixels.clone();
    // Any message encrypts to at least one 16-byte block; with the
    // terminator that is 136 bits against a capacity of 12.
    let r = image.encode("hi", "Password");
    assert_eq!(r, Err(StegError::MessageTooLong));
    assert_eq!(image.pixels, before);
}

#[test]
fn test_non_ascii_message_rejected_before_any_pixel() {
    let mut image = solid_image(10, 10, Rgba { red: 1, green: 2, blue: 3, alpha: 4 });
    let before = image.pixels.clone();
    assert_eq!(image.encode("café", "Password"), Err(StegError::NonAsciiMessage));
    assert_eq!(image.pixels, before);
}

#[test]
fn test_non_ascii_password_rejected_before_any_pixel() {
    let mut image = solid_image(10, 10, Rgba { red: 1, green: 2, blue: 3, alpha: 4 });
    let before = image.pixels.clone();
    assert_eq!(image.encode("plain", "pässwörd"), Err(StegError::NonAsciiPassword));
    assert_eq!(image.pixels, before);
}

#[test]
fn test_decode_rejects_non_ascii_password() {
    let image = solid_image(10, 10, Rgba { red: 0, green: 0, blue: 0, alpha: 255 });
    assert_eq!(image.decode("pässwörd"), Err(StegError::NonAsciiPassword));
}

#[test]
fn test_short_password_boundary() {
    let mut image = solid_image(100, 100, Rgba { red: 0, green: 0, blue: 0, alpha: 255 });
    assert_eq!(image.encode("msg", "1234567"), Err(StegError::PasswordTooShort));
    assert_eq!(image.encode("msg", "12345678"), Ok(()));
}

#[test]
fn test_decode_without_payload_fails() {
    // Every stream byte of an all-zero image is zero, never the terminator.
    let image = solid_image(5, 5, Rgba { red: 0, green: 0, blue: 0, alpha: 255 });
    assert_eq!(image.decode("Password"), Err(StegError::NothingHidden));
}

#[test]
fn test_decode_partial_block_payload_is_cipher_failure() {
    // A hidden payload of one zero byte followed by the terminator: one
    // byte is not a whole cipher block, so the cipher refuses it.
    let mut bits = byte_bits_msb_first(0);
    bits.extend(byte_bits_msb_first(126));
    let image = image_with_lsb_bits(3, 3, &bits);
    assert_eq!(image.decode("Password"), Err(StegError::CipherFailure));
}

#[test]
fn test_dimensions_and_capacity() {
    let image = solid_image(7, 3, Rgba { red: 0, green: 0, blue: 0, alpha: 0 });
    assert_eq!(image.get_dimensions(), (7, 3));
    assert_eq!(image.capacity_bits(), 63);
    assert!(image.is_big_enough_to_store_message(62));
    assert!(!image.is_big_enough_to_store_message(63));
    assert!(image.x_in_dimensions(6));
    assert!(!image.x_in_dimensions(7));
    assert!(image.y_in_dimensions(2));
    assert!(!image.y_in_dimensions(3));
    assert_eq!(image.get_input_filepath(), "test.png".to_string());
}

#[test]
fn test_cursor_raster_order() {
    let mut x: u32 = 0;
    let mut y: u32 = 0;
    assert_eq!(move_cursor_to_next_pixel(&mut x, &mut y, (2, 2)), Ok(()));
    assert_eq!((x, y), (1, 0));
    assert_eq!(move_cursor_to_next_pixel(&mut x, &mut y, (2, 2)), Ok(()));
    assert_eq!((x, y), (0, 1));
    assert_eq!(move_cursor_to_next_pixel(&mut x, &mut y, (2, 2)), Ok(()));
    assert_eq!((x, y), (1, 1));
    assert_eq!(
        move_cursor_to_next_pixel(&mut x, &mut y, (2, 2)),
        Err(StegError::NoMorePixels)
    );
    assert_eq!((x, y), (1, 1));
}

#[test]
fn test_add_ending_char_appends_terminator() {
    let mut payload = vec![1u8, 2, 3];
    add_ending_char(&mut payload);
    assert_eq!(payload, vec![1u8, 2, 3, 126]);
}

#[test]
fn test_push_bits_from_triplet_ranges() {
    let triplet = [true, false, true];
    let mut v: Vec<bool> = vec![false];
    push_bits_in_vector_from_bool_triplet_from_n_up_to_m(&mut v, triplet, 0, 2);
    assert_eq!(v, vec![false, true, false, true]);
    push_bits_in_vector_from_bool_triplet_from_n_up_to_m(&mut v, triplet, 2, 2);
    assert_eq!(v, vec![false, true, false, true, true]);
}

#[test]
fn test_padding_reaches_boundary_pixel() {
    // A 21-character message encrypts to 32 bytes; with the terminator the
    // payload is 33 bytes = 264 bits, ending exactly on the boundary after
    // pixel 87. The padding must then cover pixel 88 itself, not start one
    // pixel later: over twenty encodes, its three LSBs cannot all survive.
    let mut seen_changed = false;
    for _ in 0..20 {
        let mut image = solid_image(100, 1, Rgba { red: 1, green: 1, blue: 1, alpha: 255 });
        image.encode("abcdefghijklmnopqrstu", "Password").unwrap();
        let p = image.pixels[88];
        if (p.red & 1, p.green & 1, p.blue & 1) != (1, 1, 1) {
            seen_changed = true;
        }
    }
    assert!(seen_changed);
}

#[test]
fn test_get_3bits_reads_lsbs() {
    let image = image_with_lsb_bits(2, 1, &[true, false, true, false, true, false]);
    assert_eq!(image.get_3bits_at(0, 0), Ok([true, false, true]));
    assert_eq!(image.get_3bits_at(1, 0), Ok([false, true, false]));
}
