use ktsteg::image_encoder::modulo_traversing_encoder::ModuloTraversingEncoder;
use ktsteg::encoder::{KTEncoder, StandardKTEncoder};
use ktsteg::image_encoder::ImageEncoder;
use ktsteg::image_encoder::random_traversing_encoder::RandomTraversingEncoder;
use ktsteg::image_encoder::{
    bucket_get_bit, bucket_get_pixel, decode_from_image, encode_into_image,
    get_image_encoding_capacity, get_probability_pixels, GrayscaleImage,
};

fn patterned_cover(width: u32, height: u32) -> GrayscaleImage {
    let count = (width * height) as usize;
    let pixels: Vec<u8> = (0..count).map(|i| ((i * 7 + 13) % 256) as u8).collect();
    GrayscaleImage::from_pixels(width, height, pixels)
}

#[test]
fn bucket_rule_on_mid_gray() {
    // bucket size 4: pixel 128 sits in bucket 32, which carries a 0
    assert_eq!(bucket_get_bit(128, 4), false);
    assert_eq!(bucket_get_pixel(false, 128, 4), 129);
    assert_eq!(bucket_get_pixel(true, 128, 4), 127);
    assert_eq!(bucket_get_bit(127, 4), true);
    // pixel 132 sits in bucket 33, which carries a 1
    assert_eq!(bucket_get_bit(132, 4), true);
    assert_eq!(bucket_get_pixel(true, 132, 4), 133);
    assert_eq!(bucket_get_pixel(false, 132, 4), 131);
}

#[test]
fn bucket_write_always_reads_back_and_stays_close() {
    for bucket_size in [2u8, 4] {
        for pixel in 0..=255u8 {
            for bit in [false, true] {
                let coded = bucket_get_pixel(bit, pixel, bucket_size);
                assert_eq!(bucket_get_bit(coded, bucket_size), bit);
                let diff = (coded as i16 - pixel as i16).abs();
                assert!(diff <= bucket_size as i16);
            }
        }
    }
}

#[test]
fn capacity_is_pixels_over_eight() {
    let image = patterned_cover(128, 128);
    assert_eq!(get_image_encoding_capacity(&image), 128 * 128 / 8);
    let odd = patterned_cover(130, 97);
    assert_eq!(get_image_encoding_capacity(&odd), (130 * 97) / 8);
}

#[test]
fn carrier_round_trip_through_random_traversal() {
    let cover = patterned_cover(128, 128);
    let traverser = RandomTraversingEncoder::new(cover.len(), 10);
    let capacity = get_image_encoding_capacity(&cover) as usize;
    let stream: Vec<u8> = (0..capacity).map(|i| ((i * 31 + 5) % 256) as u8).collect();

    let stego = encode_into_image(&traverser, &cover, &stream);
    let read = decode_from_image(&traverser, &stego);
    assert!(read.len() >= capacity);
    assert_eq!(&read[..capacity], &stream[..]);
}

#[test]
fn carrier_round_trip_is_deterministic() {
    let cover = patterned_cover(64, 64);
    let stream: Vec<u8> = (0..512).map(|i| (i % 256) as u8).collect();
    let first_traverser = RandomTraversingEncoder::new(cover.len(), 10);
    let second_traverser = RandomTraversingEncoder::new(cover.len(), 10);
    let first = encode_into_image(&first_traverser, &cover, &stream);
    let second = encode_into_image(&second_traverser, &cover, &stream);
    assert_eq!(first.pixels, second.pixels);
}

#[test]
fn modulo_traversal_keeps_its_stride_quirk() {
    let traverser = ModuloTraversingEncoder;
    // index 0 is a multiple of the width, so x gets the extra step
    assert_eq!(
        traverser.get_next_pixel_pos((50, 50), (128, 128), 0),
        Some((70, 79))
    );
    assert_eq!(
        traverser.get_next_pixel_pos((50, 50), (128, 128), 1),
        Some((69, 79))
    );
    assert_eq!(
        traverser.get_next_pixel_pos((120, 120), (128, 128), 3),
        Some(((120 + 19) % 128, (120 + 29) % 128))
    );
}

#[test]
fn probability_pixels_follow_the_traversal() {
    let cover = patterned_cover(32, 32);
    let traverser = RandomTraversingEncoder::new(cover.len(), 7);
    let pixels = get_probability_pixels(&traverser, &cover, 50, 50);
    assert_eq!(pixels.len(), 32 * 32 + 10);
    // every traversed slot holds the cover pixel at the traversed position
    let mut pos = (50u32, 50u32);
    for i in 0..cover.len() {
        match traverser.get_next_pixel_pos(pos, (32, 32), i) {
            Some(p) => {
                pos = p;
                assert_eq!(pixels[i], cover.pixels[(p.1 * 32 + p.0) as usize]);
            }
            None => break,
        }
    }
    for i in cover.len()..pixels.len() {
        assert_eq!(pixels[i], 0);
    }
}

#[test]
fn pixels_past_the_data_keep_the_cover_value() {
    // a short stream touches at most 8 * stream.len() pixels; every other
    // pixel of the stego image keeps its cover value, and no touched pixel
    // moves by more than one bucket width
    let cover = patterned_cover(64, 64);
    let stream: Vec<u8> = (0..10).map(|i| (i * 31 + 5) as u8).collect();
    let traverser = RandomTraversingEncoder::new(cover.len(), 10);
    let stego = encode_into_image(&traverser, &cover, &stream);
    let mut changed = 0usize;
    for i in 0..cover.len() {
        let diff = (stego.pixels[i] as i16 - cover.pixels[i] as i16).abs();
        assert!(diff <= 4);
        if diff != 0 {
            changed += 1;
        }
    }
    assert!(changed <= 8 * stream.len());
    let read = decode_from_image(&traverser, &stego);
    assert_eq!(&read[..stream.len()], &stream[..]);
}

#[test]
fn decode_accepts_streams_of_any_length() {
    let coder = StandardKTEncoder::new(5);
    let w = ((0.5f32.ln().abs()) * 65536.0) as u64;
    let message = b"any".to_vec();
    let encoded = coder.encode(&message, &vec![w; 32], &vec![w; 32], 4, 2);
    // a longer stream is cut at the capacity, a shorter one reads as zeros
    let mut longer = encoded.clone();
    longer.extend_from_slice(&[0xAA, 0xBB, 0xCC]);
    assert_eq!(coder.decode(&longer, 4, 2), coder.decode(&encoded, 4, 2));
    let shorter = encoded[..2].to_vec();
    let partial = coder.decode(&shorter, 4, 2);
    assert_eq!(partial.len(), 3);
    assert_eq!(partial[0], message[0]);
}
