use ktsteg::encoder::{KTEncoder, StandardKTEncoder};
use ktsteg::image_encoder::random_traversing_encoder::RandomTraversingEncoder;
use ktsteg::image_encoder::{
    decode_from_image, encode_into_image, get_probability_pixels, GrayscaleImage,
};

const WEIGHT_SCALE: f32 = 65536.0;
const BIT_WEIGHT_CAP: u64 = 0xFF_FFFF;

fn bit_weights_from_pixels(pixels: &[u8]) -> (Vec<u64>, Vec<u64>) {
    let mut zero_weights = Vec::with_capacity(pixels.len());
    let mut one_weights = Vec::with_capacity(pixels.len());
    for &px in pixels {
        let p = ((px as f32) / 256.0 + 0.0001) * 0.9998;
        let one = ((-p.ln()) * WEIGHT_SCALE) as u64;
        let zero = ((-(1.0 - p).ln()) * WEIGHT_SCALE) as u64;
        zero_weights.push(zero.min(BIT_WEIGHT_CAP));
        one_weights.push(one.min(BIT_WEIGHT_CAP));
    }
    (zero_weights, one_weights)
}

fn run_pipeline(
    cover: &GrayscaleImage,
    message: &[u8],
    capacity: u64,
    freedom_bit_count: u8,
    codec_seed: u64,
    traversal_seed: u64,
) -> (Vec<u8>, Vec<u8>) {
    let traverser = RandomTraversingEncoder::new(cover.len(), traversal_seed);
    let probability_pixels = get_probability_pixels(&traverser, cover, 50, 50);
    let (zero_weights, one_weights) = bit_weights_from_pixels(&probability_pixels);
    let coder = StandardKTEncoder::new(codec_seed);

    let message_vec = message.to_vec();
    let data = coder.encode(
        &message_vec,
        &zero_weights,
        &one_weights,
        capacity,
        freedom_bit_count,
    );
    assert_eq!(data.len() as u64, capacity);

    let stego = encode_into_image(&traverser, cover, &data);
    let raw = decode_from_image(&traverser, &stego);
    let read_back: Vec<u8> = raw[..capacity as usize].to_vec();
    assert_eq!(read_back, data);
    let decoded = coder.decode(&read_back, capacity, freedom_bit_count);
    (data, decoded)
}

#[test]
fn hello_round_trips_through_a_mid_gray_cover() {
    // a uniform mid-gray cover: every probability is close to one half and
    // every code byte costs the same, so any beam choice round-trips
    let cover = GrayscaleImage::from_pixels(256, 256, vec![128u8; 256 * 256]);
    let message = b"hello";
    // 5 bytes = 40 bits at 6 carried bits per step: 7 code bytes
    let (_, decoded) = run_pipeline(&cover, message, 7, 2, 5, 10);
    assert_eq!(decoded.len(), 6);
    assert_eq!(&decoded[..5], message);
    assert_eq!(decoded[5], 0);
}

#[test]
fn textured_cover_round_trips() {
    let pixels: Vec<u8> = (0..128 * 128usize).map(|i| ((i * 11 + 3) % 256) as u8).collect();
    let cover = GrayscaleImage::from_pixels(128, 128, pixels);
    let message = b"the quick brown fox";
    let width = 6usize;
    let capacity = ((message.len() * 8 + width - 1) / width) as u64;
    let (_, decoded) = run_pipeline(&cover, message, capacity, 2, 5, 10);
    assert_eq!(&decoded[..message.len()], &message[..]);
    for &b in &decoded[message.len()..] {
        assert_eq!(b, 0);
    }
}

#[test]
fn whole_pipeline_is_deterministic() {
    let pixels: Vec<u8> = (0..64 * 64usize).map(|i| ((i * 5 + 40) % 256) as u8).collect();
    let cover = GrayscaleImage::from_pixels(64, 64, pixels);
    let message = b"same seeds, same bytes";
    let capacity = 32u64;
    let first = run_pipeline(&cover, message, capacity, 2, 5, 10);
    let second = run_pipeline(&cover, message, capacity, 2, 5, 10);
    assert_eq!(first.0, second.0);
    assert_eq!(first.1, second.1);
}

#[test]
fn uniform_mid_gray_weights_are_flat() {
    let cover = GrayscaleImage::from_pixels(32, 32, vec![128u8; 32 * 32]);
    let traverser = RandomTraversingEncoder::new(cover.len(), 10);
    let probability_pixels = get_probability_pixels(&traverser, &cover, 50, 50);
    let (zero_weights, one_weights) = bit_weights_from_pixels(&probability_pixels);
    for i in 0..cover.len() {
        assert_eq!(zero_weights[i], zero_weights[0]);
        assert_eq!(one_weights[i], one_weights[0]);
    }
}
