//! The carrier: one payload bit per pixel.
//!
//! Pixel intensities are split into consecutive buckets of `BUCKET_SIZE`;
//! alternating buckets carry a 0 or a 1. Writing a bit keeps the pixel in
//! its bucket (canonicalized one step above the bucket floor) when the
//! bucket already carries the bit, and otherwise moves it just across the
//! nearer bucket edge, so no pixel moves by more than `BUCKET_SIZE` steps.
//! A traversal strategy turns bit positions into pixel positions; the same
//! strategy must drive the write pass and the read pass.

pub mod modulo_traversing_encoder;
pub mod random_traversing_encoder;

use vstd::prelude::*;

use crate::encoder::{nth_bit, stream_bit, ByteEncodingCapacity};

verus! {

/// Intensities per bucket; adjacent buckets carry opposite bits.
pub const BUCKET_SIZE: u8 = 4;

/// A grayscale image as the carrier reads it: row-major intensity bytes.
pub struct GrayscaleImage {
    pub width: u32,
    pub height: u32,
    pub pixels: Vec<u8>,
}

proof fn lemma_pixel_index(x: u32, y: u32, width: u32, height: u32)
    by (nonlinear_arith)
    requires
        x < width,
        y < height,
    ensures
        0 <= y * width + x < width * height,
{
}

impl GrayscaleImage {
    pub open spec fn wf(&self) -> bool {
        &&& self.pixels@.len() == self.width * self.height
        &&& self.width >= 1
        &&& self.height >= 1
        &&& self.width * self.height <= 0xFFFF_FF00
    }

    pub open spec fn pixel_count(&self) -> int {
        self.width * self.height
    }

    pub open spec fn pixel_at(&self, x: u32, y: u32) -> u8 {
        self.pixels@[y * self.width + x]
    }

    /// A blank (all-black) image.
    pub fn new(width: u32, height: u32) -> (image: GrayscaleImage)
        requires
            1 <= width,
            1 <= height,
            width * height <= 0xFFFF_FF00,
        ensures
            image.wf(),
            image.width == width,
            image.height == height,
            forall|i: int| 0 <= i < image.pixels@.len() ==> #[trigger] image.pixels@[i] == 0,
    {
        let count = (width as u64 * height as u64) as usize;
        GrayscaleImage { width, height, pixels: vec![0u8; count] }
    }

    /// An image over an existing row-major pixel buffer.
    pub fn from_pixels(width: u32, height: u32, pixels: Vec<u8>) -> (image: GrayscaleImage)
        requires
            1 <= width,
            1 <= height,
            width * height <= 0xFFFF_FF00,
            pixels@.len() == width * height,
        ensures
            image.wf(),
            image.width == width,
            image.height == height,
            image.pixels@ == pixels@,
    {
        GrayscaleImage { width, height, pixels }
    }

    /// A pixel-for-pixel copy.
    pub fn duplicate(&self) -> (copy: GrayscaleImage)
        requires
            self.wf(),
        ensures
            copy.wf(),
            copy.width == self.width,
            copy.height == self.height,
            copy.pixels@ == self.pixels@,
    {
        let total = self.pixels.len();
        let mut pixels: Vec<u8> = Vec::new();
        for i in 0..total
            invariant
                total == self.pixels@.len(),
                pixels@.len() == i,
                forall|k: int| 0 <= k < i ==> #[trigger] pixels@[k] == self.pixels@[k],
        {
            pixels.push(self.pixels[i]);
        }
        proof {
            assert(pixels@ =~= self.pixels@);
        }
        GrayscaleImage { width: self.width, height: self.height, pixels }
    }

    pub fn dimensions(&self) -> (dimension: (u32, u32))
        ensures
            dimension == (self.width, self.height),
    {
        (self.width, self.height)
    }

    pub fn len(&self) -> (count: usize)
        requires
            self.wf(),
        ensures
            count == self.pixel_count(),
    {
        self.pixels.len()
    }

    pub fn get_pixel(&self, x: u32, y: u32) -> (pixel: u8)
        requires
            self.wf(),
            x < self.width,
            y < self.height,
        ensures
            pixel == self.pixel_at(x, y),
    {
        proof {
            lemma_pixel_index(x, y, self.width, self.height);
        }
        self.pixels[(y as usize) * (self.width as usize) + (x as usize)]
    }

    pub fn put_pixel(&mut self, x: u32, y: u32, value: u8)
        requires
            old(self).wf(),
            x < old(self).width,
            y < old(self).height,
        ensures
            final(self).wf(),
            final(self).width == old(self).width,
            final(self).height == old(self).height,
            final(self).pixels@ == old(self).pixels@.update(y * old(self).width + x, value),
    {
        proof {
            lemma_pixel_index(x, y, self.width, self.height);
        }
        let index = (y as usize) * (self.width as usize) + (x as usize);
        self.pixels[index] = value;
    }
}

/// The bit a pixel carries: the parity of the bucket its intensity lies in.
pub open spec fn spec_bucket_get_bit(pixel: u8, bucket_size: u8) -> bool {
    (pixel / bucket_size) % 2 == 1
}

/// The pixel written for `bit` over `original_pixel`: canonicalized inside
/// the same bucket when the bucket already carries the bit, else moved just
/// across the nearer edge of the adjacent bucket with the opposite bit.
pub open spec fn spec_bucket_get_pixel(bit: bool, original_pixel: u8, bucket_size: u8) -> u8 {
    let bucket_index = original_pixel / bucket_size;
    if bit != spec_bucket_get_bit(original_pixel, bucket_size) {
        if bucket_index == 0 {
            bucket_size
        } else {
            (bucket_index * bucket_size - 1) as u8
        }
    } else {
        (bucket_index * bucket_size + 1) as u8
    }
}

/// Writing a bit and reading the bucket parity back gives the bit, and the
/// intensity moves by at most one bucket width.
pub proof fn lemma_bucket_round_trip(bit: bool, original_pixel: u8, bucket_size: u8)
    requires
        bucket_size == 2 || bucket_size == 4,
    ensures
        spec_bucket_get_bit(spec_bucket_get_pixel(bit, original_pixel, bucket_size), bucket_size)
            == bit,
        spec_bucket_get_pixel(bit, original_pixel, bucket_size) <= original_pixel + bucket_size,
        original_pixel <= spec_bucket_get_pixel(bit, original_pixel, bucket_size) + bucket_size,
{
    let bucket_index = original_pixel / bucket_size;
    let coded = spec_bucket_get_pixel(bit, original_pixel, bucket_size);
    assert(bucket_index * bucket_size <= original_pixel < bucket_index * bucket_size + bucket_size)
        by (nonlinear_arith)
        requires
            bucket_size > 0,
            bucket_index == original_pixel / bucket_size,
    ;
    if bit != spec_bucket_get_bit(original_pixel, bucket_size) {
        if bucket_index == 0 {
            assert(coded == bucket_size);
            assert(coded / bucket_size == 1) by (nonlinear_arith)
                requires
                    coded == bucket_size,
                    bucket_size > 0,
            ;
        } else {
            assert(coded == bucket_index * bucket_size - 1);
            assert(coded / bucket_size == bucket_index - 1) by (nonlinear_arith)
                requires
                    coded == bucket_index * bucket_size - 1,
                    bucket_size > 1,
                    bucket_index >= 1,
            ;
            assert((bucket_index - 1) % 2 != bucket_index % 2);
        }
    } else {
        assert(coded == bucket_index * bucket_size + 1);
        assert(coded / bucket_size == bucket_index) by (nonlinear_arith)
            requires
                coded == bucket_index * bucket_size + 1,
                bucket_size > 1,
                bucket_index >= 0,
        ;
    }
}

pub fn bucket_get_bit(pixel: u8, bucket_size: u8) -> (bit: bool)
    requires
        bucket_size == 2 || bucket_size == 4,
    ensures
        bit == spec_bucket_get_bit(pixel, bucket_size),
{
    (pixel / bucket_size) % 2 == 1
}

pub fn bucket_get_pixel(bit: bool, original_pixel: u8, bucket_size: u8) -> (pixel: u8)
    requires
        bucket_size == 2 || bucket_size == 4,
    ensures
        pixel == spec_bucket_get_pixel(bit, original_pixel, bucket_size),
        spec_bucket_get_bit(pixel, bucket_size) == bit,
{
    proof {
        lemma_bucket_round_trip(bit, original_pixel, bucket_size);
        assert(
            (original_pixel / bucket_size) * bucket_size <= original_pixel
        ) by (nonlinear_arith)
            requires
                bucket_size > 0,
        ;
    }
    let bucket_index = original_pixel / bucket_size;

    if bit != bucket_get_bit(original_pixel, bucket_size) {
        if bucket_index == 0 {
            bucket_size
        } else {
            bucket_index * bucket_size - 1
        }
    } else {
        bucket_index * bucket_size + 1
    }
}

/// A traversal strategy: a pure step function from the current position and
/// the 0-based call count to the next pixel position, or `None` when the
/// traversal is exhausted.
pub trait ImageEncoder {
    spec fn valid_for(&self, dimension: (u32, u32)) -> bool;

    spec fn pos_at(&self, pos: (u32, u32), dimension: (u32, u32), index: int) -> Option<(u32, u32)>;

    fn get_next_pixel_pos(&self, pos: (u32, u32), dimension: (u32, u32), index: usize) -> (r:
        Option<(u32, u32)>)
        requires
            self.valid_for(dimension),
        ensures
            r == self.pos_at(pos, dimension, index as int),
            (r matches Some(p) ==> p.0 < dimension.0 && p.1 < dimension.1),
    ;
}

/// The first `n` positions a traversal visits from `start`; shorter than
/// `n` if the strategy stops early, and frozen from that point on.
pub open spec fn trail<T: ImageEncoder>(
    encoder: &T,
    dimension: (u32, u32),
    start: (u32, u32),
    n: int,
) -> Seq<(u32, u32)>
    decreases n,
{
    if n <= 0 {
        Seq::empty()
    } else {
        let prefix = trail(encoder, dimension, start, n - 1);
        if prefix.len() < n - 1 {
            prefix
        } else {
            let current = if prefix.len() == 0 {
                start
            } else {
                prefix.last()
            };
            match encoder.pos_at(current, dimension, n - 1) {
                Option::Some(p) => prefix.push(p),
                Option::None => prefix,
            }
        }
    }
}

pub proof fn lemma_trail_len<T: ImageEncoder>(
    encoder: &T,
    dimension: (u32, u32),
    start: (u32, u32),
    n: int,
)
    requires
        0 <= n,
    ensures
        trail(encoder, dimension, start, n).len() <= n,
    decreases n,
{
    if n > 0 {
        lemma_trail_len(encoder, dimension, start, n - 1);
    }
}

/// Once a traversal has stopped, longer trails add nothing.
pub proof fn lemma_trail_stuck<T: ImageEncoder>(
    encoder: &T,
    dimension: (u32, u32),
    start: (u32, u32),
    n: int,
    m: int,
)
    requires
        0 <= n <= m,
        trail(encoder, dimension, start, n).len() < n,
    ensures
        trail(encoder, dimension, start, m) == trail(encoder, dimension, start, n),
    decreases m,
{
    if m > n {
        lemma_trail_stuck(encoder, dimension, start, n, m - 1);
        lemma_trail_len(encoder, dimension, start, m - 1);
    }
}

/// A position pair as a flat row-major pixel index.
pub open spec fn flat(pos: (u32, u32), width: u32) -> int {
    pos.1 * width + pos.0
}

/// The pixels of the stego image: a copy of the cover in which the `i`-th
/// traversed position receives the `i`-th data bit written over the cover
/// pixel at that position; pixels the data never reaches keep their cover
/// value.
pub open spec fn write_pass(
    cover: Seq<u8>,
    width: u32,
    data: Seq<u8>,
    positions: Seq<(u32, u32)>,
    bucket_size: u8,
) -> Seq<u8>
    decreases positions.len(),
{
    if positions.len() == 0 {
        cover
    } else {
        let prev = write_pass(cover, width, data, positions.drop_last(), bucket_size);
        let i = positions.len() - 1;
        let index = flat(positions.last(), width);
        if i < 8 * data.len() && 0 <= index < cover.len() {
            prev.update(
                index,
                spec_bucket_get_pixel(stream_bit(data, i), cover[index], bucket_size),
            )
        } else {
            prev
        }
    }
}

pub proof fn lemma_write_pass_len(
    cover: Seq<u8>,
    width: u32,
    data: Seq<u8>,
    positions: Seq<(u32, u32)>,
    bucket_size: u8,
)
    ensures
        write_pass(cover, width, data, positions, bucket_size).len() == cover.len(),
    decreases positions.len(),
{
    if positions.len() > 0 {
        lemma_write_pass_len(cover, width, data, positions.drop_last(), bucket_size);
    }
}

/// The bit the read pass collects at slot `i`: the bucket parity of the
/// stego pixel at the `i`-th traversed position; zero past the traversal.
pub open spec fn read_bit(
    stego: Seq<u8>,
    width: u32,
    positions: Seq<(u32, u32)>,
    i: int,
    bucket_size: u8,
) -> bool {
    &&& 0 <= i < positions.len()
    &&& 0 <= flat(positions[i], width) < stego.len()
    &&& spec_bucket_get_bit(stego[flat(positions[i], width)], bucket_size)
}

proof fn lemma_flat_injective(p1: (u32, u32), p2: (u32, u32), width: u32)
    by (nonlinear_arith)
    requires
        p1.0 < width,
        p2.0 < width,
        p1 != p2,
    ensures
        flat(p1, width) != flat(p2, width),
{
}

/// Carrier round trip, bit level: over pairwise-distinct in-bounds
/// positions, reading the written image returns each written data bit.
pub proof fn lemma_carrier_round_trip(
    cover: Seq<u8>,
    width: u32,
    data: Seq<u8>,
    positions: Seq<(u32, u32)>,
    bucket_size: u8,
    i: int,
)
    requires
        bucket_size == 2 || bucket_size == 4,
        forall|q1: int, q2: int|
            0 <= q1 < q2 < positions.len() ==> #[trigger] positions[q1] != #[trigger] positions[q2],
        forall|q: int|
            0 <= q < positions.len() ==> #[trigger] positions[q].0 < width && 0 <= flat(
                positions[q],
                width,
            ) < cover.len(),
        0 <= i < positions.len(),
        i < 8 * data.len(),
    ensures
        read_bit(
            write_pass(cover, width, data, positions, bucket_size),
            width,
            positions,
            i,
            bucket_size,
        ) == stream_bit(data, i),
    decreases positions.len(),
{
    let stego = write_pass(cover, width, data, positions, bucket_size);
    lemma_write_pass_len(cover, width, data, positions, bucket_size);
    let n = positions.len() - 1;
    let front = positions.drop_last();
    let prev = write_pass(cover, width, data, front, bucket_size);
    let index = flat(positions[n], width);
    if i == n {
        assert(positions[n].0 < width && 0 <= flat(positions[n], width) < cover.len());
        lemma_write_pass_len(cover, width, data, front, bucket_size);
        assert(stego == prev.update(
            index,
            spec_bucket_get_pixel(stream_bit(data, n), cover[index], bucket_size),
        ));
        assert(stego[index] == spec_bucket_get_pixel(stream_bit(data, n), cover[index], bucket_size));
        lemma_bucket_round_trip(stream_bit(data, n), cover[index], bucket_size);
    } else {
        lemma_carrier_round_trip(cover, width, data, front, bucket_size, i);
        lemma_flat_injective(positions[i], positions[n], width);
        assert(front[i] == positions[i]);
        lemma_write_pass_len(cover, width, data, front, bucket_size);
        assert(stego[flat(positions[i], width)] == prev[flat(front[i], width)]);
    }
}

/// Writes a data stream into a copy of the cover: the `i`-th traversed
/// pixel receives the `i`-th data bit through the bucket rule. Pixels past
/// the data, and pixels the traversal never visits, keep their cover
/// value, so the stego image stays visually close to the cover.
#[verifier::rlimit(60)]
pub fn encode_into_image<T: ImageEncoder>(
    encoder: &T,
    image: &GrayscaleImage,
    data: &Vec<u8>,
) -> (new_image: GrayscaleImage)
    requires
        image.wf(),
        encoder.valid_for((image.width, image.height)),
    ensures
        new_image.wf(),
        new_image.width == image.width,
        new_image.height == image.height,
        new_image.pixels@ == write_pass(
            image.pixels@,
            image.width,
            data@,
            trail(encoder, (image.width, image.height), (50, 50), image.pixel_count()),
            BUCKET_SIZE,
        ),
{
    let mut new_image = image.duplicate();
    let dimensions = new_image.dimensions();
    let ghost dim = (image.width, image.height);
    let ghost start = (50u32, 50u32);
    let ghost cover = image.pixels@;

    let mut x_pos: u32 = 50;
    let mut y_pos: u32 = 50;
    let total = image.len();
    proof {
        assert(new_image.pixels@ =~= write_pass(
            cover,
            image.width,
            data@,
            trail(encoder, dim, start, 0),
            BUCKET_SIZE,
        ));
    }
    let mut i: usize = 0;
    while i < total
        invariant_except_break
            i <= total,
            image.wf(),
            encoder.valid_for(dim),
            dim == (image.width, image.height),
            start == (50u32, 50u32),
            cover == image.pixels@,
            total == image.pixel_count(),
            dimensions == dim,
            new_image.wf(),
            new_image.width == image.width,
            new_image.height == image.height,
            trail(encoder, dim, start, i as int).len() == i,
            i == 0 ==> (x_pos, y_pos) == start,
            i > 0 ==> (x_pos, y_pos) == trail(encoder, dim, start, i as int).last(),
            new_image.pixels@ == write_pass(
                cover,
                image.width,
                data@,
                trail(encoder, dim, start, i as int),
                BUCKET_SIZE,
            ),
        ensures
            new_image.wf(),
            new_image.width == image.width,
            new_image.height == image.height,
            new_image.pixels@ == write_pass(
                cover,
                image.width,
                data@,
                trail(encoder, dim, start, total as int),
                BUCKET_SIZE,
            ),
        decreases total - i,
    {
        let next = encoder.get_next_pixel_pos((x_pos, y_pos), dimensions, i);
        if let Some(pos) = next {
            proof {
                assert(trail(encoder, dim, start, i as int + 1) == trail(
                    encoder,
                    dim,
                    start,
                    i as int,
                ).push(pos));
            }
            x_pos = pos.0;
            y_pos = pos.1;
            let byte_index = i / 8;
            proof {
                vstd::arithmetic::div_mod::lemma_fundamental_div_mod(i as int, 8);
            }
            if byte_index < data.len() {
                let bit = ((data[byte_index] >> ((i % 8) as u8)) & 1) == 1;
                let original = image.get_pixel(x_pos, y_pos);
                let coded = bucket_get_pixel(bit, original, BUCKET_SIZE);
                new_image.put_pixel(x_pos, y_pos, coded);
                proof {
                    let t1 = trail(encoder, dim, start, i as int + 1);
                    assert(t1.drop_last() =~= trail(encoder, dim, start, i as int));
                    assert(t1.last() == pos);
                    assert(i < 8 * data@.len());
                    assert(bit == stream_bit(data@, i as int));
                    lemma_pixel_index(pos.0, pos.1, image.width, image.height);
                    assert(cover[flat(pos, image.width)] == original);
                    assert(new_image.pixels@ == write_pass(
                        cover,
                        image.width,
                        data@,
                        t1,
                        BUCKET_SIZE,
                    ));
                }
            } else {
                proof {
                    let t1 = trail(encoder, dim, start, i as int + 1);
                    assert(t1.drop_last() =~= trail(encoder, dim, start, i as int));
                    assert(t1.last() == pos);
                    assert(i >= 8 * data@.len());
                    assert(write_pass(
                        cover,
                        image.width,
                        data@,
                        trail(encoder, dim, start, i as int + 1),
                        BUCKET_SIZE,
                    ) == write_pass(
                        cover,
                        image.width,
                        data@,
                        trail(encoder, dim, start, i as int),
                        BUCKET_SIZE,
                    ));
                }
            }
            i = i + 1;
        } else {
            proof {
                assert(trail(encoder, dim, start, i as int + 1) == trail(
                    encoder,
                    dim,
                    start,
                    i as int,
                ));
                lemma_trail_stuck(encoder, dim, start, i as int + 1, total as int);
            }
            break;
        }
    }
    new_image
}

/// Reads the bucket parity of every traversed pixel and packs the bits
/// LSB-first into bytes; slots past a stopped traversal read as zero.
#[verifier::rlimit(60)]
pub fn decode_from_image<T: ImageEncoder>(encoder: &T, image: &GrayscaleImage) -> (data: Vec<u8>)
    requires
        image.wf(),
        encoder.valid_for((image.width, image.height)),
    ensures
        data@.len() == (image.pixel_count() + 7) / 8,
        forall|g: int|
            0 <= g < image.pixel_count() ==> stream_bit(data@, g) == read_bit(
                image.pixels@,
                image.width,
                trail(encoder, (image.width, image.height), (50, 50), image.pixel_count()),
                g,
                BUCKET_SIZE,
            ),
        forall|g: int| image.pixel_count() <= g ==> !stream_bit(data@, g),
{
    let ghost dim = (image.width, image.height);
    let ghost start = (50u32, 50u32);
    let mut x_pos: u32 = 50;
    let mut y_pos: u32 = 50;
    let dimensions = image.dimensions();
    let total = image.len();
    let out_len = (total + 7) / 8;
    let mut fetched_bits: Vec<u8> = vec![0u8; out_len];
    proof {
        assert(8 * out_len >= total) by (nonlinear_arith)
            requires
                out_len == (total + 7) / 8,
                total >= 0,
        ;
        assert forall|g: int| 0 <= g implies !stream_bit(fetched_bits@, g) by {
            if g / 8 < fetched_bits@.len() {
                crate::encoder::lemma_zero_bit((g % 8) as u8);
            }
        }
    }
    let mut i: usize = 0;
    while i < total
        invariant_except_break
            i <= total,
            image.wf(),
            encoder.valid_for(dim),
            dim == (image.width, image.height),
            start == (50u32, 50u32),
            total == image.pixel_count(),
            dimensions == dim,
            fetched_bits@.len() == out_len,
            8 * out_len >= total,
            trail(encoder, dim, start, i as int).len() == i,
            i == 0 ==> (x_pos, y_pos) == start,
            i > 0 ==> (x_pos, y_pos) == trail(encoder, dim, start, i as int).last(),
            forall|g: int|
                0 <= g < i ==> stream_bit(fetched_bits@, g) == read_bit(
                    image.pixels@,
                    image.width,
                    trail(encoder, dim, start, i as int),
                    g,
                    BUCKET_SIZE,
                ),
            forall|g: int| i <= g ==> !stream_bit(fetched_bits@, g),
        ensures
            fetched_bits@.len() == out_len,
            forall|g: int|
                0 <= g < total ==> stream_bit(fetched_bits@, g) == read_bit(
                    image.pixels@,
                    image.width,
                    trail(encoder, dim, start, total as int),
                    g,
                    BUCKET_SIZE,
                ),
            forall|g: int| total <= g ==> !stream_bit(fetched_bits@, g),
        decreases total - i,
    {
        let ghost t_before = trail(encoder, dim, start, i as int);
        let next = encoder.get_next_pixel_pos((x_pos, y_pos), dimensions, i);
        if let Some(pos) = next {
            proof {
                assert(trail(encoder, dim, start, i as int + 1) == t_before.push(pos));
            }
            x_pos = pos.0;
            y_pos = pos.1;
            let pixel = image.get_pixel(x_pos, y_pos);
            let bit = bucket_get_bit(pixel, BUCKET_SIZE);
            let byte_index = i / 8;
            let shift: u8 = (i % 8) as u8;
            let ghost old_bits = fetched_bits@;
            proof {
                vstd::arithmetic::div_mod::lemma_fundamental_div_mod(i as int, 8);
                assert(byte_index < out_len) by (nonlinear_arith)
                    requires
                        i < total,
                        8 * out_len >= total,
                        byte_index == i / 8,
                        i == 8 * byte_index + (i % 8),
                        0 <= i % 8 < 8,
                ;
            }
            if bit {
                fetched_bits[byte_index] = fetched_bits[byte_index] | (1u8 << shift);
            }
            proof {
                let t1 = trail(encoder, dim, start, i as int + 1);
                lemma_pixel_index(pos.0, pos.1, image.width, image.height);
                assert forall|g2: int|
                    0 <= g2 && g2 != i implies stream_bit(fetched_bits@, g2) == stream_bit(
                    old_bits,
                    g2,
                ) by {
                    if bit {
                        vstd::arithmetic::div_mod::lemma_fundamental_div_mod(g2, 8);
                        if g2 / 8 == byte_index {
                            assert(g2 % 8 != i % 8);
                            crate::encoder::lemma_or_bit(old_bits[g2 / 8], shift, (g2 % 8) as u8);
                        }
                    }
                }
                if bit {
                    crate::encoder::lemma_or_bit(old_bits[i as int / 8], shift, shift);
                    assert(stream_bit(fetched_bits@, i as int));
                } else {
                    assert(!stream_bit(fetched_bits@, i as int));
                }
                assert(read_bit(image.pixels@, image.width, t1, i as int, BUCKET_SIZE) == bit);
                assert forall|g: int|
                    0 <= g < i + 1 implies stream_bit(fetched_bits@, g) == read_bit(
                    image.pixels@,
                    image.width,
                    t1,
                    g,
                    BUCKET_SIZE,
                ) by {
                    if g < i {
                        assert(stream_bit(fetched_bits@, g) == stream_bit(old_bits, g));
                        assert(t1[g] == t_before[g]);
                        assert(read_bit(image.pixels@, image.width, t1, g, BUCKET_SIZE) == read_bit(
                            image.pixels@,
                            image.width,
                            t_before,
                            g,
                            BUCKET_SIZE,
                        ));
                    }
                }
                assert forall|g: int| i + 1 <= g implies !stream_bit(fetched_bits@, g) by {
                    assert(stream_bit(fetched_bits@, g) == stream_bit(old_bits, g));
                }
            }
            i = i + 1;
        } else {
            proof {
                assert(trail(encoder, dim, start, i as int + 1) == t_before);
                lemma_trail_stuck(encoder, dim, start, i as int + 1, total as int);
                assert forall|g: int|
                    0 <= g < total implies stream_bit(fetched_bits@, g) == read_bit(
                    image.pixels@,
                    image.width,
                    trail(encoder, dim, start, total as int),
                    g,
                    BUCKET_SIZE,
                ) by {
                    if g >= i {
                        assert(!stream_bit(fetched_bits@, g));
                        assert(g >= t_before.len());
                    }
                }
            }
            break;
        }
    }
    fetched_bits
}

/// The traversed cover pixels from `(x_start, y_start)`, one per payload
/// bit slot in traversal order, with ten zero slots of tail padding; slots
/// past a stopped traversal stay zero. The caller maps each pixel to a bit
/// probability and a pair of code-length weights.
pub fn get_probability_pixels<T: ImageEncoder>(
    encoder: &T,
    image: &GrayscaleImage,
    x_start: u32,
    y_start: u32,
) -> (pixels: Vec<u8>)
    requires
        image.wf(),
        encoder.valid_for((image.width, image.height)),
    ensures
        pixels@.len() == image.pixel_count() + 10,
        forall|i: int|
            0 <= i < trail(
                encoder,
                (image.width, image.height),
                (x_start, y_start),
                image.pixel_count(),
            ).len() ==> #[trigger] pixels@[i] == image.pixels@[flat(
                trail(
                    encoder,
                    (image.width, image.height),
                    (x_start, y_start),
                    image.pixel_count(),
                )[i],
                image.width,
            )],
        forall|i: int|
            trail(
                encoder,
                (image.width, image.height),
                (x_start, y_start),
                image.pixel_count(),
            ).len() <= i < pixels@.len() ==> #[trigger] pixels@[i] == 0,
{
    let ghost dim = (image.width, image.height);
    let ghost start = (x_start, y_start);
    let dimensions = image.dimensions();
    let total = image.len();
    let mut pixels: Vec<u8> = vec![0u8; total + 10];
    let mut x_pos: u32 = x_start;
    let mut y_pos: u32 = y_start;
    let mut i: usize = 0;
    while i < total
        invariant_except_break
            i <= total,
            image.wf(),
            encoder.valid_for(dim),
            dim == (image.width, image.height),
            start == (x_start, y_start),
            total == image.pixel_count(),
            dimensions == dim,
            pixels@.len() == total + 10,
            trail(encoder, dim, start, i as int).len() == i,
            i == 0 ==> (x_pos, y_pos) == start,
            i > 0 ==> (x_pos, y_pos) == trail(encoder, dim, start, i as int).last(),
            forall|q: int|
                0 <= q < i ==> #[trigger] pixels@[q] == image.pixels@[flat(
                    trail(encoder, dim, start, i as int)[q],
                    image.width,
                )],
            forall|q: int| i <= q < pixels@.len() ==> #[trigger] pixels@[q] == 0,
        ensures
            pixels@.len() == total + 10,
            forall|q: int|
                0 <= q < trail(encoder, dim, start, total as int).len()
                    ==> #[trigger] pixels@[q] == image.pixels@[flat(
                    trail(encoder, dim, start, total as int)[q],
                    image.width,
                )],
            forall|q: int|
                trail(encoder, dim, start, total as int).len() <= q < pixels@.len()
                    ==> #[trigger] pixels@[q] == 0,
        decreases total - i,
    {
        let ghost t_before = trail(encoder, dim, start, i as int);
        let next = encoder.get_next_pixel_pos((x_pos, y_pos), dimensions, i);
        if let Some(pos) = next {
            proof {
                assert(trail(encoder, dim, start, i as int + 1) == t_before.push(pos));
            }
            x_pos = pos.0;
            y_pos = pos.1;
            let pixel = image.get_pixel(x_pos, y_pos);
            pixels[i] = pixel;
            proof {
                lemma_pixel_index(pos.0, pos.1, image.width, image.height);
                let t1 = trail(encoder, dim, start, i as int + 1);
                assert forall|q: int| 0 <= q < i + 1 implies #[trigger] pixels@[q]
                    == image.pixels@[flat(t1[q], image.width)] by {
                    if q < i {
                        assert(t1[q] == t_before[q]);
                    }
                }
            }
            i = i + 1;
        } else {
            proof {
                assert(trail(encoder, dim, start, i as int + 1) == t_before);
                lemma_trail_stuck(encoder, dim, start, i as int + 1, total as int);
            }
            break;
        }
    }
    pixels
}

/// Carrier round trip, byte level: the bytes collected from a stego image
/// written along distinct in-bounds positions are the data bytes, for every
/// byte the traversal carried in full.
pub proof fn lemma_carrier_bytes_round_trip(
    cover: Seq<u8>,
    width: u32,
    data: Seq<u8>,
    positions: Seq<(u32, u32)>,
    bucket_size: u8,
    collected: Seq<u8>,
    n: int,
)
    requires
        bucket_size == 2 || bucket_size == 4,
        forall|q1: int, q2: int|
            0 <= q1 < q2 < positions.len() ==> #[trigger] positions[q1] != #[trigger] positions[q2],
        forall|q: int|
            0 <= q < positions.len() ==> #[trigger] positions[q].0 < width && 0 <= flat(
                positions[q],
                width,
            ) < cover.len(),
        8 * data.len() <= positions.len(),
        positions.len() <= n,
        collected.len() >= data.len(),
        forall|g: int|
            0 <= g < n ==> stream_bit(collected, g) == read_bit(
                write_pass(cover, width, data, positions, bucket_size),
                width,
                positions,
                g,
                bucket_size,
            ),
    ensures
        forall|b: int| 0 <= b < data.len() ==> #[trigger] collected[b] == data[b],
{
    assert forall|b: int| 0 <= b < data.len() implies #[trigger] collected[b] == data[b] by {
        assert forall|i: u8| i < 8 implies #[trigger] nth_bit(collected[b], i) == nth_bit(
            data[b],
            i,
        ) by {
            let g = 8 * b + i as int;
            vstd::arithmetic::div_mod::lemma_fundamental_div_mod_converse(g, 8, b, i as int);
            assert(nth_bit(collected[b], i) == stream_bit(collected, g));
            assert(nth_bit(data[b], i) == stream_bit(data, g));
            assert(g < 8 * data.len());
            lemma_carrier_round_trip(cover, width, data, positions, bucket_size, g);
            assert(stream_bit(collected, g) == read_bit(
                write_pass(cover, width, data, positions, bucket_size),
                width,
                positions,
                g,
                bucket_size,
            ));
        }
        crate::encoder::lemma_byte_from_bits(collected[b], data[b]);
    }
}

/// How many code bytes the carrier holds: one bit per pixel, eight bits
/// per byte.
pub fn get_image_encoding_capacity(image: &GrayscaleImage) -> (capacity: ByteEncodingCapacity)
    requires
        image.wf(),
    ensures
        capacity == image.pixel_count() / 8,
{
    let (width, height) = image.dimensions();
    (width as u64 * height as u64) / 8
}

} // verus!
