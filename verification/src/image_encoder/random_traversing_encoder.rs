//! The seeded random traversal.

use vstd::prelude::*;

use super::{
    flat, read_bit, stream_bit, trail, write_pass, GrayscaleImage, ImageEncoder, BUCKET_SIZE,
};

verus! {

/// The identity traversal order: every flat pixel index in row-major
/// order, before shuffling.
pub open spec fn identity_indices(count: int) -> Seq<usize> {
    Seq::new(count as nat, |i: int| i as usize)
}

/// A seeded permutation of all flat pixel indices, fixed at construction;
/// each call reads the next entry and ignores the current position. The
/// same seed and pixel count reproduce the same traversal, which is what
/// lets a decode retrace an encode.
pub struct RandomTraversingEncoder {
    indices: Vec<usize>,
}

impl RandomTraversingEncoder {
    pub closed spec fn indices_spec(&self) -> Seq<usize> {
        self.indices@
    }

    /// The indices are a permutation of `0..len`: pairwise distinct and all
    /// in range.
    pub open spec fn wf(&self) -> bool {
        &&& forall|i: int|
            0 <= i < self.indices_spec().len() ==> #[trigger] self.indices_spec()[i]
                < self.indices_spec().len()
        &&& forall|i: int, j: int|
            0 <= i < self.indices_spec().len() && 0 <= j < self.indices_spec().len() && i != j
                ==> self.indices_spec()[i] != self.indices_spec()[j]
    }

    /// Builds `0..pixels_amount` and shuffles it with a generator fresh
    /// from the seed. The shuffle permutes in place, so the permutation
    /// invariant holds whatever the seed; and its result is the named
    /// permutation of the identity, so the whole traversal is a function
    /// of the pixel count and the seed.
    pub fn new(pixels_amount: usize, seed: u64) -> (encoder: RandomTraversingEncoder)
        ensures
            encoder.wf(),
            encoder.indices_spec().len() == pixels_amount,
            encoder.indices_spec() == crate::prng::shuffled_of(
                identity_indices(pixels_amount as int),
                seed,
            ),
    {
        let mut indices: Vec<usize> = Vec::new();
        for i in 0..pixels_amount
            invariant
                indices@.len() == i,
                forall|k: int| 0 <= k < i ==> #[trigger] indices@[k] == k,
        {
            indices.push(i);
        }
        let ghost original = indices@;
        proof {
            assert(original =~= identity_indices(pixels_amount as int));
        }
        crate::prng::shuffle_values_seeded(&mut indices, seed);
        proof {
            broadcast use vstd::seq_lib::group_seq_properties;

            original.to_multiset_ensures();
            indices@.to_multiset_ensures();
            assert(original.no_duplicates());
            original.lemma_multiset_has_no_duplicates();
            indices@.lemma_multiset_has_no_duplicates_conv();
            assert forall|i: int|
                0 <= i < indices@.len() implies #[trigger] indices@[i] < indices@.len() by {
                assert(indices@.contains(indices@[i]));
                assert(indices@.to_multiset().count(indices@[i]) > 0);
                assert(original.to_multiset().count(indices@[i]) > 0);
                assert(original.contains(indices@[i]));
                let k = choose|k: int| 0 <= k < original.len() && original[k] == indices@[i];
                assert(original[k] == k);
            }
        }
        RandomTraversingEncoder { indices }
    }
}

impl ImageEncoder for RandomTraversingEncoder {
    open spec fn valid_for(&self, dimension: (u32, u32)) -> bool {
        &&& self.wf()
        &&& self.indices_spec().len() <= dimension.0 * dimension.1
        &&& dimension.0 >= 1
    }

    open spec fn pos_at(&self, pos: (u32, u32), dimension: (u32, u32), index: int) -> Option<
        (u32, u32),
    > {
        if 0 <= index < self.indices_spec().len() {
            let k = self.indices_spec()[index] as int;
            Option::Some(((k % (dimension.0 as int)) as u32, (k / (dimension.0 as int)) as u32))
        } else {
            Option::None
        }
    }

    fn get_next_pixel_pos(&self, _pos: (u32, u32), dimension: (u32, u32), index: usize) -> (r:
        Option<(u32, u32)>) {
        let (width, _height) = dimension;
        if index < self.indices.len() {
            let k = self.indices[index];
            proof {
                assert(k < dimension.0 * dimension.1);
                vstd::arithmetic::div_mod::lemma_mod_division_less_than_divisor(
                    k as int,
                    width as int,
                );
                assert(k as int / (width as int) < dimension.1) by (nonlinear_arith)
                    requires
                        0 <= (k as int) && (k as int) < dimension.0 * dimension.1,
                        width == dimension.0,
                        width >= 1,
                ;
            }
            Some(((k as u64 % width as u64) as u32, (k as u64 / width as u64) as u32))
        } else {
            None
        }
    }
}

/// The random traversal visits exactly its `min(n, len)` first indices,
/// mapped to row-major coordinates.
pub proof fn lemma_random_trail(
    encoder: &RandomTraversingEncoder,
    dimension: (u32, u32),
    start: (u32, u32),
    n: int,
)
    requires
        encoder.valid_for(dimension),
        0 <= n,
    ensures
        trail(encoder, dimension, start, n).len() == if n <= encoder.indices_spec().len() {
            n
        } else {
            encoder.indices_spec().len() as int
        },
        forall|i: int|
            0 <= i < trail(encoder, dimension, start, n).len() ==> #[trigger] trail(
                encoder,
                dimension,
                start,
                n,
            )[i] == (
                ((encoder.indices_spec()[i] as int) % (dimension.0 as int)) as u32,
                ((encoder.indices_spec()[i] as int) / (dimension.0 as int)) as u32,
            ),
    decreases n,
{
    if n > 0 {
        lemma_random_trail(encoder, dimension, start, n - 1);
    }
}

/// Each traversed position flattens back to its own index, so the
/// positions of the random traversal are pairwise distinct and in bounds.
pub proof fn lemma_random_trail_distinct(
    encoder: &RandomTraversingEncoder,
    dimension: (u32, u32),
    start: (u32, u32),
    n: int,
)
    requires
        encoder.valid_for(dimension),
        0 <= n,
    ensures
        forall|i: int|
            0 <= i < trail(encoder, dimension, start, n).len() ==> #[trigger] flat(
                trail(encoder, dimension, start, n)[i],
                dimension.0,
            ) == encoder.indices_spec()[i] && trail(encoder, dimension, start, n)[i].0
                < dimension.0,
        forall|q1: int, q2: int|
            0 <= q1 < q2 < trail(encoder, dimension, start, n).len() ==> #[trigger] trail(
                encoder,
                dimension,
                start,
                n,
            )[q1] != #[trigger] trail(encoder, dimension, start, n)[q2],
{
    let t = trail(encoder, dimension, start, n);
    lemma_random_trail(encoder, dimension, start, n);
    assert forall|i: int| 0 <= i < t.len() implies #[trigger] flat(t[i], dimension.0)
        == encoder.indices_spec()[i] && t[i].0 < dimension.0 by {
        let k = encoder.indices_spec()[i] as int;
        vstd::arithmetic::div_mod::lemma_fundamental_div_mod(k, dimension.0 as int);
        vstd::arithmetic::div_mod::lemma_mod_division_less_than_divisor(k, dimension.0 as int);
        assert(k < dimension.0 * dimension.1);
        assert(k / (dimension.0 as int) < dimension.1) by (nonlinear_arith)
            requires
                0 <= k,
                k < dimension.0 * dimension.1,
                dimension.0 >= 1,
        ;
        assert(t[i].0 == k % (dimension.0 as int));
        assert(t[i].1 == k / (dimension.0 as int));
        assert(flat(t[i], dimension.0) == (k / (dimension.0 as int)) * dimension.0 + k % (
        dimension.0 as int));
        assert((k / (dimension.0 as int)) * dimension.0 == dimension.0 * (k / (
        dimension.0 as int))) by (nonlinear_arith);
    }
    assert forall|q1: int, q2: int| 0 <= q1 < q2 < t.len() implies #[trigger] t[q1]
        != #[trigger] t[q2] by {
        assert(encoder.indices_spec()[q1] != encoder.indices_spec()[q2]);
        assert(flat(t[q1], dimension.0) == encoder.indices_spec()[q1]);
        assert(flat(t[q2], dimension.0) == encoder.indices_spec()[q2]);
    }
}

/// Carrier round trip through the random traversal: reading a stego image
/// written over a cover recovers every data byte the traversal carried.
pub proof fn lemma_random_carrier_round_trip(
    encoder: &RandomTraversingEncoder,
    image: &GrayscaleImage,
    data: Seq<u8>,
    collected: Seq<u8>,
)
    requires
        image.wf(),
        encoder.valid_for((image.width, image.height)),
        8 * data.len() <= encoder.indices_spec().len(),
        encoder.indices_spec().len() <= image.pixel_count(),
        collected.len() >= data.len(),
        forall|g: int|
            0 <= g < image.pixel_count() ==> stream_bit(collected, g) == read_bit(
                write_pass(
                    image.pixels@,
                    image.width,
                    data,
                    trail(encoder, (image.width, image.height), (50, 50), image.pixel_count()),
                    BUCKET_SIZE,
                ),
                image.width,
                trail(encoder, (image.width, image.height), (50, 50), image.pixel_count()),
                g,
                BUCKET_SIZE,
            ),
    ensures
        forall|b: int| 0 <= b < data.len() ==> #[trigger] collected[b] == data[b],
{
    let dimension = (image.width, image.height);
    let t = trail(encoder, dimension, (50, 50), image.pixel_count());
    lemma_random_trail(encoder, dimension, (50, 50), image.pixel_count());
    lemma_random_trail_distinct(encoder, dimension, (50, 50), image.pixel_count());
    assert forall|q: int| 0 <= q < t.len() implies #[trigger] t[q].0 < image.width && 0 <= flat(
        t[q],
        image.width,
    ) < image.pixels@.len() by {
        assert(flat(t[q], image.width) == encoder.indices_spec()[q]);
    }
    super::lemma_carrier_bytes_round_trip(
        image.pixels@,
        image.width,
        data,
        t,
        BUCKET_SIZE,
        collected,
        image.pixel_count(),
    );
}

} // verus!
