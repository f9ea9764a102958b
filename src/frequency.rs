//! Counting adjacent byte pairs into a 256 by 256 grid.
use vstd::prelude::*;

use crate::image::Image;
use crate::pos::Pos2;

verus! {

/// Side of the frequency grid: one row and one column per byte value.
pub const BYTE_VALUES: usize = 256;

/// How many times byte `x` is immediately followed by byte `y` in `bytes`,
/// counting overlapping pairs.
pub open spec fn pair_count(bytes: Seq<u8>, x: int, y: int) -> nat
    decreases bytes.len(),
{
    if bytes.len() < 2 {
        0
    } else {
        pair_count(bytes.drop_last(), x, y) + if bytes[bytes.len() - 2] == x && bytes[bytes.len()
            - 1] == y {
            1nat
        } else {
            0nat
        }
    }
}

/// An input of fewer than two bytes holds no pair, so its frequency grid is all zeros.
pub proof fn lemma_short_input_has_no_pairs(bytes: Seq<u8>)
    requires
        bytes.len() < 2,
    ensures
        forall|x: int, y: int| #[trigger] pair_count(bytes, x, y) == 0,
{
}

proof fn lemma_pair_count_prefix(bytes: Seq<u8>, j: int, x: int, y: int)
    requires
        0 <= j <= bytes.len(),
    ensures
        pair_count(bytes.subrange(0, j), x, y) <= pair_count(bytes, x, y),
    decreases bytes.len(),
{
    if j < bytes.len() {
        assert(bytes.drop_last().subrange(0, j) =~= bytes.subrange(0, j));
        lemma_pair_count_prefix(bytes.drop_last(), j, x, y);
    } else {
        assert(bytes.subrange(0, j) =~= bytes);
    }
}

/// Adds to cell `(x, y)` of a 256 by 256 grid the number of places where byte
/// `x` is immediately followed by byte `y`.
pub fn put_points(image: &mut Image<u32>, bytes: Vec<u8>)
    requires
        old(image).spec_width() == BYTE_VALUES,
        old(image).spec_height() == BYTE_VALUES,
        forall|i: int|
            0 <= i < BYTE_VALUES * BYTE_VALUES ==> #[trigger] old(image).cells()[i] + pair_count(
                bytes@,
                i % 256,
                i / 256,
            ) <= u32::MAX,
    ensures
        final(image).spec_width() == BYTE_VALUES,
        final(image).spec_height() == BYTE_VALUES,
        final(image).cells().len() == BYTE_VALUES * BYTE_VALUES,
        forall|i: int|
            0 <= i < BYTE_VALUES * BYTE_VALUES ==> #[trigger] final(image).cells()[i] == old(
                image,
            ).cells()[i] + pair_count(bytes@, i % 256, i / 256),
{
    let ghost start = image.cells();
    let mut j: usize = 1;
    proof {
        use_type_invariant(&*image);
    }
    if bytes.len() < 2 {
        return;
    }
    while j < bytes.len()
        invariant
            1 <= j <= bytes.len(),
            image.spec_width() == BYTE_VALUES,
            image.spec_height() == BYTE_VALUES,
            image.cells().len() == BYTE_VALUES * BYTE_VALUES,
            start.len() == BYTE_VALUES * BYTE_VALUES,
            forall|i: int|
                0 <= i < BYTE_VALUES * BYTE_VALUES ==> #[trigger] start[i] + pair_count(
                    bytes@,
                    i % 256,
                    i / 256,
                ) <= u32::MAX,
            forall|i: int|
                0 <= i < BYTE_VALUES * BYTE_VALUES ==> #[trigger] image.cells()[i] == start[i]
                    + pair_count(bytes@.subrange(0, j as int), i % 256, i / 256),
        decreases bytes.len() - j,
    {
        let x = bytes[j - 1];
        let y = bytes[j];
        let pos = Pos2 { x: x as usize, y: y as usize };
        let ghost before = image.cells();
        let ghost at = y as int * 256 + x as int;
        proof {
            let pre = bytes@.subrange(0, j as int);
            let next = bytes@.subrange(0, j + 1);
            assert(next.drop_last() =~= pre);
            assert forall|i: int| 0 <= i < BYTE_VALUES * BYTE_VALUES implies #[trigger] pair_count(
                next,
                i % 256,
                i / 256,
            ) == pair_count(pre, i % 256, i / 256) + if i == at {
                1nat
            } else {
                0nat
            } by {}
            lemma_pair_count_prefix(bytes@, j + 1, x as int, y as int);
            assert(at % 256 == x as int && at / 256 == y as int);
            assert(before[at] + 1 <= u32::MAX);
        }
        let current = *image.get(pos);
        image.set(pos, current + 1);
        j = j + 1;
    }
    assert(bytes@.subrange(0, j as int) =~= bytes@);
}

/// The frequency grid of `bytes`: a 256 by 256 grid whose cell `(x, y)` counts
/// the places where byte `x` is immediately followed by byte `y`.
pub fn build_frequency_grid(bytes: Vec<u8>) -> (r: Image<u32>)
    requires
        forall|x: int, y: int| pair_count(bytes@, x, y) <= u32::MAX,
    ensures
        r.spec_width() == BYTE_VALUES,
        r.spec_height() == BYTE_VALUES,
        r.cells().len() == BYTE_VALUES * BYTE_VALUES,
        forall|i: int|
            0 <= i < BYTE_VALUES * BYTE_VALUES ==> #[trigger] r.cells()[i] == pair_count(
                bytes@,
                i % 256,
                i / 256,
            ),
{
    let mut image: Image<u32> = Image::new(BYTE_VALUES, BYTE_VALUES, 0);
    put_points(&mut image, bytes);
    image
}

} // verus!
