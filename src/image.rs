//! A fixed-size two-dimensional grid with row-major storage, and its
//! reordering along the Hilbert curve.
use vstd::prelude::*;

use crate::curve::{
    curve_point, curve_value, is_power_of_two, lemma_point_in_range, lemma_point_round_trip, lemma_side_pos,
    lemma_value_in_range, lemma_value_round_trip, log2, side_len, HilbertCurve,
};
use crate::pos::Pos2;

verus! {

/// A display color with red, green, blue and alpha channels.
#[derive(Debug, Clone, Copy, PartialEq, Eq)]
pub struct Color {
    pub r: u8,
    pub g: u8,
    pub b: u8,
    pub a: u8,
}

/// The point that row-major index `i` stands for in a grid of the given width.
pub open spec fn row_major_point(width: int, i: int) -> (int, int) {
    (i % width, i / width)
}

/// The row-major index of point `p` in a grid of the given width.
pub open spec fn row_major_index(width: int, p: (int, int)) -> int {
    p.1 * width + p.0
}

/// The cells of a square lattice of the given order laid out along the curve:
/// cell `j` of the result is the cell at the curve's point `j`.
pub open spec fn curve_ordered<T>(order: nat, cells: Seq<T>) -> Seq<T> {
    Seq::new(
        cells.len(),
        |j: int| cells[row_major_index(side_len(order) as int, curve_point(order, j))],
    )
}

/// The inverse layout: cell `i` of the result is the cell whose index is the
/// curve value of row-major point `i`.
pub open spec fn natural_ordered<T>(order: nat, cells: Seq<T>) -> Seq<T> {
    Seq::new(
        cells.len(),
        |i: int|
            cells[curve_value(
                order,
                row_major_point(side_len(order) as int, i).0,
                row_major_point(side_len(order) as int, i).1,
            )],
    )
}

proof fn lemma_row_major(n: int, i: int)
    requires
        n > 0,
        0 <= i < n * n,
    ensures
        0 <= row_major_point(n, i).0 < n,
        0 <= row_major_point(n, i).1 < n,
        row_major_index(n, row_major_point(n, i)) == i,
{
    vstd::arithmetic::div_mod::lemma_fundamental_div_mod(i, n);
    assert(i / n < n) by (nonlinear_arith)
        requires i == n * (i / n) + i % n, i % n >= 0, i < n * n, n > 0;
    assert(i / n >= 0) by (nonlinear_arith)
        requires i == n * (i / n) + i % n, i % n < n, i >= 0, n > 0;
    assert((i / n) * n == n * (i / n)) by (nonlinear_arith);
}

proof fn lemma_row_major_inverse(n: int, p: (int, int))
    requires
        n > 0,
        0 <= p.0 < n,
        0 <= p.1 < n,
    ensures
        0 <= row_major_index(n, p) < n * n,
        row_major_point(n, row_major_index(n, p)) == p,
{
    assert(0 <= p.1 * n + p.0 < n * n) by (nonlinear_arith)
        requires 0 <= p.0 < n, 0 <= p.1 < n;
    vstd::arithmetic::div_mod::lemma_fundamental_div_mod_converse(p.1 * n + p.0, n, p.1, p.0);
}

/// Laying a grid out along the curve and back restores every cell.
pub proof fn lemma_curve_order_round_trip<T>(order: nat, cells: Seq<T>)
    requires
        cells.len() == side_len(order) * side_len(order),
    ensures
        natural_ordered(order, curve_ordered(order, cells)) == cells,
        curve_ordered(order, natural_ordered(order, cells)) == cells,
{
    let n = side_len(order) as int;
    let mid = curve_ordered(order, cells);
    let back = natural_ordered(order, mid);
    assert forall|i: int| 0 <= i < cells.len() implies back[i] == cells[i] by {
        lemma_side_pos(order);
        lemma_row_major(n, i);
        let p = row_major_point(n, i);
        lemma_value_in_range(order, p.0, p.1);
        lemma_point_round_trip(order, p.0, p.1);
    }
    assert(back =~= cells);
    let mid2 = natural_ordered(order, cells);
    let back2 = curve_ordered(order, mid2);
    assert forall|j: int| 0 <= j < cells.len() implies back2[j] == cells[j] by {
        lemma_side_pos(order);
        lemma_point_in_range(order, j);
        let p = curve_point(order, j);
        lemma_row_major_inverse(n, p);
        lemma_value_round_trip(order, j);
    }
    assert(back2 =~= cells);
}

/// A grid of `width` by `height` cells stored row-major: cell `(x, y)` is at
/// index `y * width + x`.
pub struct Image<T = Color> {
    data: Vec<T>,
    width: usize,
    height: usize,
}

impl<T> Image<T> {
    #[verifier::type_invariant]
    pub(crate) open spec fn shaped(self) -> bool {
        self.cells().len() == self.spec_width() * self.spec_height()
    }

    pub closed spec fn spec_width(&self) -> nat {
        self.width as nat
    }

    pub closed spec fn spec_height(&self) -> nat {
        self.height as nat
    }

    /// The cells in row-major order.
    pub closed spec fn cells(&self) -> Seq<T> {
        self.data@
    }

    /// Whether the grid is square with a power-of-two side.
    pub open spec fn is_curve_lattice(&self) -> bool {
        self.spec_width() == self.spec_height() && is_power_of_two(self.spec_width())
    }
}

impl<T: Copy> Image<T> {
    /// A grid of `width * height` cells, each equal to `c`.
    pub fn new(width: usize, height: usize, c: T) -> (r: Self)
        requires
            width * height <= usize::MAX,
        ensures
            r.spec_width() == width,
            r.spec_height() == height,
            r.cells() == Seq::new((width * height) as nat, |i: int| c),
    {
        let total = width * height;
        let mut data: Vec<T> = Vec::new();
        while data.len() < total
            invariant
                data.len() <= total,
                forall|i: int| 0 <= i < data.len() ==> data@[i] == c,
            decreases total - data.len(),
        {
            data.push(c);
        }
        assert(data@ =~= Seq::new((width * height) as nat, |i: int| c));
        Image { data, width, height }
    }

    /// Applies `f` to every cell, keeping the shape and the order of the cells.
    pub fn map<F, U>(self, f: F) -> (r: Image<U>)
        where
            F: Fn(T) -> U,
        requires
            forall|i: int| 0 <= i < self.cells().len() ==> f.requires((self.cells()[i],)),
        ensures
            r.spec_width() == self.spec_width(),
            r.spec_height() == self.spec_height(),
            r.cells().len() == self.cells().len(),
            forall|i: int|
                0 <= i < self.cells().len() ==> f.ensures((self.cells()[i],), #[trigger] r.cells()[i]),
    {
        proof {
            use_type_invariant(&self);
        }
        let mut data: Vec<U> = Vec::new();
        let mut i: usize = 0;
        assert(self.cells() == self.data@);
        while i < self.data.len()
            invariant
                i <= self.data.len(),
                data.len() == i,
                forall|k: int| 0 <= k < self.data.len() ==> f.requires((self.data@[k],)),
                forall|k: int| 0 <= k < i ==> f.ensures((self.data@[k],), #[trigger] data@[k]),
            decreases self.data.len() - i,
        {
            data.push(f(self.data[i]));
            i = i + 1;
        }
        Image { data, width: self.width, height: self.height }
    }

    /// Moves the cell at index `i` to index `f(i)`, reading every cell from a
    /// snapshot of the grid taken before any is written. `f` returns `dest(i)`
    /// and is one-to-one on the indices of the grid.
    fn remap_positions<F: Fn(usize) -> usize>(
        &mut self,
        f: F,
        Ghost(dest): Ghost<spec_fn(int) -> int>,
    )
        requires
            forall|i: usize| i < old(self).cells().len() ==> f.requires((i,)),
            forall|i: usize, d: usize| f.ensures((i,), d) ==> d == dest(i as int),
            forall|i: int| 0 <= i < old(self).cells().len() ==> 0 <= #[trigger] dest(i) < old(self).cells().len(),
            forall|i: int, j: int|
                0 <= i < old(self).cells().len() && 0 <= j < old(self).cells().len() && i != j
                    ==> #[trigger] dest(i) != #[trigger] dest(j),
        ensures
            final(self).spec_width() == old(self).spec_width(),
            final(self).spec_height() == old(self).spec_height(),
            final(self).cells().len() == old(self).cells().len(),
            forall|i: int|
                0 <= i < old(self).cells().len() ==> final(self).cells()[#[trigger] dest(i)]
                    == old(self).cells()[i],
    {
        proof {
            use_type_invariant(&*self);
        }
        let len = self.data.len();
        let mut output: Vec<T> = Vec::new();
        while output.len() < len
            invariant
                output.len() <= len,
                len == self.data.len(),
                forall|k: int| 0 <= k < output.len() ==> output@[k] == self.data@[k],
            decreases len - output.len(),
        {
            let k = output.len();
            output.push(self.data[k]);
        }
        let mut i: usize = 0;
        while i < len
            invariant
                i <= len,
                len == self.data.len(),
                output.len() == len,
                forall|j: usize| j < len ==> f.requires((j,)),
                forall|j: usize, d: usize| f.ensures((j,), d) ==> d == dest(j as int),
                forall|j: int| 0 <= j < len ==> 0 <= #[trigger] dest(j) < len,
                forall|j: int, k: int|
                    0 <= j < len && 0 <= k < len && j != k ==> #[trigger] dest(j) != #[trigger] dest(k),
                forall|j: int| 0 <= j < i ==> output@[#[trigger] dest(j)] == self.data@[j],
            decreases len - i,
        {
            let new_position = f(i);
            output.set(new_position, self.data[i]);
            i = i + 1;
        }
        self.data = output;
    }

    /// Lays the cells out along the Hilbert curve: the cell at row-major
    /// point `p` moves to index `point_to_value(p)`.
    pub fn hilbertify(&mut self)
        requires
            old(self).is_curve_lattice(),
        ensures
            final(self).spec_width() == old(self).spec_width(),
            final(self).spec_height() == old(self).spec_height(),
            final(self).cells() == curve_ordered(log2(old(self).spec_width()), old(self).cells()),
    {
        proof {
            use_type_invariant(&*self);
            assert(self.data.len() == self.width * self.height);
        }
        let size = self.width;
        let curve = HilbertCurve::new(size);
        let ghost order = curve@;
        let ghost cells = self.data@;
        assert(size > 0);
        let f = |index: usize| -> (r: usize)
            requires
                index < size * size,
            ensures
                r == curve_value(order, (index % size) as int, (index / size) as int),
        {
            let pos = Self::index_to_pos_assoc(size, index);
            proof {
                lemma_row_major(size as int, index as int);
            }
            curve.point_to_value(pos)
        };
        let ghost dest = |i: int| curve_value(order, i % (size as int), i / (size as int));
        proof {
            assert forall|i: int| 0 <= i < size * size implies 0 <= #[trigger] dest(i) < size
                * size by {
                lemma_row_major(size as int, i);
                lemma_value_in_range(order, i % (size as int), i / (size as int));
            }
            assert forall|i: int, j: int|
                0 <= i < size * size && 0 <= j < size * size && i != j implies #[trigger] dest(i)
                != #[trigger] dest(j) by {
                lemma_row_major(size as int, i);
                lemma_row_major(size as int, j);
                lemma_point_round_trip(order, i % (size as int), i / (size as int));
                lemma_point_round_trip(order, j % (size as int), j / (size as int));
            }
        }
        self.remap_positions(f, Ghost(dest));
        proof {
            let fin = self.data@;
            assert forall|j: int| 0 <= j < cells.len() implies fin[j] == curve_ordered(
                order,
                cells,
            )[j] by {
                let p = curve_point(order, j);
                lemma_point_in_range(order, j);
                lemma_row_major_inverse(size as int, p);
                lemma_value_round_trip(order, j);
                let i = row_major_index(size as int, p);
                assert(fin[dest(i)] == cells[i]);
            }
            assert(fin =~= curve_ordered(order, cells));
        }
    }

    /// Restores row-major order from curve order: the cell at index `v` moves
    /// to the row-major index of `value_to_point(v)`.
    pub fn unhilbertify(&mut self)
        requires
            old(self).is_curve_lattice(),
        ensures
            final(self).spec_width() == old(self).spec_width(),
            final(self).spec_height() == old(self).spec_height(),
            final(self).cells() == natural_ordered(log2(old(self).spec_width()), old(self).cells()),
    {
        proof {
            use_type_invariant(&*self);
            assert(self.data.len() == self.width * self.height);
        }
        let size = self.width;
        let curve = HilbertCurve::new(size);
        let ghost order = curve@;
        let ghost cells = self.data@;
        assert(size > 0);
        let f = |index: usize| -> (r: usize)
            requires
                index < size * size,
                size * size <= usize::MAX,
            ensures
                r == row_major_index(size as int, curve_point(order, index as int)),
        {
            let pos = curve.value_to_point(index);
            proof {
                lemma_point_in_range(order, index as int);
                lemma_row_major_inverse(size as int, curve_point(order, index as int));
            }
            Self::to_index_assoc(size, pos)
        };
        let ghost dest = |i: int| row_major_index(size as int, curve_point(order, i));
        proof {
            assert forall|i: int| 0 <= i < size * size implies 0 <= #[trigger] dest(i) < size
                * size by {
                lemma_point_in_range(order, i);
                lemma_row_major_inverse(size as int, curve_point(order, i));
            }
            assert forall|i: int, j: int|
                0 <= i < size * size && 0 <= j < size * size && i != j implies #[trigger] dest(i)
                != #[trigger] dest(j) by {
                lemma_point_in_range(order, i);
                lemma_point_in_range(order, j);
                lemma_row_major_inverse(size as int, curve_point(order, i));
                lemma_row_major_inverse(size as int, curve_point(order, j));
                lemma_value_round_trip(order, i);
                lemma_value_round_trip(order, j);
            }
        }
        self.remap_positions(f, Ghost(dest));
        proof {
            let fin = self.data@;
            assert forall|k: int| 0 <= k < cells.len() implies fin[k] == natural_ordered(
                order,
                cells,
            )[k] by {
                lemma_row_major(size as int, k);
                let p = row_major_point(size as int, k);
                lemma_value_in_range(order, p.0, p.1);
                lemma_point_round_trip(order, p.0, p.1);
                let i = curve_value(order, p.0, p.1);
                assert(fin[dest(i)] == cells[i]);
            }
            assert(fin =~= natural_ordered(order, cells));
        }
    }

    /// The cell at an in-bounds point.
    pub fn get(&self, pos: Pos2<usize>) -> (r: &T)
        requires
            pos.x < self.spec_width(),
            pos.y < self.spec_height(),
        ensures
            *r == self.cells()[row_major_index(self.spec_width() as int, (pos.x as int, pos.y as int))],
    {
        let i = self.to_index(pos);
        &self.data[i]
    }

    /// Replaces the cell at an in-bounds point.
    pub fn set(&mut self, pos: Pos2<usize>, value: T)
        requires
            pos.x < old(self).spec_width(),
            pos.y < old(self).spec_height(),
        ensures
            final(self).spec_width() == old(self).spec_width(),
            final(self).spec_height() == old(self).spec_height(),
            final(self).cells() == old(self).cells().update(
                row_major_index(old(self).spec_width() as int, (pos.x as int, pos.y as int)),
                value,
            ),
    {
        let i = self.to_index(pos);
        proof {
            use_type_invariant(&*self);
        }
        let mut taken = Image { data: Vec::new(), width: 0, height: 0 };
        std::mem::swap(self, &mut taken);
        let Image { mut data, width, height } = taken;
        data.set(i, value);
        *self = Image { data, width, height };
    }

    pub fn width(&self) -> (r: usize)
        ensures
            r == self.spec_width(),
    {
        self.width
    }

    pub fn height(&self) -> (r: usize)
        ensures
            r == self.spec_height(),
    {
        self.height
    }

    /// The row-major index of an in-bounds point.
    pub fn to_index(&self, pos: Pos2<usize>) -> (r: usize)
        requires
            pos.x < self.spec_width(),
            pos.y < self.spec_height(),
        ensures
            r == row_major_index(self.spec_width() as int, (pos.x as int, pos.y as int)),
            r < self.cells().len(),
    {
        proof {
            use_type_invariant(self);
            assert(self.data.len() == self.width * self.height);
            assert(pos.y * self.width + pos.x < self.width * self.height) by (nonlinear_arith)
                requires pos.x < self.width, pos.y < self.height;
        }
        Self::to_index_assoc(self.width, pos)
    }

    /// The row-major index `pos.y * width + pos.x`.
    pub fn to_index_assoc(width: usize, pos: Pos2<usize>) -> (r: usize)
        requires
            pos.y * width + pos.x <= usize::MAX,
        ensures
            r == row_major_index(width as int, (pos.x as int, pos.y as int)),
    {
        pos.y * width + pos.x
    }

    /// The point that row-major index `index` stands for.
    pub fn index_to_pos_assoc(width: usize, index: usize) -> (r: Pos2<usize>)
        requires
            width > 0,
        ensures
            (r.x as int, r.y as int) == row_major_point(width as int, index as int),
    {
        Pos2 { x: index % width, y: index / width }
    }
}

impl Image<Color> {
    /// The cells as bytes, four per cell in the order red, green, blue, alpha.
    pub fn data_raw(&self) -> (r: Vec<u8>)
        ensures
            r@.len() == 4 * self.cells().len(),
            forall|i: int|
                0 <= i < self.cells().len() ==> r@[4 * i] == (#[trigger] self.cells()[i]).r && r@[4
                    * i + 1] == self.cells()[i].g && r@[4 * i + 2] == self.cells()[i].b && r@[4 * i
                    + 3] == self.cells()[i].a,
    {
        let mut r: Vec<u8> = Vec::new();
        let mut i: usize = 0;
        while i < self.data.len()
            invariant
                i <= self.data.len(),
                r@.len() == 4 * i,
                forall|k: int|
                    0 <= k < i ==> r@[4 * k] == (#[trigger] self.data@[k]).r && r@[4 * k + 1]
                        == self.data@[k].g && r@[4 * k + 2] == self.data@[k].b && r@[4 * k + 3]
                        == self.data@[k].a,
            decreases self.data.len() - i,
        {
            let c = self.data[i];
            r.push(c.r);
            r.push(c.g);
            r.push(c.b);
            r.push(c.a);
            i = i + 1;
        }
        r
    }
}

} // verus!

