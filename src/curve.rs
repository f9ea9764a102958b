//! The discrete Hilbert curve on a `2^order` by `2^order` lattice.
use vstd::prelude::*;
use vstd::arithmetic::div_mod::{
    lemma_breakdown, lemma_div_denominator, lemma_fundamental_div_mod,
    lemma_fundamental_div_mod_converse, lemma_mod_mod, lemma_small_mod,
};

use crate::pos::Pos2;

verus! {

/// Side length of a lattice of the given order: `2^order`.
pub open spec fn side_len(order: nat) -> nat
    decreases order,
{
    if order == 0 {
        1
    } else {
        2 * side_len((order - 1) as nat)
    }
}

/// Whether `n` is an exact power of two.
pub open spec fn is_power_of_two(n: nat) -> bool
    decreases n,
{
    if n == 0 {
        false
    } else if n == 1 {
        true
    } else {
        n % 2 == 0 && is_power_of_two(n / 2)
    }
}

/// The quadrant rotation: when `ry` is zero, reflect about the far edge of the
/// quadrant of side `s` if `rx` is one, then swap the coordinates.
pub open spec fn rotate_spec(s: int, p: (int, int), rx: int, ry: int) -> (int, int) {
    if ry != 0 {
        p
    } else if rx == 1 {
        (s - 1 - p.1, s - 1 - p.0)
    } else {
        (p.1, p.0)
    }
}

/// Rank along the curve of the quadrant picked by the bits `(rx, ry)`: `(3 * rx) xor ry`.
pub open spec fn quadrant_rank(rx: int, ry: int) -> int {
    if rx == 0 {
        ry
    } else {
        3 - ry
    }
}

/// The point at value `t` along the curve of the given order, built from the
/// lowest base-4 digit of `t` upwards.
pub open spec fn curve_point(order: nat, t: int) -> (int, int)
    decreases order,
{
    if order == 0 {
        (0, 0)
    } else {
        let s = side_len((order - 1) as nat) as int;
        let q = (t / (s * s)) % 4;
        let rx = q / 2;
        let ry = (q + rx) % 2;
        let p = rotate_spec(s, curve_point((order - 1) as nat, t), rx, ry);
        (p.0 + s * rx, p.1 + s * ry)
    }
}

/// The value along the curve of the given order of the lattice point `(x, y)`,
/// read from the most significant bit-plane downwards.
pub open spec fn curve_value(order: nat, x: int, y: int) -> int
    decreases order,
{
    if order == 0 {
        0
    } else {
        let s = side_len((order - 1) as nat) as int;
        let rx: int = if x >= s { 1 } else { 0 };
        let ry: int = if y >= s { 1 } else { 0 };
        let p = rotate_spec(s, (x - s * rx, y - s * ry), rx, ry);
        s * s * quadrant_rank(rx, ry) + curve_value((order - 1) as nat, p.0, p.1)
    }
}

/// The exponent of a power of two.
pub open spec fn log2(n: nat) -> nat
    decreases n,
{
    if n <= 1 {
        0
    } else {
        1 + log2(n / 2)
    }
}

/// Whether `p` lies in the square `[0, s) x [0, s)`.
pub open spec fn in_square(s: int, p: (int, int)) -> bool {
    0 <= p.0 < s && 0 <= p.1 < s
}

pub(crate) proof fn lemma_side_pos(order: nat)
    ensures
        side_len(order) >= 1,
    decreases order,
{
    if order > 0 {
        lemma_side_pos((order - 1) as nat);
    }
}

proof fn lemma_side_square(order: nat)
    requires
        order > 0,
    ensures
        side_len(order) * side_len(order) == 4 * (side_len((order - 1) as nat) * side_len(
            (order - 1) as nat,
        )),
{
    let s = side_len((order - 1) as nat) as int;
    assert((2 * s) * (2 * s) == 4 * (s * s)) by (nonlinear_arith);
}

proof fn lemma_rotate(s: int, p: (int, int), rx: int, ry: int)
    requires
        in_square(s, p),
    ensures
        in_square(s, rotate_spec(s, p, rx, ry)),
        rotate_spec(s, rotate_spec(s, p, rx, ry), rx, ry) == p,
{
}

pub(crate) proof fn lemma_point_in_range(order: nat, t: int)
    ensures
        in_square(side_len(order) as int, curve_point(order, t)),
    decreases order,
{
    if order > 0 {
        let s = side_len((order - 1) as nat) as int;
        lemma_side_pos((order - 1) as nat);
        lemma_point_in_range((order - 1) as nat, t);
        let q = (t / (s * s)) % 4;
        let rx = q / 2;
        let ry = (q + rx) % 2;
        lemma_rotate(s, curve_point((order - 1) as nat, t), rx, ry);
        assert(0 <= s * rx <= s) by (nonlinear_arith)
            requires 0 <= rx <= 1, s >= 1;
        assert(0 <= s * ry <= s) by (nonlinear_arith)
            requires 0 <= ry <= 1, s >= 1;
    }
}

pub(crate) proof fn lemma_value_in_range(order: nat, x: int, y: int)
    requires
        in_square(side_len(order) as int, (x, y)),
    ensures
        0 <= curve_value(order, x, y) < side_len(order) * side_len(order),
    decreases order,
{
    if order > 0 {
        let s = side_len((order - 1) as nat) as int;
        lemma_side_pos((order - 1) as nat);
        lemma_side_square(order);
        let rx: int = if x >= s { 1 } else { 0 };
        let ry: int = if y >= s { 1 } else { 0 };
        let p = rotate_spec(s, (x - s * rx, y - s * ry), rx, ry);
        lemma_rotate(s, (x - s * rx, y - s * ry), rx, ry);
        lemma_value_in_range((order - 1) as nat, p.0, p.1);
        let qr = quadrant_rank(rx, ry);
        let v = curve_value((order - 1) as nat, p.0, p.1);
        assert(0 <= s * s * qr <= 3 * (s * s)) by (nonlinear_arith)
            requires 0 <= qr <= 3, s >= 1;
    }
}

/// Only the lowest `order` base-4 digits of a value decide its point.
proof fn lemma_point_low_digits(order: nat, t: int)
    requires
        t >= 0,
    ensures
        curve_point(order, t) == curve_point(
            order,
            t % (side_len(order) * side_len(order)) as int,
        ),
    decreases order,
{
    if order > 0 {
        let s = side_len((order - 1) as nat) as int;
        let sq = s * s;
        lemma_side_pos((order - 1) as nat);
        lemma_side_square(order);
        assert(s * s > 0) by (nonlinear_arith)
            requires s >= 1;
        let u = t % (sq * 4);
        lemma_breakdown(t, sq, 4);
        assert(u == (side_len(order) * side_len(order)) as int % (sq * 4) * 0 + t % (sq * 4));
        lemma_fundamental_div_mod_converse(u, sq, (t / sq) % 4, t % sq);
        lemma_mod_mod(t, sq, 4);
        lemma_point_low_digits((order - 1) as nat, t);
        lemma_point_low_digits((order - 1) as nat, u);
    }
}

/// Every value below `4^order` is mapped back to itself by
/// `curve_value(order, curve_point(order, t))`.
pub proof fn lemma_value_round_trip(order: nat, t: int)
    requires
        0 <= t < side_len(order) * side_len(order),
    ensures
        curve_value(order, curve_point(order, t).0, curve_point(order, t).1) == t,
    decreases order,
{
    if order > 0 {
        let s = side_len((order - 1) as nat) as int;
        let sq = s * s;
        lemma_side_pos((order - 1) as nat);
        lemma_side_square(order);
        assert(s * s > 0) by (nonlinear_arith)
            requires s >= 1;
        let q = (t / sq) % 4;
        let rx = q / 2;
        let ry = (q + rx) % 2;
        let tl = t % sq;
        lemma_fundamental_div_mod(t, sq);
        assert(t / sq < 4) by (nonlinear_arith)
            requires t < 4 * sq, t == sq * (t / sq) + t % sq, 0 <= t % sq, sq > 0;
        assert(t / sq >= 0) by (nonlinear_arith)
            requires t >= 0, t == sq * (t / sq) + t % sq, t % sq < sq, sq > 0;
        lemma_point_low_digits((order - 1) as nat, t);
        let p = curve_point((order - 1) as nat, t);
        assert(p == curve_point((order - 1) as nat, tl));
        lemma_point_in_range((order - 1) as nat, t);
        lemma_rotate(s, p, rx, ry);
        lemma_value_round_trip((order - 1) as nat, tl);
        assert(quadrant_rank(rx, ry) == q);
        assert(s * rx == if rx == 1 { s } else { 0 });
        assert(s * ry == if ry == 1 { s } else { 0 });
        let r = rotate_spec(s, p, rx, ry);
        let pt = curve_point(order, t);
        assert(pt == (r.0 + s * rx, r.1 + s * ry));
        assert(pt.0 - s * rx == r.0);
        assert(s * s * q == q * sq) by (nonlinear_arith)
            requires sq == s * s;
        assert(t == q * sq + tl) by (nonlinear_arith)
            requires t == sq * (t / sq) + t % sq, q == t / sq, tl == t % sq;
        let rx2: int = if pt.0 >= s { 1 } else { 0 };
        let ry2: int = if pt.1 >= s { 1 } else { 0 };
        assert(rx2 == rx && ry2 == ry);
        assert(rotate_spec(s, (pt.0 - s * rx2, pt.1 - s * ry2), rx2, ry2) == p);
        assert(curve_value(order, pt.0, pt.1) == s * s * q + curve_value(
            (order - 1) as nat,
            p.0,
            p.1,
        ));
        assert(curve_value((order - 1) as nat, p.0, p.1) == tl);
        assert(s * s * q + tl == t);
        assert(curve_value(order, pt.0, pt.1) == t);
    } else {
        let one = side_len(order);
        assert(one == 1);
        assert(one * one == 1) by (nonlinear_arith)
            requires one == 1;
    }
}

/// On a lattice of side `n = 2^order`, the values `0 .. n * n` are sent to
/// points of the lattice, no two values to the same point, and every point of
/// the lattice is reached.
pub proof fn lemma_curve_bijection(order: nat)
    ensures
        forall|v: int|
            0 <= v < side_len(order) * side_len(order) ==> in_square(
                side_len(order) as int,
                #[trigger] curve_point(order, v),
            ),
        forall|v: int, w: int|
            0 <= v < side_len(order) * side_len(order) && 0 <= w < side_len(order) * side_len(order)
                && v != w ==> #[trigger] curve_point(order, v) != #[trigger] curve_point(order, w),
        forall|x: int, y: int|
            in_square(side_len(order) as int, (x, y)) ==> 0 <= #[trigger] curve_value(order, x, y)
                < side_len(order) * side_len(order) && curve_point(order, curve_value(order, x, y))
                == (x, y),
{
    assert forall|v: int| 0 <= v < side_len(order) * side_len(order) implies in_square(
        side_len(order) as int,
        #[trigger] curve_point(order, v),
    ) by {
        lemma_point_in_range(order, v);
    }
    assert forall|v: int, w: int|
        0 <= v < side_len(order) * side_len(order) && 0 <= w < side_len(order) * side_len(order)
            && v != w implies #[trigger] curve_point(order, v) != #[trigger] curve_point(order, w) by {
        lemma_value_round_trip(order, v);
        lemma_value_round_trip(order, w);
    }
    assert forall|x: int, y: int| in_square(side_len(order) as int, (x, y)) implies 0
        <= #[trigger] curve_value(order, x, y) < side_len(order) * side_len(order) && curve_point(
        order,
        curve_value(order, x, y),
    ) == (x, y) by {
        lemma_value_in_range(order, x, y);
        lemma_point_round_trip(order, x, y);
    }
}

/// Every lattice point is mapped back to itself by
/// `curve_point(order, curve_value(order, x, y))`.
pub proof fn lemma_point_round_trip(order: nat, x: int, y: int)
    requires
        in_square(side_len(order) as int, (x, y)),
    ensures
        curve_point(order, curve_value(order, x, y)) == (x, y),
    decreases order,
{
    if order > 0 {
        let s = side_len((order - 1) as nat) as int;
        let sq = s * s;
        lemma_side_pos((order - 1) as nat);
        lemma_side_square(order);
        assert(s * s > 0) by (nonlinear_arith)
            requires s >= 1;
        let rx: int = if x >= s { 1 } else { 0 };
        let ry: int = if y >= s { 1 } else { 0 };
        assert(s * 1 == s);
        assert(s * 0 == 0);
        let p0 = (x - s * rx, y - s * ry);
        let p = rotate_spec(s, p0, rx, ry);
        lemma_rotate(s, p0, rx, ry);
        let qr = quadrant_rank(rx, ry);
        let low = curve_value((order - 1) as nat, p.0, p.1);
        lemma_value_in_range((order - 1) as nat, p.0, p.1);
        let v = qr * sq + low;
        assert(s * s * qr == qr * sq) by (nonlinear_arith)
            requires sq == s * s;
        assert(v == curve_value(order, x, y));
        lemma_fundamental_div_mod_converse(v, sq, qr, low);
        lemma_point_low_digits((order - 1) as nat, v);
        lemma_point_round_trip((order - 1) as nat, p.0, p.1);
    }
}


proof fn lemma_side_mono(a: nat, b: nat)
    requires
        a <= b,
    ensures
        side_len(a) <= side_len(b),
    decreases b,
{
    if a < b {
        lemma_side_mono(a, (b - 1) as nat);
    }
}

proof fn lemma_side_exceeds(k: nat)
    ensures
        side_len(k) > k,
    decreases k,
{
    if k > 0 {
        lemma_side_exceeds((k - 1) as nat);
    }
}

proof fn lemma_side_fits(k: nat)
    requires
        side_len(k) * side_len(k) <= usize::MAX,
    ensures
        side_len(k) <= usize::MAX,
{
    let n = side_len(k);
    lemma_side_pos(k);
    assert(n <= n * n) by (nonlinear_arith)
        requires n >= 1;
}

/// Splits `x` at bit-plane `s`: the bit is `(x / s) % 2`.
proof fn lemma_bit_split(x: int, s: int)
    requires
        x >= 0,
        s > 0,
    ensures
        0 <= (x / s) % 2 <= 1,
        (x % (2 * s) >= s) == ((x / s) % 2 == 1),
        x % (2 * s) - s * ((x / s) % 2) == x % s,
{
    lemma_breakdown(x, s, 2);
    assert(s * 2 == 2 * s);
    let b = (x / s) % 2;
    assert(s * b == if b == 1 { s } else { 0 });
}

/// Reflecting a coordinate about the far edge of the whole lattice reflects its
/// residue within every sub-square.
proof fn lemma_reflect_mod(n: int, s: int, k: int, y: int)
    requires
        s > 0,
        n == s * k,
        0 <= y < n,
    ensures
        (n - 1 - y) % s == s - 1 - y % s,
{
    lemma_fundamental_div_mod(y, s);
    let d = y / s;
    let r = y % s;
    assert(d < k) by (nonlinear_arith)
        requires y == s * d + r, 0 <= r, y < n, n == s * k, s > 0;
    assert(n - 1 - y == (k - 1 - d) * s + (s - 1 - r)) by (nonlinear_arith)
        requires y == s * d + r, n == s * k;
    lemma_fundamental_div_mod_converse(n - 1 - y, s, k - 1 - d, s - 1 - r);
}

/// A discrete Hilbert curve over a lattice whose side is a power of two.
pub struct HilbertCurve {
    order: usize,
}

impl View for HilbertCurve {
    type V = nat;

    /// The order of the lattice: its side is `2^order`.
    closed spec fn view(&self) -> nat {
        self.order as nat
    }
}

impl HilbertCurve {
    #[verifier::type_invariant]
    spec fn fits(self) -> bool {
        side_len(self.order as nat) * side_len(self.order as nat) <= usize::MAX
    }

    /// Builds the curve for a lattice of side `size`, a power of two.
    pub fn new(size: usize) -> (r: Self)
        requires
            is_power_of_two(size as nat),
            size * size <= usize::MAX,
        ensures
            side_len(r@) == size,
            r@ == log2(size as nat),
    {
        let mut order: usize = 0;
        let mut current: usize = size;
        proof {
            let one = side_len(0);
            assert(one == 1);
            assert(one * size == size) by (nonlinear_arith)
                requires one == 1;
        }
        while current > 1
            invariant
                is_power_of_two(current as nat),
                side_len(order as nat) * current == size,
                order + log2(current as nat) == log2(size as nat),
            decreases current,
        {
            proof {
                lemma_side_exceeds((order + 1) as nat);
                assert(side_len((order + 1) as nat) <= size) by (nonlinear_arith)
                    requires
                        side_len((order + 1) as nat) == 2 * side_len(order as nat),
                        side_len(order as nat) * current == size,
                        current >= 2,
                        side_len(order as nat) >= 0,
                ;
                assert(side_len((order + 1) as nat) * (current / 2) == size) by (nonlinear_arith)
                    requires
                        side_len((order + 1) as nat) == 2 * side_len(order as nat),
                        side_len(order as nat) * current == size,
                        current % 2 == 0,
                ;
            }
            current = current / 2;
            order = order + 1;
        }
        assert(side_len(order as nat) * 1 == side_len(order as nat));
        HilbertCurve { order }
    }

    /// Builds the curve for a lattice of side `size`, or returns `None` when
    /// `size` is not a power of two or the lattice has more cells than a `usize` can count.
    pub fn try_new(size: usize) -> (r: Option<Self>)
        ensures
            r is Some <==> is_power_of_two(size as nat) && size * size <= usize::MAX,
            r matches Some(c) ==> side_len(c@) == size,
    {
        if size == 0 {
            return None;
        }
        let mut current: usize = size;
        while current > 1 && current % 2 == 0
            invariant
                current >= 1,
                is_power_of_two(current as nat) == is_power_of_two(size as nat),
            decreases current,
        {
            current = current / 2;
        }
        if current != 1 {
            return None;
        }
        match size.checked_mul(size) {
            Some(_) => Some(HilbertCurve::new(size)),
            None => None,
        }
    }

    /// The order of the lattice: its side is `2^order`.
    pub fn order(&self) -> (r: usize)
        ensures
            r == self@,
    {
        self.order
    }

    /// The side of the lattice, `2^order`.
    pub fn side(&self) -> (r: usize)
        ensures
            r == side_len(self@),
    {
        proof {
            use_type_invariant(self);
            lemma_side_fits(self.order as nat);
        }
        let mut r: usize = 1;
        let mut i: usize = 0;
        while i < self.order
            invariant
                i <= self.order,
                r == side_len(i as nat),
                side_len(self.order as nat) <= usize::MAX,
            decreases self.order - i,
        {
            proof {
                lemma_side_mono((i + 1) as nat, self.order as nat);
            }
            r = r * 2;
            i = i + 1;
        }
        r
    }

    fn rotate(&self, mut pos: Pos2<usize>, check: Pos2<usize>, value: usize) -> (r: Pos2<usize>)
        requires
            check.y != 0 || check.x != 1 || (pos.x < value && pos.y < value),
        ensures
            (r.x as int, r.y as int) == rotate_spec(
                value as int,
                (pos.x as int, pos.y as int),
                check.x as int,
                check.y as int,
            ),
    {
        if check.y != 0 {
            return pos;
        }
        if check.x == 1 {
            pos.x = value - 1 - pos.x;
            pos.y = value - 1 - pos.y;
        }
        Pos2 { x: pos.y, y: pos.x }
    }

    /// The value along the curve of a lattice point.
    pub fn point_to_value(&self, mut pos: Pos2<usize>) -> (r: usize)
        requires
            pos.x < side_len(self@),
            pos.y < side_len(self@),
        ensures
            r == curve_value(self@, pos.x as int, pos.y as int),
    {
        proof {
            use_type_invariant(self);
        }
        let ghost x0 = pos.x as int;
        let ghost y0 = pos.y as int;
        let n = self.side();
        let mut value: usize = 0;
        let mut w: usize = n;
        let mut m: usize = self.order;
        let ghost mut k: int = 1;
        proof {
            lemma_small_mod(pos.x as nat, n as nat);
            lemma_small_mod(pos.y as nat, n as nat);
        }
        while m > 0
            invariant
                m <= self.order,
                w == side_len(m as nat),
                n == side_len(self.order as nat),
                n * n <= usize::MAX,
                n == w * k,
                pos.x < n,
                pos.y < n,
                0 <= x0 < n,
                0 <= y0 < n,
                value + curve_value(m as nat, (pos.x % w) as int, (pos.y % w) as int) == curve_value(
                    self.order as nat,
                    x0,
                    y0,
                ),
            decreases m,
        {
            let ghost big_x = (pos.x % w) as int;
            let ghost big_y = (pos.y % w) as int;
            let s = w / 2;
            proof {
                lemma_side_pos((m - 1) as nat);
                lemma_side_mono(m as nat, self.order as nat);
                lemma_bit_split(pos.x as int, s as int);
                lemma_bit_split(pos.y as int, s as int);
            }
            let rx = (pos.x / s) % 2;
            let ry = (pos.y / s) % 2;
            let ghost low = (pos.x as int % s as int, pos.y as int % s as int);
            let ghost p = rotate_spec(s as int, low, rx as int, ry as int);
            proof {
                lemma_rotate(s as int, low, rx as int, ry as int);
                lemma_value_in_range((m - 1) as nat, p.0, p.1);
                assert(curve_value(m as nat, big_x, big_y) == s * s * quadrant_rank(
                    rx as int,
                    ry as int,
                ) + curve_value((m - 1) as nat, p.0, p.1));
                assert(n == s * (2 * k)) by (nonlinear_arith)
                    requires n == w * k, w == 2 * s;
                lemma_reflect_mod(n as int, s as int, 2 * k, pos.x as int);
                lemma_reflect_mod(n as int, s as int, 2 * k, pos.y as int);
                assert(s * s <= n * n) by (nonlinear_arith)
                    requires s <= n;
                assert(0 <= s * s * quadrant_rank(rx as int, ry as int));
                lemma_value_in_range(self.order as nat, x0, y0);
            }
            let quadrant: usize = if rx == 0 { ry } else { 3 - ry };
            pos = self.rotate(pos, Pos2 { x: rx, y: ry }, n);
            value = value + s * s * quadrant;
            proof {
                k = 2 * k;
            }
            w = s;
            m = m - 1;
        }
        value
    }

    /// The lattice point at a value along the curve.
    pub fn value_to_point(&self, mut value: usize) -> (r: Pos2<usize>)
        requires
            value < side_len(self@) * side_len(self@),
        ensures
            (r.x as int, r.y as int) == curve_point(self@, value as int),
    {
        proof {
            use_type_invariant(self);
            lemma_side_fits(self.order as nat);
        }
        let ghost t = value as int;
        let mut pos = Pos2 { x: 0usize, y: 0usize };
        let mut s: usize = 1;
        let mut i: usize = 0;
        assert(t / (1int * 1int) == t);
        while i < self.order
            invariant
                i <= self.order,
                s == side_len(i as nat),
                side_len(self.order as nat) <= usize::MAX,
                (pos.x as int, pos.y as int) == curve_point(i as nat, t),
                value == t / (s * s),
                t >= 0,
            decreases self.order - i,
        {
            proof {
                lemma_side_pos(i as nat);
                lemma_side_mono((i + 1) as nat, self.order as nat);
                lemma_point_in_range(i as nat, t);
                lemma_side_square((i + 1) as nat);
                assert(s * s > 0) by (nonlinear_arith)
                    requires s >= 1;
                lemma_div_denominator(t, (s * s) as int, 4);
            }
            let q = value % 4;
            let rx = q / 2;
            let ry = (q + rx) % 2;
            pos = self.rotate(pos, Pos2 { x: rx, y: ry }, s);
            proof {
                assert(rx <= 1 && ry <= 1);
                if rx == 1 {
                    assert(s * rx == s) by (nonlinear_arith)
                        requires rx == 1;
                } else {
                    assert(s * rx == 0) by (nonlinear_arith)
                        requires rx == 0;
                }
                if ry == 1 {
                    assert(s * ry == s) by (nonlinear_arith)
                        requires ry == 1;
                } else {
                    assert(s * ry == 0) by (nonlinear_arith)
                        requires ry == 0;
                }
            }
            pos.x = pos.x + s * rx;
            pos.y = pos.y + s * ry;
            value = value / 4;
            s = s * 2;
            i = i + 1;
        }
        pos
    }
}

} // verus!

