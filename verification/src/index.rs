//! Index arithmetic for cubes of any dimension.
//!
//! A point of a `d`-dimensional cube of side `s` is a sequence of `d`
//! coordinates below `s`. Its flat index reads the coordinates as digits in
//! base `s`, axis 0 least significant, so that the lowest axis varies
//! fastest. Children of a node, cells of a leaf and cells of a neighbourhood
//! are all numbered this way.

use vstd::arithmetic::div_mod::{
    lemma_breakdown, lemma_div_denominator, lemma_div_pos_is_pos, lemma_fundamental_div_mod,
    lemma_fundamental_div_mod_converse, lemma_mod_mod, lemma_multiply_divide_lt,
};
use vstd::arithmetic::power::{lemma_pow_increases, lemma_pow_positive, pow};
use vstd::arithmetic::power2::{lemma_pow2_pos, lemma_pow2_unfold, pow2};
use vstd::prelude::*;

verus! {

/// `p` has `d` coordinates, each in `0..side`.
pub open spec fn in_cube(p: Seq<int>, d: nat, side: int) -> bool {
    &&& p.len() == d
    &&& forall|k: int| 0 <= k < p.len() ==> 0 <= #[trigger] p[k] < side
}

/// The number that `digits` denote in base `base`, least significant first.
pub open spec fn flat(digits: Seq<int>, base: int) -> int
    decreases digits.len(),
{
    if digits.len() == 0 {
        0
    } else {
        digits[0] + base * flat(digits.drop_first(), base)
    }
}

/// The `d` lowest digits of `i` in base `base`, least significant first.
pub open spec fn unflat(i: int, base: int, d: nat) -> Seq<int>
    decreases d,
{
    if d == 0 {
        Seq::empty()
    } else {
        seq![i % base].add(unflat(i / base, base, (d - 1) as nat))
    }
}

/// The coordinates of a vector of machine integers.
pub open spec fn ints(v: Seq<usize>) -> Seq<int> {
    Seq::new(v.len(), |k: int| v[k] as int)
}

/// The side of a node of layer `layer`.
pub open spec fn side(layer: nat) -> int {
    pow2(layer) as int
}

/// The binary digit of weight `2^b` of `v`.
pub open spec fn bit_at(v: int, b: nat) -> int {
    (v / (pow2(b) as int)) % 2
}

/// The binary digits of weight `2^b` of all coordinates of `p`.
pub open spec fn bits_at(p: Seq<int>, b: nat) -> Seq<int> {
    Seq::new(p.len(), |k: int| bit_at(p[k], b))
}

/// The index of the child, at a node of layer `layer`, that holds the
/// point `p`: bit `k` of the index says whether `p` lies in the upper half
/// along axis `k`.
pub open spec fn child_index(p: Seq<int>, layer: nat) -> int {
    flat(bits_at(p, (layer - 1) as nat), 2)
}

/// All coordinates of `p` and `q` agree modulo `2^layer`.
pub open spec fn same_low(p: Seq<int>, q: Seq<int>, layer: nat) -> bool {
    &&& p.len() == q.len()
    &&& forall|k: int|
        0 <= k < p.len() ==> (#[trigger] p[k]) % (pow2(layer) as int) == (#[trigger] q[k]) % (pow2(
            layer,
        ) as int)
}

/// No coordinate of `p` is negative.
pub open spec fn non_negative(p: Seq<int>) -> bool {
    forall|k: int| 0 <= k < p.len() ==> 0 <= #[trigger] p[k]
}

/// `p` shifted by `c` along every axis.
pub open spec fn shifted(p: Seq<int>, c: int) -> Seq<int> {
    Seq::new(p.len(), |k: int| p[k] + c)
}

/// The sum of two points.
pub open spec fn vec_add(p: Seq<int>, q: Seq<int>) -> Seq<int> {
    Seq::new(p.len(), |k: int| p[k] + q[k])
}

/// The difference of two points.
pub open spec fn vec_sub(p: Seq<int>, q: Seq<int>) -> Seq<int> {
    Seq::new(p.len(), |k: int| p[k] - q[k])
}

/// `p` with every coordinate multiplied by `c`.
pub open spec fn scaled(p: Seq<int>, c: int) -> Seq<int> {
    Seq::new(p.len(), |k: int| p[k] * c)
}

/// A flat index lies below the volume of the cube.
pub proof fn lemma_flat_bound(digits: Seq<int>, base: int)
    requires
        base >= 1,
        in_cube(digits, digits.len(), base),
    ensures
        0 <= flat(digits, base) < pow(base, digits.len()),
    decreases digits.len(),
{
    reveal(pow);
    if digits.len() > 0 {
        let rest = digits.drop_first();
        lemma_flat_bound(rest, base);
        let rf = flat(rest, base);
        let vol = pow(base, rest.len());
        assert(base * rf <= base * (vol - 1)) by (nonlinear_arith)
            requires
                base >= 1,
                rf <= vol - 1,
        ;
        assert(base * rf >= 0) by (nonlinear_arith)
            requires
                base >= 1,
                rf >= 0,
        ;
        assert(base * (vol - 1) == base * vol - base) by (nonlinear_arith);
        assert(pow(base, digits.len()) == base * vol);
    }
}

/// The digits of any number lie in the cube.
pub proof fn lemma_unflat_in_cube(i: int, base: int, d: nat)
    requires
        base >= 1,
    ensures
        in_cube(unflat(i, base, d), d, base),
    decreases d,
{
    if d > 0 {
        lemma_unflat_in_cube(i / base, base, (d - 1) as nat);
        let rest = unflat(i / base, base, (d - 1) as nat);
        let all = unflat(i, base, d);
        assert forall|k: int| 0 <= k < all.len() implies 0 <= #[trigger] all[k] < base by {
            if k > 0 {
                assert(all[k] == rest[k - 1]);
            }
        }
    }
}

/// Taking the digits of a flat index gives the point back.
pub proof fn lemma_unflat_flat(digits: Seq<int>, base: int)
    requires
        base >= 1,
        in_cube(digits, digits.len(), base),
    ensures
        unflat(flat(digits, base), base, digits.len()) =~= digits,
    decreases digits.len(),
{
    if digits.len() > 0 {
        let rest = digits.drop_first();
        lemma_unflat_flat(rest, base);
        let rf = flat(rest, base);
        assert(digits[0] + base * rf == rf * base + digits[0]) by (nonlinear_arith);
        lemma_fundamental_div_mod_converse(flat(digits, base), base, rf, digits[0]);
    }
}

/// The flat index of the digits of a number below the volume is that number.
pub proof fn lemma_flat_unflat(i: int, base: int, d: nat)
    requires
        base >= 1,
        0 <= i < pow(base, d),
    ensures
        flat(unflat(i, base, d), base) == i,
    decreases d,
{
    reveal(pow);
    if d > 0 {
        lemma_multiply_divide_lt(i, base, pow(base, (d - 1) as nat));
        lemma_div_pos_is_pos(i, base);
        lemma_flat_unflat(i / base, base, (d - 1) as nat);
        let all = unflat(i, base, d);
        assert(all.drop_first() =~= unflat(i / base, base, (d - 1) as nat));
        lemma_fundamental_div_mod(i, base);
    }
}

/// Two points of a cube with the same flat index are the same point.
pub proof fn lemma_flat_injective(a: Seq<int>, b: Seq<int>, base: int)
    requires
        base >= 1,
        a.len() == b.len(),
        in_cube(a, a.len(), base),
        in_cube(b, b.len(), base),
        flat(a, base) == flat(b, base),
    ensures
        a =~= b,
{
    lemma_unflat_flat(a, base);
    lemma_unflat_flat(b, base);
}

/// Mirroring every digit mirrors the flat index.
pub proof fn lemma_flat_mirror(digits: Seq<int>, base: int)
    requires
        base >= 1,
    ensures
        flat(Seq::new(digits.len(), |k: int| base - 1 - digits[k]), base) == pow(
            base,
            digits.len(),
        ) - 1 - flat(digits, base),
    decreases digits.len(),
{
    reveal(pow);
    let m = Seq::new(digits.len(), |k: int| base - 1 - digits[k]);
    if digits.len() > 0 {
        let rest = digits.drop_first();
        lemma_flat_mirror(rest, base);
        let mr = Seq::new(rest.len(), |k: int| base - 1 - rest[k]);
        assert(m.drop_first() =~= mr);
        let vol = pow(base, rest.len());
        let rf = flat(rest, base);
        assert(base * (vol - 1 - rf) == base * vol - base - base * rf) by (nonlinear_arith);
    }
}

/// `2^d` as a power of the base two.
pub proof fn lemma_pow2_is_pow(d: nat)
    ensures
        pow2(d) == pow(2, d),
        pow(2, d) > 0,
{
    lemma_pow_positive(2, d);
}

/// A power with a positive base is positive, and grows with the exponent.
pub proof fn lemma_pow_mono(base: int, a: nat, b: nat)
    requires
        base >= 1,
        a <= b,
    ensures
        0 < pow(base, a) <= pow(base, b),
{
    lemma_pow_positive(base, a);
    lemma_pow_increases(base as nat, a, b);
}

/// The binary digits of a point form a point of the cube of side two.
pub proof fn lemma_bits_in_cube(p: Seq<int>, b: nat)
    ensures
        in_cube(bits_at(p, b), p.len(), 2),
{
}

/// A child index lies below `2^d`.
pub proof fn lemma_child_index_bound(p: Seq<int>, layer: nat)
    ensures
        0 <= child_index(p, layer) < pow2(p.len()),
{
    lemma_bits_in_cube(p, (layer - 1) as nat);
    lemma_flat_bound(bits_at(p, (layer - 1) as nat), 2);
    lemma_pow2_is_pow(p.len());
}

/// A number below `2^(b+1)` that is not negative splits into its digit of
/// weight `2^b` and the rest below `2^b`.
pub proof fn lemma_mod_split(x: int, b: nat)
    requires
        0 <= x,
    ensures
        x % (pow2(b + 1) as int) == x % (pow2(b) as int) + pow2(b) * bit_at(x, b),
{
    lemma_pow2_pos(b);
    lemma_pow2_unfold(b + 1);
    let h = pow2(b) as int;
    lemma_breakdown(x, h, 2);
    assert(pow2(b + 1) as int == h * 2) by (nonlinear_arith)
        requires
            pow2(b + 1) == 2 * pow2(b),
            h == pow2(b),
    ;
}

/// Numbers that agree modulo `2^layer` have the same binary digits below
/// that weight, and agree modulo every lower power.
pub proof fn lemma_low_bits(x: int, y: int, layer: nat, b: nat)
    requires
        0 <= x,
        0 <= y,
        b < layer,
        x % (pow2(layer) as int) == y % (pow2(layer) as int),
    ensures
        bit_at(x, b) == bit_at(y, b),
        x % (pow2(b) as int) == y % (pow2(b) as int),
        x % (pow2(b + 1) as int) == y % (pow2(b + 1) as int),
{
    lemma_pow2_pos(b + 1);
    lemma_pow2_pos(b);
    lemma_pow2_pos((layer - b - 1) as nat);
    vstd::arithmetic::power2::lemma_pow2_adds(b + 1, (layer - b - 1) as nat);
    let lo = pow2(b + 1) as int;
    let hi = pow2((layer - b - 1) as nat) as int;
    assert(pow2(layer) as int == lo * hi);
    lemma_mod_mod(x, lo, hi);
    lemma_mod_mod(y, lo, hi);
    assert(x % lo == y % lo);
    lemma_pow2_unfold(b + 1);
    let h = pow2(b) as int;
    assert(lo == h * 2) by (nonlinear_arith)
        requires
            lo == 2 * h,
    ;
    lemma_mod_mod(x, h, 2);
    lemma_mod_mod(y, h, 2);
    lemma_mod_split(x, b);
    lemma_mod_split(y, b);
    assert(h * bit_at(x, b) == h * bit_at(y, b));
    assert(bit_at(x, b) == bit_at(y, b)) by (nonlinear_arith)
        requires
            h * bit_at(x, b) == h * bit_at(y, b),
            h > 0,
    ;
}

/// Points that agree modulo `2^layer` sit in the same child of a node of
/// that layer, and agree modulo `2^(layer-1)`.
pub proof fn lemma_same_low_child(p: Seq<int>, q: Seq<int>, layer: nat)
    requires
        layer >= 1,
        non_negative(p),
        non_negative(q),
        same_low(p, q, layer),
    ensures
        child_index(p, layer) == child_index(q, layer),
        same_low(p, q, (layer - 1) as nat),
{
    let b = (layer - 1) as nat;
    assert forall|k: int| 0 <= k < p.len() implies bit_at(p[k], b) == bit_at(q[k], b) && (
    #[trigger] p[k]) % (pow2(b) as int) == (#[trigger] q[k]) % (pow2(b) as int) by {
        lemma_low_bits(p[k], q[k], layer, b);
    }
    assert(bits_at(p, b) =~= bits_at(q, b));
}

/// `a * 2^b + y`, with `y` below `2^b`, has `y` as its part below `2^b`,
/// the lowest binary digit of `a` at weight `2^b`, and the next one at
/// weight `2^(b+1)`.
pub proof fn lemma_bit_of_parts(a: int, y: int, b: nat)
    requires
        0 <= a,
        0 <= y < pow2(b),
    ensures
        (a * pow2(b) + y) % (pow2(b) as int) == y,
        (a * pow2(b) + y) / (pow2(b) as int) == a,
        bit_at(a * pow2(b) + y, b) == a % 2,
        bit_at(a * pow2(b) + y, b + 1) == (a / 2) % 2,
{
    let h = pow2(b) as int;
    let x = a * h + y;
    lemma_fundamental_div_mod_converse(x, h, a, y);
    lemma_pow2_unfold(b + 1);
    assert(a * h >= 0) by (nonlinear_arith)
        requires
            a >= 0,
            h > 0,
    ;
    lemma_div_denominator(x, h, 2);
    assert(pow2(b + 1) as int == h * 2);
}

/// Every pair of points agrees modulo `2^0`.
pub proof fn lemma_same_low_zero(p: Seq<int>, q: Seq<int>)
    requires
        p.len() == q.len(),
    ensures
        same_low(p, q, 0),
{
    vstd::arithmetic::power2::lemma2_to64();
}

/// Two points agree modulo `2^layer` exactly when they agree modulo
/// `2^(layer-1)` and sit in the same child of a node of that layer.
pub proof fn lemma_same_low_step(p: Seq<int>, q: Seq<int>, layer: nat)
    requires
        layer >= 1,
        p.len() == q.len(),
        non_negative(p),
        non_negative(q),
    ensures
        same_low(p, q, layer) <==> (same_low(p, q, (layer - 1) as nat) && child_index(p, layer)
            == child_index(q, layer)),
{
    let b = (layer - 1) as nat;
    if same_low(p, q, layer) {
        lemma_same_low_child(p, q, layer);
    }
    if same_low(p, q, b) && child_index(p, layer) == child_index(q, layer) {
        lemma_bits_in_cube(p, b);
        lemma_bits_in_cube(q, b);
        lemma_flat_injective(bits_at(p, b), bits_at(q, b), 2);
        assert forall|k: int| 0 <= k < p.len() implies (#[trigger] p[k]) % (pow2(layer) as int) == (
        #[trigger] q[k]) % (pow2(layer) as int) by {
            assert(bits_at(p, b)[k] == bits_at(q, b)[k]);
            lemma_mod_split(p[k], b);
            lemma_mod_split(q[k], b);
        }
    }
}

/// A coordinate `x` below `2 * 2^b`, moved up by `m` times `2^b`: the moved
/// coordinate keeps its part below `2^b`, and its two binary digits from
/// weight `2^b` are those of `m` plus the digit of `x`.
pub proof fn lemma_moved_digits(x: int, m: int, b: nat)
    requires
        0 <= x < 2 * pow2(b),
        0 <= m,
    ensures
        bit_at(x, b) == x / (pow2(b) as int),
        0 <= bit_at(x, b) <= 1,
        bit_at(x + m * pow2(b), b + 1) == ((bit_at(x, b) + m) / 2) % 2,
        bit_at(x + m * pow2(b), b) == (bit_at(x, b) + m) % 2,
        (x + m * pow2(b)) % (pow2(b) as int) == x % (pow2(b) as int),
{
    lemma_pow2_pos(b);
    let h = pow2(b) as int;
    let r = x % h;
    let c = x / h;
    lemma_fundamental_div_mod(x, h);
    lemma_div_pos_is_pos(x, h);
    lemma_multiply_divide_lt(x, h, 2);
    assert(0 <= r < h);
    assert(c == 0 || c == 1);
    assert(x + m * h == (c + m) * h + r) by (nonlinear_arith)
        requires
            x == h * c + r,
    ;
    lemma_bit_of_parts(c + m, r, b);
}

/// A coordinate `q` below `4 * 2^b` lies in the middle half exactly when its
/// binary digits of weight `2^b` and `2^(b+1)` differ; moving it down by
/// `2^b` then leaves the higher digit at weight `2^b`, and keeps the part
/// below `2^b`.
pub proof fn lemma_middle_digits(q: int, b: nat)
    requires
        0 <= q < 4 * pow2(b),
    ensures
        (pow2(b) <= q < 3 * pow2(b)) <==> bit_at(q, b) == 1 - bit_at(q, b + 1),
        pow2(b) <= q < 3 * pow2(b) ==> bit_at(q - pow2(b), b) == bit_at(q, b + 1) && (q - pow2(
            b,
        )) % (pow2(b) as int) == q % (pow2(b) as int),
{
    lemma_pow2_pos(b);
    let h = pow2(b) as int;
    let r = q % h;
    let a = q / h;
    lemma_fundamental_div_mod(q, h);
    lemma_div_pos_is_pos(q, h);
    lemma_multiply_divide_lt(q, h, 4);
    assert(0 <= r < h);
    assert(q == a * h + r) by (nonlinear_arith)
        requires
            q == h * a + r,
    ;
    lemma_bit_of_parts(a, r, b);
    assert(a == 0 || a == 1 || a == 2 || a == 3);
    if a == 0 {
        assert(a * h == 0) by (nonlinear_arith)
            requires
                a == 0,
        ;
    } else if a == 1 {
        assert(a * h == h) by (nonlinear_arith)
            requires
                a == 1,
        ;
        assert(q - h == 0 * h + r) by (nonlinear_arith)
            requires
                q == h + r,
        ;
        lemma_bit_of_parts(0, r, b);
    } else if a == 2 {
        assert(a * h == 2 * h) by (nonlinear_arith)
            requires
                a == 2,
        ;
        assert(q - h == 1 * h + r) by (nonlinear_arith)
            requires
                q == 2 * h + r,
        ;
        lemma_bit_of_parts(1, r, b);
    } else {
        assert(a * h == 3 * h) by (nonlinear_arith)
            requires
                a == 3,
        ;
    }
}

/// The point at `x` within child `i` of a node of layer `b + 1` lies in
/// that child, at the same place below the side of the child.
pub proof fn lemma_child_point(x: Seq<int>, i: int, b: nat, d: nat)
    requires
        in_cube(x, d, side(b)),
        0 <= i < pow2(d),
    ensures
        ({
            let y = vec_add(x, scaled(unflat(i, 2, d), side(b)));
            &&& in_cube(y, d, side(b + 1))
            &&& child_index(y, b + 1) == i
            &&& same_low(y, x, b)
            &&& non_negative(y)
            &&& non_negative(x)
        }),
{
    let h = side(b);
    let digits = unflat(i, 2, d);
    let y = vec_add(x, scaled(digits, h));
    lemma_pow2_pos(b);
    lemma_pow2_unfold(b + 1);
    lemma_pow2_is_pow(d);
    lemma_unflat_in_cube(i, 2, d);
    lemma_flat_unflat(i, 2, d);
    assert forall|k: int| 0 <= k < d implies bits_at(y, b)[k] == digits[k] && (#[trigger] y[k]) % h
        == x[k] % h && 0 <= y[k] < 2 * h by {
        lemma_moved_digits(x[k], digits[k], b);
        vstd::arithmetic::div_mod::lemma_small_mod(x[k] as nat, h as nat);
        vstd::arithmetic::div_mod::lemma_basic_div(x[k], h);
        assert(digits[k] * h == if digits[k] == 0 {
            0
        } else {
            h
        }) by (nonlinear_arith)
            requires
                0 <= digits[k] < 2,
        ;
    }
    assert(bits_at(y, b) =~= digits);
}

/// A node is cut into quarters along every axis. For the half-sized window
/// that starts `p` quarters in, and for child `c` of the node that covers
/// that window, the index of the child of the whole node in which child `c`
/// lies.
pub open spec fn quarter_parent(p: Seq<int>, c: int, d: nat) -> int {
    flat(Seq::new(d, |k: int| (unflat(c, 2, d)[k] + p[k]) / 2), 2)
}

/// The index that child `c` of the window has within that child of the
/// whole node.
pub open spec fn quarter_child(p: Seq<int>, c: int, d: nat) -> int {
    flat(Seq::new(d, |k: int| (unflat(c, 2, d)[k] + p[k]) % 2), 2)
}

/// Where a point `x` of the window that starts `p` quarters in lies within
/// the whole node: in child `quarter_parent`, there in child
/// `quarter_child`, and at the same place below the quarter's side.
pub proof fn lemma_quarter_indices(x: Seq<int>, p: Seq<int>, b: nat, d: nat)
    requires
        in_cube(x, d, side(b + 1)),
        in_cube(p, d, 3),
    ensures
        ({
            let c = child_index(x, b + 1);
            let y = vec_add(x, scaled(p, pow2(b) as int));
            &&& 0 <= c < pow2(d)
            &&& 0 <= quarter_parent(p, c, d) < pow2(d)
            &&& 0 <= quarter_child(p, c, d) < pow2(d)
            &&& child_index(y, b + 2) == quarter_parent(p, c, d)
            &&& child_index(y, b + 1) == quarter_child(p, c, d)
            &&& same_low(y, x, b)
            &&& non_negative(y)
            &&& non_negative(x)
            &&& in_cube(y, d, side(b + 2))
        }),
{
    let h = pow2(b) as int;
    let c = child_index(x, b + 1);
    let y = vec_add(x, scaled(p, h));
    let cd = bits_at(x, b);
    lemma_pow2_pos(b);
    lemma_pow2_unfold(b + 1);
    lemma_pow2_unfold(b + 2);
    lemma_bits_in_cube(x, b);
    lemma_unflat_flat(cd, 2);
    lemma_child_index_bound(x, b + 1);
    let qa = Seq::new(d, |k: int| (unflat(c, 2, d)[k] + p[k]) / 2);
    let qb = Seq::new(d, |k: int| (unflat(c, 2, d)[k] + p[k]) % 2);
    assert forall|k: int| 0 <= k < d implies bits_at(y, b + 1)[k] == qa[k] && bits_at(y, b)[k]
        == qb[k] && (#[trigger] y[k]) % h == x[k] % h && 0 <= y[k] < 4 * h && 0 <= qa[k] < 2 && 0
        <= qb[k] < 2 by {
        lemma_moved_digits(x[k], p[k], b);
        assert(cd[k] == bit_at(x[k], b));
        assert(p[k] * h >= 0 && p[k] * h <= 2 * h) by (nonlinear_arith)
            requires
                0 <= p[k] < 3,
                h > 0,
        ;
    }
    assert(bits_at(y, b + 1) =~= qa);
    assert(bits_at(y, b) =~= qb);
    lemma_flat_bound(qa, 2);
    lemma_flat_bound(qb, 2);
    lemma_pow2_is_pow(d);
}

/// For the centred window, child `c` of the window lies in child `c` of the
/// whole node, in the corner opposite to `c`.
pub proof fn lemma_quarter_centre(c: int, d: nat)
    requires
        0 <= c < pow2(d),
    ensures
        quarter_parent(Seq::new(d, |k: int| 1int), c, d) == c,
        quarter_child(Seq::new(d, |k: int| 1int), c, d) == pow2(d) - 1 - c,
{
    let ones = Seq::new(d, |k: int| 1int);
    let cd = unflat(c, 2, d);
    lemma_pow2_is_pow(d);
    lemma_unflat_in_cube(c, 2, d);
    lemma_flat_unflat(c, 2, d);
    lemma_flat_mirror(cd, 2);
    let qa = Seq::new(d, |k: int| (unflat(c, 2, d)[k] + ones[k]) / 2);
    let qb = Seq::new(d, |k: int| (unflat(c, 2, d)[k] + ones[k]) % 2);
    assert(qa =~= cd);
    assert(qb =~= Seq::new(cd.len(), |k: int| 2 - 1 - cd[k]));
}

/// A point `q` of a cube of side `4 * 2^b` lies in the centred cube of half
/// the side exactly when, along every axis, its binary digits of weight
/// `2^b` and `2^(b+1)` differ: when the index read from the lower digits
/// mirrors the index read from the higher ones. Moved down by `2^b`, such a
/// point has the higher digits at weight `2^b`.
pub proof fn lemma_middle_indices(q: Seq<int>, b: nat, d: nat)
    requires
        in_cube(q, d, side(b + 2)),
    ensures
        ({
            let hi = child_index(q, b + 2);
            let lo = child_index(q, b + 1);
            let m = shifted(q, -(pow2(b) as int));
            &&& 0 <= hi < pow2(d)
            &&& 0 <= lo < pow2(d)
            &&& (lo == pow2(d) - 1 - hi) <==> in_cube(m, d, side(b + 1))
            &&& in_cube(m, d, side(b + 1)) ==> child_index(m, b + 1) == hi && same_low(m, q, b)
                && non_negative(m)
            &&& non_negative(q)
        }),
{
    let h = pow2(b) as int;
    let hi = child_index(q, b + 2);
    let lo = child_index(q, b + 1);
    let m = shifted(q, -h);
    let his = bits_at(q, b + 1);
    let los = bits_at(q, b);
    lemma_pow2_pos(b);
    lemma_pow2_unfold(b + 1);
    lemma_pow2_unfold(b + 2);
    lemma_child_index_bound(q, b + 2);
    lemma_child_index_bound(q, b + 1);
    lemma_bits_in_cube(q, b + 1);
    lemma_bits_in_cube(q, b);
    let mirror = Seq::new(d, |k: int| 2 - 1 - his[k]);
    lemma_flat_mirror(his, 2);
    lemma_pow2_is_pow(d);
    assert(flat(mirror, 2) == pow2(d) - 1 - hi);
    assert forall|k: int| 0 <= k < d implies ((h <= #[trigger] q[k] < 3 * h) <==> los[k]
        == mirror[k]) && (h <= q[k] < 3 * h ==> bit_at(q[k] - h, b) == his[k] && (q[k] - h) % h
        == q[k] % h) by {
        lemma_middle_digits(q[k], b);
    }
    if in_cube(m, d, side(b + 1)) {
        assert forall|k: int| 0 <= k < d implies h <= #[trigger] q[k] < 3 * h by {
            assert(m[k] == q[k] - h);
        }
        assert(los =~= mirror);
        assert(bits_at(m, b) =~= his) by {
            assert forall|k: int| 0 <= k < d implies bits_at(m, b)[k] == his[k] by {
                assert(h <= q[k] < 3 * h);
                assert(m[k] == q[k] - h);
            }
        }
        assert forall|k: int| 0 <= k < d implies (#[trigger] m[k]) % h == (#[trigger] q[k]) % h by {
            assert(h <= q[k] < 3 * h);
        }
    }
    if lo == pow2(d) - 1 - hi {
        assert(in_cube(mirror, d, 2));
        lemma_flat_injective(los, mirror, 2);
        assert forall|k: int| 0 <= k < d implies 0 <= #[trigger] m[k] < 2 * h by {
            assert(los[k] == mirror[k]);
            assert(h <= q[k] < 3 * h);
        }
    }
}

/// The flat index of a vector of digits, computed from the highest digit
/// down.
pub fn encode(digits: &Vec<usize>, base: usize) -> (r: usize)
    requires
        base >= 1,
        in_cube(ints(digits@), digits@.len(), base as int),
        pow(base as int, digits@.len()) <= usize::MAX,
    ensures
        r == flat(ints(digits@), base as int),
        r < pow(base as int, digits@.len()),
{
    let d = digits.len();
    let mut k: usize = d;
    let mut acc: usize = 0;
    let ghost all = ints(digits@);
    proof {
        assert(all.subrange(d as int, d as int) =~= Seq::<int>::empty());
    }
    while k > 0
        invariant
            base >= 1,
            d == digits@.len(),
            all == ints(digits@),
            in_cube(all, d as nat, base as int),
            pow(base as int, d as nat) <= usize::MAX,
            k <= d,
            acc == flat(all.subrange(k as int, d as int), base as int),
        decreases k,
    {
        proof {
            let hi = all.subrange(k as int, d as int);
            let next = all.subrange(k - 1, d as int);
            assert(next.drop_first() =~= hi);
            assert(next[0] == all[k - 1]);
            assert(in_cube(next, next.len(), base as int));
            lemma_flat_bound(next, base as int);
            lemma_flat_bound(hi, base as int);
            lemma_pow_mono(base as int, next.len(), d as nat);
            assert(base * acc >= 0) by (nonlinear_arith)
                requires
                    base >= 1,
                    acc >= 0,
            ;
        }
        k -= 1;
        acc = acc * base + digits[k];
    }
    proof {
        assert(all.subrange(0, d as int) =~= all);
        lemma_flat_bound(all, base as int);
    }
    acc
}

/// The `d` lowest digits of `i` in base `base`.
pub fn decode(i: usize, base: usize, d: usize) -> (r: Vec<usize>)
    requires
        base >= 1,
    ensures
        ints(r@) =~= unflat(i as int, base as int, d as nat),
        r@.len() == d,
        in_cube(ints(r@), d as nat, base as int),
{
    let mut r: Vec<usize> = Vec::new();
    let mut rem: usize = i;
    let mut k: usize = 0;
    while k < d
        invariant
            base >= 1,
            k <= d,
            r@.len() == k,
            ints(r@).add(unflat(rem as int, base as int, (d - k) as nat)) =~= unflat(
                i as int,
                base as int,
                d as nat,
            ),
        decreases d - k,
    {
        let ghost before = ints(r@);
        let ghost tail = unflat(rem as int, base as int, (d - k) as nat);
        r.push(rem % base);
        proof {
            let rest = unflat(rem as int / base as int, base as int, (d - k - 1) as nat);
            assert(tail =~= seq![rem as int % base as int].add(rest));
            assert(ints(r@) =~= before.push(rem as int % base as int));
            assert(ints(r@).add(rest) =~= before.add(tail));
        }
        rem = rem / base;
        k += 1;
    }
    proof {
        lemma_unflat_in_cube(i as int, base as int, d as nat);
    }
    r
}

} // verus!
