//! Integer points and offsets in the voxel grid.
use vstd::prelude::*;

verus! {

/// A point (or an offset) in three-dimensional integer space.
#[derive(Clone, Copy, Debug, PartialEq, Eq, Structural, PartialOrd, Ord, Hash)]
pub struct P {
    pub x: i32,
    pub y: i32,
    pub z: i32,
}

/// Absolute value of an integer.
pub open spec fn abs(v: int) -> int {
    if v < 0 { -v } else { v }
}

/// Manhattan length of an offset.
pub open spec fn mlen_of(p: P) -> int {
    abs(p.x as int) + abs(p.y as int) + abs(p.z as int)
}

/// The Manhattan length can be computed in `i32`: no component is `i32::MIN`
/// and the sum of absolute values fits.
pub open spec fn mlen_fits(p: P) -> bool {
    &&& p.x != i32::MIN
    &&& p.y != i32::MIN
    &&& p.z != i32::MIN
    &&& mlen_of(p) <= i32::MAX
}


/// The sum `a + b` fits in `i32` on every axis.
pub open spec fn add_fits(a: P, b: P) -> bool {
    &&& i32::MIN <= a.x + b.x <= i32::MAX
    &&& i32::MIN <= a.y + b.y <= i32::MAX
    &&& i32::MIN <= a.z + b.z <= i32::MAX
}

/// The difference `a - b` fits in `i32` on every axis.
pub open spec fn sub_fits(a: P, b: P) -> bool {
    &&& i32::MIN <= a.x - b.x <= i32::MAX
    &&& i32::MIN <= a.y - b.y <= i32::MAX
    &&& i32::MIN <= a.z - b.z <= i32::MAX
}

/// Componentwise sum.
pub open spec fn padd(a: P, b: P) -> P {
    P { x: (a.x + b.x) as i32, y: (a.y + b.y) as i32, z: (a.z + b.z) as i32 }
}

/// Componentwise difference.
pub open spec fn psub(a: P, b: P) -> P {
    P { x: (a.x - b.x) as i32, y: (a.y - b.y) as i32, z: (a.z - b.z) as i32 }
}

/// `p` lies inside the cube `[0, r)^3`, where `r` is the grid size read as an `i32`.
pub open spec fn valid_in(p: P, r: usize) -> bool {
    let ri = r as i32;
    0 <= p.x < ri && 0 <= p.y < ri && 0 <= p.z < ri
}

impl P {
    /// Builds the point `(x, y, z)`.
    pub fn new(x: i32, y: i32, z: i32) -> (p: P)
        ensures
            p == (P { x, y, z }),
    {
        P { x, y, z }
    }

    /// Manhattan length `|x| + |y| + |z|`.
    pub fn mlen(&self) -> (m: i32)
        requires
            mlen_fits(*self),
        ensures
            m == mlen_of(*self),
    {
        let ax = if self.x < 0 { -self.x } else { self.x };
        let ay = if self.y < 0 { -self.y } else { self.y };
        let az = if self.z < 0 { -self.z } else { self.z };
        ax + ay + az
    }

    /// Whether the point lies inside the grid `[0, r)^3` (the size is taken as an `i32`).
    pub fn is_valid(&self, r: usize) -> (b: bool)
        ensures
            b == valid_in(*self, r),
    {
        let r = r as i32;
        0 <= self.x && self.x < r && 0 <= self.y && self.y < r && 0 <= self.z && self.z < r
    }
}

impl core::ops::Add for P {
    type Output = P;

    fn add(self, a: P) -> (s: P) {
        P::new(self.x + a.x, self.y + a.y, self.z + a.z)
    }
}

impl vstd::std_specs::ops::AddSpecImpl for P {
    open spec fn obeys_add_spec() -> bool {
        true
    }

    open spec fn add_req(self, rhs: P) -> bool {
        add_fits(self, rhs)
    }

    open spec fn add_spec(self, rhs: P) -> P {
        padd(self, rhs)
    }
}

impl core::ops::Sub for P {
    type Output = P;

    fn sub(self, a: P) -> (s: P) {
        P::new(self.x - a.x, self.y - a.y, self.z - a.z)
    }
}

impl vstd::std_specs::ops::SubSpecImpl for P {
    open spec fn obeys_sub_spec() -> bool {
        true
    }

    open spec fn sub_req(self, rhs: P) -> bool {
        sub_fits(self, rhs)
    }

    open spec fn sub_spec(self, rhs: P) -> P {
        psub(self, rhs)
    }
}

/// Componentwise product with a scalar.
pub open spec fn pmul(a: P, k: i32) -> P {
    P { x: (a.x * k) as i32, y: (a.y * k) as i32, z: (a.z * k) as i32 }
}

/// The scaled point `a * k` fits in `i32` on every axis.
pub open spec fn mul_fits(a: P, k: i32) -> bool {
    &&& i32::MIN <= a.x * k <= i32::MAX
    &&& i32::MIN <= a.y * k <= i32::MAX
    &&& i32::MIN <= a.z * k <= i32::MAX
}

impl core::ops::Mul<i32> for P {
    type Output = P;

    fn mul(self, a: i32) -> (s: P) {
        P::new(self.x * a, self.y * a, self.z * a)
    }
}

impl vstd::std_specs::ops::MulSpecImpl<i32> for P {
    open spec fn obeys_mul_spec() -> bool {
        true
    }

    open spec fn mul_req(self, rhs: i32) -> bool {
        mul_fits(self, rhs)
    }

    open spec fn mul_spec(self, rhs: i32) -> P {
        pmul(self, rhs)
    }
}

/// Integer division by a positive divisor rounding toward zero, as Rust's `/` on integers.
pub open spec fn tdiv(a: int, b: int) -> int {
    if a >= 0 { a / b } else { -((-a) / b) }
}

/// Componentwise division by a positive scalar, rounding toward zero.
pub open spec fn pdiv(a: P, k: i32) -> P {
    P { x: tdiv(a.x as int, k as int) as i32, y: tdiv(a.y as int, k as int) as i32, z: tdiv(a.z as int, k as int) as i32 }
}

fn div_i32(a: i32, k: i32) -> (q: i32)
    requires
        k > 0,
    ensures
        q as int == tdiv(a as int, k as int),
{
    a / k
}

impl core::ops::Div<i32> for P {
    type Output = P;

    fn div(self, a: i32) -> (s: P) {
        P::new(div_i32(self.x, a), div_i32(self.y, a), div_i32(self.z, a))
    }
}

impl vstd::std_specs::ops::DivSpecImpl<i32> for P {
    open spec fn obeys_div_spec() -> bool {
        true
    }

    open spec fn div_req(self, rhs: i32) -> bool {
        rhs > 0
    }

    open spec fn div_spec(self, rhs: i32) -> P {
        pdiv(self, rhs)
    }
}

/// The eighteen offsets of the points "near" a point: those that differ by one
/// on one or two axes and agree on the rest, in lexicographic order.
pub open spec fn near_seq() -> Seq<P> {
    seq![
        P { x: -1i32, y: -1i32, z: 0i32 }, P { x: -1i32, y: 0i32, z: -1i32 }, P { x: -1i32, y: 0i32, z: 0i32 },
        P { x: -1i32, y: 0i32, z: 1i32 }, P { x: -1i32, y: 1i32, z: 0i32 },
        P { x: 0i32, y: -1i32, z: -1i32 }, P { x: 0i32, y: -1i32, z: 0i32 }, P { x: 0i32, y: -1i32, z: 1i32 },
        P { x: 0i32, y: 0i32, z: -1i32 }, P { x: 0i32, y: 0i32, z: 1i32 },
        P { x: 0i32, y: 1i32, z: -1i32 }, P { x: 0i32, y: 1i32, z: 0i32 }, P { x: 0i32, y: 1i32, z: 1i32 },
        P { x: 1i32, y: -1i32, z: 0i32 }, P { x: 1i32, y: 0i32, z: -1i32 }, P { x: 1i32, y: 0i32, z: 0i32 },
        P { x: 1i32, y: 0i32, z: 1i32 }, P { x: 1i32, y: 1i32, z: 0i32 },
    ]
}

/// The six axis-aligned unit offsets.
pub open spec fn adj_seq() -> Seq<P> {
    seq![
        P { x: -1i32, y: 0i32, z: 0i32 }, P { x: 1i32, y: 0i32, z: 0i32 },
        P { x: 0i32, y: -1i32, z: 0i32 }, P { x: 0i32, y: 1i32, z: 0i32 },
        P { x: 0i32, y: 0i32, z: -1i32 }, P { x: 0i32, y: 0i32, z: 1i32 },
    ]
}


/// No component is at the very edge of the `i32` range, so a unit step fits.
pub open spec fn interior(p: P) -> bool {
    &&& i32::MIN < p.x < i32::MAX
    &&& i32::MIN < p.y < i32::MAX
    &&& i32::MIN < p.z < i32::MAX
}

/// The elements of `s` that lie inside the grid of size `r`, in their order.
pub open spec fn keep_valid(s: Seq<P>, r: usize) -> Seq<P>
    decreases s.len(),
{
    if s.len() == 0 {
        Seq::empty()
    } else {
        let rest = keep_valid(s.drop_last(), r);
        if valid_in(s.last(), r) { rest.push(s.last()) } else { rest }
    }
}

/// The points near `p` inside the grid of size `r`, in the order of `near_seq`.
pub open spec fn near_spec(p: P, r: usize) -> Seq<P> {
    keep_valid(near_seq().map_values(|d: P| padd(p, d)), r)
}

/// `p` and `q` are near: they differ by at most one on each axis, and on one or two axes.
pub open spec fn are_near(p: P, q: P) -> bool {
    let dx = q.x - p.x;
    let dy = q.y - p.y;
    let dz = q.z - p.z;
    &&& -1 <= dx <= 1 && -1 <= dy <= 1 && -1 <= dz <= 1
    &&& 1 <= abs(dx) + abs(dy) + abs(dz) <= 2
}

proof fn lemma_keep_valid_contains(s: Seq<P>, r: usize, q: P)
    ensures
        keep_valid(s, r).contains(q) <==> (s.contains(q) && valid_in(q, r)),
    decreases s.len(),
{
    if s.len() > 0 {
        lemma_keep_valid_contains(s.drop_last(), r, q);
        let rest = keep_valid(s.drop_last(), r);
        if s.contains(q) && valid_in(q, r) {
            let k = choose|k: int| 0 <= k < s.len() && s[k] == q;
            if k < s.len() - 1 {
                assert(s.drop_last()[k] == q);
            }
        }
        if s.drop_last().contains(q) {
            let k = choose|k: int| 0 <= k < s.drop_last().len() && s.drop_last()[k] == q;
            assert(s[k] == q);
        }
        if valid_in(s.last(), r) {
            assert(rest.push(s.last())[rest.len() as int] == s.last());
            if rest.push(s.last()).contains(q) && q != s.last() {
                let k = choose|k: int| 0 <= k < rest.len() + 1 && rest.push(s.last())[k] == q;
                assert(rest[k] == q);
            }
            if rest.contains(q) {
                let k = choose|k: int| 0 <= k < rest.len() && rest[k] == q;
                assert(rest.push(s.last())[k] == q);
            }
        }
    }
}

proof fn lemma_shifted_contains(p: P, q: P)
    requires
        interior(p),
    ensures
        near_seq().map_values(|d: P| padd(p, d)).contains(q) <==> are_near(p, q),
{
    let s = near_seq().map_values(|d: P| padd(p, d));
    if s.contains(q) {
        let k = choose|k: int| 0 <= k < s.len() && s[k] == q;
        assert(s[k] == padd(p, near_seq()[k]));
    }
    let dx = q.x - p.x;
    let dy = q.y - p.y;
    let dz = q.z - p.z;
    if dx == -1 && dy == -1 && dz == 0 {
        assert(s[0] == q);
    }
    if dx == -1 && dy == 0 && dz == -1 {
        assert(s[1] == q);
    }
    if dx == -1 && dy == 0 && dz == 0 {
        assert(s[2] == q);
    }
    if dx == -1 && dy == 0 && dz == 1 {
        assert(s[3] == q);
    }
    if dx == -1 && dy == 1 && dz == 0 {
        assert(s[4] == q);
    }
    if dx == 0 && dy == -1 && dz == -1 {
        assert(s[5] == q);
    }
    if dx == 0 && dy == -1 && dz == 0 {
        assert(s[6] == q);
    }
    if dx == 0 && dy == -1 && dz == 1 {
        assert(s[7] == q);
    }
    if dx == 0 && dy == 0 && dz == -1 {
        assert(s[8] == q);
    }
    if dx == 0 && dy == 0 && dz == 1 {
        assert(s[9] == q);
    }
    if dx == 0 && dy == 1 && dz == -1 {
        assert(s[10] == q);
    }
    if dx == 0 && dy == 1 && dz == 0 {
        assert(s[11] == q);
    }
    if dx == 0 && dy == 1 && dz == 1 {
        assert(s[12] == q);
    }
    if dx == 1 && dy == -1 && dz == 0 {
        assert(s[13] == q);
    }
    if dx == 1 && dy == 0 && dz == -1 {
        assert(s[14] == q);
    }
    if dx == 1 && dy == 0 && dz == 0 {
        assert(s[15] == q);
    }
    if dx == 1 && dy == 0 && dz == 1 {
        assert(s[16] == q);
    }
    if dx == 1 && dy == 1 && dz == 0 {
        assert(s[17] == q);
    }
}

/// Membership in `near(p, r)`: exactly the grid points near `p`.
pub proof fn lemma_near_contains(p: P, r: usize, q: P)
    requires
        interior(p),
    ensures
        near_spec(p, r).contains(q) <==> (valid_in(q, r) && are_near(p, q)),
{
    lemma_keep_valid_contains(near_seq().map_values(|d: P| padd(p, d)), r, q);
    lemma_shifted_contains(p, q);
}

/// Nearness is symmetric on grid points: `q` is in `near(p, r)` exactly when `p`
/// is in `near(q, r)`.
pub proof fn lemma_near_symmetric(p: P, q: P, r: usize)
    requires
        interior(p),
        interior(q),
        valid_in(p, r),
        valid_in(q, r),
    ensures
        near_spec(p, r).contains(q) <==> near_spec(q, r).contains(p),
{
    lemma_near_contains(p, r, q);
    lemma_near_contains(q, r, p);
}

/// The exact list of near offsets.
pub fn near_offsets() -> (v: Vec<P>)
    ensures
        v@ == near_seq(),
{
    let v = vec![
        P { x: -1, y: -1, z: 0 }, P { x: -1, y: 0, z: -1 }, P { x: -1, y: 0, z: 0 },
        P { x: -1, y: 0, z: 1 }, P { x: -1, y: 1, z: 0 },
        P { x: 0, y: -1, z: -1 }, P { x: 0, y: -1, z: 0 }, P { x: 0, y: -1, z: 1 },
        P { x: 0, y: 0, z: -1 }, P { x: 0, y: 0, z: 1 },
        P { x: 0, y: 1, z: -1 }, P { x: 0, y: 1, z: 0 }, P { x: 0, y: 1, z: 1 },
        P { x: 1, y: -1, z: 0 }, P { x: 1, y: 0, z: -1 }, P { x: 1, y: 0, z: 0 },
        P { x: 1, y: 0, z: 1 }, P { x: 1, y: 1, z: 0 },
    ];
    assert(v@ =~= near_seq());
    v
}

/// The exact list of axis-aligned unit offsets.
pub fn adj_offsets() -> (v: Vec<P>)
    ensures
        v@ == adj_seq(),
{
    let v = vec![
        P { x: -1, y: 0, z: 0 }, P { x: 1, y: 0, z: 0 },
        P { x: 0, y: -1, z: 0 }, P { x: 0, y: 1, z: 0 },
        P { x: 0, y: 0, z: -1 }, P { x: 0, y: 0, z: 1 },
    ];
    assert(v@ =~= adj_seq());
    v
}

impl P {
    /// The points near this one (differing by one on one or two axes) that lie in
    /// the grid of size `r`, in the order of `near_seq`.
    pub fn near(&self, r: usize) -> (near: Vec<P>)
        requires
            interior(*self),
        ensures
            near@ == near_spec(*self, r),
    {
        let ds = near_offsets();
        let ghost shifted = near_seq().map_values(|d: P| padd(*self, d));
        let mut near: Vec<P> = vec![];
        let mut i: usize = 0;
        while i < ds.len()
            invariant
                ds@ == near_seq(),
                interior(*self),
                0 <= i <= ds.len(),
                shifted == near_seq().map_values(|d: P| padd(*self, d)),
                near@ == keep_valid(shifted.take(i as int), r),
            decreases ds.len() - i,
        {
            let d = ds[i];
            let q = *self + d;
            assert(shifted.take(i + 1).drop_last() =~= shifted.take(i as int));
            if q.is_valid(r) {
                near.push(q);
            }
            i += 1;
        }
        assert(shifted.take(ds.len() as int) =~= shifted);
        near
    }

    /// The result of stepping by each axis-aligned unit offset whose own
    /// coordinates lie in the grid of size `r`: with `r` (read as an `i32`) above
    /// one these are exactly the steps in the positive `x`, `y` and `z`
    /// directions; otherwise none.
    pub fn adj(&self, r: usize) -> (adj: Vec<P>)
        requires
            interior(*self),
        ensures
            (r as i32) > 1 ==> adj@ == seq![
                padd(*self, P { x: 1, y: 0, z: 0 }),
                padd(*self, P { x: 0, y: 1, z: 0 }),
                padd(*self, P { x: 0, y: 0, z: 1 }),
            ],
            (r as i32) <= 1 ==> adj@ == Seq::<P>::empty(),
    {
        let ds = adj_offsets();
        let mut adj: Vec<P> = vec![];
        let mut i: usize = 0;
        while i < ds.len()
            invariant
                ds@ == adj_seq(),
                interior(*self),
                0 <= i <= ds.len(),
                adj@ == keep_valid(adj_seq().take(i as int), r).map_values(|d: P| padd(*self, d)),
            decreases ds.len() - i,
        {
            let d = ds[i];
            let q = *self + d;
            assert(adj_seq().take(i + 1).drop_last() =~= adj_seq().take(i as int));
            if d.is_valid(r) {
                adj.push(q);
                assert(adj@ =~= keep_valid(adj_seq().take(i + 1), r).map_values(|d: P| padd(*self, d)));
            } else {
                assert(adj@ =~= keep_valid(adj_seq().take(i + 1), r).map_values(|d: P| padd(*self, d)));
            }
            i += 1;
        }
        assert(adj_seq().take(6) =~= adj_seq());
        proof {
            reveal_with_fuel(keep_valid, 7);
        }
        if (r as i32) > 1 {
            assert(adj@ =~= seq![
                padd(*self, P { x: 1, y: 0, z: 0 }),
                padd(*self, P { x: 0, y: 1, z: 0 }),
                padd(*self, P { x: 0, y: 0, z: 1 }),
            ]);
        } else {
            assert(adj@ =~= Seq::<P>::empty());
        }
        adj
    }
}

} // verus!
