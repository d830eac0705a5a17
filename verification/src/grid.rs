//! Board geometry: integer coordinates and the square spiral that numbers the board's cells.
//!
//! The spiral starts at the origin and walks in straight segments of lengths
//! 1, 1, 2, 2, 3, 3, ..., turning counter-clockwise after each segment:
//! right, up, left, down, right, ...  Cell number `k` of the board is the point
//! reached after `k` steps.
use vstd::prelude::*;

verus! {

/// A cell of the integer plane.
#[derive(Clone, Copy, Debug, PartialEq, Eq, Hash, Structural)]
pub struct Coord {
    pub x: i32,
    pub y: i32,
}

impl View for Coord {
    type V = (int, int);

    open spec fn view(&self) -> (int, int) {
        (self.x as int, self.y as int)
    }
}

/// Whether `v` can be held by an `i32`.
pub open spec fn fits_i32(v: int) -> bool {
    i32::MIN <= v <= i32::MAX
}

/// Whether the component-wise sum of two points can be held by a `Coord`.
pub open spec fn sum_fits(a: (int, int), b: (int, int)) -> bool {
    fits_i32(a.0 + b.0) && fits_i32(a.1 + b.1)
}

impl Coord {
    pub fn new(x: i32, y: i32) -> (c: Coord)
        ensures
            c.x == x,
            c.y == y,
    {
        Coord { x, y }
    }
}

impl core::ops::Add<Coord> for Coord {
    type Output = Coord;

    /// Component-wise sum; both sums must fit in an `i32`.
    fn add(self, rhs: Coord) -> (r: Coord)
        ensures
            r@ == (self@.0 + rhs@.0, self@.1 + rhs@.1),
    {
        Coord { x: self.x + rhs.x, y: self.y + rhs.y }
    }
}

impl vstd::std_specs::ops::AddSpecImpl<Coord> for Coord {
    open spec fn obeys_add_spec() -> bool {
        true
    }

    open spec fn add_req(self, rhs: Coord) -> bool {
        sum_fits(self@, rhs@)
    }

    open spec fn add_spec(self, rhs: Coord) -> Coord {
        Coord { x: (self.x + rhs.x) as i32, y: (self.y + rhs.y) as i32 }
    }
}

// ---------------------------------------------------------------------------
// The spiral, mathematically.
// ---------------------------------------------------------------------------
/// Length of segment `j` of the spiral: 1, 1, 2, 2, 3, 3, ...
pub open spec fn segment_len(j: nat) -> nat {
    j / 2 + 1
}

/// Number of steps taken before segment `j` starts.
pub open spec fn segment_start(j: nat) -> nat
    decreases j,
{
    if j == 0 {
        0
    } else {
        segment_start((j - 1) as nat) + segment_len((j - 1) as nat)
    }
}

/// The segment that step `s` belongs to, when counting `s` from the start of segment `j`.
pub open spec fn segment_of_step_from(s: nat, j: nat) -> nat
    decreases s,
{
    if s < segment_len(j) {
        j
    } else {
        segment_of_step_from((s - segment_len(j)) as nat, j + 1)
    }
}

/// The segment that step `s` (counting from 0) belongs to.
pub open spec fn segment_of_step(s: nat) -> nat {
    segment_of_step_from(s, 0)
}

/// Direction `d` (0 right, 1 up, 2 left, 3 down) as a unit vector.
pub open spec fn direction(d: nat) -> (int, int) {
    if d == 0 {
        (1, 0)
    } else if d == 1 {
        (0, 1)
    } else if d == 2 {
        (-1, 0)
    } else {
        (0, -1)
    }
}

/// Direction of step `s`: segments turn counter-clockwise, starting to the right.
pub open spec fn step_direction(s: nat) -> (int, int) {
    direction(segment_of_step(s) % 4)
}

/// The point reached after `k` steps along the spiral.
pub open spec fn spiral_point(k: nat) -> (int, int)
    decreases k,
{
    if k == 0 {
        (0, 0)
    } else {
        let p = spiral_point((k - 1) as nat);
        let d = step_direction((k - 1) as nat);
        (p.0 + d.0, p.1 + d.1)
    }
}

/// The first `n` points of the spiral.
pub open spec fn spiral_seq(n: nat) -> Seq<(int, int)> {
    Seq::new(n, |k: int| spiral_point(k as nat))
}

/// The point at offset `t` of segment `j`, in closed form.
pub open spec fn segment_point(j: nat, t: nat) -> (int, int) {
    let m = (j / 4) as int;
    let r = j % 4;
    if r == 0 {
        (-m + t, -m)
    } else if r == 1 {
        (m + 1, -m + t)
    } else if r == 2 {
        (m + 1 - t, m + 1)
    } else {
        (-m - 1, m + 1 - t)
    }
}

// ---------------------------------------------------------------------------
// Lemmas about the spiral.
// ---------------------------------------------------------------------------
pub proof fn lemma_segment_start_monotonic(i: nat, j: nat)
    requires
        i <= j,
    ensures
        segment_start(i) <= segment_start(j),
    decreases j - i,
{
    if i < j {
        lemma_segment_start_monotonic(i, (j - 1) as nat);
    }
}

/// Counting from segment `i`, a step at offset `t` of a later segment `j` belongs to `j`.
proof fn lemma_segment_of_step_from(i: nat, j: nat, t: nat)
    requires
        i <= j,
        t < segment_len(j),
    ensures
        segment_of_step_from((segment_start(j) - segment_start(i) + t) as nat, i) == j,
    decreases j - i,
{
    if i < j {
        lemma_segment_start_monotonic(i + 1, j);
        assert(segment_start(i + 1) == segment_start(i) + segment_len(i));
        lemma_segment_of_step_from(i + 1, j, t);
    }
}

/// Step `segment_start(j) + t`, for `t` below the segment's length, belongs to segment `j`.
pub proof fn lemma_segment_of_step(j: nat, t: nat)
    requires
        t < segment_len(j),
    ensures
        segment_of_step(segment_start(j) + t) == j,
{
    lemma_segment_of_step_from(0, j, t);
}

/// Each step lies inside the segment that `segment_of_step_from` names for it.
proof fn lemma_segment_of_step_from_bounds(s: nat, i: nat)
    ensures
        i <= segment_of_step_from(s, i),
        segment_start(segment_of_step_from(s, i)) <= segment_start(i) + s,
        segment_start(i) + s < segment_start(segment_of_step_from(s, i)) + segment_len(
            segment_of_step_from(s, i),
        ),
    decreases s,
{
    if s >= segment_len(i) {
        lemma_segment_of_step_from_bounds((s - segment_len(i)) as nat, i + 1);
    }
}

/// Every step `s` has an offset `t` inside segment `segment_of_step(s)`.
pub proof fn lemma_step_decomposition(s: nat)
    ensures
        segment_start(segment_of_step(s)) <= s,
        s < segment_start(segment_of_step(s)) + segment_len(segment_of_step(s)),
{
    lemma_segment_of_step_from_bounds(s, 0);
}

/// The point at offset `t` of segment `j` is given by `segment_point`.
pub proof fn lemma_spiral_point_closed_form(j: nat, t: nat)
    requires
        t < segment_len(j),
    ensures
        spiral_point(segment_start(j) + t) == segment_point(j, t),
    decreases segment_start(j) + t,
{
    let k = segment_start(j) + t;
    if k == 0 {
        if j > 0 {
            lemma_segment_start_monotonic(1, j);
        }
    } else if t > 0 {
        lemma_spiral_point_closed_form(j, (t - 1) as nat);
        lemma_segment_of_step(j, (t - 1) as nat);
    } else {
        // First point of segment `j`: the previous step is the last one of segment `j - 1`.
        let i = (j - 1) as nat;
        let last = (segment_len(i) - 1) as nat;
        lemma_spiral_point_closed_form(i, last);
        lemma_segment_of_step(i, last);
        assert(segment_start(j) == segment_start(i) + segment_len(i));
    }
}

/// Segment `j` starts after `4m² + 2m` steps when `j = 4m`.
proof fn lemma_segment_start_of_ring(m: nat)
    ensures
        segment_start(4 * m) == 4 * m * m + 2 * m,
    decreases m,
{
    if m > 0 {
        let p = (m - 1) as nat;
        lemma_segment_start_of_ring(p);
        assert(4 * m == 4 * p + 4);
        assert(segment_start(4 * m) == segment_start(4 * p) + 8 * p + 6) by {
            assert(segment_start(4 * p + 1) == segment_start(4 * p) + 2 * p + 1);
            assert(segment_start(4 * p + 2) == segment_start(4 * p + 1) + 2 * p + 1);
            assert(segment_start(4 * p + 3) == segment_start(4 * p + 2) + 2 * p + 2);
            assert(segment_start(4 * p + 4) == segment_start(4 * p + 3) + 2 * p + 2);
        }
        assert(4 * m * m + 2 * m == 4 * p * p + 2 * p + 8 * p + 6) by (nonlinear_arith)
            requires
                m == p + 1,
        ;
    } else {
        assert(4 * m * m + 2 * m == 0) by (nonlinear_arith)
            requires
                m == 0,
        ;
        assert(segment_start(4 * m) == 0);
    }
}

/// A segment that starts within the first `2^60` steps has index below `2^31`, so its
/// points stay within `2^29 + 1` of the origin.
pub proof fn lemma_segment_index_bound(j: nat)
    requires
        segment_start(j) < 0x1000_0000_0000_0000,
    ensures
        j / 4 < 0x2000_0000,
{
    let m = j / 4;
    lemma_segment_start_monotonic(4 * m, j);
    lemma_segment_start_of_ring(m);
    if m >= 0x2000_0000 {
        assert(4 * m * m + 2 * m >= 0x1000_0000_0000_0000) by (nonlinear_arith)
            requires
                m >= 0x2000_0000,
        ;
    }
}

/// Every point reached within the first `2^60` steps has both coordinates within
/// `2^29 + 1` of the origin.
pub proof fn lemma_spiral_point_bound(k: nat)
    requires
        k < 0x1000_0000_0000_0000,
    ensures
        -0x2000_0001 <= spiral_point(k).0 <= 0x2000_0001,
        -0x2000_0001 <= spiral_point(k).1 <= 0x2000_0001,
{
    let j = segment_of_step(k);
    lemma_step_decomposition(k);
    let t = (k - segment_start(j)) as nat;
    lemma_spiral_point_closed_form(j, t);
    lemma_segment_index_bound(j);
}

/// Distinct offsets in segments give distinct points.
proof fn lemma_segment_point_injective(j1: nat, t1: nat, j2: nat, t2: nat)
    requires
        t1 < segment_len(j1),
        t2 < segment_len(j2),
        segment_point(j1, t1) == segment_point(j2, t2),
    ensures
        j1 == j2,
        t1 == t2,
{
    let m1 = j1 / 4;
    let m2 = j2 / 4;
    assert(j1 == 4 * m1 + j1 % 4);
    assert(j2 == 4 * m2 + j2 % 4);
}

/// The spiral never visits a cell twice.
pub proof fn lemma_spiral_points_distinct(a: nat, b: nat)
    requires
        a != b,
    ensures
        spiral_point(a) != spiral_point(b),
{
    let ja = segment_of_step(a);
    let jb = segment_of_step(b);
    lemma_step_decomposition(a);
    lemma_step_decomposition(b);
    let ta = (a - segment_start(ja)) as nat;
    let tb = (b - segment_start(jb)) as nat;
    lemma_spiral_point_closed_form(ja, ta);
    lemma_spiral_point_closed_form(jb, tb);
    if spiral_point(a) == spiral_point(b) {
        lemma_segment_point_injective(ja, ta, jb, tb);
    }
}

/// Consecutive cells of the spiral are neighbours: they differ by one unit step.
pub proof fn lemma_spiral_steps_are_unit(k: nat)
    ensures
        ({
            let p = spiral_point(k);
            let q = spiral_point(k + 1);
            let d = (q.0 - p.0, q.1 - p.1);
            d == (1int, 0int) || d == (0int, 1int) || d == (-1int, 0int) || d == (0int, -1int)
        }),
{
}

/// A shorter spiral is a prefix of a longer one.
pub proof fn lemma_spiral_prefix(n: nat, m: nat)
    requires
        n <= m,
    ensures
        spiral_seq(n) == spiral_seq(m).take(n as int),
{
    assert(spiral_seq(n) =~= spiral_seq(m).take(n as int));
}

// ---------------------------------------------------------------------------
// The board.
// ---------------------------------------------------------------------------
/// The mathematical view of a sequence of coordinates.
pub open spec fn coords_view(s: Seq<Coord>) -> Seq<(int, int)> {
    s.map_values(|c: Coord| c@)
}

/// Largest number of cells a board can have: its cells must fit in memory,
/// `n * size_of::<Coord>() <= isize::MAX`.
pub open spec fn board_fits_in_memory(n: nat) -> bool {
    n * 8 <= isize::MAX
}

/// The first cells of the spiral, in order.
pub struct Spiral {
    points: Vec<Coord>,
}

impl View for Spiral {
    type V = Seq<(int, int)>;

    closed spec fn view(&self) -> Seq<(int, int)> {
        coords_view(self.points@)
    }
}

impl Spiral {
    #[verifier::type_invariant]
    spec fn is_spiral(self) -> bool {
        &&& coords_view(self.points@) == spiral_seq(self.points@.len())
        &&& board_fits_in_memory(self.points@.len())
    }

    /// The first `n` cells of the spiral.
    pub fn new(n: usize) -> (s: Spiral)
        requires
            board_fits_in_memory(n as nat),
        ensures
            s@ == spiral_seq(n as nat),
    {
        let mut points: Vec<Coord> = Vec::with_capacity(n);
        if n == 0 {
            assert(coords_view(points@) =~= spiral_seq(0));
            return Spiral { points };
        }
        points.push(Coord::new(0, 0));

        let mut x: i32 = 0;
        let mut y: i32 = 0;
        let mut step_count: usize = 1;
        let ghost mut ring: nat = 0;
        while points.len() < n
            invariant
                board_fits_in_memory(n as nat),
                1 <= points.len() <= n,
                step_count == segment_len(4 * ring),
                points.len() == segment_start(4 * ring) + 1,
                (x as int, y as int) == segment_point(4 * ring, 0),
                points@[points.len() - 1]@ == (x as int, y as int),
                forall|i: int| 0 <= i < points.len() ==> #[trigger] points@[i]@ == spiral_point(i as nat),
            decreases n - points.len(),
        {
            let ghost len_before = points.len();
            let mut d: usize = 0;
            while d < 4
                invariant
                    board_fits_in_memory(n as nat),
                    d <= 4,
                    1 <= points.len() <= n,
                    points.len() >= len_before,
                    d > 0 ==> points.len() > len_before,
                    points@[points.len() - 1]@ == (x as int, y as int),
                    step_count == segment_len((4 * ring + d) as nat),
                    points.len() == segment_start((4 * ring + d) as nat) + 1,
                    (x as int, y as int) == segment_point((4 * ring + d) as nat, 0),
                    forall|i: int| 0 <= i < points.len() ==> #[trigger] points@[i]@ == spiral_point(i as nat),
                decreases 4 - d,
            {
                let ghost j: nat = (4 * ring + d) as nat;
                let (dx, dy) = unit_step(d);
                let mut t: usize = 0;
                while t < step_count
                    invariant
                        board_fits_in_memory(n as nat),
                        d < 4,
                        j == 4 * ring + d,
                        (dx as int, dy as int) == direction(d as nat),
                        t <= step_count,
                        step_count == segment_len(j),
                        1 <= points.len() <= n,
                        points.len() == segment_start(j) + t + 1,
                        len_before <= segment_start(j) + 1,
                        points@[points.len() - 1]@ == (x as int, y as int),
                        (x as int, y as int) == segment_point(j, t as nat),
                        forall|i: int| 0 <= i < points.len() ==> #[trigger] points@[i]@ == spiral_point(i as nat),
                    decreases step_count - t,
                {
                    if points.len() == n {
                        proof {
                            assert(coords_view(points@) =~= spiral_seq(n as nat));
                        }
                        return Spiral { points };
                    }
                    let ghost k: nat = (points.len() - 1) as nat;
                    proof {
                        lemma_segment_of_step(j, t as nat);
                        lemma_spiral_point_bound(k);
                        assert(points@[k as int]@ == spiral_point(k));
                    }
                    x = x + dx;
                    y = y + dy;
                    points.push(Coord::new(x, y));
                    t += 1;
                }
                proof {
                    lemma_segment_index_bound(j);
                }
                if dx == 0 {
                    step_count += 1;
                }
                d += 1;
            }
            proof {
                ring = ring + 1;
            }
        }
        proof {
            assert(coords_view(points@) =~= spiral_seq(n as nat));
        }
        Spiral { points }
    }

    /// The cells in spiral order; the board is always a prefix of the spiral.
    pub fn points(&self) -> (r: &[Coord])
        ensures
            coords_view(r@) == self@,
            self@ == spiral_seq(self@.len()),
            board_fits_in_memory(self@.len()),
    {
        proof {
            use_type_invariant(self);
        }
        self.points.as_slice()
    }
}

/// Direction `d` of the spiral as an executable unit step.
fn unit_step(d: usize) -> (r: (i32, i32))
    requires
        d < 4,
    ensures
        (r.0 as int, r.1 as int) == direction(d as nat),
{
    if d == 0 {
        (1, 0)
    } else if d == 1 {
        (0, 1)
    } else if d == 2 {
        (-1, 0)
    } else {
        (0, -1)
    }
}

} // verus!
