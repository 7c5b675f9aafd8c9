use vstd::prelude::*;
use crate::quadrant::Quadrant;

verus! {

/// A point mass on the integer lattice.
#[derive(Copy, Clone, Debug, PartialEq, Eq, Structural)]
pub struct MassData {
    pub x: i64,
    pub y: i64,
    pub mass: u64,
}

/// The exact aggregate of a set of points: total mass and the sums of
/// `mass * x` and `mass * y`. The centre of mass is `moment / mass`.
#[derive(Copy, Clone, Debug, PartialEq, Eq, Structural)]
pub struct Aggregate {
    pub mass: u64,
    pub moment_x: i128,
    pub moment_y: i128,
}

/// The fixed parameters of the Barnes-Hut acceptance test. A node of scale
/// `s` whose centre of mass, rounded down to the lattice, lies at softened
/// distance `d` from the target,
/// `d^2 = softening + |centre - target|^2`, stands for its whole subtree when
/// `s / d < theta_num / theta_den`. A larger theta accepts more and is less
/// accurate; a zero theta never accepts an inner node.
#[derive(Copy, Clone, Debug, PartialEq, Eq, Structural)]
pub struct Accuracy {
    pub theta_num: u16,
    pub theta_den: u16,
    pub softening: u64,
}

/// Sum of the masses in a sequence of aggregates.
pub open spec fn cut_mass(s: Seq<Aggregate>) -> int
    decreases s.len(),
{
    if s.len() == 0 {
        0
    } else {
        cut_mass(s.drop_last()) + s.last().mass
    }
}

/// Sum of the first moments in x of a sequence of aggregates.
pub open spec fn cut_moment_x(s: Seq<Aggregate>) -> int
    decreases s.len(),
{
    if s.len() == 0 {
        0
    } else {
        cut_moment_x(s.drop_last()) + s.last().moment_x
    }
}

/// Sum of the first moments in y of a sequence of aggregates.
pub open spec fn cut_moment_y(s: Seq<Aggregate>) -> int
    decreases s.len(),
{
    if s.len() == 0 {
        0
    } else {
        cut_moment_y(s.drop_last()) + s.last().moment_y
    }
}

/// Sum of the masses of a sequence of points.
pub open spec fn total_mass(s: Seq<MassData>) -> int
    decreases s.len(),
{
    if s.len() == 0 {
        0
    } else {
        total_mass(s.drop_last()) + s.last().mass
    }
}

/// Sum of `mass * x` over a sequence of points.
pub open spec fn moment_x(s: Seq<MassData>) -> int
    decreases s.len(),
{
    if s.len() == 0 {
        0
    } else {
        moment_x(s.drop_last()) + s.last().mass * s.last().x
    }
}

/// Sum of `mass * y` over a sequence of points.
pub open spec fn moment_y(s: Seq<MassData>) -> int
    decreases s.len(),
{
    if s.len() == 0 {
        0
    } else {
        moment_y(s.drop_last()) + s.last().mass * s.last().y
    }
}

/// Whether `(x, y)` lies in the half-open square `[ox, ox + scale)` on both axes.
pub open spec fn in_square(ox: int, oy: int, scale: int, x: int, y: int) -> bool {
    ox <= x < ox + scale && oy <= y < oy + scale
}

/// The points of `s`, in order, that lie in the square and carry mass:
/// exactly the points that inserting `s` into an empty node of that square
/// records.
pub open spec fn kept(s: Seq<MassData>, ox: int, oy: int, scale: int) -> Seq<MassData>
    decreases s.len(),
{
    if s.len() == 0 {
        Seq::empty()
    } else {
        let p = s.last();
        if in_square(ox, oy, scale, p.x as int, p.y as int) && p.mass > 0 {
            kept(s.drop_last(), ox, oy, scale).push(p)
        } else {
            kept(s.drop_last(), ox, oy, scale)
        }
    }
}

/// The quadrant of the square `[ox, ox + scale)` into which the lattice point
/// `(x, y)` falls. The point is measured from the centre of its unit cell,
/// which never lies on a split line, so a point of the square always falls
/// into a quadrant whose child square contains it.
pub open spec fn quadrant_in(ox: int, oy: int, scale: int, x: int, y: int) -> Quadrant {
    Quadrant::of_halves(2 * (x - ox) + 1 > scale, 2 * (y - oy) + 1 > scale)
}

/// The points of `s`, in order, that fall into quadrant `q` of the square.
pub open spec fn routed(s: Seq<MassData>, ox: int, oy: int, scale: int, q: Quadrant) -> Seq<
    MassData,
>
    decreases s.len(),
{
    if s.len() == 0 {
        Seq::empty()
    } else {
        let p = s.last();
        if quadrant_in(ox, oy, scale, p.x as int, p.y as int) == q {
            routed(s.drop_last(), ox, oy, scale, q).push(p)
        } else {
            routed(s.drop_last(), ox, oy, scale, q)
        }
    }
}

/// Appending a point appends it to the points of its own quadrant only.
pub proof fn lemma_routed_push(
    s: Seq<MassData>,
    p: MassData,
    ox: int,
    oy: int,
    scale: int,
    q: Quadrant,
)
    ensures
        routed(s.push(p), ox, oy, scale, q) == (if quadrant_in(
            ox,
            oy,
            scale,
            p.x as int,
            p.y as int,
        ) == q {
            routed(s, ox, oy, scale, q).push(p)
        } else {
            routed(s, ox, oy, scale, q)
        }),
{
    assert(s.push(p).drop_last() =~= s);
}

/// Points that all stand at one position: their moments are the total mass
/// times that position, and they all fall into the quadrant of it.
pub proof fn lemma_same_position(s: Seq<MassData>, x: int, y: int, ox: int, oy: int, scale: int)
    requires
        forall|i: int| 0 <= i < s.len() ==> (#[trigger] s[i]).x == x && s[i].y == y,
    ensures
        moment_x(s) == total_mass(s) * x,
        moment_y(s) == total_mass(s) * y,
        forall|q: Quadrant|
            #[trigger] routed(s, ox, oy, scale, q) == (if q == quadrant_in(ox, oy, scale, x, y) {
                s
            } else {
                Seq::<MassData>::empty()
            }),
    decreases s.len(),
{
    if s.len() > 0 {
        let s0 = s.drop_last();
        assert forall|i: int| 0 <= i < s0.len() implies (#[trigger] s0[i]).x == x && s0[i].y
            == y by {
            assert(s0[i] == s[i]);
        }
        lemma_same_position(s0, x, y, ox, oy, scale);
        let m = s.last().mass as int;
        let t = total_mass(s0);
        assert(t * x + m * x == (t + m) * x) by (nonlinear_arith);
        assert(t * y + m * y == (t + m) * y) by (nonlinear_arith);
        assert(s0.push(s.last()) =~= s);
        assert(s.last() == s[s.len() - 1]);
        assert forall|q: Quadrant|
            #[trigger] routed(s, ox, oy, scale, q) == (if q == quadrant_in(ox, oy, scale, x, y) {
                s
            } else {
                Seq::<MassData>::empty()
            }) by {
            assert(routed(s0, ox, oy, scale, q) == (if q == quadrant_in(ox, oy, scale, x, y) {
                s0
            } else {
                Seq::<MassData>::empty()
            }));
        }
    } else {
        assert forall|q: Quadrant|
            #[trigger] routed(s, ox, oy, scale, q) == (if q == quadrant_in(ox, oy, scale, x, y) {
                s
            } else {
                Seq::<MassData>::empty()
            }) by {
            assert(s =~= Seq::<MassData>::empty());
        }
    }
}

/// The sums over a sequence grow by the point appended to it.
pub proof fn lemma_push_totals(s: Seq<MassData>, p: MassData)
    ensures
        total_mass(s.push(p)) == total_mass(s) + p.mass,
        moment_x(s.push(p)) == moment_x(s) + p.mass * p.x,
        moment_y(s.push(p)) == moment_y(s) + p.mass * p.y,
{
    assert(s.push(p).drop_last() =~= s);
}

/// Adding a point of mass `m` at coordinate `x` to an aggregate of mass
/// `m0` and relative moment `r0` about `o` adds `m * x` to the moment, and
/// keeps the relative moment within the square.
proof fn lemma_aggregate_step(o: int, scale: int, m0: int, r0: int, m: int, x: int)
    requires
        0 <= m0,
        0 <= m,
        o <= x < o + scale,
        0 <= r0 <= m0 * (scale - 1),
    ensures
        o * (m0 + m) + (r0 + m * (x - o)) == (o * m0 + r0) + m * x,
        r0 + m * (x - o) <= (m0 + m) * (scale - 1),
{
    assert(o * (m0 + m) + (r0 + m * (x - o)) == (o * m0 + r0) + m * x) by (nonlinear_arith);
    assert(m * (x - o) <= m * (scale - 1)) by (nonlinear_arith)
        requires
            0 <= m,
            x - o <= scale - 1,
    ;
    assert((m0 + m) * (scale - 1) == m0 * (scale - 1) + m * (scale - 1)) by (nonlinear_arith);
}

/// The quarter of a square that `Node::quadrant_of` picks for a point of
/// the square contains that point.
proof fn lemma_quadrant_square(ox: int, oy: int, scale: int, x: int, y: int)
    requires
        2 <= scale,
        in_square(ox, oy, scale, x, y),
    ensures
        ({
            let hx = 2 * (x - ox) + 1 > scale;
            let hy = 2 * (y - oy) + 1 > scale;
            in_square(
                ox + (if hx { scale / 2 } else { 0 }),
                oy + (if hy { scale / 2 } else { 0 }),
                scale - scale / 2,
                x,
                y,
            )
        }),
{
}

/// A mass times a distance across a square fits well inside `u128`.
proof fn lemma_product_bound(m: int, d: int)
    requires
        0 <= m <= u64::MAX,
        0 <= d <= u32::MAX,
    ensures
        0 <= m * d <= u64::MAX * u32::MAX,
{
    assert(0 <= m * d <= u64::MAX * u32::MAX) by (nonlinear_arith)
        requires
            0 <= m <= u64::MAX,
            0 <= d <= u32::MAX,
    ;
}

/// A quotient of a relative moment by its mass stays in the square.
proof fn lemma_div_below(rel: int, mass: int, k: int)
    requires
        0 < mass,
        0 <= k,
        0 <= rel <= mass * k,
    ensures
        0 <= rel / mass <= k,
{
    assert(0 <= rel / mass <= k) by (nonlinear_arith)
        requires
            0 < mass,
            0 <= k,
            0 <= rel <= mass * k,
    ;
}

/// The square of a distance within a frame of at most `u32::MAX`.
proof fn lemma_square_bound(d: int)
    requires
        -(u32::MAX as int) <= d <= u32::MAX,
    ensures
        0 <= d * d <= u32::MAX * u32::MAX,
{
    assert(0 <= d * d <= u32::MAX * u32::MAX) by (nonlinear_arith)
        requires
            -(u32::MAX as int) <= d <= u32::MAX,
    ;
}

/// Both sides of the acceptance test fit in `u128`.
proof fn lemma_test_bounds(s: int, num: int, den: int, soft: int, d2: int)
    requires
        0 <= s <= u32::MAX,
        0 <= num <= u16::MAX,
        0 <= den <= u16::MAX,
        0 <= soft <= u64::MAX,
        0 <= d2 <= 2 * (u32::MAX * u32::MAX),
    ensures
        0 <= s * s <= u32::MAX * u32::MAX,
        0 <= den * den <= u16::MAX * u16::MAX,
        0 <= num * num <= u16::MAX * u16::MAX,
        0 <= s * s * (den * den) <= u128::MAX,
        0 <= num * num * (soft + d2) <= u128::MAX,
{
    assert(0 <= s * s <= u32::MAX * u32::MAX) by (nonlinear_arith)
        requires
            0 <= s <= u32::MAX,
    ;
    assert(0 <= den * den <= u16::MAX * u16::MAX) by (nonlinear_arith)
        requires
            0 <= den <= u16::MAX,
    ;
    assert(0 <= num * num <= u16::MAX * u16::MAX) by (nonlinear_arith)
        requires
            0 <= num <= u16::MAX,
    ;
    assert(0 <= s * s * (den * den) <= u128::MAX) by (nonlinear_arith)
        requires
            0 <= s * s <= u32::MAX * u32::MAX,
            0 <= den * den <= u16::MAX * u16::MAX,
    ;
    assert(0 <= num * num * (soft + d2) <= u128::MAX) by (nonlinear_arith)
        requires
            0 <= num * num <= u16::MAX * u16::MAX,
            0 <= soft + d2 <= u64::MAX + 2 * (u32::MAX * u32::MAX),
    ;
}

/// One node of the quadtree: a square region `[origin, origin + scale)` on
/// both axes, the exact aggregate of every point inserted below it, and up
/// to four children, one per quadrant.
///
/// The aggregate is kept as the total mass and the first moments relative
/// to the node's lower corner, so the centre of mass is `origin + rel / mass`
/// with no rounding in the tree itself.
pub struct Node {
    origin_x: i64,
    origin_y: i64,
    scale: u32,
    mass: u64,
    rel_x: u128,
    rel_y: u128,
    occupant_x: i64,
    occupant_y: i64,
    leaf: bool,
    north_west: Option<Box<Node>>,
    north_east: Option<Box<Node>>,
    south_west: Option<Box<Node>>,
    south_east: Option<Box<Node>>,
    contents: Ghost<Seq<MassData>>,
}

/// First moment in x of an optional child; an absent child adds nothing.
pub closed spec fn opt_moment_x(c: Option<Box<Node>>) -> int {
    match c {
        Some(b) => b.spec_moment_x(),
        None => 0,
    }
}

/// First moment in y of an optional child.
pub closed spec fn opt_moment_y(c: Option<Box<Node>>) -> int {
    match c {
        Some(b) => b.spec_moment_y(),
        None => 0,
    }
}

/// Points recorded in an optional child; an absent child holds none.
pub closed spec fn opt_contents(c: Option<Box<Node>>) -> Seq<MassData> {
    match c {
        Some(b) => b.contents@,
        None => Seq::empty(),
    }
}

/// The cut of an optional child; an absent child adds nothing.
pub open spec fn opt_cut(c: Option<Box<Node>>, tx: int, ty: int, acc: Accuracy) -> Seq<Aggregate> {
    match c {
        Some(b) => b.cut(tx, ty, acc),
        None => Seq::empty(),
    }
}

/// Mass of an optional child; an absent child weighs nothing.
pub closed spec fn opt_mass(c: Option<Box<Node>>) -> int {
    match c {
        Some(b) => b.mass as int,
        None => 0,
    }
}

impl Node {
    pub closed spec fn spec_origin_x(&self) -> int {
        self.origin_x as int
    }

    pub closed spec fn spec_origin_y(&self) -> int {
        self.origin_y as int
    }

    pub closed spec fn spec_scale(&self) -> int {
        self.scale as int
    }

    pub closed spec fn spec_mass(&self) -> int {
        self.mass as int
    }

    pub closed spec fn spec_leaf(&self) -> bool {
        self.leaf
    }

    /// Every point inserted into this node, directly or through its parent,
    /// in the order of insertion. A point that a leaf hands down to a new
    /// child when it splits stands there as one point with its merged mass.
    pub closed spec fn spec_contents(&self) -> Seq<MassData> {
        self.contents@
    }

    /// First moment in x of everything below this node: the sum of
    /// `mass * x`.
    pub closed spec fn spec_moment_x(&self) -> int {
        self.origin_x * self.mass + self.rel_x
    }

    /// First moment in y of everything below this node.
    pub closed spec fn spec_moment_y(&self) -> int {
        self.origin_y * self.mass + self.rel_y
    }

    pub open spec fn spec_contains(&self, x: int, y: int) -> bool {
        in_square(self.spec_origin_x(), self.spec_origin_y(), self.spec_scale(), x, y)
    }

    pub closed spec fn child(&self, q: Quadrant) -> Option<Box<Node>> {
        match q {
            Quadrant::NorthWest => self.north_west,
            Quadrant::NorthEast => self.north_east,
            Quadrant::SouthWest => self.south_west,
            Quadrant::SouthEast => self.south_east,
        }
    }

    /// The quadrant of this node into which a lattice point falls.
    pub open spec fn quadrant_of(&self, x: int, y: int) -> Quadrant {
        quadrant_in(self.spec_origin_x(), self.spec_origin_y(), self.spec_scale(), x, y)
    }

    /// The points inserted into this node that fall into quadrant `q`.
    pub open spec fn routed_to(&self, q: Quadrant) -> Seq<MassData> {
        routed(
            self.spec_contents(),
            self.spec_origin_x(),
            self.spec_origin_y(),
            self.spec_scale(),
            q,
        )
    }

    /// Lower corner in x of the child square of quadrant `q`.
    pub open spec fn child_origin_x(&self, q: Quadrant) -> int {
        self.spec_origin_x() + (if q.high_x() { self.spec_scale() / 2 } else { 0 })
    }

    /// Lower corner in y of the child square of quadrant `q`.
    pub open spec fn child_origin_y(&self, q: Quadrant) -> int {
        self.spec_origin_y() + (if q.high_y() { self.spec_scale() / 2 } else { 0 })
    }

    /// Side of a child square: half the side, rounded up. For an odd side
    /// the lower and upper children share one lattice line; `quadrant_of`
    /// still sends every point to exactly one of them.
    pub open spec fn child_scale(&self) -> int {
        self.spec_scale() - self.spec_scale() / 2
    }

    /// Whether `c` sits correctly as the child of this node in quadrant `q`:
    /// it has the child square of that quadrant and holds some mass.
    pub open spec fn fits(&self, c: Node, q: Quadrant) -> bool {
        &&& c.spec_origin_x() == self.child_origin_x(q)
        &&& c.spec_origin_y() == self.child_origin_y(q)
        &&& c.spec_scale() == self.child_scale()
        &&& c.spec_mass() > 0
    }

    /// The aggregate matches the recorded points, which all lie in the
    /// square.
    pub closed spec fn aggregate_ok(&self) -> bool {
        let s = self.contents@;
        &&& 1 <= self.scale
        &&& self.origin_x + self.scale <= i64::MAX
        &&& self.origin_y + self.scale <= i64::MAX
        &&& self.mass == total_mass(s)
        &&& self.spec_moment_x() == moment_x(s)
        &&& self.spec_moment_y() == moment_y(s)
        &&& self.rel_x <= self.mass * (self.scale - 1)
        &&& self.rel_y <= self.mass * (self.scale - 1)
        &&& forall|i: int|
            0 <= i < s.len() ==> (#[trigger] s[i]).mass > 0 && self.spec_contains(
                s[i].x as int,
                s[i].y as int,
            )
    }

    /// Facts about this node alone.
    pub closed spec fn local_wf(&self) -> bool {
        let s = self.contents@;
        &&& self.aggregate_ok()
        &&& self.leaf ==> {
            &&& self.north_west is None
            &&& self.north_east is None
            &&& self.south_west is None
            &&& self.south_east is None
            &&& self.mass > 0 ==> self.spec_contains(
                self.occupant_x as int,
                self.occupant_y as int,
            )
            &&& self.spec_moment_x() == self.mass * self.occupant_x
            &&& self.spec_moment_y() == self.mass * self.occupant_y
            &&& forall|i: int|
                0 <= i < s.len() ==> (#[trigger] s[i]).x == self.occupant_x && s[i].y
                    == self.occupant_y
        }
        &&& (self.mass == 0) == (s.len() == 0)
        &&& !self.leaf ==> {
            &&& 2 <= self.scale
            &&& self.mass > 0
            &&& exists|i: int|
                0 <= i < s.len() && ((#[trigger] s[i]).x != s[0].x || s[i].y != s[0].y)
            &&& self.mass == opt_mass(self.north_west) + opt_mass(self.north_east) + opt_mass(
                self.south_west,
            ) + opt_mass(self.south_east)
            &&& self.spec_moment_x() == opt_moment_x(self.north_west) + opt_moment_x(
                self.north_east,
            ) + opt_moment_x(self.south_west) + opt_moment_x(self.south_east)
            &&& self.spec_moment_y() == opt_moment_y(self.north_west) + opt_moment_y(
                self.north_east,
            ) + opt_moment_y(self.south_west) + opt_moment_y(self.south_east)
        }
    }

    /// The four slots as `wf` asks them to be, for an inner node.
    closed spec fn slots_ok(&self) -> bool {
        &&& match self.north_west {
            Some(c) => c.wf() && self.fits(*c, Quadrant::NorthWest) && c.contents@ == self.routed_to(
                Quadrant::NorthWest,
            ),
            None => self.routed_to(Quadrant::NorthWest).len() == 0,
        }
        &&& match self.north_east {
            Some(c) => c.wf() && self.fits(*c, Quadrant::NorthEast) && c.contents@ == self.routed_to(
                Quadrant::NorthEast,
            ),
            None => self.routed_to(Quadrant::NorthEast).len() == 0,
        }
        &&& match self.south_west {
            Some(c) => c.wf() && self.fits(*c, Quadrant::SouthWest) && c.contents@ == self.routed_to(
                Quadrant::SouthWest,
            ),
            None => self.routed_to(Quadrant::SouthWest).len() == 0,
        }
        &&& match self.south_east {
            Some(c) => c.wf() && self.fits(*c, Quadrant::SouthEast) && c.contents@ == self.routed_to(
                Quadrant::SouthEast,
            ),
            None => self.routed_to(Quadrant::SouthEast).len() == 0,
        }
        &&& self.mass == opt_mass(self.north_west) + opt_mass(self.north_east) + opt_mass(
            self.south_west,
        ) + opt_mass(self.south_east)
        &&& self.spec_moment_x() == opt_moment_x(self.north_west) + opt_moment_x(self.north_east)
            + opt_moment_x(self.south_west) + opt_moment_x(self.south_east)
        &&& self.spec_moment_y() == opt_moment_y(self.north_west) + opt_moment_y(self.north_east)
            + opt_moment_y(self.south_west) + opt_moment_y(self.south_east)
    }

    /// Well-formedness of the whole subtree.
    pub closed spec fn wf(&self) -> bool
        decreases self,
    {
        &&& self.local_wf()
        &&& match self.north_west {
            Some(c) => c.wf() && self.fits(*c, Quadrant::NorthWest) && c.contents@ == self.routed_to(
                Quadrant::NorthWest,
            ),
            None => self.leaf || self.routed_to(Quadrant::NorthWest).len() == 0,
        }
        &&& match self.north_east {
            Some(c) => c.wf() && self.fits(*c, Quadrant::NorthEast) && c.contents@ == self.routed_to(
                Quadrant::NorthEast,
            ),
            None => self.leaf || self.routed_to(Quadrant::NorthEast).len() == 0,
        }
        &&& match self.south_west {
            Some(c) => c.wf() && self.fits(*c, Quadrant::SouthWest) && c.contents@ == self.routed_to(
                Quadrant::SouthWest,
            ),
            None => self.leaf || self.routed_to(Quadrant::SouthWest).len() == 0,
        }
        &&& match self.south_east {
            Some(c) => c.wf() && self.fits(*c, Quadrant::SouthEast) && c.contents@ == self.routed_to(
                Quadrant::SouthEast,
            ),
            None => self.leaf || self.routed_to(Quadrant::SouthEast).len() == 0,
        }
    }

    /// An empty root covering `[origin, origin + scale)` on both axes.
    pub fn new_root(origin_x: i64, origin_y: i64, scale: u32) -> (r: Node)
        requires
            1 <= scale,
            origin_x + scale <= i64::MAX,
            origin_y + scale <= i64::MAX,
        ensures
            r.wf(),
            r.spec_origin_x() == origin_x,
            r.spec_origin_y() == origin_y,
            r.spec_scale() == scale,
            r.spec_mass() == 0,
            r.spec_moment_x() == 0,
            r.spec_moment_y() == 0,
            r.spec_leaf(),
            r.spec_contents() == Seq::<MassData>::empty(),
    {
        Node {
            origin_x,
            origin_y,
            scale,
            mass: 0,
            rel_x: 0,
            rel_y: 0,
            occupant_x: origin_x,
            occupant_y: origin_y,
            leaf: true,
            north_west: None,
            north_east: None,
            south_west: None,
            south_east: None,
            contents: Ghost(Seq::empty()),
        }
    }

    /// Whether the point lies in this node's square.
    pub fn contains(&self, x: i64, y: i64) -> (r: bool)
        ensures
            r == self.spec_contains(x as int, y as int),
    {
        let ox = self.origin_x as i128;
        let oy = self.origin_y as i128;
        let s = self.scale as i128;
        ox <= x as i128 && (x as i128) < ox + s && oy <= y as i128 && (y as i128) < oy + s
    }

    /// Whether this node is a leaf: it holds at most one position and has no
    /// children.
    pub fn is_leaf(&self) -> (r: bool)
        ensures
            r == self.spec_leaf(),
    {
        self.leaf
    }

    /// A leaf at `(x, y)` holding the points `contents`, which all stand
    /// there and weigh `mass` together.
    fn leaf_at(
        origin_x: i64,
        origin_y: i64,
        scale: u32,
        x: i64,
        y: i64,
        mass: u64,
        contents: Ghost<Seq<MassData>>,
    ) -> (r: Node)
        requires
            1 <= scale,
            origin_x + scale <= i64::MAX,
            origin_y + scale <= i64::MAX,
            in_square(origin_x as int, origin_y as int, scale as int, x as int, y as int),
            mass > 0,
            contents@.len() > 0,
            total_mass(contents@) == mass,
            forall|i: int|
                0 <= i < contents@.len() ==> (#[trigger] contents@[i]).x == x && contents@[i].y
                    == y && contents@[i].mass > 0,
        ensures
            r.wf(),
            r.origin_x == origin_x,
            r.origin_y == origin_y,
            r.scale == scale,
            r.mass == mass,
            r.spec_moment_x() == mass * x,
            r.spec_moment_y() == mass * y,
            r.leaf,
            r.occupant_x == x,
            r.occupant_y == y,
            r.contents@ == contents@,
    {
        let dx = (x as i128 - origin_x as i128) as u128;
        let dy = (y as i128 - origin_y as i128) as u128;
        proof {
            lemma_product_bound(mass as int, dx as int);
            lemma_product_bound(mass as int, dy as int);
            lemma_same_position(contents@, x as int, y as int, 0, 0, 1);
        }
        let r = Node {
            origin_x,
            origin_y,
            scale,
            mass,
            rel_x: mass as u128 * dx,
            rel_y: mass as u128 * dy,
            occupant_x: x,
            occupant_y: y,
            leaf: true,
            north_west: None,
            north_east: None,
            south_west: None,
            south_east: None,
            contents,
        };
        proof {
            assert(r.spec_moment_x() == mass * x) by (nonlinear_arith)
                requires
                    r.spec_moment_x() == origin_x * mass + mass * dx,
                    dx == x - origin_x,
            ;
            assert(r.spec_moment_y() == mass * y) by (nonlinear_arith)
                requires
                    r.spec_moment_y() == origin_y * mass + mass * dy,
                    dy == y - origin_y,
            ;
            assert(mass * dx <= mass * (scale - 1)) by (nonlinear_arith)
                requires
                    dx <= scale - 1,
            ;
            assert(mass * dy <= mass * (scale - 1)) by (nonlinear_arith)
                requires
                    dy <= scale - 1,
            ;
        }
        r
    }

    /// A new leaf holding the point `p`, with the square of the child in
    /// quadrant `quadrant` of `parent`.
    pub fn new_child(parent: &Node, quadrant: Quadrant, p: MassData) -> (r: Node)
        requires
            parent.wf(),
            parent.spec_scale() >= 2,
            in_square(
                parent.child_origin_x(quadrant),
                parent.child_origin_y(quadrant),
                parent.child_scale(),
                p.x as int,
                p.y as int,
            ),
            p.mass > 0,
        ensures
            r.wf(),
            r.spec_origin_x() == parent.child_origin_x(quadrant),
            r.spec_origin_y() == parent.child_origin_y(quadrant),
            r.spec_scale() == parent.child_scale(),
            parent.fits(r, quadrant),
            r.spec_leaf(),
            r.spec_mass() == p.mass,
            r.spec_moment_x() == p.mass * p.x,
            r.spec_moment_y() == p.mass * p.y,
            r.spec_contents() == seq![p],
    {
        let (hx, hy) = quadrant.offset();
        let half = parent.scale / 2;
        let ox = parent.origin_x + (hx * half) as i64;
        let oy = parent.origin_y + (hy * half) as i64;
        proof {
            lemma_push_totals(Seq::empty(), p);
            assert(Seq::<MassData>::empty().push(p) =~= seq![p]);
        }
        Node::leaf_at(ox, oy, parent.scale - half, p.x, p.y, p.mass, Ghost(Seq::empty().push(p)))
    }

    /// Lower corner and side of the child square of quadrant `q`.
    fn child_square(&self, q: Quadrant) -> (r: (i64, i64, u32))
        requires
            self.aggregate_ok(),
        ensures
            r.0 == self.child_origin_x(q),
            r.1 == self.child_origin_y(q),
            r.2 == self.child_scale(),
    {
        let (hx, hy) = q.offset();
        let half = self.scale / 2;
        let cx = self.origin_x + (hx * half) as i64;
        let cy = self.origin_y + (hy * half) as i64;
        (cx, cy, self.scale - half)
    }

    /// The quadrant of this node into which the point falls.
    fn quadrant_for(&self, x: i64, y: i64) -> (r: Quadrant)
        requires
            1 <= self.scale,
            self.origin_x + self.scale <= i64::MAX,
            self.origin_y + self.scale <= i64::MAX,
            self.spec_contains(x as int, y as int),
        ensures
            r == self.quadrant_of(x as int, y as int),
    {
        let dx = x - self.origin_x;
        let dy = y - self.origin_y;
        Quadrant::from_offset(2 * dx + 1, 2 * dy + 1, 2 * self.scale as u64)
    }

    /// Inserts `p` into the child held by `slot`, creating that child as a
    /// leaf of the given square when the slot is empty.
    fn insert_into_slot(
        slot: &mut Option<Box<Node>>,
        origin_x: i64,
        origin_y: i64,
        scale: u32,
        p: MassData,
    )
        requires
            1 <= scale,
            origin_x + scale <= i64::MAX,
            origin_y + scale <= i64::MAX,
            in_square(origin_x as int, origin_y as int, scale as int, p.x as int, p.y as int),
            p.mass > 0,
            match *old(slot) {
                Some(c) => {
                    &&& c.wf()
                    &&& c.origin_x == origin_x
                    &&& c.origin_y == origin_y
                    &&& c.scale == scale
                    &&& c.mass + p.mass <= u64::MAX
                },
                None => true,
            },
        ensures
            match *final(slot) {
                Some(c) => {
                    &&& c.wf()
                    &&& c.origin_x == origin_x
                    &&& c.origin_y == origin_y
                    &&& c.scale == scale
                    &&& c.mass == opt_mass(*old(slot)) + p.mass
                    &&& c.spec_moment_x() == opt_moment_x(*old(slot)) + p.mass * p.x
                    &&& c.spec_moment_y() == opt_moment_y(*old(slot)) + p.mass * p.y
                    &&& c.contents@ == opt_contents(*old(slot)).push(p)
                    &&& (*old(slot) is None ==> c.leaf)
                },
                None => false,
            },
        decreases scale as int, 2nat,
    {
        match slot.take() {
            None => {
                proof {
                    lemma_push_totals(Seq::empty(), p);
                    assert(Seq::<MassData>::empty().push(p) =~= seq![p]);
                }
                let c = Node::leaf_at(origin_x, origin_y, scale, p.x, p.y, p.mass, Ghost(Seq::empty().push(p)));
                *slot = Some(Box::new(c));
            },
            Some(mut b) => {
                (&mut *b).insert(p);
                *slot = Some(b);
            },
        }
    }

    /// Takes the point into this node's aggregate and contents, and nothing
    /// else.
    fn absorb(&mut self, p: MassData)
        requires
            old(self).aggregate_ok(),
            old(self).spec_contains(p.x as int, p.y as int),
            old(self).mass + p.mass <= u64::MAX,
            p.mass > 0,
        ensures
            final(self).mass == old(self).mass + p.mass,
            final(self).rel_x <= final(self).mass * (final(self).scale - 1),
            final(self).rel_y <= final(self).mass * (final(self).scale - 1),
            final(self).aggregate_ok(),
            final(self).spec_moment_x() == old(self).spec_moment_x() + p.mass * p.x,
            final(self).spec_moment_y() == old(self).spec_moment_y() + p.mass * p.y,
            final(self).contents@ == old(self).contents@.push(p),
            total_mass(final(self).contents@) == total_mass(old(self).contents@) + p.mass,
            moment_x(final(self).contents@) == moment_x(old(self).contents@) + p.mass * p.x,
            moment_y(final(self).contents@) == moment_y(old(self).contents@) + p.mass * p.y,
            final(self).origin_x == old(self).origin_x,
            final(self).origin_y == old(self).origin_y,
            final(self).scale == old(self).scale,
            final(self).occupant_x == old(self).occupant_x,
            final(self).occupant_y == old(self).occupant_y,
            final(self).leaf == old(self).leaf,
            final(self).north_west == old(self).north_west,
            final(self).north_east == old(self).north_east,
            final(self).south_west == old(self).south_west,
            final(self).south_east == old(self).south_east,
    {
        let dx = (p.x as i128 - self.origin_x as i128) as u128;
        let dy = (p.y as i128 - self.origin_y as i128) as u128;
        proof {
            lemma_product_bound(p.mass as int, dx as int);
            lemma_product_bound(p.mass as int, dy as int);
            lemma_product_bound(self.mass as int, self.scale - 1);
            lemma_push_totals(self.contents@, p);
            lemma_aggregate_step(
                self.origin_x as int,
                self.scale as int,
                self.mass as int,
                self.rel_x as int,
                p.mass as int,
                p.x as int,
            );
            lemma_aggregate_step(
                self.origin_y as int,
                self.scale as int,
                self.mass as int,
                self.rel_y as int,
                p.mass as int,
                p.y as int,
            );
        }
        self.rel_x = self.rel_x + p.mass as u128 * dx;
        self.rel_y = self.rel_y + p.mass as u128 * dy;
        self.mass = self.mass + p.mass;
        self.contents = Ghost(self.contents@.push(p));
    }

    /// Turns a leaf into an inner node by handing its occupant, all the
    /// points recorded here, down to a new leaf child in the occupant's
    /// quadrant. The other three slots stay empty; the aggregate and
    /// contents stay. The node is whole again once a point at another
    /// position has followed.
    fn split(&mut self)
        requires
            old(self).wf(),
            old(self).leaf,
            old(self).mass > 0,
            old(self).scale >= 2,
        ensures
            !final(self).leaf,
            final(self).mass == old(self).mass,
            final(self).rel_x == old(self).rel_x,
            final(self).rel_y == old(self).rel_y,
            final(self).contents == old(self).contents,
            final(self).occupant_x == old(self).occupant_x,
            final(self).occupant_y == old(self).occupant_y,
            final(self).origin_x == old(self).origin_x,
            final(self).origin_y == old(self).origin_y,
            final(self).scale == old(self).scale,
            final(self).slots_ok(),
            forall|q: Quadrant|
                #[trigger] final(self).child(q) is Some <==> q == old(self).quadrant_of(
                    old(self).occupant_x as int,
                    old(self).occupant_y as int,
                ),
            ({
                let q0 = old(self).quadrant_of(
                    old(self).occupant_x as int,
                    old(self).occupant_y as int,
                );
                let c = final(self).child(q0)->Some_0;
                &&& c.wf()
                &&& old(self).fits(*c, q0)
                &&& c.leaf
                &&& c.contents@ == old(self).contents@
                &&& c.mass == old(self).mass
                &&& c.spec_moment_x() == old(self).spec_moment_x()
                &&& c.spec_moment_y() == old(self).spec_moment_y()
            }),
    {
        let q = self.quadrant_for(self.occupant_x, self.occupant_y);
        proof {
            lemma_same_position(
                self.contents@,
                self.occupant_x as int,
                self.occupant_y as int,
                self.origin_x as int,
                self.origin_y as int,
                self.scale as int,
            );
            lemma_quadrant_square(
                self.origin_x as int,
                self.origin_y as int,
                self.scale as int,
                self.occupant_x as int,
                self.occupant_y as int,
            );
        }
        let (hx, hy) = q.offset();
        let half = self.scale / 2;
        let cx = self.origin_x + (hx * half) as i64;
        let cy = self.origin_y + (hy * half) as i64;
        let child = Node::leaf_at(
            cx,
            cy,
            self.scale - half,
            self.occupant_x,
            self.occupant_y,
            self.mass,
            Ghost(self.contents@),
        );
        match q {
            Quadrant::NorthWest => self.north_west = Some(Box::new(child)),
            Quadrant::NorthEast => self.north_east = Some(Box::new(child)),
            Quadrant::SouthWest => self.south_west = Some(Box::new(child)),
            Quadrant::SouthEast => self.south_east = Some(Box::new(child)),
        }
        self.leaf = false;
    }

    /// Inserts a point into the subtree.
    ///
    /// A point without mass changes nothing. The first point of an empty
    /// node is stored as its aggregate. A point at the very position that a
    /// leaf already holds is merged into it, which keeps coincident points
    /// from splitting the leaf without end. Otherwise a leaf first hands its
    /// occupant down to a new child; then the aggregate takes the new point
    /// in and the point goes on into the child of its quadrant.
    pub fn insert(&mut self, p: MassData)
        requires
            old(self).wf(),
            old(self).spec_contains(p.x as int, p.y as int),
            old(self).spec_mass() + p.mass <= u64::MAX,
        ensures
            final(self).wf(),
            final(self).spec_origin_x() == old(self).spec_origin_x(),
            final(self).spec_origin_y() == old(self).spec_origin_y(),
            final(self).spec_scale() == old(self).spec_scale(),
            p.mass == 0 ==> *final(self) == *old(self),
            p.mass > 0 ==> final(self).spec_contents() == old(self).spec_contents().push(p),
            final(self).spec_mass() == old(self).spec_mass() + p.mass,
            final(self).spec_moment_x() == old(self).spec_moment_x() + p.mass * p.x,
            final(self).spec_moment_y() == old(self).spec_moment_y() + p.mass * p.y,
            old(self).spec_mass() == 0 ==> final(self).spec_leaf(),
        decreases old(self).spec_scale(), 1nat,
    {
        if p.mass == 0 {
            assert(p.mass * p.x == 0 && p.mass * p.y == 0) by (nonlinear_arith)
                requires
                    p.mass == 0,
            ;
            return;
        }
        if self.mass == 0 {
            self.absorb(p);
            self.occupant_x = p.x;
            self.occupant_y = p.y;
            return;
        }
        if self.leaf && p.x == self.occupant_x && p.y == self.occupant_y {
            let ghost m0 = self.mass as int;
            self.absorb(p);
            assert(m0 * p.x + p.mass * p.x == (m0 + p.mass) * p.x) by (nonlinear_arith);
            assert(m0 * p.y + p.mass * p.y == (m0 + p.mass) * p.y) by (nonlinear_arith);
            return;
        }
        self.insert_below(p);
    }

    /// Inserts a point into a node that holds some mass and is to be inner
    /// afterwards: a leaf first splits, which the point's other position
    /// allows; then the aggregate takes the point in and it goes on into
    /// the child of its quadrant, made as a leaf if the slot is empty. The
    /// other three slots are left as they are.
    #[verifier::rlimit(80)]
    fn insert_below(&mut self, p: MassData)
        requires
            old(self).wf(),
            old(self).mass > 0,
            old(self).leaf ==> (p.x != old(self).occupant_x || p.y != old(self).occupant_y),
            old(self).spec_contains(p.x as int, p.y as int),
            old(self).spec_mass() + p.mass <= u64::MAX,
            p.mass > 0,
        ensures
            final(self).wf(),
            !final(self).leaf,
            final(self).origin_x == old(self).origin_x,
            final(self).origin_y == old(self).origin_y,
            final(self).scale == old(self).scale,
            final(self).contents@ == old(self).contents@.push(p),
            final(self).spec_mass() == old(self).spec_mass() + p.mass,
            final(self).spec_moment_x() == old(self).spec_moment_x() + p.mass * p.x,
            final(self).spec_moment_y() == old(self).spec_moment_y() + p.mass * p.y,
            !old(self).leaf ==> forall|q: Quadrant|
                q != old(self).quadrant_of(p.x as int, p.y as int)
                    ==> #[trigger] final(self).child(q) == old(self).child(q),
        decreases old(self).spec_scale(), 0nat,
    {
        let ghost s0 = self.contents@;
        let ghost was_leaf = self.leaf;
        proof {
            if was_leaf {
                lemma_same_position(
                    s0,
                    self.occupant_x as int,
                    self.occupant_y as int,
                    self.origin_x as int,
                    self.origin_y as int,
                    self.scale as int,
                );
            }
        }
        if self.leaf {
            self.split();
        }
        self.absorb(p);
        let q = self.quadrant_for(p.x, p.y);
        proof {
            lemma_quadrant_square(
                self.origin_x as int,
                self.origin_y as int,
                self.scale as int,
                p.x as int,
                p.y as int,
            );
            let ox = self.origin_x as int;
            let oy = self.origin_y as int;
            let sc = self.scale as int;
            lemma_routed_push(s0, p, ox, oy, sc, Quadrant::NorthWest);
            lemma_routed_push(s0, p, ox, oy, sc, Quadrant::NorthEast);
            lemma_routed_push(s0, p, ox, oy, sc, Quadrant::SouthWest);
            lemma_routed_push(s0, p, ox, oy, sc, Quadrant::SouthEast);
            let s1 = s0.push(p);
            if was_leaf {
                assert(s1[s1.len() - 1] == p);
                assert(s1[0] == s0[0]);
            } else {
                let i = choose|i: int| 0 <= i < s0.len() && ((#[trigger] s0[i]).x != s0[0].x || s0[i].y != s0[0].y);
                assert(s1[i] == s0[i]);
                assert(s1[0] == s0[0]);
            }
        }
        let (cx, cy, cs) = self.child_square(q);
        proof {
            let ox = self.origin_x as int;
            let oy = self.origin_y as int;
            let sc = self.scale as int;
            assert(opt_contents(self.north_west) =~= routed(s0, ox, oy, sc, Quadrant::NorthWest));
            assert(opt_contents(self.north_east) =~= routed(s0, ox, oy, sc, Quadrant::NorthEast));
            assert(opt_contents(self.south_west) =~= routed(s0, ox, oy, sc, Quadrant::SouthWest));
            assert(opt_contents(self.south_east) =~= routed(s0, ox, oy, sc, Quadrant::SouthEast));
        }
        match q {
            Quadrant::NorthWest => Node::insert_into_slot(&mut self.north_west, cx, cy, cs, p),
            Quadrant::NorthEast => Node::insert_into_slot(&mut self.north_east, cx, cy, cs, p),
            Quadrant::SouthWest => Node::insert_into_slot(&mut self.south_west, cx, cy, cs, p),
            Quadrant::SouthEast => Node::insert_into_slot(&mut self.south_east, cx, cy, cs, p),
        }
        proof {
            let s1 = self.contents@;
            assert(s1 == s0.push(p));
            assert(self.aggregate_ok());
            assert(exists|i: int|
                0 <= i < s1.len() && ((#[trigger] s1[i]).x != s1[0].x || s1[i].y != s1[0].y));
        }
    }

    /// The centre of mass in x, rounded down to the lattice.
    pub open spec fn centroid_x(&self) -> int {
        self.spec_origin_x() + (self.spec_moment_x() - self.spec_origin_x() * self.spec_mass())
            / self.spec_mass()
    }

    /// The centre of mass in y, rounded down to the lattice.
    pub open spec fn centroid_y(&self) -> int {
        self.spec_origin_y() + (self.spec_moment_y() - self.spec_origin_y() * self.spec_mass())
            / self.spec_mass()
    }

    /// Whether this node stands for its whole subtree as seen from the
    /// target `(tx, ty)`: it is a leaf, or it passes the Barnes-Hut test
    /// `scale^2 * den^2 < num^2 * (softening + |centroid - target|^2)`.
    pub open spec fn accepts(&self, tx: int, ty: int, acc: Accuracy) -> bool {
        let dx = self.centroid_x() - tx;
        let dy = self.centroid_y() - ty;
        self.spec_leaf() || self.spec_scale() * self.spec_scale() * (acc.theta_den
            * acc.theta_den) < acc.theta_num * acc.theta_num * (acc.softening + dx * dx + dy * dy)
    }

    /// The aggregate of this node as one value.
    pub open spec fn spec_aggregate(&self) -> Aggregate {
        Aggregate {
            mass: self.spec_mass() as u64,
            moment_x: self.spec_moment_x() as i128,
            moment_y: self.spec_moment_y() as i128,
        }
    }

    /// The Barnes-Hut cut of this subtree for a target: the aggregates of
    /// the accepted nodes met on the way down from this one, where an
    /// accepted node is not looked into and a node without mass adds nothing.
    pub closed spec fn cut(&self, tx: int, ty: int, acc: Accuracy) -> Seq<Aggregate>
        decreases self,
    {
        if self.mass == 0 {
            Seq::empty()
        } else if self.accepts(tx, ty, acc) {
            seq![self.spec_aggregate()]
        } else {
            let a = match self.north_west {
                Some(c) => c.cut(tx, ty, acc),
                None => Seq::empty(),
            };
            let b = match self.north_east {
                Some(c) => c.cut(tx, ty, acc),
                None => Seq::empty(),
            };
            let c = match self.south_west {
                Some(c) => c.cut(tx, ty, acc),
                None => Seq::empty(),
            };
            let d = match self.south_east {
                Some(c) => c.cut(tx, ty, acc),
                None => Seq::empty(),
            };
            a + b + c + d
        }
    }

    /// The lower corner of this node's square.
    pub fn origin(&self) -> (r: (i64, i64))
        ensures
            r.0 == self.spec_origin_x(),
            r.1 == self.spec_origin_y(),
    {
        (self.origin_x, self.origin_y)
    }

    /// The side length of this node's square.
    pub fn scale(&self) -> (r: u32)
        ensures
            r == self.spec_scale(),
    {
        self.scale
    }

    /// The child in the given quadrant, if there is one.
    pub fn child_at(&self, quadrant: Quadrant) -> (r: Option<&Node>)
        ensures
            r is Some == self.child(quadrant) is Some,
            r is Some ==> *r->Some_0 == *self.child(quadrant)->Some_0,
    {
        let slot = match quadrant {
            Quadrant::NorthWest => &self.north_west,
            Quadrant::NorthEast => &self.north_east,
            Quadrant::SouthWest => &self.south_west,
            Quadrant::SouthEast => &self.south_east,
        };
        match slot {
            Some(b) => Some(&**b),
            None => None,
        }
    }

    /// Total mass of everything inserted below this node.
    pub fn mass(&self) -> (r: u64)
        ensures
            r == self.spec_mass(),
    {
        self.mass
    }

    /// The exact aggregate of this node: its total mass and first moments.
    pub fn aggregate(&self) -> (r: Aggregate)
        requires
            self.wf(),
        ensures
            r.mass == self.spec_mass(),
            r.moment_x == self.spec_moment_x(),
            r.moment_y == self.spec_moment_y(),
    {
        Aggregate {
            mass: self.mass,
            moment_x: moment_about(self.origin_x, self.scale, self.mass, self.rel_x),
            moment_y: moment_about(self.origin_y, self.scale, self.mass, self.rel_y),
        }
    }

    /// The aggregates of the Barnes-Hut cut of this tree for the target
    /// `(x, y)`, from which the caller sums the force on the target. Every
    /// point below the root is counted in exactly one of them.
    pub fn interactions(&self, x: i64, y: i64, acc: Accuracy) -> (r: Vec<Aggregate>)
        requires
            self.wf(),
            self.spec_contains(x as int, y as int),
        ensures
            r@ == self.cut(x as int, y as int, acc),
            cut_mass(r@) == self.spec_mass(),
            cut_moment_x(r@) == self.spec_moment_x(),
            cut_moment_y(r@) == self.spec_moment_y(),
            self.spec_leaf() && self.spec_mass() > 0 ==> r@ == seq![
                Aggregate {
                    mass: self.spec_mass() as u64,
                    moment_x: self.spec_moment_x() as i128,
                    moment_y: self.spec_moment_y() as i128,
                },
            ],
    {
        let mut out: Vec<Aggregate> = Vec::new();
        self.collect(
            x,
            y,
            acc,
            &mut out,
            Ghost(self.origin_x as int),
            Ghost(self.origin_y as int),
            Ghost(self.scale as int),
        );
        proof {
            assert(out@ =~= self.cut(x as int, y as int, acc));
            lemma_cut_totals(self, x as int, y as int, acc);
        }
        out
    }

    /// Appends the cut of this subtree to `out`. The target and this node's
    /// square both lie in the frame `[fx, fx + fs)`, which bounds every
    /// distance that the test squares.
    #[verifier::rlimit(40)]
    fn collect(
        &self,
        x: i64,
        y: i64,
        acc: Accuracy,
        out: &mut Vec<Aggregate>,
        fx: Ghost<int>,
        fy: Ghost<int>,
        fs: Ghost<int>,
    )
        requires
            self.wf(),
            fs@ <= u32::MAX,
            in_square(fx@, fy@, fs@, x as int, y as int),
            fx@ <= self.origin_x,
            self.origin_x + self.scale <= fx@ + fs@,
            fy@ <= self.origin_y,
            self.origin_y + self.scale <= fy@ + fs@,
        ensures
            final(out)@ == old(out)@ + self.cut(x as int, y as int, acc),
        decreases self,
    {
        if self.mass == 0 {
            assert(out@ =~= old(out)@ + self.cut(x as int, y as int, acc));
            return;
        }
        if self.accepts_exec(x, y, acc, fx, fy, fs) {
            let a = self.aggregate();
            out.push(a);
            assert(out@ =~= old(out)@ + self.cut(x as int, y as int, acc));
            return;
        }
        let ghost o0 = out@;
        match &self.north_west {
            Some(c) => c.collect(x, y, acc, out, fx, fy, fs),
            None => {},
        }
        let ghost o1 = out@;
        match &self.north_east {
            Some(c) => c.collect(x, y, acc, out, fx, fy, fs),
            None => {},
        }
        let ghost o2 = out@;
        match &self.south_west {
            Some(c) => c.collect(x, y, acc, out, fx, fy, fs),
            None => {},
        }
        let ghost o3 = out@;
        match &self.south_east {
            Some(c) => c.collect(x, y, acc, out, fx, fy, fs),
            None => {},
        }
        assert(out@ =~= old(out)@ + self.cut(x as int, y as int, acc));
    }

    /// The acceptance test, on exact integers.
    fn accepts_exec(
        &self,
        x: i64,
        y: i64,
        acc: Accuracy,
        fx: Ghost<int>,
        fy: Ghost<int>,
        fs: Ghost<int>,
    ) -> (r: bool)
        requires
            self.wf(),
            self.mass > 0,
            fs@ <= u32::MAX,
            in_square(fx@, fy@, fs@, x as int, y as int),
            fx@ <= self.origin_x,
            self.origin_x + self.scale <= fx@ + fs@,
            fy@ <= self.origin_y,
            self.origin_y + self.scale <= fy@ + fs@,
        ensures
            r == self.accepts(x as int, y as int, acc),
    {
        if self.leaf {
            return true;
        }
        let m = self.mass as u128;
        proof {
            lemma_div_below(self.rel_x as int, self.mass as int, self.scale - 1);
            lemma_div_below(self.rel_y as int, self.mass as int, self.scale - 1);
        }
        let cx = self.origin_x as i128 + (self.rel_x / m) as i128;
        let cy = self.origin_y as i128 + (self.rel_y / m) as i128;
        let dx = cx - x as i128;
        let dy = cy - y as i128;
        proof {
            lemma_square_bound(dx as int);
            lemma_square_bound(dy as int);
        }
        let d2 = (dx * dx + dy * dy) as u128;
        let s = self.scale as u128;
        let num = acc.theta_num as u128;
        let den = acc.theta_den as u128;
        proof {
            lemma_test_bounds(s as int, num as int, den as int, acc.softening as int, d2 as int);
        }
        s * s * (den * den) < num * num * (acc.softening as u128 + d2)
    }
}

/// Every point below a node is counted once in its cut: the masses and the
/// first moments of the cut add up to those of the node.
pub proof fn lemma_cut_totals(n: &Node, tx: int, ty: int, acc: Accuracy)
    requires
        n.wf(),
    ensures
        cut_mass(n.cut(tx, ty, acc)) == n.spec_mass(),
        cut_moment_x(n.cut(tx, ty, acc)) == n.spec_moment_x(),
        cut_moment_y(n.cut(tx, ty, acc)) == n.spec_moment_y(),
    decreases n,
{
    if n.mass == 0 {
    } else if n.accepts(tx, ty, acc) {
        assert(seq![n.spec_aggregate()].drop_last() =~= Seq::<Aggregate>::empty());
        assert(cut_mass(Seq::<Aggregate>::empty()) == 0);
        assert(cut_moment_x(Seq::<Aggregate>::empty()) == 0);
        assert(cut_moment_y(Seq::<Aggregate>::empty()) == 0);
        lemma_moment_fits(n.origin_x as int, n.scale as int, n.mass as int, n.rel_x as int);
        lemma_moment_fits(n.origin_y as int, n.scale as int, n.mass as int, n.rel_y as int);
    } else {
        assert(cut_mass(Seq::<Aggregate>::empty()) == 0);
        assert(cut_moment_x(Seq::<Aggregate>::empty()) == 0);
        assert(cut_moment_y(Seq::<Aggregate>::empty()) == 0);
        let a = match n.north_west {
            Some(c) => {
                lemma_cut_totals(&c, tx, ty, acc);
                c.cut(tx, ty, acc)
            },
            None => Seq::empty(),
        };
        let b = match n.north_east {
            Some(c) => {
                lemma_cut_totals(&c, tx, ty, acc);
                c.cut(tx, ty, acc)
            },
            None => Seq::empty(),
        };
        let c = match n.south_west {
            Some(c) => {
                lemma_cut_totals(&c, tx, ty, acc);
                c.cut(tx, ty, acc)
            },
            None => Seq::empty(),
        };
        let d = match n.south_east {
            Some(c) => {
                lemma_cut_totals(&c, tx, ty, acc);
                c.cut(tx, ty, acc)
            },
            None => Seq::empty(),
        };
        lemma_cut_totals_concat(a, b);
        lemma_cut_totals_concat(a + b, c);
        lemma_cut_totals_concat(a + b + c, d);
    }
}

/// Containment: every point inserted into a node, directly or through its
/// parent, lies in the node's square. Each child of a well-formed node is
/// well-formed and lies inside its parent, so this holds of every node of a
/// tree.
pub proof fn law_containment(n: &Node)
    requires
        n.wf(),
    ensures
        forall|i: int|
            0 <= i < n.spec_contents().len() ==> n.spec_contains(
                #[trigger] n.spec_contents()[i].x as int,
                n.spec_contents()[i].y as int,
            ),
        forall|q: Quadrant|
            #[trigger] n.child(q) is Some ==> {
                let c = n.child(q)->Some_0;
                &&& c.wf()
                &&& n.spec_origin_x() <= c.spec_origin_x()
                &&& c.spec_origin_x() + c.spec_scale() <= n.spec_origin_x() + n.spec_scale()
                &&& n.spec_origin_y() <= c.spec_origin_y()
                &&& c.spec_origin_y() + c.spec_scale() <= n.spec_origin_y() + n.spec_scale()
            },
{
    assert forall|i: int| 0 <= i < n.spec_contents().len() implies n.spec_contains(
        #[trigger] n.spec_contents()[i].x as int,
        n.spec_contents()[i].y as int,
    ) by {
        assert(n.contents@[i].mass > 0);
    }
}

/// How a cut is made, one level down: a node without mass gives nothing, an
/// accepted node gives its own aggregate, and any other node gives the cuts
/// of its children in quadrant order.
pub proof fn law_cut_unfold(n: &Node, tx: int, ty: int, acc: Accuracy)
    ensures
        n.spec_mass() == 0 ==> n.cut(tx, ty, acc) == Seq::<Aggregate>::empty(),
        n.spec_mass() > 0 && n.accepts(tx, ty, acc) ==> n.cut(tx, ty, acc) == seq![
            n.spec_aggregate(),
        ],
        n.spec_mass() > 0 && !n.accepts(tx, ty, acc) ==> n.cut(tx, ty, acc) == opt_cut(
            n.child(Quadrant::NorthWest),
            tx,
            ty,
            acc,
        ) + opt_cut(n.child(Quadrant::NorthEast), tx, ty, acc) + opt_cut(
            n.child(Quadrant::SouthWest),
            tx,
            ty,
            acc,
        ) + opt_cut(n.child(Quadrant::SouthEast), tx, ty, acc),
{
}

/// The shape of a well-formed tree, node by node. The aggregate is the sum
/// over the points inserted into the node. A leaf has no children and all
/// its points stand at one position. An inner node holds points at two
/// positions at least; the child of quadrant `q` exists exactly when some of
/// its points fall into `q`, and then holds exactly those points, in order,
/// in the child square of `q`. Since each child is well-formed again, this
/// fixes the whole tree from the points of the root.
pub proof fn law_tree_shape(n: &Node)
    requires
        n.wf(),
    ensures
        n.spec_mass() == total_mass(n.spec_contents()),
        n.spec_moment_x() == moment_x(n.spec_contents()),
        n.spec_moment_y() == moment_y(n.spec_contents()),
        n.spec_leaf() ==> forall|q: Quadrant| #[trigger] n.child(q) is None,
        n.spec_leaf() ==> forall|i: int|
            0 <= i < n.spec_contents().len() ==> (#[trigger] n.spec_contents()[i]).x
                == n.spec_contents()[0].x && n.spec_contents()[i].y == n.spec_contents()[0].y,
        !n.spec_leaf() ==> exists|i: int|
            0 <= i < n.spec_contents().len() && ((#[trigger] n.spec_contents()[i]).x
                != n.spec_contents()[0].x || n.spec_contents()[i].y != n.spec_contents()[0].y),
        !n.spec_leaf() ==> forall|q: Quadrant|
            (#[trigger] n.child(q) is Some <==> n.routed_to(q).len() > 0),
        !n.spec_leaf() ==> exists|q: Quadrant| #[trigger] n.child(q) is Some,
        forall|q: Quadrant|
            #[trigger] n.child(q) is Some ==> {
                let c = n.child(q)->Some_0;
                &&& c.wf()
                &&& n.fits(*c, q)
                &&& c.spec_contents() == n.routed_to(q)
            },
{
    assert forall|q: Quadrant| #[trigger] n.child(q) is Some implies {
        let c = n.child(q)->Some_0;
        &&& c.wf()
        &&& n.fits(*c, q)
        &&& c.spec_contents() == n.routed_to(q)
    } by {
        lemma_child(n, q);
    }
    assert forall|q: Quadrant| !n.spec_leaf() implies (#[trigger] n.child(q) is Some
        <==> n.routed_to(q).len() > 0) by {
        lemma_child(n, q);
    }
    assert forall|q: Quadrant| n.spec_leaf() implies #[trigger] n.child(q) is None by {
        lemma_child(n, q);
    }
    if !n.leaf {
        if n.north_west is Some {
            assert(n.child(Quadrant::NorthWest) is Some);
        } else if n.north_east is Some {
            assert(n.child(Quadrant::NorthEast) is Some);
        } else if n.south_west is Some {
            assert(n.child(Quadrant::SouthWest) is Some);
        } else {
            assert(n.child(Quadrant::SouthEast) is Some);
        }
    }
}

/// What `wf` says of the child slot of one quadrant.
proof fn lemma_child(n: &Node, q: Quadrant)
    requires
        n.wf(),
    ensures
        n.child(q) is Some ==> {
            let c = n.child(q)->Some_0;
            &&& c.wf()
            &&& n.fits(*c, q)
            &&& c.contents@ == n.routed_to(q)
            &&& c.contents@.len() > 0
        },
        !n.leaf && n.child(q) is None ==> n.routed_to(q).len() == 0,
        n.leaf ==> n.child(q) is None,
{
    match q {
        Quadrant::NorthWest => {
            if let Some(c) = n.north_west {
                assert(c.wf());
                assert(c.local_wf());
                assert(c.aggregate_ok());
            }
        },
        Quadrant::NorthEast => {
            if let Some(c) = n.north_east {
                assert(c.wf());
                assert(c.local_wf());
                assert(c.aggregate_ok());
            }
        },
        Quadrant::SouthWest => {
            if let Some(c) = n.south_west {
                assert(c.wf());
                assert(c.local_wf());
                assert(c.aggregate_ok());
            }
        },
        Quadrant::SouthEast => {
            if let Some(c) = n.south_east {
                assert(c.wf());
                assert(c.local_wf());
                assert(c.aggregate_ok());
            }
        },
    }
}

/// A tree is a function of the points inserted into its root: two
/// well-formed trees over one square that hold the same points have the
/// same aggregate, the same leaves and the same cut for every target.
pub proof fn law_same_contents_same_cut(a: &Node, b: &Node, tx: int, ty: int, acc: Accuracy)
    requires
        a.wf(),
        b.wf(),
        a.spec_origin_x() == b.spec_origin_x(),
        a.spec_origin_y() == b.spec_origin_y(),
        a.spec_scale() == b.spec_scale(),
        a.spec_contents() == b.spec_contents(),
    ensures
        a.spec_mass() == b.spec_mass(),
        a.spec_moment_x() == b.spec_moment_x(),
        a.spec_moment_y() == b.spec_moment_y(),
        a.spec_leaf() == b.spec_leaf(),
        a.cut(tx, ty, acc) == b.cut(tx, ty, acc),
    decreases a,
{
    let s = a.contents@;
    if a.leaf && !b.leaf {
        let i = choose|i: int| 0 <= i < s.len() && ((#[trigger] s[i]).x != s[0].x || s[i].y != s[0].y);
        assert(s[i].x == a.occupant_x && s[0].x == a.occupant_x);
    }
    if b.leaf && !a.leaf {
        let i = choose|i: int| 0 <= i < s.len() && ((#[trigger] s[i]).x != s[0].x || s[i].y != s[0].y);
        assert(s[i].x == b.occupant_x && s[0].x == b.occupant_x);
    }
    if a.mass > 0 && !a.leaf {
        lemma_child(a, Quadrant::NorthWest);
        lemma_child(b, Quadrant::NorthWest);
        match (a.north_west, b.north_west) {
            (Some(c), Some(d)) => law_same_contents_same_cut(&c, &d, tx, ty, acc),
            _ => {},
        }
        lemma_child(a, Quadrant::NorthEast);
        lemma_child(b, Quadrant::NorthEast);
        match (a.north_east, b.north_east) {
            (Some(c), Some(d)) => law_same_contents_same_cut(&c, &d, tx, ty, acc),
            _ => {},
        }
        lemma_child(a, Quadrant::SouthWest);
        lemma_child(b, Quadrant::SouthWest);
        match (a.south_west, b.south_west) {
            (Some(c), Some(d)) => law_same_contents_same_cut(&c, &d, tx, ty, acc),
            _ => {},
        }
        lemma_child(a, Quadrant::SouthEast);
        lemma_child(b, Quadrant::SouthEast);
        match (a.south_east, b.south_east) {
            (Some(c), Some(d)) => law_same_contents_same_cut(&c, &d, tx, ty, acc),
            _ => {},
        }
    }
}

/// Whether each aggregate of `cut` stands where one of the points `s`
/// stands: its moments are its mass times that point's position.
pub open spec fn at_points(cut: Seq<Aggregate>, s: Seq<MassData>) -> bool {
    forall|k: int|
        0 <= k < cut.len() ==> exists|j: int|
            0 <= j < s.len() && (#[trigger] cut[k]).moment_x == cut[k].mass * (#[trigger] s[j]).x
                && cut[k].moment_y == cut[k].mass * s[j].y
}

/// Every point routed to a quadrant is one of the points it was routed from.
proof fn lemma_routed_subset(s: Seq<MassData>, ox: int, oy: int, scale: int, q: Quadrant)
    ensures
        forall|j: int|
            0 <= j < routed(s, ox, oy, scale, q).len() ==> exists|k: int|
                0 <= k < s.len() && #[trigger] routed(s, ox, oy, scale, q)[j] == s[k],
    decreases s.len(),
{
    if s.len() > 0 {
        let s0 = s.drop_last();
        lemma_routed_subset(s0, ox, oy, scale, q);
        let r = routed(s, ox, oy, scale, q);
        let r0 = routed(s0, ox, oy, scale, q);
        assert forall|j: int| 0 <= j < r.len() implies exists|k: int|
            0 <= k < s.len() && #[trigger] r[j] == s[k] by {
            if j < r0.len() {
                assert(r[j] == r0[j]);
                let k = choose|k: int| 0 <= k < s0.len() && r0[j] == s0[k];
                assert(s[k] == s0[k]);
            } else {
                assert(r[j] == s[s.len() - 1]);
            }
        }
    }
}

/// With a zero theta only leaves are accepted, so the cut is exact pairwise
/// summation: each of its aggregates gathers points that stand at the
/// position of one inserted point.
pub proof fn law_zero_theta_exact(n: &Node, tx: int, ty: int, acc: Accuracy)
    requires
        n.wf(),
        acc.theta_num == 0,
    ensures
        at_points(n.cut(tx, ty, acc), n.spec_contents()),
        forall|k: int|
            0 <= k < n.cut(tx, ty, acc).len() ==> #[trigger] n.cut(tx, ty, acc)[k].mass > 0,
    decreases n,
{
    let s = n.contents@;
    let cut = n.cut(tx, ty, acc);
    assert(acc.theta_num * acc.theta_num * (acc.softening + (n.centroid_x() - tx) * (
    n.centroid_x() - tx) + (n.centroid_y() - ty) * (n.centroid_y() - ty)) == 0);
    assert(n.spec_scale() * n.spec_scale() * (acc.theta_den * acc.theta_den) >= 0) by (
    nonlinear_arith);
    if n.mass == 0 {
    } else if n.leaf {
        lemma_moment_fits(n.origin_x as int, n.scale as int, n.mass as int, n.rel_x as int);
        lemma_moment_fits(n.origin_y as int, n.scale as int, n.mass as int, n.rel_y as int);
        assert(cut == seq![n.spec_aggregate()]);
        assert(s[0].x == n.occupant_x && s[0].y == n.occupant_y);
        assert forall|k: int| 0 <= k < cut.len() implies exists|j: int|
            0 <= j < s.len() && (#[trigger] cut[k]).moment_x == cut[k].mass * (#[trigger] s[j]).x
                && cut[k].moment_y == cut[k].mass * s[j].y by {
            assert(cut[k] == n.spec_aggregate());
            assert(s[0].x == n.occupant_x);
        }
    } else {
        let parts = seq![
            opt_cut(n.north_west, tx, ty, acc),
            opt_cut(n.north_east, tx, ty, acc),
            opt_cut(n.south_west, tx, ty, acc),
            opt_cut(n.south_east, tx, ty, acc),
        ];
        assert(cut == parts[0] + parts[1] + parts[2] + parts[3]);
        let quads = seq![
            Quadrant::NorthWest,
            Quadrant::NorthEast,
            Quadrant::SouthWest,
            Quadrant::SouthEast,
        ];
        assert forall|m: int| 0 <= m < 4 implies at_points(#[trigger] parts[m], s) && (forall|k: int|
            0 <= k < parts[m].len() ==> #[trigger] parts[m][k].mass > 0) by {
            let q = quads[m];
            lemma_child(n, q);
            assert(parts[m] == opt_cut(n.child(q), tx, ty, acc));
            if let Some(c) = n.child(q) {
                law_zero_theta_exact(&c, tx, ty, acc);
                lemma_routed_subset(
                    s,
                    n.origin_x as int,
                    n.origin_y as int,
                    n.scale as int,
                    q,
                );
                let r = c.contents@;
                let cc = c.cut(tx, ty, acc);
                assert forall|k: int| 0 <= k < cc.len() implies exists|j: int|
                    0 <= j < s.len() && (#[trigger] cc[k]).moment_x == cc[k].mass * (
                    #[trigger] s[j]).x && cc[k].moment_y == cc[k].mass * s[j].y by {
                    let j = choose|j: int|
                        0 <= j < r.len() && (#[trigger] cc[k]).moment_x == cc[k].mass * (
                        #[trigger] r[j]).x && cc[k].moment_y == cc[k].mass * r[j].y;
                    let i = choose|i: int| 0 <= i < s.len() && #[trigger] r[j] == s[i];
                    assert(s[i] == r[j]);
                }
            }
        }
        assert forall|k: int| 0 <= k < cut.len() implies exists|j: int|
            0 <= j < s.len() && (#[trigger] cut[k]).moment_x == cut[k].mass * (#[trigger] s[j]).x
                && cut[k].moment_y == cut[k].mass * s[j].y && cut[k].mass > 0 by {
            let l0 = parts[0].len();
            let l1 = parts[1].len();
            let l2 = parts[2].len();
            if k < l0 {
                assert(cut[k] == parts[0][k]);
            } else if k < l0 + l1 {
                assert(cut[k] == parts[1][k - l0]);
            } else if k < l0 + l1 + l2 {
                assert(cut[k] == parts[2][k - l0 - l1]);
            } else {
                assert(cut[k] == parts[3][k - l0 - l1 - l2]);
            }
        }
    }
}

/// The totals of a concatenation of cuts are the sums of their totals.
pub proof fn lemma_cut_totals_concat(a: Seq<Aggregate>, b: Seq<Aggregate>)
    ensures
        cut_mass(a + b) == cut_mass(a) + cut_mass(b),
        cut_moment_x(a + b) == cut_moment_x(a) + cut_moment_x(b),
        cut_moment_y(a + b) == cut_moment_y(a) + cut_moment_y(b),
    decreases b.len(),
{
    if b.len() == 0 {
        assert(a + b =~= a);
    } else {
        lemma_cut_totals_concat(a, b.drop_last());
        assert((a + b).drop_last() =~= a + b.drop_last());
    }
}

/// A moment `origin * mass + rel` whose relative part lies within a square
/// that ends inside the range of `i64` fits in `i128`.
proof fn lemma_moment_fits(origin: int, scale: int, mass: int, rel: int)
    requires
        1 <= scale,
        i64::MIN <= origin,
        origin + scale <= i64::MAX,
        0 <= mass <= u64::MAX,
        0 <= rel <= mass * (scale - 1),
    ensures
        i64::MIN * u64::MAX <= origin * mass + rel <= i64::MAX * u64::MAX,
{
    assert(i64::MIN * mass <= origin * mass) by (nonlinear_arith)
        requires
            i64::MIN <= origin,
            0 <= mass,
    ;
    assert(origin * mass + rel <= (origin + scale - 1) * mass) by (nonlinear_arith)
        requires
            rel <= mass * (scale - 1),
    ;
    assert((origin + scale - 1) * mass <= i64::MAX * mass) by (nonlinear_arith)
        requires
            origin + scale - 1 <= i64::MAX,
            0 <= mass,
    ;
    assert(i64::MAX * mass <= i64::MAX * u64::MAX) by (nonlinear_arith)
        requires
            0 <= mass <= u64::MAX,
    ;
    assert(i64::MIN * mass >= i64::MIN * u64::MAX) by (nonlinear_arith)
        requires
            0 <= mass <= u64::MAX,
    ;
}

/// The moment `origin * mass + rel` of an aggregate whose relative moment
/// lies within a square that ends inside the range of `i64`.
fn moment_about(origin: i64, scale: u32, mass: u64, rel: u128) -> (r: i128)
    requires
        1 <= scale,
        origin + scale <= i64::MAX,
        rel <= mass * (scale - 1),
    ensures
        r == origin * mass + rel,
{
    proof {
        lemma_product_bound(mass as int, scale - 1);
        lemma_moment_fits(origin as int, scale as int, mass as int, rel as int);
        assert(i64::MIN * mass <= origin * mass <= i64::MAX * mass) by (nonlinear_arith)
            requires
                i64::MIN <= origin <= i64::MAX,
                0 <= mass,
        ;
        assert(i64::MAX * mass <= i64::MAX * u64::MAX) by (nonlinear_arith)
            requires
                mass <= u64::MAX,
        ;
        assert(i64::MIN * mass >= i64::MIN * u64::MAX) by (nonlinear_arith)
            requires
                0 <= mass <= u64::MAX,
        ;
    }
    origin as i128 * mass as i128 + rel as i128
}

} // verus!
