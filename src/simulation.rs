use vstd::prelude::*;
use crate::tree::{Accuracy, MassData, Node, in_square, kept, moment_x, moment_y, total_mass};

verus! {

/// The fixed square `[origin, origin + scale)` of a simulation. Each step
/// builds its tree over this square; a body outside it takes no part in the
/// step.
#[derive(Copy, Clone, Debug, PartialEq, Eq, Structural)]
pub struct Frame {
    pub origin_x: i64,
    pub origin_y: i64,
    pub scale: u32,
}

impl Frame {
    /// The square is not empty and ends inside the range of `i64`.
    pub open spec fn valid(self) -> bool {
        &&& 1 <= self.scale
        &&& self.origin_x + self.scale <= i64::MAX
        &&& self.origin_y + self.scale <= i64::MAX
    }

    pub open spec fn spec_contains(self, x: int, y: int) -> bool {
        in_square(self.origin_x as int, self.origin_y as int, self.scale as int, x, y)
    }

    /// The points of `s` that a tree over this frame takes in.
    pub open spec fn kept(self, s: Seq<MassData>) -> Seq<MassData> {
        kept(s, self.origin_x as int, self.origin_y as int, self.scale as int)
    }

    /// Whether the point lies in the frame.
    pub fn contains(&self, x: i64, y: i64) -> (r: bool)
        ensures
            r == self.spec_contains(x as int, y as int),
    {
        let ox = self.origin_x as i128;
        let oy = self.origin_y as i128;
        let s = self.scale as i128;
        ox <= x as i128 && (x as i128) < ox + s && oy <= y as i128 && (y as i128) < oy + s
    }
}

/// Masses are never negative, so what a frame keeps of a prefix weighs no
/// more than what it keeps of the whole.
pub proof fn lemma_kept_prefix_mass(s: Seq<MassData>, i: int, ox: int, oy: int, scale: int)
    requires
        0 <= i <= s.len(),
    ensures
        total_mass(kept(s.take(i), ox, oy, scale)) <= total_mass(kept(s, ox, oy, scale)),
    decreases s.len(),
{
    if i < s.len() {
        lemma_kept_prefix_mass(s.drop_last(), i, ox, oy, scale);
        assert(s.drop_last().take(i) =~= s.take(i));
        let k = kept(s.drop_last(), ox, oy, scale);
        crate::tree::lemma_push_totals(k, s.last());
    } else {
        assert(s.take(i) =~= s);
    }
}

/// Builds the tree of one step: an empty root over the frame, into which
/// every point of `points` that lies in the frame is inserted, in order.
/// Points outside the frame are left out.
pub fn build_tree(frame: Frame, points: &Vec<MassData>) -> (r: Node)
    requires
        frame.valid(),
        total_mass(frame.kept(points@)) <= u64::MAX,
    ensures
        r.wf(),
        r.spec_origin_x() == frame.origin_x,
        r.spec_origin_y() == frame.origin_y,
        r.spec_scale() == frame.scale,
        r.spec_contents() == frame.kept(points@),
        r.spec_mass() == total_mass(frame.kept(points@)),
        r.spec_moment_x() == moment_x(frame.kept(points@)),
        r.spec_moment_y() == moment_y(frame.kept(points@)),
        frame.kept(points@).len() <= 1 ==> r.spec_leaf(),
        points@.len() == 0 ==> r.spec_mass() == 0 && r.spec_leaf(),
{
    let mut tree = Node::new_root(frame.origin_x, frame.origin_y, frame.scale);
    let mut i: usize = 0;
    assert(points@.take(0) =~= Seq::<MassData>::empty());
    while i < points.len()
        invariant
            frame.valid(),
            total_mass(frame.kept(points@)) <= u64::MAX,
            0 <= i <= points.len(),
            tree.wf(),
            tree.spec_origin_x() == frame.origin_x,
            tree.spec_origin_y() == frame.origin_y,
            tree.spec_scale() == frame.scale,
            tree.spec_contents() == frame.kept(points@.take(i as int)),
            tree.spec_mass() == total_mass(frame.kept(points@.take(i as int))),
            tree.spec_moment_x() == moment_x(frame.kept(points@.take(i as int))),
            tree.spec_moment_y() == moment_y(frame.kept(points@.take(i as int))),
            frame.kept(points@.take(i as int)).len() <= 1 ==> tree.spec_leaf(),
        decreases points.len() - i,
    {
        let p = points[i];
        let ghost before = points@.take(i as int);
        proof {
            assert(points@.take(i + 1).drop_last() =~= before);
            assert(points@.take(i + 1).last() == p);
            lemma_kept_prefix_mass(
                points@,
                i + 1,
                frame.origin_x as int,
                frame.origin_y as int,
                frame.scale as int,
            );
        }
        if frame.contains(p.x, p.y) {
            proof {
                let k = frame.kept(before);
                crate::tree::lemma_push_totals(k, p);
                assert(k.push(p).drop_last() =~= k);
                if k.len() > 0 {
                    assert(k.push(p).len() > 1);
                }
            }
            tree.insert(p);
        }
        i = i + 1;
    }
    assert(points@.take(i as int) =~= points@);
    tree
}

/// Sum of `f` over a sequence of points.
pub open spec fn sum_of(s: Seq<MassData>, f: spec_fn(MassData) -> int) -> int
    decreases s.len(),
{
    if s.len() == 0 {
        0
    } else {
        sum_of(s.drop_last(), f) + f(s.last())
    }
}

/// What a point adds to the mass of a tree over the frame.
pub open spec fn mass_weight(frame: Frame) -> spec_fn(MassData) -> int {
    |p: MassData|
        if frame.spec_contains(p.x as int, p.y as int) {
            p.mass as int
        } else {
            0
        }
}

/// What a point adds to the moment in x of a tree over the frame.
pub open spec fn moment_x_weight(frame: Frame) -> spec_fn(MassData) -> int {
    |p: MassData|
        if frame.spec_contains(p.x as int, p.y as int) {
            p.mass * p.x
        } else {
            0
        }
}

/// What a point adds to the moment in y of a tree over the frame.
pub open spec fn moment_y_weight(frame: Frame) -> spec_fn(MassData) -> int {
    |p: MassData|
        if frame.spec_contains(p.x as int, p.y as int) {
            p.mass * p.y
        } else {
            0
        }
}

/// Taking out one point takes out its term of the sum.
pub proof fn lemma_sum_remove(s: Seq<MassData>, i: int, f: spec_fn(MassData) -> int)
    requires
        0 <= i < s.len(),
    ensures
        sum_of(s, f) == sum_of(s.remove(i), f) + f(s[i]),
    decreases s.len(),
{
    if i == s.len() - 1 {
        assert(s.remove(i) =~= s.drop_last());
    } else {
        lemma_sum_remove(s.drop_last(), i, f);
        assert(s.remove(i).drop_last() =~= s.drop_last().remove(i));
        assert(s.remove(i).last() == s.last());
    }
}

/// A sum over a sequence does not depend on the order of its points.
pub proof fn lemma_sum_permutation(a: Seq<MassData>, b: Seq<MassData>, f: spec_fn(MassData) -> int)
    requires
        a.to_multiset() == b.to_multiset(),
    ensures
        sum_of(a, f) == sum_of(b, f),
    decreases a.len(),
{
    broadcast use vstd::seq_lib::group_to_multiset_ensures;
    if a.len() == 0 {
        assert(b.to_multiset().len() == 0);
        assert(b.len() == 0);
    } else {
        let x = a.last();
        let a0 = a.drop_last();
        assert(a0.push(x) =~= a);
        assert(a.to_multiset() =~= a0.to_multiset().insert(x));
        assert(b.to_multiset().count(x) > 0);
        assert(b.contains(x));
        let i = choose|i: int| 0 <= i < b.len() && b[i] == x;
        let b0 = b.remove(i);
        assert(b0.to_multiset() =~= b.to_multiset().remove(x));
        assert(a0.to_multiset() =~= a.to_multiset().remove(x));
        lemma_sum_permutation(a0, b0, f);
        lemma_sum_remove(b, i, f);
    }
}

/// The totals of what a tree over the frame keeps of `s` are sums over `s`.
pub proof fn lemma_kept_sums(frame: Frame, s: Seq<MassData>)
    ensures
        total_mass(frame.kept(s)) == sum_of(s, mass_weight(frame)),
        moment_x(frame.kept(s)) == sum_of(s, moment_x_weight(frame)),
        moment_y(frame.kept(s)) == sum_of(s, moment_y_weight(frame)),
    decreases s.len(),
{
    if s.len() > 0 {
        lemma_kept_sums(frame, s.drop_last());
        let k = frame.kept(s.drop_last());
        let p = s.last();
        crate::tree::lemma_push_totals(k, p);
        if p.mass == 0 {
            assert(p.mass * p.x == 0 && p.mass * p.y == 0) by (nonlinear_arith)
                requires
                    p.mass == 0,
            ;
        }
    }
}

/// Mass conservation: the root of a tree built from a set of bodies weighs
/// as much as the bodies in the frame together, whatever the order in which
/// they were inserted.
pub proof fn law_mass_conservation(frame: Frame, a: Seq<MassData>, b: Seq<MassData>)
    requires
        a.to_multiset() == b.to_multiset(),
    ensures
        total_mass(frame.kept(a)) == sum_of(a, mass_weight(frame)),
        total_mass(frame.kept(a)) == total_mass(frame.kept(b)),
{
    lemma_kept_sums(frame, a);
    lemma_kept_sums(frame, b);
    lemma_sum_permutation(a, b, mass_weight(frame));
}

/// Centroid correctness: the first moments of the root are the sums of
/// `mass * position` over the bodies in the frame, whatever the order of
/// insertion; the centre of mass, moment over mass, is therefore the
/// mass-weighted average of their positions.
pub proof fn law_centroid(frame: Frame, a: Seq<MassData>, b: Seq<MassData>)
    requires
        a.to_multiset() == b.to_multiset(),
    ensures
        moment_x(frame.kept(a)) == sum_of(a, moment_x_weight(frame)),
        moment_y(frame.kept(a)) == sum_of(a, moment_y_weight(frame)),
        moment_x(frame.kept(a)) == moment_x(frame.kept(b)),
        moment_y(frame.kept(a)) == moment_y(frame.kept(b)),
{
    lemma_kept_sums(frame, a);
    lemma_kept_sums(frame, b);
    lemma_sum_permutation(a, b, moment_x_weight(frame));
    lemma_sum_permutation(a, b, moment_y_weight(frame));
}

/// Out-of-bounds exclusion: a body outside the frame, wherever it stands
/// among the others, changes nothing of what a tree over the frame takes in.
pub proof fn law_out_of_bounds_excluded(frame: Frame, s: Seq<MassData>, i: int, p: MassData)
    requires
        !frame.spec_contains(p.x as int, p.y as int),
        0 <= i <= s.len(),
    ensures
        frame.kept(s.insert(i, p)) == frame.kept(s),
    decreases s.len(),
{
    if i == s.len() {
        assert(s.insert(i, p).drop_last() =~= s);
    } else {
        law_out_of_bounds_excluded(frame, s.drop_last(), i, p);
        assert(s.insert(i, p).drop_last() =~= s.drop_last().insert(i, p));
        assert(s.insert(i, p).last() == s.last());
    }
}

/// Out-of-bounds exclusion, for forces: a tree over the frame built with a
/// body outside it, wherever that body stands among the others, gives every
/// target the same aggregate and the same Barnes-Hut cut as the tree built
/// without it.
pub proof fn law_out_of_bounds_same_cut(
    frame: Frame,
    s: Seq<MassData>,
    i: int,
    p: MassData,
    without: &Node,
    with: &Node,
    tx: int,
    ty: int,
    acc: Accuracy,
)
    requires
        !frame.spec_contains(p.x as int, p.y as int),
        0 <= i <= s.len(),
        without.wf(),
        with.wf(),
        without.spec_origin_x() == frame.origin_x && with.spec_origin_x() == frame.origin_x,
        without.spec_origin_y() == frame.origin_y && with.spec_origin_y() == frame.origin_y,
        without.spec_scale() == frame.scale && with.spec_scale() == frame.scale,
        without.spec_contents() == frame.kept(s),
        with.spec_contents() == frame.kept(s.insert(i, p)),
    ensures
        without.spec_aggregate() == with.spec_aggregate(),
        without.cut(tx, ty, acc) == with.cut(tx, ty, acc),
{
    law_out_of_bounds_excluded(frame, s, i, p);
    crate::tree::law_same_contents_same_cut(without, with, tx, ty, acc);
}

} // verus!
