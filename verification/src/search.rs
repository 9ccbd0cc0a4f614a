//! The jump point search: expansion of a jump point into its forced
//! neighbors and goal hits, the priority-first driver, and reconstruction
//! of the dense path from the sparse chain of jump points.

use vstd::prelude::*;
use crate::geometry::{
    abs_val, adjacent_pair, decompose, in_range, l_offset, lemma_decompose_unique,
    lemma_l_steps_distance, spec_decompose, spec_distance, within, Chirality, Direction, Pos,
    MAX_COORD,
};
use crate::domain::{bounded_passable, lemma_bounded_passable, JPSearchable};
use crate::heap::MinHeap;
use crate::posmap::PosMap;

verus! {

/// Costs are kept far below this cap, so that adding one more edge can
/// never overflow; costs this large cannot arise from coordinates the
/// library admits.
pub const COST_CAP: u64 = 0x1000_0000_0000_0000;

/// Standing at `pos`, having just traveled along `direction`, continuing
/// to scan corners on the `chirality` side.
#[derive(Clone, Copy, PartialEq, Eq, Structural, Debug)]
pub struct JumpPoint {
    pub pos: Pos,
    pub direction: Direction,
    pub chirality: Chirality,
}

/// The payload carried by the priority queue: either the target was seen,
/// or a jump point remains to be expanded.
#[derive(Clone, Copy, PartialEq, Eq, Structural, Debug)]
pub enum OpenNode {
    Goal(Pos),
    JumpPoint(JumpPoint),
}

impl OpenNode {
    pub open spec fn spec_pos(self) -> Pos {
        match self {
            OpenNode::Goal(p) => p,
            OpenNode::JumpPoint(j) => j.pos,
        }
    }

    /// A seed node at the search origin; `flip` chooses the chirality of
    /// the whole initial fan-out.
    pub fn initial(pos: Pos, direction: Direction, flip: bool) -> (n: OpenNode)
        ensures
            n == OpenNode::JumpPoint(
                JumpPoint {
                    pos,
                    direction,
                    chirality: if flip {
                        Chirality::Counterclockwise
                    } else {
                        Chirality::Clockwise
                    },
                },
            ),
    {
        OpenNode::JumpPoint(
            JumpPoint {
                pos,
                direction,
                chirality: if flip {
                    Chirality::Counterclockwise
                } else {
                    Chirality::Clockwise
                },
            },
        )
    }

    pub fn pos(&self) -> (p: Pos)
        ensures
            p == self.spec_pos(),
    {
        match *self {
            OpenNode::Goal(p) => p,
            OpenNode::JumpPoint(JumpPoint { pos, .. }) => pos,
        }
    }
}

/// The unclipped step stays within the coordinate range, so stepping does
/// not wrap.
pub open spec fn step_in_range(base: Pos, dir: Direction, n: int) -> bool {
    &&& -(MAX_COORD as int) <= base.x + dir.dx() * n <= MAX_COORD as int
    &&& -(MAX_COORD as int) <= base.y + dir.dy() * n <= MAX_COORD as int
}

/// `b` is one unit step from `a`.
pub open spec fn step_adjacent(a: Pos, b: Pos) -> bool {
    exists|u: Direction| b == a.spec_step(u, 1)
}

impl JumpPoint {
    /// The jump point at `pos` turned one step to the outside of
    /// `new_chirality`.
    pub open spec fn spec_neighbor_of(
        pos: Pos,
        old_direction: Direction,
        new_chirality: Chirality,
    ) -> JumpPoint {
        JumpPoint {
            pos,
            direction: new_chirality.spec_rotate(old_direction, -1),
            chirality: new_chirality,
        }
    }

    pub fn neighbor_of(pos: Pos, old_direction: Direction, new_chirality: Chirality) -> (j:
        JumpPoint)
        ensures
            j == JumpPoint::spec_neighbor_of(pos, old_direction, new_chirality),
    {
        JumpPoint {
            pos,
            direction: new_chirality.rotate(old_direction, -1),
            chirality: new_chirality,
        }
    }

    /// A jump point is forced iff the corner cell on the chirality's
    /// outside is impassable while the cell straight ahead is passable.
    pub open spec fn spec_is_forced<D: JPSearchable>(self, d: &D) -> bool {
        &&& !d.spec_passable(self.pos.spec_step(self.chirality.spec_rotate(self.direction, -1), 1))
        &&& d.spec_passable(self.pos.spec_step(self.direction, 1))
    }

    pub fn is_forced<D: JPSearchable>(&self, d: &D) -> (b: bool)
        requires
            d.inv(),
            within(self.pos, MAX_COORD as int),
        ensures
            b == self.spec_is_forced(d),
    {
        let corner = self.pos.step(self.chirality.rotate(self.direction, -1), 1);
        let ahead = self.pos.step(self.direction, 1);
        !d.passable(corner) && d.passable(ahead)
    }
}

/// How much room a scan from `base` has left at step `len` before its
/// cursor must leave the passable region.
pub open spec fn scan_room<D: JPSearchable>(d: &D, base: Pos, len: int) -> int {
    d.limit() + abs_val(base.x as int) + abs_val(base.y as int) + 2 - len
}

/// The nodes a leaf scan emits: walking outward from `root` along `dir`,
/// emit the goal when seen, else each forced turn neighbor for both
/// chiralities, stopping at the first obstacle.
pub open spec fn leaf_scan<D: JPSearchable>(d: &D, root: Pos, dir: Direction, len: int) -> Seq<
    OpenNode,
>
    decreases scan_room(d, root, len),
{
    let cur = root.spec_step(dir, len);
    if !(step_in_range(root, dir, len) && bounded_passable(d, cur)) {
        seq![]
    } else if d.spec_goal(cur) {
        seq![OpenNode::Goal(cur)]
    } else {
        let n1 = JumpPoint::spec_neighbor_of(cur, dir, Chirality::Clockwise);
        let n2 = JumpPoint::spec_neighbor_of(cur, dir, Chirality::Counterclockwise);
        let e1: Seq<OpenNode> = if n1.spec_is_forced(d) {
            seq![OpenNode::JumpPoint(n1)]
        } else {
            seq![]
        };
        let e2: Seq<OpenNode> = if n2.spec_is_forced(d) {
            seq![OpenNode::JumpPoint(n2)]
        } else {
            seq![]
        };
        e1 + e2 + leaf_scan(d, root, dir, len + 1)
    }
}

/// The nodes a stem scan emits: walking outward from the jump point along
/// its direction, emit the goal when seen, else the forced turn neighbor
/// on the jump point's own chirality, then everything a leaf scan finds to
/// the side, stopping at the first obstacle.
pub open spec fn stem_scan<D: JPSearchable>(d: &D, jp: JumpPoint, len: int) -> Seq<OpenNode>
    decreases scan_room(d, jp.pos, len),
{
    let cur = jp.pos.spec_step(jp.direction, len);
    if !(step_in_range(jp.pos, jp.direction, len) && bounded_passable(d, cur)) {
        seq![]
    } else if d.spec_goal(cur) {
        seq![OpenNode::Goal(cur)]
    } else {
        let turn = JumpPoint::spec_neighbor_of(cur, jp.direction, jp.chirality);
        let t: Seq<OpenNode> = if turn.spec_is_forced(d) {
            seq![OpenNode::JumpPoint(turn)]
        } else {
            seq![]
        };
        t + leaf_scan(d, cur, jp.chirality.spec_rotate(jp.direction, 1), 1) + stem_scan(
            d,
            jp,
            len + 1,
        )
    }
}

/// A step count is bounded by how far the landing cell lies from the base.
pub proof fn lemma_step_len_bound(base: Pos, dir: Direction, n: int, b: int)
    requires
        0 <= n,
        0 <= b,
        step_in_range(base, dir, n),
        within(base.spec_step(dir, n), b),
    ensures
        n <= b + abs_val(base.x as int) + abs_val(base.y as int),
{
}

/// Stepping and then stepping back along the opposite direction returns to
/// the start, for positions far from the coordinate edge.
pub proof fn lemma_opposite_step(a: Pos, u: Direction)
    requires
        within(a, 0x1000_0000_0000_0000),
    ensures
        a.spec_step(u, 1).spec_step(u.spec_rotate(4), 1) == a,
{
}

/// Scan forward from `root` along `direction` for increasing length; for
/// each passable cell emit the forced turn neighbors of both chiralities;
/// on the goal emit it and stop; stop at the first obstacle.
#[verifier::rlimit(50)]
pub fn for_each_leaf_neighbor<D: JPSearchable>(d: &D, root: Pos, direction: Direction) -> (out:
    Vec<OpenNode>)
    requires
        d.inv(),
        within(root, MAX_COORD as int),
    ensures
        out@ == leaf_scan(d, root, direction, 1),
{
    proof {
        d.lemma_limit_in_range();
    }
    let mut out: Vec<OpenNode> = Vec::new();
    let mut len: i64 = 1;
    loop
        invariant
            d.inv(),
            0 <= d.limit() <= MAX_COORD as int,
            within(root, MAX_COORD as int),
            1 <= len,
            len == 1 || (step_in_range(root, direction, len - 1) && bounded_passable(
                d,
                root.spec_step(direction, len - 1),
            )),
            leaf_scan(d, root, direction, 1) == out@ + leaf_scan(d, root, direction, len as int),
        ensures
            out@ == leaf_scan(d, root, direction, 1),
        decreases scan_room(d, root, len as int),
    {
        proof {
            if len > 1 {
                lemma_step_len_bound(root, direction, len - 1, d.limit());
            }
        }
        let cursor = root.step(direction, len);
        let passable = d.passable(cursor);
        proof {
            lemma_bounded_passable(d, cursor);
            if passable {
                assert(step_in_range(root, direction, len as int));
            }
        }
        if !passable {
            proof {
                assert(leaf_scan(d, root, direction, len as int) =~= seq![]);
                assert(out@ + leaf_scan(d, root, direction, len as int) =~= out@);
            }
            return out;
        }
        if d.is_goal(cursor) {
            let ghost pre = out@;
            out.push(OpenNode::Goal(cursor));
            proof {
                assert(leaf_scan(d, root, direction, len as int) =~= seq![OpenNode::Goal(cursor)]);
                assert(pre + leaf_scan(d, root, direction, len as int) =~= out@);
            }
            return out;
        }
        let n1 = JumpPoint::neighbor_of(cursor, direction, Chirality::Clockwise);
        let n2 = JumpPoint::neighbor_of(cursor, direction, Chirality::Counterclockwise);
        let ghost e1: Seq<OpenNode> = if n1.spec_is_forced(d) {
            seq![OpenNode::JumpPoint(n1)]
        } else {
            seq![]
        };
        let ghost e2: Seq<OpenNode> = if n2.spec_is_forced(d) {
            seq![OpenNode::JumpPoint(n2)]
        } else {
            seq![]
        };
        proof {
            assert(leaf_scan(d, root, direction, len as int) =~= e1 + e2 + leaf_scan(
                d,
                root,
                direction,
                len + 1,
            ));
        }
        let ghost pre = out@;
        if n1.is_forced(d) {
            out.push(OpenNode::JumpPoint(n1));
        }
        if n2.is_forced(d) {
            out.push(OpenNode::JumpPoint(n2));
        }
        proof {
            assert(out@ =~= pre + e1 + e2);
            assert(pre + e1 + e2 + leaf_scan(d, root, direction, len + 1) =~= (pre + (e1 + e2
                + leaf_scan(d, root, direction, len + 1))));
        }
        len = len + 1;
    }
}

/// Cell `i` of a run from `base` along `dir` is passable and its
/// coordinates did not wrap.
pub open spec fn run_cell_ok<D: JPSearchable>(d: &D, base: Pos, dir: Direction, i: int) -> bool {
    step_in_range(base, dir, i) && bounded_passable(d, base.spec_step(dir, i))
}

/// `p` is `jp.pos` moved `s` cells along the stem and then `l` cells along
/// the leaf direction, every cell of the run passable and within
/// coordinate range.
pub open spec fn l_run_ok<D: JPSearchable>(d: &D, jp: JumpPoint, s: int, l: int, p: Pos) -> bool {
    let sd = jp.direction;
    let ld = jp.chirality.spec_rotate(sd, 1);
    &&& 1 <= s
    &&& 0 <= l
    &&& l_offset(jp.pos, sd, ld, s, l, p)
    &&& forall|i: int| 1 <= i <= s ==> #[trigger] run_cell_ok(d, jp.pos, sd, i)
    &&& forall|j: int| 1 <= j <= l ==> #[trigger] run_cell_ok(d, jp.pos.spec_step(sd, s), ld, j)
}

/// `p` is reached from the jump point by a straight stem run followed by a
/// perpendicular leaf run, every cell of which is passable and within
/// coordinate range.
pub open spec fn l_reaches<D: JPSearchable>(d: &D, jp: JumpPoint, p: Pos) -> bool {
    exists|s: int, l: int| l_run_ok(d, jp, s, l, p)
}

/// What holds of every node that expanding `jp` emits.
pub open spec fn emitted_ok<D: JPSearchable>(d: &D, jp: JumpPoint, n: OpenNode) -> bool {
    &&& bounded_passable(d, n.spec_pos())
    &&& l_reaches(d, jp, n.spec_pos())
    &&& n.spec_pos() != jp.pos
    &&& match n {
        OpenNode::Goal(p) => d.spec_goal(p) && (exists|u: Direction|
            bounded_passable(d, #[trigger] p.spec_step(u, 1)) || p.spec_step(u, 1) == jp.pos),
        OpenNode::JumpPoint(_) => true,
    }
}

/// Every node of the sequence is a sound emission from `jp`.
pub open spec fn all_emitted_ok<D: JPSearchable>(d: &D, jp: JumpPoint, nodes: Seq<OpenNode>) -> bool {
    forall|k: int| 0 <= k < nodes.len() ==> emitted_ok(d, jp, #[trigger] nodes[k])
}

/// Every node of a leaf scan (run from stem cell `slen` of `jp`) satisfies
/// `emitted_ok`.
#[verifier::rlimit(80)]
proof fn lemma_leaf_scan_ok<D: JPSearchable>(d: &D, jp: JumpPoint, slen: int, len: int)
    requires
        1 <= slen,
        1 <= len,
        forall|i: int| 1 <= i <= slen ==> #[trigger] run_cell_ok(d, jp.pos, jp.direction, i),
        forall|j: int|
            1 <= j < len ==> #[trigger] run_cell_ok(
                d,
                jp.pos.spec_step(jp.direction, slen),
                jp.chirality.spec_rotate(jp.direction, 1),
                j,
            ),
    ensures
        all_emitted_ok(
            d,
            jp,
            leaf_scan(
                d,
                jp.pos.spec_step(jp.direction, slen),
                jp.chirality.spec_rotate(jp.direction, 1),
                len,
            ),
        ),
    decreases scan_room(d, jp.pos.spec_step(jp.direction, slen), len),
{
    let sd = jp.direction;
    let ld = jp.chirality.spec_rotate(sd, 1);
    let root = jp.pos.spec_step(sd, slen);
    let nodes = leaf_scan(d, root, ld, len);
    let cur = root.spec_step(ld, len);
    if !(step_in_range(root, ld, len) && bounded_passable(d, cur)) {
    } else {
        assert(run_cell_ok(d, jp.pos, sd, slen));
        if len >= 2 {
            assert(run_cell_ok(d, root, ld, len - 1));
        }
        assert(l_offset(jp.pos, sd, ld, slen, len, cur));
        assert forall|j: int| 1 <= j <= len implies #[trigger] run_cell_ok(d, root, ld, j) by {
            if j == len {
                assert(root.spec_step(ld, len) == cur);
                assert(run_cell_ok(d, root, ld, len));
            }
        }
        assert(l_run_ok(d, jp, slen, len, cur));
        assert(l_reaches(d, jp, cur));
        if cur == jp.pos {
            assert(sd.dx() * slen + ld.dx() * len == sd.dx() * 0 + ld.dx() * 0);
            assert(sd.dy() * slen + ld.dy() * len == sd.dy() * 0 + ld.dy() * 0);
            lemma_decompose_unique(sd, ld, slen, len, 0, 0);
        }
        if d.spec_goal(cur) {
            if len >= 2 {
                let back = ld.spec_rotate(4);
                assert(ld.dx() * (len - 1) + ld.dx() == ld.dx() * len) by (nonlinear_arith);
                assert(ld.dy() * (len - 1) + ld.dy() == ld.dy() * len) by (nonlinear_arith);
                lemma_opposite_step(root.spec_step(ld, len - 1), ld);
                assert(root.spec_step(ld, len - 1).spec_step(ld, 1) == cur);
                assert(cur.spec_step(back, 1) == root.spec_step(ld, len - 1));
                assert(bounded_passable(d, cur.spec_step(back, 1)));
            } else {
                let back = ld.spec_rotate(4);
                lemma_opposite_step(root, ld);
                assert(cur.spec_step(back, 1) == root);
                assert(bounded_passable(d, cur.spec_step(back, 1)));
            }
            assert(OpenNode::Goal(cur).spec_pos() == cur);
            assert(exists|u: Direction|
                bounded_passable(d, #[trigger] cur.spec_step(u, 1)) || cur.spec_step(u, 1)
                    == jp.pos);
            assert(emitted_ok(d, jp, OpenNode::Goal(cur)));
        } else {
            lemma_leaf_scan_ok(d, jp, slen, len + 1);
            let n1 = JumpPoint::spec_neighbor_of(cur, ld, Chirality::Clockwise);
            let n2 = JumpPoint::spec_neighbor_of(cur, ld, Chirality::Counterclockwise);
            assert(emitted_ok(d, jp, OpenNode::JumpPoint(n1)));
            assert(emitted_ok(d, jp, OpenNode::JumpPoint(n2)));
            let rest = leaf_scan(d, root, ld, len + 1);
            assert(forall|k: int|
                0 <= k < nodes.len() ==> (nodes[k] == OpenNode::JumpPoint(n1) || nodes[k]
                    == OpenNode::JumpPoint(n2) || (exists|m: int|
                    0 <= m < rest.len() && #[trigger] rest[m] == nodes[k])));
        }
    }
}

/// Every node of a stem scan satisfies `emitted_ok`.
#[verifier::rlimit(80)]
pub proof fn lemma_stem_scan_ok<D: JPSearchable>(d: &D, jp: JumpPoint, len: int)
    requires
        1 <= len,
        forall|i: int| 1 <= i < len ==> #[trigger] run_cell_ok(d, jp.pos, jp.direction, i),
    ensures
        all_emitted_ok(d, jp, stem_scan(d, jp, len)),
    decreases scan_room(d, jp.pos, len),
{
    let sd = jp.direction;
    let ld = jp.chirality.spec_rotate(sd, 1);
    let nodes = stem_scan(d, jp, len);
    let cur = jp.pos.spec_step(sd, len);
    if !(step_in_range(jp.pos, sd, len) && bounded_passable(d, cur)) {
    } else {
        if len >= 2 {
            assert(run_cell_ok(d, jp.pos, sd, len - 1));
        }
        assert forall|i: int| 1 <= i <= len implies #[trigger] run_cell_ok(d, jp.pos, sd, i) by {
            if i == len {
                assert(jp.pos.spec_step(sd, len) == cur);
                assert(run_cell_ok(d, jp.pos, sd, len));
            }
        }
        assert(l_offset(jp.pos, sd, ld, len, 0, cur));
        assert(l_run_ok(d, jp, len, 0, cur));
        assert(l_reaches(d, jp, cur));
        if cur == jp.pos {
            assert(sd.dx() * len + ld.dx() * 0 == sd.dx() * 0 + ld.dx() * 0);
            assert(sd.dy() * len + ld.dy() * 0 == sd.dy() * 0 + ld.dy() * 0);
            lemma_decompose_unique(sd, ld, len, 0, 0, 0);
        }
        if d.spec_goal(cur) {
            let back = sd.spec_rotate(4);
            if len >= 2 {
                assert(sd.dx() * (len - 1) + sd.dx() == sd.dx() * len) by (nonlinear_arith);
                assert(sd.dy() * (len - 1) + sd.dy() == sd.dy() * len) by (nonlinear_arith);
                lemma_opposite_step(jp.pos.spec_step(sd, len - 1), sd);
                assert(jp.pos.spec_step(sd, len - 1).spec_step(sd, 1) == cur);
                assert(cur.spec_step(back, 1) == jp.pos.spec_step(sd, len - 1));
                assert(bounded_passable(d, cur.spec_step(back, 1)));
            } else {
                lemma_opposite_step(jp.pos, sd);
                assert(cur.spec_step(back, 1) == jp.pos);
            }
            assert(OpenNode::Goal(cur).spec_pos() == cur);
            assert(exists|u: Direction|
                bounded_passable(d, #[trigger] cur.spec_step(u, 1)) || cur.spec_step(u, 1)
                    == jp.pos);
            assert(emitted_ok(d, jp, OpenNode::Goal(cur)));
        } else {
            let turn = JumpPoint::spec_neighbor_of(cur, sd, jp.chirality);
            assert(emitted_ok(d, jp, OpenNode::JumpPoint(turn)));
            lemma_leaf_scan_ok(d, jp, len, 1);
            lemma_step_len_bound(jp.pos, sd, len, d.limit());
            lemma_stem_scan_ok(d, jp, len + 1);
            let side = leaf_scan(d, cur, ld, 1);
            let rest = stem_scan(d, jp, len + 1);
            assert(forall|k: int|
                0 <= k < nodes.len() ==> (nodes[k] == OpenNode::JumpPoint(turn) || (exists|m: int|
                    0 <= m < side.len() && #[trigger] side[m] == nodes[k]) || (exists|m: int|
                    0 <= m < rest.len() && #[trigger] rest[m] == nodes[k])));
        }
    }
}

impl JumpPoint {
    /// Scan forward along the stem; for each passable cell emit the forced
    /// turn neighbor of this jump point's chirality and everything a leaf
    /// scan to the side finds; on the goal emit it and stop; stop at the
    /// first obstacle.
    #[verifier::rlimit(50)]
    pub fn for_each_neighbor<D: JPSearchable>(&self, d: &D) -> (out: Vec<OpenNode>)
        requires
            d.inv(),
            within(self.pos, MAX_COORD as int),
        ensures
            out@ == stem_scan(d, *self, 1),
    {
        proof {
            d.lemma_limit_in_range();
        }
        let leaf_direction = self.chirality.rotate(self.direction, 1);
        let mut out: Vec<OpenNode> = Vec::new();
        let mut len: i64 = 1;
        loop
            invariant
                d.inv(),
                0 <= d.limit() <= MAX_COORD as int,
                within(self.pos, MAX_COORD as int),
                leaf_direction == self.chirality.spec_rotate(self.direction, 1),
                1 <= len,
                len == 1 || (step_in_range(self.pos, self.direction, len - 1) && bounded_passable(
                    d,
                    self.pos.spec_step(self.direction, len - 1),
                )),
                stem_scan(d, *self, 1) == out@ + stem_scan(d, *self, len as int),
            ensures
                out@ == stem_scan(d, *self, 1),
            decreases scan_room(d, self.pos, len as int),
        {
            proof {
                if len > 1 {
                    lemma_step_len_bound(self.pos, self.direction, len - 1, d.limit());
                }
            }
            let cursor = self.pos.step(self.direction, len);
            let passable = d.passable(cursor);
            proof {
                lemma_bounded_passable(d, cursor);
                if passable {
                    assert(step_in_range(self.pos, self.direction, len as int));
                }
            }
            if !passable {
                proof {
                    assert(stem_scan(d, *self, len as int) =~= seq![]);
                    assert(out@ + stem_scan(d, *self, len as int) =~= out@);
                }
                return out;
            }
            if d.is_goal(cursor) {
                let ghost pre = out@;
                out.push(OpenNode::Goal(cursor));
                proof {
                    assert(stem_scan(d, *self, len as int) =~= seq![OpenNode::Goal(cursor)]);
                    assert(pre + stem_scan(d, *self, len as int) =~= out@);
                }
                return out;
            }
            let turn = JumpPoint::neighbor_of(cursor, self.direction, self.chirality);
            let ghost t: Seq<OpenNode> = if turn.spec_is_forced(d) {
                seq![OpenNode::JumpPoint(turn)]
            } else {
                seq![]
            };
            proof {
                assert(stem_scan(d, *self, len as int) =~= t + leaf_scan(
                    d,
                    cursor,
                    self.chirality.spec_rotate(self.direction, 1),
                    1,
                ) + stem_scan(d, *self, len + 1));
            }
            let ghost pre = out@;
            if turn.is_forced(d) {
                out.push(OpenNode::JumpPoint(turn));
            }
            let mut side = for_each_leaf_neighbor(d, cursor, leaf_direction);
            let ghost side_seq = side@;
            out.append(&mut side);
            proof {
                assert(out@ =~= pre + t + side_seq);
                assert(pre + t + side_seq + stem_scan(d, *self, len + 1) =~= (pre + (t + side_seq
                    + stem_scan(d, *self, len + 1))));
            }
            len = len + 1;
        }
    }
}


/// Adding `a + b`, stopping at the largest value; used only for queue
/// priorities, which no contract of the search depends on.
fn saturating_add(a: u64, b: u64) -> (r: u64)
    ensures
        r as int == if a + b <= u64::MAX { a + b } else { u64::MAX as int },
{
    if b > u64::MAX - a {
        u64::MAX
    } else {
        a + b
    }
}

/// Consecutive run cells are one unit step apart.
proof fn lemma_run_adjacent<D: JPSearchable>(d: &D, base: Pos, dir: Direction, k: int)
    requires
        1 <= k,
        within(base, MAX_COORD as int),
        run_cell_ok(d, base, dir, k),
        k >= 2 ==> run_cell_ok(d, base, dir, k - 1),
    ensures
        k >= 2 ==> step_adjacent(base.spec_step(dir, k), base.spec_step(dir, k - 1)),
        k == 1 ==> step_adjacent(base.spec_step(dir, k), base),
        bounded_passable(d, base.spec_step(dir, k)),
{
    let cell = base.spec_step(dir, k);
    assert(dir.dx() * (k - 1) + dir.dx() == dir.dx() * k) by (nonlinear_arith);
    assert(dir.dy() * (k - 1) + dir.dy() == dir.dy() * k) by (nonlinear_arith);
    if k >= 2 {
        let prev = base.spec_step(dir, k - 1);
        lemma_opposite_step(prev, dir);
        assert(prev.spec_step(dir, 1) == cell);
        assert(cell.spec_step(dir.spec_rotate(4), 1) == prev);
    } else {
        lemma_opposite_step(base, dir);
        assert(base.spec_step(dir, 1) == cell);
        assert(cell.spec_step(dir.spec_rotate(4), 1) == base);
    }
}

/// One link of the parent map: the position was reached from its recorded
/// parent by an all-passable L-shaped run, and the parent's own cost is
/// strictly smaller, which keeps the chain finite.
pub open spec fn parent_link_ok<D: JPSearchable>(
    d: &D,
    origin: Pos,
    costs: Map<Pos, u64>,
    parents: Map<Pos, JumpPoint>,
    p: Pos,
) -> bool {
    let jp = parents[p];
    &&& costs.contains_key(p)
    &&& costs.contains_key(jp.pos)
    &&& costs[jp.pos] < costs[p]
    &&& costs[p] >= costs[jp.pos] + spec_distance(p, jp.pos)
    &&& l_reaches(d, jp, p)
    &&& (jp.pos == origin || bounded_passable(d, jp.pos))
    &&& within(jp.pos, MAX_COORD as int)
}

/// The invariant tying the best-cost map to the parent map: the origin has
/// cost zero and no parent, and every other recorded position carries a
/// sound link.
pub open spec fn maps_ok<D: JPSearchable>(
    d: &D,
    origin: Pos,
    costs: Map<Pos, u64>,
    parents: Map<Pos, JumpPoint>,
) -> bool {
    &&& costs.contains_key(origin)
    &&& costs[origin] == 0
    &&& !parents.contains_key(origin)
    &&& forall|p: Pos| #[trigger] costs.contains_key(p) ==> p == origin || parents.contains_key(p)
    &&& forall|p: Pos|
        #[trigger] parents.contains_key(p) ==> parent_link_ok(d, origin, costs, parents, p)
}

/// What holds of every entry sitting in the open queue.
pub open spec fn node_inv<D: JPSearchable>(
    d: &D,
    origin: Pos,
    costs: Map<Pos, u64>,
    parents: Map<Pos, JumpPoint>,
    n: OpenNode,
) -> bool {
    match n {
        OpenNode::Goal(p) => {
            &&& bounded_passable(d, p)
            &&& d.spec_goal(p)
            &&& parents.contains_key(p)
            &&& exists|u: Direction|
                bounded_passable(d, #[trigger] p.spec_step(u, 1)) || p.spec_step(u, 1) == origin
        },
        OpenNode::JumpPoint(j) => {
            &&& (j.pos == origin || bounded_passable(d, j.pos))
            &&& within(j.pos, MAX_COORD as int)
            &&& costs.contains_key(j.pos)
        },
    }
}

/// What a successful search returns: a goal-to-origin sequence of
/// positions, each one unit step from the next, every position but
/// possibly the origin passable; a search from a goal origin returns that
/// origin alone; any other success ends next to a passable cell or next to
/// the origin.
pub open spec fn jps_ok<D: JPSearchable>(d: &D, origin: Pos, path: Seq<Pos>) -> bool {
    &&& path.len() >= 1
    &&& d.spec_goal(path[0])
    &&& path[path.len() - 1] == origin
    &&& forall|i: int| 0 <= i < path.len() - 1 ==> step_adjacent(#[trigger] path[i], path[i + 1])
    &&& forall|i: int| 0 <= i < path.len() - 1 ==> d.spec_passable(#[trigger] path[i])
    &&& (d.spec_goal(origin) ==> path == seq![origin])
    &&& (!d.spec_goal(origin) ==> path.len() >= 2 && (exists|u: Direction|
        d.spec_passable(#[trigger] path[0].spec_step(u, 1)) || path[0].spec_step(u, 1) == origin))
}

/// The cells one parent link contributes to the reconstructed path: the
/// leaf run from farthest to nearest, then the stem run likewise. The
/// block starts at `p` itself and stops one step short of the parent.
pub open spec fn link_block(jp: JumpPoint, p: Pos) -> Seq<Pos> {
    let sd = jp.direction;
    let ld = jp.chirality.spec_rotate(sd, 1);
    let sl = spec_decompose(p.x - jp.pos.x, p.y - jp.pos.y, sd, ld);
    let tip = jp.pos.spec_step(sd, sl.0);
    Seq::new(sl.1 as nat, |i: int| tip.spec_step(ld, sl.1 - i)) + Seq::new(
        sl.0 as nat,
        |i: int| jp.pos.spec_step(sd, sl.0 - i),
    )
}

/// The whole reconstructed path: the link blocks along the parent chain
/// from `pos`, in chain order, ending with the parentless position itself.
pub open spec fn chain_path<D: JPSearchable>(
    d: &D,
    origin: Pos,
    costs: Map<Pos, u64>,
    parents: Map<Pos, JumpPoint>,
    pos: Pos,
) -> Seq<Pos>
    decreases costs[pos]
        when maps_ok(d, origin, costs, parents) && costs.contains_key(pos)
{
    if parents.contains_key(pos) {
        link_block(parents[pos], pos) + chain_path(d, origin, costs, parents, parents[pos].pos)
    } else {
        seq![pos]
    }
}

/// The link block spelled out over given run lengths.
proof fn lemma_link_block_shape(jp: JumpPoint, p: Pos, s: int, l: int)
    requires
        0 <= s,
        0 <= l,
        (s, l) == spec_decompose(
            p.x - jp.pos.x,
            p.y - jp.pos.y,
            jp.direction,
            jp.chirality.spec_rotate(jp.direction, 1),
        ),
    ensures
        link_block(jp, p) == Seq::new(
            l as nat,
            |i: int|
                jp.pos.spec_step(jp.direction, s).spec_step(
                    jp.chirality.spec_rotate(jp.direction, 1),
                    l - i,
                ),
        ) + Seq::new(s as nat, |i: int| jp.pos.spec_step(jp.direction, s - i)),
{
    assert(link_block(jp, p) =~= Seq::new(
        l as nat,
        |i: int|
            jp.pos.spec_step(jp.direction, s).spec_step(
                jp.chirality.spec_rotate(jp.direction, 1),
                l - i,
            ),
    ) + Seq::new(s as nat, |i: int| jp.pos.spec_step(jp.direction, s - i)));
}

/// Append the cells `base + dir*k` for `k = n` down to `1` to the path,
/// keeping it contiguous, passable and anchored at its first cell.
#[verifier::rlimit(100)]
fn push_run<D: JPSearchable>(
    path: &mut Vec<Pos>,
    base: Pos,
    dir: Direction,
    n: i64,
    Ghost(d): Ghost<D>,
)
    requires
        0 <= n <= 0x1000_0000_0000_0000,
        within(base, MAX_COORD as int),
        forall|i: int| 1 <= i <= n ==> #[trigger] run_cell_ok(&d, base, dir, i),
        old(path)@.len() > 0 && n >= 1 ==> step_adjacent(
            old(path)@[old(path)@.len() - 1],
            base.spec_step(dir, n as int),
        ),
        forall|i: int|
            0 <= i < old(path)@.len() - 1 ==> step_adjacent(
                #[trigger] old(path)@[i],
                old(path)@[i + 1],
            ),
        forall|i: int| 0 <= i < old(path)@.len() ==> bounded_passable(&d, #[trigger] old(path)@[i]),
    ensures
        final(path)@ == old(path)@ + Seq::new(n as nat, |i: int| base.spec_step(dir, n - i)),
        n >= 1 ==> final(path)@.len() > 0 && final(path)@[final(path)@.len() - 1] == base.spec_step(
            dir,
            1,
        ),
        n == 0 ==> final(path)@ == old(path)@,
        old(path)@.len() > 0 ==> final(path)@.len() > 0 && final(path)@[0] == old(path)@[0],
        old(path)@.len() == 0 && n >= 1 ==> final(path)@[0] == base.spec_step(dir, n as int),
        forall|i: int|
            0 <= i < final(path)@.len() - 1 ==> step_adjacent(
                #[trigger] final(path)@[i],
                final(path)@[i + 1],
            ),
        forall|i: int|
            0 <= i < final(path)@.len() ==> bounded_passable(&d, #[trigger] final(path)@[i]),
{
    proof {
        assert(path@ =~= old(path)@ + Seq::new(0 as nat, |i: int| base.spec_step(dir, n - i)));
    }
    let mut x = n;
    while x > 0
        invariant
            0 <= x <= n,
            n <= 0x1000_0000_0000_0000,
            within(base, MAX_COORD as int),
            forall|i: int| 1 <= i <= n ==> #[trigger] run_cell_ok(&d, base, dir, i),
            path@ == old(path)@ + Seq::new((n - x) as nat, |i: int| base.spec_step(dir, n - i)),
            old(path)@.len() > 0 && n >= 1 ==> step_adjacent(
                old(path)@[old(path)@.len() - 1],
                base.spec_step(dir, n as int),
            ),
            x < n ==> path@.len() > 0 && path@[path@.len() - 1] == base.spec_step(dir, x + 1),
            forall|i: int|
                0 <= i < path@.len() - 1 ==> step_adjacent(#[trigger] path@[i], path@[i + 1]),
            forall|i: int| 0 <= i < path@.len() ==> bounded_passable(&d, #[trigger] path@[i]),
        decreases x,
    {
        proof {
            assert(run_cell_ok(&d, base, dir, x as int));
            lemma_run_adjacent(&d, base, dir, x as int);
            if x < n {
                assert(run_cell_ok(&d, base, dir, x + 1));
                lemma_run_adjacent(&d, base, dir, x + 1);
            }
        }
        let cell = base.step(dir, x);
        path.push(cell);
        proof {
            assert(cell == base.spec_step(dir, x as int));
            assert(path@ =~= old(path)@ + Seq::new(
                (n - x + 1) as nat,
                |i: int| base.spec_step(dir, n - i),
            ));
        }
        x = x - 1;
    }
}

/// Append the cells of one parent link to the path: the leaf run from
/// farthest to nearest, then the stem run likewise, ending one step from
/// the parent's own position.
#[verifier::rlimit(100)]
#[verifier::spinoff_prover]
fn push_link<D: JPSearchable>(
    path: &mut Vec<Pos>,
    jp: JumpPoint,
    pos: Pos,
    goal: Pos,
    Ghost(d): Ghost<D>,
)
    requires
        l_reaches(&d, jp, pos),
        within(jp.pos, MAX_COORD as int),
        within(pos, MAX_COORD as int),
        old(path)@.len() == 0 ==> pos == goal,
        old(path)@.len() > 0 ==> old(path)@[0] == goal && step_adjacent(
            old(path)@[old(path)@.len() - 1],
            pos,
        ),
        forall|i: int|
            0 <= i < old(path)@.len() - 1 ==> step_adjacent(
                #[trigger] old(path)@[i],
                old(path)@[i + 1],
            ),
        forall|i: int| 0 <= i < old(path)@.len() ==> bounded_passable(&d, #[trigger] old(path)@[i]),
    ensures
        final(path)@.len() > 0,
        final(path)@[0] == goal,
        step_adjacent(final(path)@[final(path)@.len() - 1], jp.pos),
        forall|i: int|
            0 <= i < final(path)@.len() - 1 ==> step_adjacent(
                #[trigger] final(path)@[i],
                final(path)@[i + 1],
            ),
        forall|i: int|
            0 <= i < final(path)@.len() ==> bounded_passable(&d, #[trigger] final(path)@[i]),
        final(path)@ == old(path)@ + link_block(jp, pos),
        final(path)@.len() == old(path)@.len() + spec_distance(pos, jp.pos),
{
    let ld = jp.chirality.rotate(jp.direction, 1);
    let ghost (s0, l0) = choose|s: int, l: int| l_run_ok(&d, jp, s, l, pos);
    let ghost tip = jp.pos.spec_step(jp.direction, s0);
    proof {
        assert(l_run_ok(&d, jp, s0, l0, pos));
        assert(run_cell_ok(&d, jp.pos, jp.direction, s0));
        lemma_step_len_bound(jp.pos, jp.direction, s0, d.limit());
        if l0 >= 1 {
            assert(run_cell_ok(&d, tip, ld, l0));
            lemma_step_len_bound(tip, ld, l0, d.limit());
        }
        assert(adjacent_pair(jp.direction, ld));
    }
    let off_x = pos.x - jp.pos.x;
    let off_y = pos.y - jp.pos.y;
    let (s, l) = decompose(off_x, off_y, jp.direction, ld);
    proof {
        lemma_decompose_unique(jp.direction, ld, s as int, l as int, s0, l0);
    }
    let stem_tip = jp.pos.step(jp.direction, s);
    proof {
        assert(stem_tip == tip && (l0 >= 1 ==> pos == tip.spec_step(ld, l0)) && (l0 == 0 ==> pos
            == tip)) by {
            assert(tip.x == jp.pos.x + jp.direction.dx() * s0);
            assert(tip.y == jp.pos.y + jp.direction.dy() * s0);
            assert(stem_tip == tip);
            assert(l_offset(jp.pos, jp.direction, ld, s0, l0, pos));
            if l0 >= 1 {
                assert(pos == tip.spec_step(ld, l0));
            } else {
                assert(ld.dx() * 0 == 0) by (nonlinear_arith);
                assert(ld.dy() * 0 == 0) by (nonlinear_arith);
                assert(pos.x == tip.x && pos.y == tip.y);
                assert(pos == tip);
            }
        }
    }
    let ghost before = path@;
    push_run::<D>(path, stem_tip, ld, l, Ghost(d));
    let ghost mid = path@;
    proof {
        if l0 >= 1 {
            lemma_run_adjacent(&d, tip, ld, 1);
        }
        assert(run_cell_ok(&d, jp.pos, jp.direction, s0));
    }
    push_run::<D>(path, jp.pos, jp.direction, s, Ghost(d));
    proof {
        lemma_run_adjacent(&d, jp.pos, jp.direction, 1);
        assert((s0, l0) == spec_decompose(
            pos.x - jp.pos.x,
            pos.y - jp.pos.y,
            jp.direction,
            ld,
        ));
        lemma_link_block_shape(jp, pos, s0, l0);
        assert(mid =~= before + Seq::new(l0 as nat, |i: int| tip.spec_step(ld, l0 - i)));
        assert(path@ =~= before + link_block(jp, pos));
        lemma_l_steps_distance(jp.pos, jp.direction, ld, s0, l0, pos);
    }
}

/// Expand the sparse parent chain into the dense goal-to-origin path:
/// walk from the goal to the origin, expanding each link's L-shaped run
/// (leaf cells from farthest to nearest, then stem cells likewise).
#[verifier::rlimit(100)]
#[verifier::spinoff_prover]
fn construct_path<D: JPSearchable>(
    parents: &PosMap<JumpPoint>,
    goal: Pos,
    Ghost(d): Ghost<D>,
    Ghost(costs): Ghost<Map<Pos, u64>>,
    Ghost(origin): Ghost<Pos>,
) -> (path: Vec<Pos>)
    requires
        maps_ok(&d, origin, costs, parents@),
        parents@.contains_key(goal),
        bounded_passable(&d, goal),
        within(origin, MAX_COORD as int),
    ensures
        path@.len() >= 2,
        path@[0] == goal,
        path@[path@.len() - 1] == origin,
        forall|i: int| 0 <= i < path@.len() - 1 ==> step_adjacent(#[trigger] path@[i], path@[i + 1]),
        forall|i: int| 0 <= i < path@.len() - 1 ==> bounded_passable(&d, #[trigger] path@[i]),
        path@ == chain_path(&d, origin, costs, parents@, goal),
        path@.len() <= costs[goal] + 1,
{
    let mut path: Vec<Pos> = Vec::new();
    let mut pos = goal;
    proof {
        assert(path@ + chain_path(&d, origin, costs, parents@, goal) =~= chain_path(
            &d,
            origin,
            costs,
            parents@,
            goal,
        ));
    }
    loop
        invariant
            maps_ok(&d, origin, costs, parents@),
            parents@.contains_key(goal),
            within(origin, MAX_COORD as int),
            costs.contains_key(pos),
            chain_path(&d, origin, costs, parents@, goal) == path@ + chain_path(
                &d,
                origin,
                costs,
                parents@,
                pos,
            ),
            path@.len() + costs[pos] <= costs[goal],
            pos == origin || bounded_passable(&d, pos),
            within(pos, MAX_COORD as int),
            path@.len() == 0 ==> pos == goal,
            path@.len() > 0 ==> path@[0] == goal && step_adjacent(path@[path@.len() - 1], pos),
            forall|i: int|
                0 <= i < path@.len() - 1 ==> step_adjacent(#[trigger] path@[i], path@[i + 1]),
            forall|i: int| 0 <= i < path@.len() ==> bounded_passable(&d, #[trigger] path@[i]),
        ensures
            !parents@.contains_key(pos),
            costs.contains_key(pos),
            chain_path(&d, origin, costs, parents@, goal) == path@ + chain_path(
                &d,
                origin,
                costs,
                parents@,
                pos,
            ),
            path@.len() + costs[pos] <= costs[goal],
            path@.len() > 0,
            path@[0] == goal,
            step_adjacent(path@[path@.len() - 1], pos),
            forall|i: int|
                0 <= i < path@.len() - 1 ==> step_adjacent(#[trigger] path@[i], path@[i + 1]),
            forall|i: int| 0 <= i < path@.len() ==> bounded_passable(&d, #[trigger] path@[i]),
        decreases costs[pos],
    {
        let jpo = parents.get(pos);
        let jp = match jpo {
            None => {
                proof {
                    assert(path@.len() > 0);
                }
                break ;
            },
            Some(jp) => jp,
        };
        proof {
            assert(parents@.contains_key(pos));
            assert(parent_link_ok(&d, origin, costs, parents@, pos));
            assert(chain_path(&d, origin, costs, parents@, pos) =~= link_block(jp, pos)
                + chain_path(&d, origin, costs, parents@, jp.pos));
        }
        let ghost pre = path@;
        push_link::<D>(&mut path, jp, pos, goal, Ghost(d));
        proof {
            assert(pre + link_block(jp, pos) + chain_path(&d, origin, costs, parents@, jp.pos)
                =~= pre + (link_block(jp, pos) + chain_path(&d, origin, costs, parents@, jp.pos)));
        }
        pos = jp.pos;
    }
    proof {
        assert(pos == origin);
    }
    path.push(pos);
    proof {
        assert(path@[path@.len() - 1] == origin);
    }
    path
}


/// The search: returns the path as a stack, ordered from goal to origin
/// (both endpoints included); callers reverse it for travel order. `flip`
/// chooses the chirality that seeds the initial eight-direction fan-out.
/// `None` means the frontier was exhausted (or an astronomically large
/// step budget ran out) without the goal being popped.
///
/// What the contract promises: every success is its own witness (the
/// returned sequence is a contiguous, passable route from a goal to the
/// origin, so `Some` can come back only when a route exists), and success
/// is owed when the origin is itself a goal. What it does not promise:
/// that a route's existence forces `Some`, nor that the returned route is
/// shortest. The first would be a termination-and-completeness theorem for
/// the whole driver, which this crate does not attempt; the second is not
/// true of the formulation, which records a turn only where an obstacle
/// forces one and so cannot represent every shortest route.
#[verifier::rlimit(80)]
pub fn jps<D: JPSearchable>(d: &D, origin: Pos, flip: bool) -> (r: Option<Vec<Pos>>)
    requires
        d.inv(),
        in_range(origin),
    ensures
        match r {
            Some(path) => jps_ok(d, origin, path@),
            None => !d.spec_goal(origin),
        },
        d.spec_goal(origin) ==> r is Some,
{
    proof {
        d.lemma_limit_in_range();
    }
    if d.is_goal(origin) {
        let mut path: Vec<Pos> = Vec::new();
        path.push(origin);
        proof {
            assert(path@ =~= seq![origin]);
        }
        return Some(path);
    }
    let mut open: MinHeap<OpenNode> = MinHeap::new();
    let mut costs: PosMap<u64> = PosMap::new();
    let mut parents: PosMap<JumpPoint> = PosMap::new();
    let initial_priority = d.heuristic(origin);
    costs.insert(origin, 0);
    let mut i: u8 = 0;
    while i < 8
        invariant
            d.inv(),
            0 <= d.limit() <= MAX_COORD as int,
            in_range(origin),
            !d.spec_goal(origin),
            costs.wf(),
            parents.wf(),
            costs@ == Map::<Pos, u64>::empty().insert(origin, 0),
            parents@ == Map::<Pos, JumpPoint>::empty(),
            forall|k: int|
                0 <= k < open@.len() ==> node_inv(d, origin, costs@, parents@, (
                #[trigger] open@[k]).0),
        decreases 8 - i,
    {
        open.push(OpenNode::initial(origin, Direction::from_index(i), flip), initial_priority);
        i = i + 1;
    }
    let mut fuel: u64 = 0xFFFF_FFFF_FFFF_FFFF;
    loop
        invariant
            d.inv(),
            0 <= d.limit() <= MAX_COORD as int,
            in_range(origin),
            !d.spec_goal(origin),
            costs.wf(),
            parents.wf(),
            maps_ok(d, origin, costs@, parents@),
            forall|k: int|
                0 <= k < open@.len() ==> node_inv(d, origin, costs@, parents@, (
                #[trigger] open@[k]).0),
        decreases fuel,
    {
        if fuel == 0 {
            return None;
        }
        fuel = fuel - 1;
        let ghost pre_open = open@;
        let popped = open.pop();
        let node = match popped {
            None => { return None; },
            Some(n) => n,
        };
        proof {
            let i0 = choose|i0: int|
                {
                    &&& 0 <= i0 < pre_open.len()
                    &&& node == (#[trigger] pre_open[i0]).0
                    &&& open@ == pre_open.remove(i0)
                    &&& forall|j: int|
                        0 <= j < pre_open.len() ==> pre_open[i0].1 <= (#[trigger] pre_open[j]).1
                };
            assert(node_inv(d, origin, costs@, parents@, node));
            assert forall|k: int|
                0 <= k < open@.len() implies node_inv(d, origin, costs@, parents@, (
            #[trigger] open@[k]).0) by {
                if k < i0 {
                    assert(open@[k] == pre_open[k]);
                } else {
                    assert(open@[k] == pre_open[k + 1]);
                }
            }
        }
        match node {
            OpenNode::Goal(p) => {
                let path = construct_path::<D>(
                    &parents,
                    p,
                    Ghost(*d),
                    Ghost(costs@),
                    Ghost(origin),
                );
                proof {
                    let u0 = choose|u: Direction|
                        bounded_passable(d, #[trigger] p.spec_step(u, 1)) || p.spec_step(u, 1)
                            == origin;
                    assert(d.spec_passable(path@[0].spec_step(u0, 1)) || path@[0].spec_step(u0, 1)
                        == origin);
                    assert(jps_ok(d, origin, path@));
                }
                return Some(path);
            },
            OpenNode::JumpPoint(curr) => {
                let cost_curr = match costs.get(curr.pos) {
                    Some(c) => c,
                    None => vstd::pervasive::unreached(),
                };
                if cost_curr <= COST_CAP {
                    let neighbors = curr.for_each_neighbor(d);
                    proof {
                        lemma_stem_scan_ok(d, curr, 1);
                    }
                    let mut k: usize = 0;
                    while k < neighbors.len()
                        invariant
                            d.inv(),
                            0 <= d.limit() <= MAX_COORD as int,
                            in_range(origin),
                            !d.spec_goal(origin),
                            costs.wf(),
                            parents.wf(),
                            maps_ok(d, origin, costs@, parents@),
                            forall|m: int|
                                0 <= m < open@.len() ==> node_inv(d, origin, costs@, parents@, (
                                #[trigger] open@[m]).0),
                            all_emitted_ok(d, curr, neighbors@),
                            curr.pos == origin || bounded_passable(d, curr.pos),
                            within(curr.pos, MAX_COORD as int),
                            costs@.contains_key(curr.pos),
                            costs@[curr.pos] == cost_curr,
                            cost_curr <= COST_CAP,
                        decreases neighbors@.len() - k,
                    {
                        let n = neighbors[k];
                        proof {
                            assert(emitted_ok(d, curr, neighbors@[k as int]));
                        }
                        let n_pos = n.pos();
                        let dist = n_pos.distance(curr.pos);
                        proof {
                            assert(n_pos != curr.pos);
                            assert(spec_distance(n_pos, curr.pos) >= 1);
                            assert(spec_distance(n_pos, curr.pos) <= 2 * MAX_COORD as int);
                        }
                        let new_cost = cost_curr + dist;
                        let prev_opt = costs.get(n_pos);
                        let skip = match prev_opt {
                            Some(c) => new_cost > c,
                            None => false,
                        };
                        if !skip {
                            proof {
                                if n_pos == origin {
                                    assert(costs@[origin] == 0);
                                    assert(false);
                                }
                            }
                            let h = d.heuristic(n_pos);
                            let priority = saturating_add(new_cost, h);
                            let ghost open_pre = open@;
                            let ghost costs_pre = costs@;
                            let ghost parents_pre = parents@;
                            open.push(n, priority);
                            parents.insert(n_pos, curr);
                            costs.insert(n_pos, new_cost);
                            proof {
                                assert forall|p: Pos| #[trigger]
                                    costs@.contains_key(p) implies p == origin
                                    || parents@.contains_key(p) by {
                                    if p != n_pos {
                                        assert(costs_pre.contains_key(p));
                                    }
                                }
                                assert forall|p: Pos| #[trigger]
                                    parents@.contains_key(p) implies parent_link_ok(
                                    d,
                                    origin,
                                    costs@,
                                    parents@,
                                    p,
                                ) by {
                                    if p == n_pos {
                                        assert(parents@[p] == curr);
                                        assert(costs@[curr.pos] == cost_curr);
                                        assert(costs@[n_pos] == new_cost);
                                    } else {
                                        assert(parents_pre.contains_key(p));
                                        assert(parent_link_ok(
                                            d,
                                            origin,
                                            costs_pre,
                                            parents_pre,
                                            p,
                                        ));
                                        let jp = parents_pre[p];
                                        if jp.pos == n_pos {
                                            assert(costs_pre.contains_key(n_pos));
                                            assert(new_cost <= costs_pre[n_pos]);
                                        }
                                    }
                                }
                                assert(maps_ok(d, origin, costs@, parents@));
                                assert forall|m: int|
                                    0 <= m < open@.len() implies node_inv(
                                    d,
                                    origin,
                                    costs@,
                                    parents@,
                                    (#[trigger] open@[m]).0,
                                ) by {
                                    if m < open_pre.len() {
                                        assert(open@[m] == open_pre[m]);
                                        assert(node_inv(
                                            d,
                                            origin,
                                            costs_pre,
                                            parents_pre,
                                            open_pre[m].0,
                                        ));
                                    } else {
                                        assert(open@[m].0 == n);
                                        match n {
                                            OpenNode::Goal(gp) => {
                                                let u0 = choose|u: Direction|
                                                    bounded_passable(
                                                        d,
                                                        #[trigger] gp.spec_step(u, 1),
                                                    ) || gp.spec_step(u, 1) == curr.pos;
                                                assert(bounded_passable(
                                                    d,
                                                    gp.spec_step(u0, 1),
                                                ) || gp.spec_step(u0, 1) == origin);
                                            },
                                            OpenNode::JumpPoint(_) => {},
                                        }
                                    }
                                }
                            }
                        }
                        k = k + 1;
                    }
                }
            },
        }
    }
}

/// A goal that is walled in cannot be returned: if every goal position is
/// itself impassable, or has all eight neighbors impassable and none of
/// them the origin, then no sequence satisfies the search's success
/// contract, so the search answers `None`.
pub proof fn lemma_enclosed_goal_unreachable<D: JPSearchable>(d: &D, origin: Pos, path: Seq<Pos>)
    requires
        !d.spec_goal(origin),
        forall|p: Pos| #[trigger]
            d.spec_goal(p) ==> !d.spec_passable(p) || (forall|u: Direction|
                !d.spec_passable(#[trigger] p.spec_step(u, 1)) && p.spec_step(u, 1) != origin),
    ensures
        !jps_ok(d, origin, path),
{
    if jps_ok(d, origin, path) {
        let p = path[0];
        assert(d.spec_goal(p));
        assert(d.spec_passable(p));
        let u0 = choose|u: Direction|
            d.spec_passable(#[trigger] p.spec_step(u, 1)) || p.spec_step(u, 1) == origin;
        assert(!d.spec_passable(p.spec_step(u0, 1)) && p.spec_step(u0, 1) != origin);
        assert(false);
    }
}

} // verus!
