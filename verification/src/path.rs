//! Editable paths: node sequences with optional Bezier handles, and their
//! structural edits (insert, remove, subdivide, divide, join).
use vstd::prelude::*;

use crate::ids::fresh_id;

verus! {

/// A path node: a position with optional incoming and outgoing handles.
#[derive(Debug, Clone, Copy, PartialEq)]
pub struct PathNode<P> {
    pub position: P,
    pub in_handle: Option<P>,
    pub out_handle: Option<P>,
}

/// A node without handles.
pub open spec fn plain_node<P>(position: P) -> PathNode<P> {
    PathNode { position, in_handle: None, out_handle: None }
}

/// The node as seen when the path is traversed backwards: its handles swap.
pub open spec fn flipped<P>(node: PathNode<P>) -> PathNode<P> {
    PathNode { position: node.position, in_handle: node.out_handle, out_handle: node.in_handle }
}

impl<P: Copy> PathNode<P> {
    pub fn new(position: P) -> (node: PathNode<P>)
        ensures
            node == plain_node(position),
    {
        PathNode { position, in_handle: None, out_handle: None }
    }

    fn reversed(self) -> (node: PathNode<P>)
        ensures
            node == flipped(self),
    {
        PathNode { position: self.position, in_handle: self.out_handle, out_handle: self.in_handle }
    }
}

/// An editable open or closed path.
#[derive(Debug, Clone, PartialEq)]
pub struct EditablePath<P> {
    pub id: u128,
    pub nodes: Vec<PathNode<P>>,
    pub closed: bool,
}

/// Reasons a path edit is refused.
#[derive(Debug, Clone, Copy, PartialEq, Eq, Structural)]
pub enum PathError {
    InvalidIndex(usize),
    InvalidDivideIndex(usize),
    CannotDivideClosedPath,
    CannotJoinClosedPath,
    EmptyPath,
}

/// Which endpoints two paths are joined at.
#[derive(Debug, Clone, Copy, PartialEq, Eq, Structural)]
pub enum JoinMode {
    /// The end of the first path meets the start of the second.
    TailHead,
    /// The end of the first path meets the end of the second.
    TailTail,
    /// The start of the first path meets the end of the second.
    HeadTail,
    /// The start of the first path meets the start of the second.
    HeadHead,
}

/// The nodes traversed backwards.
pub open spec fn reversed_nodes_spec<P>(nodes: Seq<PathNode<P>>) -> Seq<PathNode<P>> {
    Seq::new(nodes.len(), |i: int| flipped(nodes[nodes.len() - 1 - i]))
}

/// `left` followed by `right` without `right`'s first node, which coincides
/// with `left`'s last.
pub open spec fn append_without_duplicate_spec<P>(left: Seq<PathNode<P>>, right: Seq<PathNode<P>>) -> Seq<PathNode<P>> {
    if right.len() == 0 {
        left
    } else {
        left + right.subrange(1, right.len() as int)
    }
}

/// The nodes of the joined path for a given meeting of endpoints.
pub open spec fn joined_nodes<P>(a: Seq<PathNode<P>>, b: Seq<PathNode<P>>, mode: JoinMode) -> Seq<PathNode<P>> {
    match mode {
        JoinMode::TailHead => append_without_duplicate_spec(a, b),
        JoinMode::TailTail => append_without_duplicate_spec(a, reversed_nodes_spec(b)),
        JoinMode::HeadTail => append_without_duplicate_spec(b, a),
        JoinMode::HeadHead => append_without_duplicate_spec(reversed_nodes_spec(a), b),
    }
}

fn reversed_nodes<P: Copy>(nodes: &Vec<PathNode<P>>) -> (out: Vec<PathNode<P>>)
    ensures
        out@ == reversed_nodes_spec(nodes@),
{
    let mut out: Vec<PathNode<P>> = Vec::new();
    let mut i: usize = nodes.len();
    while i > 0
        invariant
            i <= nodes@.len(),
            out@.len() == nodes@.len() - i,
            forall|k: int| 0 <= k < out@.len() ==> #[trigger] out@[k] == flipped(nodes@[nodes@.len() - 1 - k]),
        decreases i,
    {
        i = i - 1;
        out.push(nodes[i].reversed());
    }
    assert(out@ =~= reversed_nodes_spec(nodes@));
    out
}

fn append_without_duplicate<P: Copy>(left: &Vec<PathNode<P>>, right: &Vec<PathNode<P>>) -> (out: Vec<PathNode<P>>)
    ensures
        out@ == append_without_duplicate_spec(left@, right@),
{
    let mut out: Vec<PathNode<P>> = Vec::new();
    let mut i: usize = 0;
    while i < left.len()
        invariant
            i <= left@.len(),
            out@ == left@.take(i as int),
        decreases left@.len() - i,
    {
        out.push(left[i]);
        i = i + 1;
        assert(out@ =~= left@.take(i as int));
    }
    assert(left@.take(left@.len() as int) =~= left@);
    if right.len() == 0 {
        return out;
    }
    let mut j: usize = 1;
    while j < right.len()
        invariant
            1 <= j <= right@.len(),
            out@ == left@ + right@.subrange(1, j as int),
        decreases right@.len() - j,
    {
        out.push(right[j]);
        j = j + 1;
        assert(out@ =~= left@ + right@.subrange(1, j as int));
    }
    out
}

fn copy_range<P: Copy>(nodes: &Vec<PathNode<P>>, start: usize, end: usize) -> (out: Vec<PathNode<P>>)
    requires
        start <= end <= nodes@.len(),
    ensures
        out@ == nodes@.subrange(start as int, end as int),
{
    let mut out: Vec<PathNode<P>> = Vec::new();
    let mut i: usize = start;
    while i < end
        invariant
            start <= i <= end,
            end <= nodes@.len(),
            out@ == nodes@.subrange(start as int, i as int),
        decreases end - i,
    {
        out.push(nodes[i]);
        i = i + 1;
        assert(out@ =~= nodes@.subrange(start as int, i as int));
    }
    out
}

impl<P: Copy> EditablePath<P> {
    /// An open path through `points`, with no handles and a fresh id.
    pub fn from_polyline(points: Vec<P>) -> (path: EditablePath<P>)
        ensures
            path.nodes@ == Seq::new(points@.len(), |i: int| plain_node(points@[i])),
            !path.closed,
    {
        let mut nodes: Vec<PathNode<P>> = Vec::new();
        let mut i: usize = 0;
        while i < points.len()
            invariant
                i <= points@.len(),
                nodes@ == Seq::new(i as nat, |k: int| plain_node(points@[k])),
            decreases points@.len() - i,
        {
            nodes.push(PathNode::new(points[i]));
            i = i + 1;
            assert(nodes@ =~= Seq::new(i as nat, |k: int| plain_node(points@[k])));
        }
        EditablePath { id: fresh_id(), nodes, closed: false }
    }

    /// Inserts a handle-free node at `index` (0 to the node count).
    pub fn add_point(&mut self, index: usize, point: P) -> (r: Result<(), PathError>)
        ensures
            final(self).id == old(self).id,
            final(self).closed == old(self).closed,
            match r {
                Ok(()) => index <= old(self).nodes@.len() && final(self).nodes@ == old(self).nodes@.insert(
                    index as int,
                    plain_node(point),
                ),
                Err(e) => index > old(self).nodes@.len() && e == PathError::InvalidIndex(index)
                    && final(self).nodes@ == old(self).nodes@,
            },
    {
        if index > self.nodes.len() {
            return Err(PathError::InvalidIndex(index));
        }
        self.nodes.insert(index, PathNode::new(point));
        Ok(())
    }

    /// Removes and returns the node at `index`.
    pub fn remove_point(&mut self, index: usize) -> (r: Result<PathNode<P>, PathError>)
        ensures
            final(self).id == old(self).id,
            final(self).closed == old(self).closed,
            match r {
                Ok(node) => index < old(self).nodes@.len() && node == old(self).nodes@[index as int]
                    && final(self).nodes@ == old(self).nodes@.remove(index as int),
                Err(e) => index >= old(self).nodes@.len() && e == PathError::InvalidIndex(index)
                    && final(self).nodes@ == old(self).nodes@,
            },
    {
        if index >= self.nodes.len() {
            return Err(PathError::InvalidIndex(index));
        }
        Ok(self.nodes.remove(index))
    }

    /// Splits an open path at an interior node into two open paths that
    /// share that node; each half gets a fresh id.
    pub fn divide_at(&self, index: usize) -> (r: Result<(EditablePath<P>, EditablePath<P>), PathError>)
        ensures
            match r {
                Ok((left, right)) => {
                    &&& !self.closed
                    &&& 0 < index && index + 1 < self.nodes@.len()
                    &&& left.nodes@ == self.nodes@.subrange(0, index + 1)
                    &&& right.nodes@ == self.nodes@.subrange(index as int, self.nodes@.len() as int)
                    &&& !left.closed && !right.closed
                },
                Err(PathError::CannotDivideClosedPath) => self.closed,
                Err(PathError::InvalidDivideIndex(i)) => !self.closed && i == index && (index == 0
                    || index + 1 >= self.nodes@.len()),
                Err(_) => false,
            },
    {
        if self.closed {
            return Err(PathError::CannotDivideClosedPath);
        }
        if index == 0 || self.nodes.len() == 0 || index >= self.nodes.len() - 1 {
            return Err(PathError::InvalidDivideIndex(index));
        }
        let left_nodes = copy_range(&self.nodes, 0, index + 1);
        let right_nodes = copy_range(&self.nodes, index, self.nodes.len());
        let left = EditablePath { id: fresh_id(), nodes: left_nodes, closed: false };
        let right = EditablePath { id: fresh_id(), nodes: right_nodes, closed: false };
        Ok((left, right))
    }

    /// The four endpoint positions (first of `self`, last of `self`, first of
    /// `other`, last of `other`) that a join chooses between; fails when
    /// either path is closed or empty.
    pub fn join_endpoints(&self, other: &EditablePath<P>) -> (r: Result<(P, P, P, P), PathError>)
        ensures
            match r {
                Ok((a_first, a_last, b_first, b_last)) => {
                    &&& !self.closed && !other.closed
                    &&& self.nodes@.len() > 0 && other.nodes@.len() > 0
                    &&& a_first == self.nodes@[0].position
                    &&& a_last == self.nodes@.last().position
                    &&& b_first == other.nodes@[0].position
                    &&& b_last == other.nodes@.last().position
                },
                Err(PathError::CannotJoinClosedPath) => self.closed || other.closed,
                Err(PathError::EmptyPath) => !self.closed && !other.closed && (self.nodes@.len() == 0
                    || other.nodes@.len() == 0),
                Err(_) => false,
            },
    {
        if self.closed || other.closed {
            return Err(PathError::CannotJoinClosedPath);
        }
        if self.nodes.len() == 0 || other.nodes.len() == 0 {
            return Err(PathError::EmptyPath);
        }
        Ok((
            self.nodes[0].position,
            self.nodes[self.nodes.len() - 1].position,
            other.nodes[0].position,
            other.nodes[other.nodes.len() - 1].position,
        ))
    }

    /// Joins two open, non-empty paths at the endpoints named by `mode` into
    /// a new open path with a fresh id; the meeting node appears once.
    pub fn joined_by(&self, other: &EditablePath<P>, mode: JoinMode) -> (r: Result<EditablePath<P>, PathError>)
        ensures
            match r {
                Ok(path) => {
                    &&& !self.closed && !other.closed
                    &&& self.nodes@.len() > 0 && other.nodes@.len() > 0
                    &&& path.nodes@ == joined_nodes(self.nodes@, other.nodes@, mode)
                    &&& !path.closed
                },
                Err(PathError::CannotJoinClosedPath) => self.closed || other.closed,
                Err(PathError::EmptyPath) => !self.closed && !other.closed && (self.nodes@.len() == 0
                    || other.nodes@.len() == 0),
                Err(_) => false,
            },
    {
        if self.closed || other.closed {
            return Err(PathError::CannotJoinClosedPath);
        }
        if self.nodes.len() == 0 || other.nodes.len() == 0 {
            return Err(PathError::EmptyPath);
        }
        let nodes = match mode {
            JoinMode::TailHead => append_without_duplicate(&self.nodes, &other.nodes),
            JoinMode::TailTail => append_without_duplicate(&self.nodes, &reversed_nodes(&other.nodes)),
            JoinMode::HeadTail => append_without_duplicate(&other.nodes, &self.nodes),
            JoinMode::HeadHead => append_without_duplicate(&reversed_nodes(&self.nodes), &other.nodes),
        };
        Ok(EditablePath { id: fresh_id(), nodes, closed: false })
    }
}

/// Dividing an open path at an interior node and joining the halves end to
/// start gives back exactly the nodes it started with.
pub proof fn lemma_divide_then_join_restores<P>(nodes: Seq<PathNode<P>>, index: int)
    requires
        0 < index && index + 1 < nodes.len(),
    ensures
        joined_nodes(nodes.subrange(0, index + 1), nodes.subrange(index, nodes.len() as int), JoinMode::TailHead)
            == nodes,
{
    let right = nodes.subrange(index, nodes.len() as int);
    assert(right.subrange(1, right.len() as int) =~= nodes.subrange(index + 1, nodes.len() as int));
    assert(nodes.subrange(0, index + 1) + nodes.subrange(index + 1, nodes.len() as int) =~= nodes);
}

/// Traversing a path backwards twice gives back the nodes it started with, handles
/// included.
pub proof fn lemma_reverse_twice_restores<P>(nodes: Seq<PathNode<P>>)
    ensures
        reversed_nodes_spec(reversed_nodes_spec(nodes)) == nodes,
{
    assert(reversed_nodes_spec(reversed_nodes_spec(nodes)) =~= nodes);
}

/// Joining at the start of the first path and the end of the second is the
/// same as joining the second path's end to the first path's start.
pub proof fn lemma_head_tail_is_swapped_tail_head<P>(a: Seq<PathNode<P>>, b: Seq<PathNode<P>>)
    ensures
        joined_nodes(a, b, JoinMode::HeadTail) == joined_nodes(b, a, JoinMode::TailHead),
{
}

/// Removing a point right after adding it at the same index restores the
/// node sequence.
pub proof fn lemma_remove_undoes_add<P>(nodes: Seq<PathNode<P>>, index: int, point: P)
    requires
        0 <= index <= nodes.len(),
    ensures
        nodes.insert(index, plain_node(point)).remove(index) == nodes,
        nodes.insert(index, plain_node(point))[index] == plain_node(point),
{
    assert(nodes.insert(index, plain_node(point)).remove(index) =~= nodes);
}


/// Point types that paths can be refined over.
pub trait Midpoint: Copy {
    /// The point halfway between `self` and `other`.
    fn midpoint(self, other: Self) -> Self;
}

/// How far apart the nodes a path started with sit after `levels` rounds of subdivision.
pub open spec fn stride(levels: nat) -> nat
    decreases levels,
{
    if levels == 0 {
        1
    } else {
        2 * stride((levels - 1) as nat)
    }
}

/// Node count after `levels` rounds of subdividing `n` nodes: every round
/// inserts one node per segment (closed paths have `n` segments, open ones
/// `n - 1`); paths with fewer than two nodes are left alone.
pub open spec fn subdivided_len(n: nat, closed: bool, levels: nat) -> nat {
    if n < 2 {
        n
    } else if closed {
        n * stride(levels)
    } else {
        ((n - 1) * stride(levels) + 1) as nat
    }
}

/// `new` is `old` after `levels` rounds of subdivision: the nodes of `old`
/// sit unchanged every `stride(levels)` positions, and every node between
/// them is an inserted node without handles.
pub open spec fn subdivision_of<P>(old: Seq<PathNode<P>>, new: Seq<PathNode<P>>, closed: bool, levels: nat) -> bool {
    &&& new.len() == subdivided_len(old.len(), closed, levels)
    &&& forall|i: int| 0 <= i < old.len() ==> new[#[trigger] (i * stride(levels))] == old[i]
    &&& forall|q: int|
        0 <= q < new.len() && q % (stride(levels) as int) != 0 ==> (#[trigger] new[q]).in_handle is None
            && new[q].out_handle is None
}

/// `m` is a value that `Midpoint::midpoint` returns for `a` and `b`.
pub open spec fn is_midpoint<P: Midpoint>(a: P, b: P, m: P) -> bool {
    call_ensures(P::midpoint, (a, b), m)
}

/// Index `i` of a sequence of length `len`, wrapping once past the end.
pub open spec fn wrap(i: int, len: int) -> int {
    if i < len {
        i
    } else {
        i - len
    }
}

/// In `new`, the node at `2 * stride(k) * t + stride(k)` (inserted by round
/// `k` of subdivision, counting from 0) lies at the midpoint of the nodes
/// `stride(k)` positions before and after it; on a closed path the node
/// after the last one is the first.
pub open spec fn inserted_between<P: Midpoint>(new: Seq<PathNode<P>>, closed: bool, k: nat, t: int) -> bool {
    let s = stride(k) as int;
    let q = 2 * s * t + s;
    0 <= t && q < new.len() && (closed || q + s < new.len()) ==> is_midpoint(
        new[q - s].position,
        new[wrap(q + s, new.len() as int)].position,
        new[q].position,
    )
}

/// Every node inserted by the first `levels` rounds of subdivision lies at
/// the midpoint of its neighbours at the time it was inserted.
pub open spec fn midpoints_placed<P: Midpoint>(new: Seq<PathNode<P>>, closed: bool, levels: nat) -> bool {
    forall|k: nat, t: int| k < levels ==> #[trigger] inserted_between(new, closed, k, t)
}

/// One more round of subdivision keeps every earlier midpoint where it was
/// and places the new ones.
proof fn lemma_midpoints_step<P: Midpoint>(mid: Seq<PathNode<P>>, new: Seq<PathNode<P>>, closed: bool, levels: nat)
    requires
        mid.len() >= 2,
        new.len() == (if closed { 2 * mid.len() as int } else { 2 * mid.len() - 1 }),
        forall|j: int| 0 <= j < mid.len() ==> new[#[trigger] (2 * j)] == mid[j],
        forall|j: int|
            0 <= j && (if closed { j < mid.len() } else { j < mid.len() - 1 }) ==> is_midpoint(
                mid[j].position,
                mid[wrap(j + 1, mid.len() as int)].position,
                #[trigger] new[2 * j + 1].position,
            ),
        midpoints_placed(mid, closed, levels),
    ensures
        midpoints_placed(new, closed, levels + 1),
{
    let m = mid.len() as int;
    let len = new.len() as int;
    assert forall|k: nat, t: int| k < levels + 1 implies #[trigger] inserted_between(new, closed, k, t) by {
        let s = stride(k) as int;
        let q = 2 * s * t + s;
        lemma_stride_positive(k);
        if 0 <= t && q < len && (closed || q + s < len) {
            if k == 0 {
                assert(s == 1);
                assert(q == 2 * t + 1);
                assert(new[2 * t] == mid[t]);
                if closed {
                    assert(wrap(q + s, len) == 2 * wrap(t + 1, m));
                    assert(new[2 * wrap(t + 1, m)] == mid[wrap(t + 1, m)]);
                } else {
                    assert(new[2 * (t + 1)] == mid[t + 1]);
                }
            } else {
                let k1 = (k - 1) as nat;
                let s1 = stride(k1) as int;
                lemma_stride_positive(k1);
                assert(s == 2 * s1);
                let j = 2 * s1 * t + s1;
                assert(q == 2 * j) by (nonlinear_arith)
                    requires
                        s == 2 * s1,
                        q == 2 * s * t + s,
                        j == 2 * s1 * t + s1,
                ;
                assert(inserted_between(mid, closed, k1, t));
                assert(0 <= 2 * s1 * t) by (nonlinear_arith)
                    requires
                        0 <= t,
                        0 <= s1,
                ;
                assert(new[2 * j] == mid[j]);
                assert(new[2 * (j - s1)] == mid[j - s1]);
                assert(q - s == 2 * (j - s1));
                if closed {
                    assert(wrap(q + s, len) == 2 * wrap(j + s1, m));
                    assert(new[2 * wrap(j + s1, m)] == mid[wrap(j + s1, m)]);
                } else {
                    assert(q + s == 2 * (j + s1));
                    assert(new[2 * (j + s1)] == mid[j + s1]);
                }
            }
        }
    }
}

/// Subdivision never moves the ends of a path: the first node stays first
/// and, on an open path, the last node stays last.
pub proof fn lemma_subdivision_keeps_endpoints<P>(old: Seq<PathNode<P>>, new: Seq<PathNode<P>>, closed: bool, levels: nat)
    requires
        old.len() > 0,
        subdivision_of(old, new, closed, levels),
    ensures
        new.len() > 0,
        new[0] == old[0],
        !closed ==> new.last() == old.last(),
{
    lemma_stride_positive(levels);
    let s: int = stride(levels) as int;
    assert(0 * s == 0);
    assert(new[0 * s] == old[0]);
    if old.len() >= 2 && closed {
        assert(old.len() * s >= 1) by (nonlinear_arith)
            requires
                old.len() >= 2,
                s >= 1,
        ;
    }
    if !closed {
        let last: int = old.len() - 1;
        assert(new[last * s] == old[last]);
        if old.len() >= 2 {
            assert(new.len() == last * s + 1);
        }
    }
}

proof fn lemma_stride_positive(levels: nat)
    ensures
        stride(levels) >= 1,
    decreases levels,
{
    if levels > 0 {
        lemma_stride_positive((levels - 1) as nat);
    }
}

proof fn lemma_stride_monotone(a: nat, b: nat)
    requires
        a <= b,
    ensures
        stride(a) <= stride(b),
    decreases b,
{
    if a < b {
        lemma_stride_monotone(a, (b - 1) as nat);
        lemma_stride_positive((b - 1) as nat);
    }
}

proof fn lemma_subdivided_len_monotone(n: nat, closed: bool, a: nat, b: nat)
    requires
        a <= b,
    ensures
        subdivided_len(n, closed, a) <= subdivided_len(n, closed, b),
{
    lemma_stride_monotone(a, b);
    if n >= 2 {
        let sa = stride(a);
        let sb = stride(b);
        if closed {
            assert(n * sa <= n * sb) by (nonlinear_arith)
                requires
                    sa <= sb,
            ;
        } else {
            assert((n - 1) * sa <= (n - 1) * sb) by (nonlinear_arith)
                requires
                    sa <= sb,
                    n >= 2,
            ;
        }
    }
}

/// An even index that is not a multiple of `2 * s` halves to an index that
/// is not a multiple of `s`.
proof fn lemma_half_index_off_stride(j: int, s: int)
    requires
        s > 0,
        j >= 0,
        (2 * j) % (2 * s) != 0,
    ensures
        j % s != 0,
{
    if j % s == 0 {
        vstd::arithmetic::div_mod::lemma_fundamental_div_mod(j, s);
        let t = j / s;
        assert(2 * j == t * (2 * s)) by (nonlinear_arith)
            requires
                j == s * t,
        ;
        vstd::arithmetic::div_mod::lemma_mod_multiples_basic(t, 2 * s);
    }
}

/// One more round of subdivision extends a `levels`-round subdivision.
proof fn lemma_subdivision_step<P>(
    old: Seq<PathNode<P>>,
    mid: Seq<PathNode<P>>,
    new: Seq<PathNode<P>>,
    closed: bool,
    levels: nat,
)
    requires
        subdivision_of(old, mid, closed, levels),
        old.len() >= 2,
        new.len() == (if closed { 2 * mid.len() as int } else { 2 * mid.len() - 1 }),
        forall|j: int| 0 <= j < mid.len() ==> new[#[trigger] (2 * j)] == mid[j],
        forall|q: int| 0 <= q < new.len() && q % 2 == 1 ==> (#[trigger] new[q]).in_handle is None
            && new[q].out_handle is None,
    ensures
        subdivision_of(old, new, closed, levels + 1),
{
    let s = stride(levels);
    lemma_stride_positive(levels);
    assert(stride(levels + 1) == 2 * s);
    let n = old.len();
    if closed {
        assert(2 * (n * s) == n * (2 * s)) by (nonlinear_arith);
    } else {
        assert(2 * ((n - 1) * s + 1) - 1 == (n - 1) * (2 * s) + 1) by (nonlinear_arith);
    }
    assert forall|i: int| 0 <= i < old.len() implies new[#[trigger] (i * stride(levels + 1))] == old[i] by {
        assert(i * (2 * s) == 2 * (i * s)) by (nonlinear_arith);
        assert(0 <= i * s) by (nonlinear_arith)
            requires
                0 <= i,
                0 <= s,
        ;
        assert(mid[i * s] == old[i]);
        assert(i * s < mid.len()) by (nonlinear_arith)
            requires
                0 <= i < n,
                s >= 1,
                mid.len() == (if closed { (n * s) as int } else { (n - 1) * s + 1 }),
                n >= 2,
        ;
    }
    assert forall|q: int| 0 <= q < new.len() && q % (stride(levels + 1) as int) != 0 implies (#[trigger] new[q]).in_handle is None
        && new[q].out_handle is None by {
        if q % 2 == 0 {
            let j = q / 2;
            assert(q == 2 * j);
            lemma_half_index_off_stride(j, s as int);
            assert(new[2 * j] == mid[j]);
        }
    }
}

impl<P: Midpoint> EditablePath<P> {
    fn subdivide_once(&mut self)
        requires
            subdivided_len(old(self).nodes@.len(), old(self).closed, 1) <= usize::MAX,
        ensures
            final(self).id == old(self).id,
            final(self).closed == old(self).closed,
            old(self).nodes@.len() < 2 ==> final(self).nodes@ == old(self).nodes@,
            old(self).nodes@.len() >= 2 ==> {
                &&& final(self).nodes@.len() == (if old(self).closed {
                    2 * old(self).nodes@.len() as int
                } else {
                    2 * old(self).nodes@.len() - 1
                })
                &&& forall|j: int| 0 <= j < old(self).nodes@.len() ==> final(self).nodes@[#[trigger] (2 * j)]
                    == old(self).nodes@[j]
                &&& forall|q: int| 0 <= q < final(self).nodes@.len() && q % 2 == 1 ==> (
                #[trigger] final(self).nodes@[q]).in_handle is None && final(self).nodes@[q].out_handle is None
                &&& forall|j: int|
                    0 <= j && (if old(self).closed {
                        j < old(self).nodes@.len()
                    } else {
                        j < old(self).nodes@.len() - 1
                    }) ==> is_midpoint(
                        old(self).nodes@[j].position,
                        old(self).nodes@[wrap(j + 1, old(self).nodes@.len() as int)].position,
                        #[trigger] final(self).nodes@[2 * j + 1].position,
                    )
            },
    {
        let n = self.nodes.len();
        if n < 2 {
            return;
        }
        assert(stride(1) == 2) by {
            reveal_with_fuel(stride, 2);
        }
        assert((n as int - 1) * 2 == 2 * n - 2);
        assert((n as int) * 2 == 2 * n);
        assert(self.closed ==> subdivided_len(n as nat, self.closed, 1) == 2 * n);
        assert(!self.closed ==> subdivided_len(n as nat, self.closed, 1) == 2 * n - 1);
        let mut refined: Vec<PathNode<P>> = Vec::new();
        if self.closed {
            let mut index: usize = 0;
            while index < n
                invariant
                    n == self.nodes@.len(),
                    n >= 2,
                    2 * n <= usize::MAX,
                    index <= n,
                    refined@.len() == 2 * index,
                    forall|j: int| 0 <= j < index ==> refined@[#[trigger] (2 * j)] == self.nodes@[j],
                    forall|q: int| 0 <= q < refined@.len() && q % 2 == 1 ==> (#[trigger] refined@[q]).in_handle is None
                        && refined@[q].out_handle is None,
                    forall|j: int| 0 <= j < index ==> is_midpoint(
                        self.nodes@[j].position,
                        self.nodes@[wrap(j + 1, n as int)].position,
                        #[trigger] refined@[2 * j + 1].position,
                    ),
                decreases n - index,
            {
                let current = self.nodes[index];
                assert((index as int + 1) % (n as int) == wrap(index + 1, n as int)) by (nonlinear_arith)
                    requires
                        index < n,
                {
                    if index + 1 == n {
                        assert((n as int) % (n as int) == 0);
                    }
                }
                let next = self.nodes[(index + 1) % n];
                refined.push(current);
                refined.push(PathNode::new(current.position.midpoint(next.position)));
                index = index + 1;
            }
        } else {
            let mut index: usize = 0;
            while index < n - 1
                invariant
                    n == self.nodes@.len(),
                    n >= 2,
                    2 * n - 1 <= usize::MAX,
                    index <= n - 1,
                    refined@.len() == 2 * index,
                    forall|j: int| 0 <= j < index ==> refined@[#[trigger] (2 * j)] == self.nodes@[j],
                    forall|q: int| 0 <= q < refined@.len() && q % 2 == 1 ==> (#[trigger] refined@[q]).in_handle is None
                        && refined@[q].out_handle is None,
                    forall|j: int| 0 <= j < index ==> is_midpoint(
                        self.nodes@[j].position,
                        self.nodes@[wrap(j + 1, n as int)].position,
                        #[trigger] refined@[2 * j + 1].position,
                    ),
                decreases n - 1 - index,
            {
                let current = self.nodes[index];
                let next = self.nodes[index + 1];
                refined.push(current);
                refined.push(PathNode::new(current.position.midpoint(next.position)));
                index = index + 1;
            }
            refined.push(self.nodes[n - 1]);
            assert(refined@[2 * (n - 1)] == self.nodes@[n - 1]);
        }
        self.nodes = refined;
    }

    /// Refines the path `levels` times; every round inserts a handle-free
    /// node between each pair of consecutive nodes (and, on closed paths,
    /// between the last node and the first), placed at the `midpoint` of
    /// the two.
    pub fn subdivide(&mut self, levels: u32)
        requires
            subdivided_len(old(self).nodes@.len(), old(self).closed, levels as nat) <= usize::MAX,
        ensures
            final(self).id == old(self).id,
            final(self).closed == old(self).closed,
            subdivision_of(old(self).nodes@, final(self).nodes@, old(self).closed, levels as nat),
            midpoints_placed(final(self).nodes@, old(self).closed, levels as nat),
    {
        let ghost initial = self.nodes@;
        let mut round: u32 = 0;
        assert forall|i: int| 0 <= i < initial.len() implies self.nodes@[#[trigger] (i * stride(0))] == initial[i] by {
            assert(i * 1 == i);
        }
        while round < levels
            invariant
                round <= levels,
                self.id == old(self).id,
                self.closed == old(self).closed,
                initial == old(self).nodes@,
                subdivided_len(initial.len(), self.closed, levels as nat) <= usize::MAX,
                subdivision_of(initial, self.nodes@, self.closed, round as nat),
                midpoints_placed(self.nodes@, self.closed, round as nat),
            decreases levels - round,
        {
            proof {
                lemma_subdivided_len_monotone(initial.len(), self.closed, (round + 1) as nat, levels as nat);
                lemma_stride_positive(round as nat);
                assert(stride(1) == 2) by {
                    reveal_with_fuel(stride, 2);
                }
                if initial.len() >= 2 {
                    let s = stride(round as nat);
                    let n = initial.len();
                    if self.closed {
                        assert(2 * (n * s) == n * (2 * s)) by (nonlinear_arith);
                        assert(n * s >= 2) by (nonlinear_arith)
                            requires
                                n >= 2,
                                s >= 1,
                        ;
                    } else {
                        assert(2 * ((n - 1) * s + 1) - 1 == (n - 1) * (2 * s) + 1) by (nonlinear_arith);
                        assert((n - 1) * s >= 1) by (nonlinear_arith)
                            requires
                                n >= 2,
                                s >= 1,
                        ;
                    }
                    assert(stride((round + 1) as nat) == 2 * s);
                    assert(self.nodes@.len() >= 2);
                    assert(subdivided_len(self.nodes@.len(), self.closed, 1) == subdivided_len(n, self.closed, (round + 1) as nat));
                }
            }
            let ghost mid = self.nodes@;
            self.subdivide_once();
            proof {
                if initial.len() >= 2 {
                    lemma_subdivision_step(initial, mid, self.nodes@, self.closed, round as nat);
                    lemma_midpoints_step(mid, self.nodes@, self.closed, round as nat);
                } else {
                    assert forall|k: nat, t: int| k < round + 1 implies #[trigger] inserted_between(self.nodes@, self.closed, k, t) by {
                        let sk = stride(k) as int;
                        lemma_stride_positive(k);
                        if 0 <= t {
                            assert(2 * sk * t >= 0) by (nonlinear_arith)
                                requires
                                    sk >= 1,
                                    t >= 0,
                            ;
                        }
                    }
                    let s2 = stride((round + 1) as nat);
                    lemma_stride_positive((round + 1) as nat);
                    assert(self.nodes@ == mid);
                    assert forall|i: int| 0 <= i < initial.len() implies self.nodes@[#[trigger] (i * stride((round + 1) as nat))] == initial[i] by {
                        assert(i == 0);
                        assert(0int * s2 == 0);
                        assert(mid[0int * stride(round as nat)] == initial[0]);
                        assert(0int * stride(round as nat) == 0);
                    }
                    assert forall|q: int| 0 <= q < self.nodes@.len() && q % (stride((round + 1) as nat) as int) != 0 implies (#[trigger] self.nodes@[q]).in_handle is None
                        && self.nodes@[q].out_handle is None by {
                        assert(q == 0);
                        assert(0int % (s2 as int) == 0);
                    }
                }
            }
            round = round + 1;
        }
    }
}

} // verus!
