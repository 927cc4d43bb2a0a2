//! Reveal planning for traced paths and keyframed camera tracks.
use vstd::prelude::*;

verus! {

/// Which way a reveal travels from its seed node.
#[derive(Debug, Clone, Copy, PartialEq, Eq, Structural)]
pub enum RevealDirection {
    TowardStart,
    TowardEnd,
    Both,
}

/// Which part of a reveal an event belongs to.
#[derive(Debug, Clone, Copy, PartialEq, Eq, Structural)]
pub enum RevealBranch {
    Seed,
    Start,
    End,
}

/// The moment at which one path node becomes visible.
#[derive(Debug, Clone, Copy, PartialEq, Eq, Structural)]
pub struct RevealEvent {
    pub node_index: usize,
    pub at_ms: u64,
    pub branch: RevealBranch,
}

/// A timed reveal of a path, events ordered by time then node index.
#[derive(Debug, Clone, PartialEq, Eq)]
pub struct RevealPlan {
    pub seed_node_index: usize,
    pub duration_ms: u64,
    pub events: Vec<RevealEvent>,
}

/// Errors of reveal planning and camera tracks.
#[derive(Debug, Clone, Copy, PartialEq, Eq, Structural)]
pub enum AnimationError {
    EmptyPath,
    InvalidSeedIndex(usize),
    EmptyCameraTrack,
    DuplicateCameraTime(u64),
}

/// The node index of an event when it has happened by `at_ms`.
pub open spec fn revealed_by(at_ms: u64) -> spec_fn(RevealEvent) -> Option<usize> {
    |e: RevealEvent| if e.at_ms <= at_ms { Some(e.node_index) } else { None }
}

impl RevealPlan {
    /// The nodes revealed at or before `at_ms`, in event order.
    pub fn revealed_nodes_at(&self, at_ms: u64) -> (nodes: Vec<usize>)
        ensures
            nodes@ == self.events@.filter_map(revealed_by(at_ms)),
    {
        let mut nodes: Vec<usize> = Vec::new();
        let mut i: usize = 0;
        while i < self.events.len()
            invariant
                i <= self.events@.len(),
                nodes@ == self.events@.take(i as int).filter_map(revealed_by(at_ms)),
            decreases self.events@.len() - i,
        {
            proof {
                self.events@.lemma_filter_map_take_succ(revealed_by(at_ms), i as int);
            }
            let event = self.events[i];
            if event.at_ms <= at_ms {
                nodes.push(event.node_index);
            }
            i = i + 1;
        }
        assert(self.events@.take(self.events@.len() as int) == self.events@);
        nodes
    }
}

/// One node visited by a reveal walk, with the node it is reached from.
#[derive(Debug, Clone, Copy, PartialEq, Eq, Structural)]
pub struct RevealStep {
    pub node_index: usize,
    pub previous_index: usize,
    pub branch: RevealBranch,
}

pub open spec fn walks_toward_start(direction: RevealDirection) -> bool {
    direction == RevealDirection::TowardStart || direction == RevealDirection::Both
}

pub open spec fn walks_toward_end(direction: RevealDirection) -> bool {
    direction == RevealDirection::TowardEnd || direction == RevealDirection::Both
}

/// The walk from the seed down to node 0.
pub open spec fn start_branch(seed: usize) -> Seq<RevealStep> {
    Seq::new(
        seed as nat,
        |k: int|
            RevealStep {
                node_index: (seed - 1 - k) as usize,
                previous_index: (seed - k) as usize,
                branch: RevealBranch::Start,
            },
    )
}

/// The walk from the seed up to the last node.
pub open spec fn end_branch(node_count: usize, seed: usize) -> Seq<RevealStep> {
    Seq::new(
        (node_count - 1 - seed) as nat,
        |k: int|
            RevealStep {
                node_index: (seed + 1 + k) as usize,
                previous_index: (seed + k) as usize,
                branch: RevealBranch::End,
            },
    )
}

/// The seed, then (when enabled) every node toward the start, then every
/// node toward the end, each paired with the node it is reached from.
pub open spec fn reveal_walk_spec(node_count: usize, seed: usize, direction: RevealDirection) -> Seq<
    RevealStep,
> {
    seq![RevealStep { node_index: seed, previous_index: seed, branch: RevealBranch::Seed }] + (if walks_toward_start(direction) {
        start_branch(seed)
    } else {
        Seq::empty()
    }) + (if walks_toward_end(direction) {
        end_branch(node_count, seed)
    } else {
        Seq::empty()
    })
}

/// The order in which a reveal from `seed` visits the nodes of a path with
/// `node_count` nodes; fails for an empty path or an out-of-range seed.
pub fn reveal_walk(node_count: usize, seed: usize, direction: RevealDirection) -> (r: Result<
    Vec<RevealStep>,
    AnimationError,
>)
    ensures
        match r {
            Ok(steps) => {
                &&& node_count > 0 && seed < node_count
                &&& steps@ == reveal_walk_spec(node_count, seed, direction)
                &&& steps@[0].node_index == seed
                &&& steps@.len() == 1 + (if direction != RevealDirection::TowardEnd { seed as int } else { 0 })
                    + (if direction != RevealDirection::TowardStart { node_count - 1 - seed } else { 0 })
                &&& forall|i: int, j: int|
                    0 <= i < j < steps@.len() ==> (#[trigger] steps@[i]).node_index != (#[trigger] steps@[j]).node_index
                &&& forall|k: int|
                    0 <= k < node_count ==> (#[trigger] reveals_node(steps@, k) <==> (k == seed || (k < seed
                        && direction != RevealDirection::TowardEnd) || (k > seed && direction
                        != RevealDirection::TowardStart)))
            },
            Err(AnimationError::EmptyPath) => node_count == 0,
            Err(AnimationError::InvalidSeedIndex(i)) => node_count > 0 && seed >= node_count && i
                == seed,
            Err(_) => false,
        },
{
    if node_count == 0 {
        return Err(AnimationError::EmptyPath);
    }
    if seed >= node_count {
        return Err(AnimationError::InvalidSeedIndex(seed));
    }
    let mut steps: Vec<RevealStep> = Vec::new();
    steps.push(RevealStep { node_index: seed, previous_index: seed, branch: RevealBranch::Seed });
    let ghost first = steps@;
    if matches!(direction, RevealDirection::TowardStart | RevealDirection::Both) {
        let mut index: usize = seed;
        while index > 0
            invariant
                index <= seed,
                steps@ == first + start_branch(seed).take((seed - index) as int),
            decreases index,
        {
            let previous = index;
            index = index - 1;
            steps.push(RevealStep { node_index: index, previous_index: previous, branch: RevealBranch::Start });
            assert(steps@ =~= first + start_branch(seed).take((seed - index) as int));
        }
        assert(start_branch(seed).take(seed as int) =~= start_branch(seed));
    }
    let ghost middle = steps@;
    assert(middle == first + (if walks_toward_start(direction) {
        start_branch(seed)
    } else {
        Seq::empty()
    }));
    if matches!(direction, RevealDirection::TowardEnd | RevealDirection::Both) {
        let mut index: usize = seed + 1;
        while index < node_count
            invariant
                seed < index <= node_count,
                steps@ == middle + end_branch(node_count, seed).take((index - 1 - seed) as int),
            decreases node_count - index,
        {
            steps.push(RevealStep { node_index: index, previous_index: index - 1, branch: RevealBranch::End });
            index = index + 1;
            assert(steps@ =~= middle + end_branch(node_count, seed).take((index - 1 - seed) as int));
        }
        assert(end_branch(node_count, seed).take((node_count - 1 - seed) as int) =~= end_branch(node_count, seed));
    }
    assert(steps@ =~= reveal_walk_spec(node_count, seed, direction));
    proof {
        lemma_reveal_walk_covers(node_count, seed, direction);
    }
    Ok(steps)
}

/// Some step of `steps` reveals node `k`.
pub open spec fn reveals_node(steps: Seq<RevealStep>, k: int) -> bool {
    exists|i: int| 0 <= i < steps.len() && #[trigger] steps[i].node_index == k
}

/// Revealing in both directions visits every node of the path exactly once:
/// one step per node, all in range, no node twice, and each node reached.
pub proof fn lemma_both_directions_reveal_every_node_once(node_count: usize, seed: usize)
    requires
        seed < node_count,
    ensures
        ({
            let steps = reveal_walk_spec(node_count, seed, RevealDirection::Both);
            &&& steps.len() == node_count
            &&& forall|i: int| 0 <= i < steps.len() ==> (#[trigger] steps[i]).node_index < node_count
            &&& forall|i: int, j: int|
                0 <= i < j < steps.len() ==> (#[trigger] steps[i]).node_index != (#[trigger] steps[j]).node_index
            &&& forall|k: int| 0 <= k < node_count ==> #[trigger] reveals_node(steps, k)
        }),
{
    let steps = reveal_walk_spec(node_count, seed, RevealDirection::Both);
    let head = seq![RevealStep { node_index: seed, previous_index: seed, branch: RevealBranch::Seed }];
    let starts = start_branch(seed);
    let ends = end_branch(node_count, seed);
    assert(steps == head + starts + ends);
    assert forall|i: int| 0 <= i < steps.len() implies (#[trigger] steps[i]).node_index == (if i == 0 {
        seed as int
    } else if i <= seed {
        seed - i
    } else {
        i
    }) by {
        if i == 0 {
        } else if i <= seed {
            assert(steps[i] == starts[i - 1]);
        } else {
            assert(steps[i] == ends[i - 1 - seed]);
        }
    }
    assert forall|k: int| 0 <= k < node_count implies #[trigger] reveals_node(steps, k) by {
        if k == seed {
            assert(steps[0].node_index == k);
        } else if k < seed {
            assert(steps[seed - k].node_index == k);
        } else {
            assert(steps[k].node_index == k);
        }
    }
}

/// What any reveal walk covers: the seed first; then, walking toward the
/// start (`TowardStart` or `Both`), every node below the seed; walking
/// toward the end (`TowardEnd` or `Both`), every node above it; each node
/// at most once and nothing else.
pub proof fn lemma_reveal_walk_covers(node_count: usize, seed: usize, direction: RevealDirection)
    requires
        seed < node_count,
    ensures
        ({
            let steps = reveal_walk_spec(node_count, seed, direction);
            let below: int = if direction != RevealDirection::TowardEnd { seed as int } else { 0 };
            let above: int = if direction != RevealDirection::TowardStart { node_count - 1 - seed } else { 0 };
            &&& steps.len() == 1 + below + above
            &&& steps[0].node_index == seed
            &&& forall|i: int| 0 <= i < steps.len() ==> (#[trigger] steps[i]).node_index < node_count
            &&& forall|i: int, j: int|
                0 <= i < j < steps.len() ==> (#[trigger] steps[i]).node_index != (#[trigger] steps[j]).node_index
            &&& forall|k: int|
                0 <= k < node_count ==> (#[trigger] reveals_node(steps, k) <==> (k == seed || (k < seed
                    && direction != RevealDirection::TowardEnd) || (k > seed && direction
                    != RevealDirection::TowardStart)))
        }),
{
    let steps = reveal_walk_spec(node_count, seed, direction);
    let below: int = if direction != RevealDirection::TowardEnd { seed as int } else { 0 };
    let above: int = if direction != RevealDirection::TowardStart { node_count - 1 - seed } else { 0 };
    let head = seq![RevealStep { node_index: seed, previous_index: seed, branch: RevealBranch::Seed }];
    let starts: Seq<RevealStep> = if walks_toward_start(direction) { start_branch(seed) } else { Seq::empty() };
    let ends: Seq<RevealStep> = if walks_toward_end(direction) { end_branch(node_count, seed) } else { Seq::empty() };
    assert(steps == head + starts + ends);
    assert(starts.len() == below);
    assert(ends.len() == above);
    assert forall|i: int| 0 <= i < steps.len() implies (#[trigger] steps[i]).node_index == (if i == 0 {
        seed as int
    } else if i <= below {
        seed - i
    } else {
        seed + (i - below)
    }) by {
        if i == 0 {
        } else if i <= below {
            assert(steps[i] == starts[i - 1]);
        } else {
            assert(steps[i] == ends[i - 1 - below]);
        }
    }
    assert forall|k: int|
        0 <= k < node_count implies (#[trigger] reveals_node(steps, k) <==> (k == seed || (k < seed && direction
            != RevealDirection::TowardEnd) || (k > seed && direction != RevealDirection::TowardStart))) by {
        if k == seed {
            assert(steps[0].node_index == k);
        } else if k < seed && direction != RevealDirection::TowardEnd {
            assert(steps[seed - k].node_index == k);
        } else if k > seed && direction != RevealDirection::TowardStart {
            assert(steps[below + (k - seed)].node_index == k);
        } else {
            if reveals_node(steps, k) {
                let i = choose|i: int| 0 <= i < steps.len() && #[trigger] steps[i].node_index == k;
                assert(steps[i].node_index == k);
            }
        }
    }
}

/// When every event happens by `t1`, the events revealed by `t1` and by any
/// later `t2` are the same.
proof fn lemma_all_revealed(events: Seq<RevealEvent>, t1: u64, t2: u64)
    requires
        t1 <= t2,
        forall|i: int| 0 <= i < events.len() ==> (#[trigger] events[i]).at_ms <= t1,
    ensures
        events.filter_map(revealed_by(t1)) == events.filter_map(revealed_by(t2)),
    decreases events.len(),
{
    if events.len() > 0 {
        let rest = events.drop_last();
        assert forall|i: int| 0 <= i < rest.len() implies (#[trigger] rest[i]).at_ms <= t1 by {
            assert(rest[i] == events[i]);
        }
        lemma_all_revealed(rest, t1, t2);
        assert(events.last() == events[events.len() - 1]);
    }
}

/// Revealing is progressive: on events ordered by time, what is revealed
/// by a moment is a prefix of what is revealed by any later moment.
pub proof fn lemma_reveal_is_progressive(events: Seq<RevealEvent>, t1: u64, t2: u64)
    requires
        events_sorted(events),
        t1 <= t2,
    ensures
        events.filter_map(revealed_by(t1)).is_prefix_of(events.filter_map(revealed_by(t2))),
    decreases events.len(),
{
    if events.len() > 0 {
        let rest = events.drop_last();
        let last = events.last();
        assert(last == events[events.len() - 1]);
        assert forall|i: int, j: int| 0 <= i < j < rest.len() implies event_key_le(#[trigger] rest[i], #[trigger] rest[j]) by {
            assert(rest[i] == events[i] && rest[j] == events[j]);
        }
        lemma_reveal_is_progressive(rest, t1, t2);
        let a = rest.filter_map(revealed_by(t1));
        let b = rest.filter_map(revealed_by(t2));
        if last.at_ms <= t1 {
            assert forall|i: int| 0 <= i < rest.len() implies (#[trigger] rest[i]).at_ms <= t1 by {
                assert(rest[i] == events[i]);
                assert(event_key_le(events[i], events[events.len() - 1]));
            }
            lemma_all_revealed(rest, t1, t2);
            assert(events.filter_map(revealed_by(t1)) == events.filter_map(revealed_by(t2)));
        } else if last.at_ms <= t2 {
            assert(events.filter_map(revealed_by(t1)) == a);
            assert(events.filter_map(revealed_by(t2)) == b + seq![last.node_index]);
            assert((b + seq![last.node_index]).subrange(0, a.len() as int) =~= b.subrange(0, a.len() as int));
        } else {
            assert(events.filter_map(revealed_by(t1)) == a);
            assert(events.filter_map(revealed_by(t2)) == b);
        }
    }
}

/// `a` orders no later than `b`: earlier time, or equal time and no larger node index.
pub open spec fn event_key_le(a: RevealEvent, b: RevealEvent) -> bool {
    a.at_ms < b.at_ms || (a.at_ms == b.at_ms && a.node_index <= b.node_index)
}

pub open spec fn same_event_key(a: RevealEvent, b: RevealEvent) -> bool {
    a.at_ms == b.at_ms && a.node_index == b.node_index
}

/// Events ordered by time, then node index.
pub open spec fn events_sorted(s: Seq<RevealEvent>) -> bool {
    forall|i: int, j: int| 0 <= i < j < s.len() ==> event_key_le(#[trigger] s[i], #[trigger] s[j])
}

/// `out` holds the events of `input` moved by the permutation `perm`
/// (`out[k] == input[perm[k]]`), and events with equal keys keep their
/// input order.
pub open spec fn stable_rearrangement(input: Seq<RevealEvent>, out: Seq<RevealEvent>, perm: Seq<int>) -> bool {
    &&& out.len() == input.len()
    &&& perm.len() == input.len()
    &&& forall|k: int| 0 <= k < perm.len() ==> 0 <= #[trigger] perm[k] < input.len() && out[k] == input[perm[k]]
    &&& forall|i: int, j: int| 0 <= i < j < perm.len() ==> #[trigger] perm[i] != #[trigger] perm[j]
    &&& forall|i: int, j: int|
        0 <= i < j < out.len() && same_event_key(#[trigger] out[i], #[trigger] out[j]) ==> perm[i] < perm[j]
}

fn event_key_le_exec(a: &RevealEvent, b: &RevealEvent) -> (r: bool)
    ensures
        r == event_key_le(*a, *b),
{
    a.at_ms < b.at_ms || (a.at_ms == b.at_ms && a.node_index <= b.node_index)
}

/// Stable sort of events by time, then node index.
pub fn sort_events(events: &Vec<RevealEvent>) -> (out: Vec<RevealEvent>)
    ensures
        events_sorted(out@),
        exists|perm: Seq<int>| stable_rearrangement(events@, out@, perm),
{
    let mut out: Vec<RevealEvent> = Vec::new();
    let ghost mut perm: Seq<int> = Seq::empty();
    let mut m: usize = 0;
    while m < events.len()
        invariant
            m <= events@.len(),
            out@.len() == m,
            perm.len() == m,
            events_sorted(out@),
            forall|k: int| 0 <= k < m ==> 0 <= #[trigger] perm[k] < m && out@[k] == events@[perm[k]],
            forall|i: int, j: int| 0 <= i < j < m ==> #[trigger] perm[i] != #[trigger] perm[j],
            forall|i: int, j: int|
                0 <= i < j < m && same_event_key(#[trigger] out@[i], #[trigger] out@[j]) ==> perm[i] < perm[j],
        decreases events@.len() - m,
    {
        let e = events[m];
        let mut p: usize = 0;
        while p < out.len() && event_key_le_exec(&out[p], &e)
            invariant
                p <= out@.len(),
                forall|q: int| 0 <= q < p ==> event_key_le(#[trigger] out@[q], e),
            decreases out@.len() - p,
        {
            p = p + 1;
        }
        let ghost old_out = out@;
        let ghost old_perm = perm;
        proof {
            assert forall|q: int| p <= q < old_out.len() implies !event_key_le(#[trigger] old_out[q], e) by {
                if q > p {
                    assert(event_key_le(old_out[p as int], old_out[q]));
                }
            }
        }
        out.insert(p, e);
        proof {
            perm = perm.insert(p as int, m as int);
            assert(out@ == old_out.insert(p as int, e));
            assert forall|i: int, j: int| 0 <= i < j < out@.len() implies event_key_le(#[trigger] out@[i], #[trigger] out@[j]) by {
                if j < p {
                    assert(out@[i] == old_out[i] && out@[j] == old_out[j]);
                } else if j == p {
                    assert(out@[i] == old_out[i]);
                } else if i < p {
                    assert(out@[i] == old_out[i] && out@[j] == old_out[j - 1]);
                    assert(event_key_le(old_out[i], old_out[j - 1]));
                } else if i == p {
                    assert(out@[j] == old_out[j - 1]);
                    assert(!event_key_le(old_out[j - 1], e));
                } else {
                    assert(out@[i] == old_out[i - 1] && out@[j] == old_out[j - 1]);
                    assert(event_key_le(old_out[i - 1], old_out[j - 1]));
                }
            }
            assert forall|k: int| 0 <= k < m + 1 implies 0 <= #[trigger] perm[k] < m + 1 && out@[k] == events@[perm[k]] by {
                if k < p {
                    assert(perm[k] == old_perm[k]);
                } else if k > p {
                    assert(perm[k] == old_perm[k - 1]);
                }
            }
            assert forall|i: int, j: int| 0 <= i < j < m + 1 implies #[trigger] perm[i] != #[trigger] perm[j] by {
                if i < p && j < p {
                    assert(perm[i] == old_perm[i] && perm[j] == old_perm[j]);
                } else if i < p && j > p {
                    assert(perm[i] == old_perm[i] && perm[j] == old_perm[j - 1]);
                } else if i > p && j > p {
                    assert(perm[i] == old_perm[i - 1] && perm[j] == old_perm[j - 1]);
                } else if i == p {
                    assert(perm[j] == old_perm[j - 1]);
                } else {
                    assert(perm[i] == old_perm[i]);
                }
            }
            assert forall|i: int, j: int|
                0 <= i < j < m + 1 && same_event_key(#[trigger] out@[i], #[trigger] out@[j]) implies perm[i] < perm[j] by {
                if i < p && j < p {
                    assert(perm[i] == old_perm[i] && perm[j] == old_perm[j]);
                    assert(out@[i] == old_out[i] && out@[j] == old_out[j]);
                } else if i < p && j > p {
                    assert(perm[i] == old_perm[i] && perm[j] == old_perm[j - 1]);
                    assert(out@[i] == old_out[i] && out@[j] == old_out[j - 1]);
                } else if i > p && j > p {
                    assert(perm[i] == old_perm[i - 1] && perm[j] == old_perm[j - 1]);
                    assert(out@[i] == old_out[i - 1] && out@[j] == old_out[j - 1]);
                } else if i == p {
                    assert(out@[j] == old_out[j - 1]);
                    assert(!event_key_le(old_out[j - 1], e));
                } else {
                    assert(perm[i] == old_perm[i]);
                }
            }
        }
        m = m + 1;
    }
    assert(stable_rearrangement(events@, out@, perm));
    out
}

/// The latest event time, or 0 when there are no events.
pub open spec fn latest_time(events: Seq<RevealEvent>) -> u64
    decreases events.len(),
{
    if events.len() == 0 {
        0
    } else {
        let rest = latest_time(events.drop_last());
        if events.last().at_ms > rest {
            events.last().at_ms
        } else {
            rest
        }
    }
}

/// Orders timed events into a plan whose duration is the latest event time.
pub fn finish_reveal_plan(seed_node_index: usize, events: Vec<RevealEvent>) -> (plan: RevealPlan)
    ensures
        plan.seed_node_index == seed_node_index,
        events_sorted(plan.events@),
        exists|perm: Seq<int>| stable_rearrangement(events@, plan.events@, perm),
        plan.duration_ms == latest_time(events@),
{
    let sorted = sort_events(&events);
    let mut duration_ms: u64 = 0;
    let mut i: usize = 0;
    while i < events.len()
        invariant
            i <= events@.len(),
            duration_ms == latest_time(events@.take(i as int)),
        decreases events@.len() - i,
    {
        assert(events@.take(i + 1).drop_last() =~= events@.take(i as int));
        if events[i].at_ms > duration_ms {
            duration_ms = events[i].at_ms;
        }
        i = i + 1;
    }
    assert(events@.take(events@.len() as int) =~= events@);
    RevealPlan { seed_node_index, duration_ms, events: sorted }
}


/// Every event time is at most the latest time, and a non-empty event list
/// reaches it.
pub proof fn lemma_latest_time_is_maximum(events: Seq<RevealEvent>)
    ensures
        forall|i: int| 0 <= i < events.len() ==> (#[trigger] events[i]).at_ms <= latest_time(events),
        events.len() > 0 ==> exists|i: int| 0 <= i < events.len() && events[i].at_ms == latest_time(events),
    decreases events.len(),
{
    if events.len() > 0 {
        let rest = events.drop_last();
        lemma_latest_time_is_maximum(rest);
        assert forall|i: int| 0 <= i < events.len() implies (#[trigger] events[i]).at_ms <= latest_time(events) by {
            if i < events.len() - 1 {
                assert(events[i] == rest[i]);
            }
        }
        if events.last().at_ms > latest_time(rest) {
            assert(events[events.len() - 1].at_ms == latest_time(events));
        } else if rest.len() > 0 {
            let i = choose|i: int| 0 <= i < rest.len() && rest[i].at_ms == latest_time(rest);
            assert(events[i] == rest[i]);
        } else {
            assert(events[0].at_ms == latest_time(events));
        }
    }
}

/// A camera state pinned to a moment of a track.
#[derive(Debug, Clone, Copy, PartialEq)]
pub struct CameraKeyframe<C> {
    pub at_ms: u64,
    pub camera: C,
}

/// Keyframes ordered by strictly increasing time.
#[derive(Debug, Clone, PartialEq)]
pub struct CameraTrack<C> {
    pub keyframes: Vec<CameraKeyframe<C>>,
}

/// Where a moment falls on a camera track: at a keyframe's camera, or
/// `elapsed_ms` into the `span_ms` between keyframe `start` and the next.
#[derive(Debug, Clone, Copy, PartialEq, Eq, Structural)]
pub enum CameraSample {
    Keyframe(usize),
    Between { start: usize, elapsed_ms: u64, span_ms: u64 },
}

/// Keyframe times never decrease.
pub open spec fn keyframes_sorted<C>(s: Seq<CameraKeyframe<C>>) -> bool {
    forall|i: int, j: int| 0 <= i < j < s.len() ==> (#[trigger] s[i]).at_ms <= (#[trigger] s[j]).at_ms
}

/// Keyframe times strictly increase.
pub open spec fn keyframes_strictly_increasing<C>(s: Seq<CameraKeyframe<C>>) -> bool {
    forall|i: int, j: int| 0 <= i < j < s.len() ==> (#[trigger] s[i]).at_ms < (#[trigger] s[j]).at_ms
}

/// Two different keyframes of `s` share time `t`.
pub open spec fn duplicated_time<C>(s: Seq<CameraKeyframe<C>>, t: u64) -> bool {
    exists|i: int, j: int| 0 <= i < s.len() && 0 <= j < s.len() && i != j && #[trigger] s[i].at_ms == t && #[trigger] s[j].at_ms == t
}

/// `out` is `input` moved by the bijection `perm` (`out[k] == input[perm[k]]`),
/// whose inverse is `inv`.
pub open spec fn keyframe_permutation<C>(
    input: Seq<CameraKeyframe<C>>,
    out: Seq<CameraKeyframe<C>>,
    perm: Seq<int>,
    inv: Seq<int>,
) -> bool {
    &&& out.len() == input.len()
    &&& perm.len() == input.len()
    &&& inv.len() == input.len()
    &&& forall|k: int| 0 <= k < perm.len() ==> 0 <= #[trigger] perm[k] < input.len() && out[k] == input[perm[k]]
    &&& forall|x: int| 0 <= x < inv.len() ==> 0 <= #[trigger] inv[x] < out.len() && perm[inv[x]] == x
    &&& forall|k: int| 0 <= k < perm.len() ==> inv[#[trigger] perm[k]] == k
}

/// Sorts keyframes by time.
fn sort_keyframes<C: Copy>(keyframes: &Vec<CameraKeyframe<C>>) -> (out: Vec<CameraKeyframe<C>>)
    ensures
        keyframes_sorted(out@),
        exists|perm: Seq<int>, inv: Seq<int>| keyframe_permutation(keyframes@, out@, perm, inv),
{
    let mut out: Vec<CameraKeyframe<C>> = Vec::new();
    let ghost mut perm: Seq<int> = Seq::empty();
    let ghost mut inv: Seq<int> = Seq::empty();
    let mut m: usize = 0;
    while m < keyframes.len()
        invariant
            m <= keyframes@.len(),
            out@.len() == m,
            perm.len() == m,
            inv.len() == m,
            keyframes_sorted(out@),
            forall|k: int| 0 <= k < m ==> 0 <= #[trigger] perm[k] < m && out@[k] == keyframes@[perm[k]],
            forall|x: int| 0 <= x < m ==> 0 <= #[trigger] inv[x] < m && perm[inv[x]] == x,
            forall|k: int| 0 <= k < m ==> inv[#[trigger] perm[k]] == k,
        decreases keyframes@.len() - m,
    {
        let e = keyframes[m];
        let mut p: usize = 0;
        while p < out.len() && out[p].at_ms <= e.at_ms
            invariant
                p <= out@.len(),
                forall|q: int| 0 <= q < p ==> (#[trigger] out@[q]).at_ms <= e.at_ms,
            decreases out@.len() - p,
        {
            p = p + 1;
        }
        let ghost old_out = out@;
        let ghost old_perm = perm;
        let ghost old_inv = inv;
        proof {
            assert forall|q: int| p <= q < old_out.len() implies (#[trigger] old_out[q]).at_ms > e.at_ms by {
                if q > p {
                    assert(old_out[p as int].at_ms <= old_out[q].at_ms);
                }
            }
        }
        out.insert(p, e);
        proof {
            perm = old_perm.insert(p as int, m as int);
            inv = Seq::new((m + 1) as nat, |x: int| if x == m { p as int } else if old_inv[x] >= p { old_inv[x] + 1 } else { old_inv[x] });
            assert(out@ == old_out.insert(p as int, e));
            assert forall|i: int, j: int| 0 <= i < j < out@.len() implies (#[trigger] out@[i]).at_ms <= (#[trigger] out@[j]).at_ms by {
                if j < p {
                    assert(out@[i] == old_out[i] && out@[j] == old_out[j]);
                } else if j == p {
                    assert(out@[i] == old_out[i]);
                } else if i < p {
                    assert(out@[i] == old_out[i] && out@[j] == old_out[j - 1]);
                    assert(old_out[i].at_ms <= old_out[j - 1].at_ms);
                } else if i == p {
                    assert(out@[j] == old_out[j - 1]);
                } else {
                    assert(out@[i] == old_out[i - 1] && out@[j] == old_out[j - 1]);
                    assert(old_out[i - 1].at_ms <= old_out[j - 1].at_ms);
                }
            }
            assert forall|k: int| 0 <= k < m + 1 implies 0 <= #[trigger] perm[k] < m + 1 && out@[k] == keyframes@[perm[k]] by {
                if k < p {
                    assert(perm[k] == old_perm[k]);
                } else if k > p {
                    assert(perm[k] == old_perm[k - 1]);
                }
            }
            assert forall|x: int| 0 <= x < m + 1 implies 0 <= #[trigger] inv[x] < m + 1 && perm[inv[x]] == x by {
                if x < m {
                    let y = old_inv[x];
                    assert(old_perm[y] == x);
                    if y >= p {
                        assert(perm[y + 1] == old_perm[y]);
                    } else {
                        assert(perm[y] == old_perm[y]);
                    }
                }
            }
            assert forall|k: int| 0 <= k < m + 1 implies inv[#[trigger] perm[k]] == k by {
                if k < p {
                    assert(perm[k] == old_perm[k]);
                    assert(old_inv[old_perm[k]] == k);
                } else if k > p {
                    assert(perm[k] == old_perm[k - 1]);
                    assert(old_inv[old_perm[k - 1]] == k - 1);
                }
            }
        }
        m = m + 1;
    }
    assert(keyframe_permutation(keyframes@, out@, perm, inv));
    out
}

/// A keyframe time that differs from its successor in every earlier
/// adjacent pair of a sorted sequence is the smallest duplicated time.
proof fn lemma_first_adjacent_duplicate<C>(s: Seq<CameraKeyframe<C>>, i: int)
    requires
        keyframes_sorted(s),
        0 <= i < s.len() - 1,
        s[i].at_ms == s[i + 1].at_ms,
        forall|j: int| 0 <= j < i ==> (#[trigger] s[j]).at_ms != s[j + 1].at_ms,
    ensures
        duplicated_time(s, s[i].at_ms),
        forall|t: u64| duplicated_time(s, t) ==> s[i].at_ms <= t,
{
    assert(s[i].at_ms == s[i].at_ms && s[i + 1].at_ms == s[i].at_ms);
    assert forall|t: u64| duplicated_time(s, t) implies s[i].at_ms <= t by {
        let (a, b) = choose|a: int, b: int| 0 <= a < s.len() && 0 <= b < s.len() && a != b && #[trigger] s[a].at_ms == t && #[trigger] s[b].at_ms == t;
        let lo = if a < b { a } else { b };
        let hi = if a < b { b } else { a };
        assert(s[lo].at_ms == t && s[hi].at_ms == t);
        if t < s[i].at_ms {
            // the pair (lo, lo + 1) is adjacent, equal and before i
            assert(s[lo].at_ms <= s[lo + 1].at_ms);
            assert(s[lo + 1].at_ms <= s[hi].at_ms);
            if lo >= i {
                assert(s[i].at_ms <= s[lo].at_ms);
            }
            assert(s[lo].at_ms == s[lo + 1].at_ms);
        }
    }
}

/// Without equal adjacent times, a sorted sequence strictly increases.
proof fn lemma_sorted_distinct_adjacent_strict<C>(s: Seq<CameraKeyframe<C>>)
    requires
        keyframes_sorted(s),
        forall|j: int| 0 <= j < s.len() - 1 ==> (#[trigger] s[j]).at_ms != s[j + 1].at_ms,
    ensures
        keyframes_strictly_increasing(s),
{
    assert forall|i: int, j: int| 0 <= i < j < s.len() implies (#[trigger] s[i]).at_ms < (#[trigger] s[j]).at_ms by {
        assert(s[i].at_ms <= s[i + 1].at_ms);
        assert(s[i].at_ms != s[i + 1].at_ms);
        assert(s[i + 1].at_ms <= s[j].at_ms);
    }
}

/// A time duplicated in a sequence is duplicated in any permutation of it.
proof fn lemma_duplicate_transfers<C>(
    input: Seq<CameraKeyframe<C>>,
    out: Seq<CameraKeyframe<C>>,
    perm: Seq<int>,
    inv: Seq<int>,
    t: u64,
)
    requires
        keyframe_permutation(input, out, perm, inv),
    ensures
        duplicated_time(input, t) <==> duplicated_time(out, t),
{
    if duplicated_time(input, t) {
        let (a, b) = choose|a: int, b: int| 0 <= a < input.len() && 0 <= b < input.len() && a != b && #[trigger] input[a].at_ms == t && #[trigger] input[b].at_ms == t;
        let ia = inv[a];
        let ib = inv[b];
        assert(out[ia] == input[perm[ia]]);
        assert(out[ib] == input[perm[ib]]);
        assert(out[ia].at_ms == t && out[ib].at_ms == t);
    }
    if duplicated_time(out, t) {
        let (a, b) = choose|a: int, b: int| 0 <= a < out.len() && 0 <= b < out.len() && a != b && #[trigger] out[a].at_ms == t && #[trigger] out[b].at_ms == t;
        assert(out[a] == input[perm[a]]);
        assert(out[b] == input[perm[b]]);
        assert(inv[perm[a]] >= 0);
        assert(inv[perm[a]] == a && inv[perm[b]] == b);
        assert(input[perm[a]].at_ms == t && input[perm[b]].at_ms == t);
    }
}

impl<C: Copy> CameraTrack<C> {
    /// A track holding the keyframes sorted by time; fails when there are no
    /// keyframes, or reports the smallest time that two keyframes share.
    pub fn new(keyframes: Vec<CameraKeyframe<C>>) -> (r: Result<CameraTrack<C>, AnimationError>)
        ensures
            match r {
                Ok(track) => {
                    &&& keyframes@.len() > 0
                    &&& forall|t: u64| !duplicated_time(keyframes@, t)
                    &&& keyframes_strictly_increasing(track.keyframes@)
                    &&& exists|perm: Seq<int>, inv: Seq<int>| keyframe_permutation(keyframes@, track.keyframes@, perm, inv)
                },
                Err(AnimationError::EmptyCameraTrack) => keyframes@.len() == 0,
                Err(AnimationError::DuplicateCameraTime(t)) => {
                    &&& duplicated_time(keyframes@, t)
                    &&& forall|u: u64| duplicated_time(keyframes@, u) ==> t <= u
                },
                Err(_) => false,
            },
    {
        if keyframes.len() == 0 {
            return Err(AnimationError::EmptyCameraTrack);
        }
        let sorted = sort_keyframes(&keyframes);
        let ghost (perm, inv) = choose|perm: Seq<int>, inv: Seq<int>| keyframe_permutation(keyframes@, sorted@, perm, inv);
        let mut i: usize = 0;
        while i < sorted.len() - 1
            invariant
                keyframe_permutation(keyframes@, sorted@, perm, inv),
                sorted@.len() == keyframes@.len(),
                keyframes_sorted(sorted@),
                i < sorted@.len(),
                forall|j: int| 0 <= j < i ==> (#[trigger] sorted@[j]).at_ms != sorted@[j + 1].at_ms,
            decreases sorted@.len() - i,
        {
            if sorted[i].at_ms == sorted[i + 1].at_ms {
                proof {
                    lemma_first_adjacent_duplicate(sorted@, i as int);
                    assert forall|u: u64| duplicated_time(keyframes@, u) implies sorted@[i as int].at_ms <= u by {
                        lemma_duplicate_transfers(keyframes@, sorted@, perm, inv, u);
                    }
                    lemma_duplicate_transfers(keyframes@, sorted@, perm, inv, sorted@[i as int].at_ms);
                }
                return Err(AnimationError::DuplicateCameraTime(sorted[i].at_ms));
            }
            i = i + 1;
        }
        proof {
            lemma_sorted_distinct_adjacent_strict(sorted@);
            assert forall|t: u64| !duplicated_time(keyframes@, t) by {
                lemma_duplicate_transfers(keyframes@, sorted@, perm, inv, t);
                if duplicated_time(sorted@, t) {
                    let (a, b) = choose|a: int, b: int| 0 <= a < sorted@.len() && 0 <= b < sorted@.len() && a != b && #[trigger] sorted@[a].at_ms == t && #[trigger] sorted@[b].at_ms == t;
                    if a < b {
                        assert(sorted@[a].at_ms < sorted@[b].at_ms);
                    } else {
                        assert(sorted@[b].at_ms < sorted@[a].at_ms);
                    }
                }
            }
        }
        assert(keyframe_permutation(keyframes@, sorted@, perm, inv));
        assert(forall|t: u64| !duplicated_time(keyframes@, t));
        assert(keyframes_strictly_increasing(sorted@));
        let track = CameraTrack { keyframes: sorted };
        assert(track.keyframes@ == sorted@);
        Ok(track)
    }
}


/// Moment `at_ms` lies within the window from keyframe `i` to keyframe `i + 1`.
pub open spec fn in_window<C>(k: Seq<CameraKeyframe<C>>, i: int, at_ms: u64) -> bool {
    k[i].at_ms <= at_ms <= k[i + 1].at_ms
}

impl<C: Copy> CameraTrack<C> {
    /// Where `at_ms` falls: before the first keyframe it is the first camera,
    /// after the last it is the last camera, otherwise it lies in the first
    /// window of consecutive keyframes that contains it.
    pub fn locate(&self, at_ms: u64) -> (r: CameraSample)
        requires
            self.keyframes@.len() > 0,
        ensures
            ({
                let k = self.keyframes@;
                let last = k.len() - 1;
                match r {
                    CameraSample::Keyframe(i) => if at_ms <= k[0].at_ms {
                        i == 0
                    } else {
                        &&& i == last
                        &&& (at_ms >= k[last].at_ms || forall|j: int| 0 <= j < last ==> !in_window(k, j, at_ms))
                    },
                    CameraSample::Between { start, elapsed_ms, span_ms } => {
                        &&& k[0].at_ms < at_ms < k[last].at_ms
                        &&& start < last
                        &&& in_window(k, start as int, at_ms)
                        &&& forall|j: int| 0 <= j < start ==> !in_window(k, j, at_ms)
                        &&& elapsed_ms == at_ms - k[start as int].at_ms
                        &&& span_ms == k[start + 1].at_ms - k[start as int].at_ms
                    },
                }
            }),
    {
        let last = self.keyframes.len() - 1;
        if at_ms <= self.keyframes[0].at_ms {
            return CameraSample::Keyframe(0);
        }
        if at_ms >= self.keyframes[last].at_ms {
            return CameraSample::Keyframe(last);
        }
        let mut i: usize = 0;
        while i < last
            invariant
                last == self.keyframes@.len() - 1,
                i <= last,
                self.keyframes@[0].at_ms < at_ms < self.keyframes@[last as int].at_ms,
                forall|j: int| 0 <= j < i ==> !in_window(self.keyframes@, j, at_ms),
            decreases last - i,
        {
            let start = self.keyframes[i].at_ms;
            let end = self.keyframes[i + 1].at_ms;
            if at_ms >= start && at_ms <= end {
                return CameraSample::Between { start: i, elapsed_ms: at_ms - start, span_ms: end - start };
            }
            i = i + 1;
        }
        CameraSample::Keyframe(last)
    }
}

/// On a track with strictly increasing times, a moment between the first and
/// last keyframe falls into a window that starts strictly before it.
pub proof fn lemma_located_window_is_tight<C>(k: Seq<CameraKeyframe<C>>, start: int, at_ms: u64)
    requires
        keyframes_strictly_increasing(k),
        0 <= start < k.len() - 1,
        k[0].at_ms < at_ms,
        in_window(k, start, at_ms),
        forall|j: int| 0 <= j < start ==> !in_window(k, j, at_ms),
    ensures
        k[start].at_ms < at_ms <= k[start + 1].at_ms,
        0 < k[start + 1].at_ms - k[start].at_ms,
{
    if start > 0 && k[start].at_ms == at_ms {
        assert(k[start - 1].at_ms < k[start].at_ms);
        assert(in_window(k, start - 1, at_ms));
    }
    assert(k[start].at_ms < k[start + 1].at_ms);
}

} // verus!
