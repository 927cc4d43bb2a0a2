//! Snapshot history with undo and redo over serialized document states.
use vstd::prelude::*;

verus! {

/// Why an undo or redo could not be carried out.
#[derive(Debug, Clone, Copy, PartialEq, Eq, Structural)]
pub enum HistoryError {
    NothingToUndo,
    NothingToRedo,
}

/// The abstract state of a history: the snapshots behind the present (oldest
/// first), the present snapshot, and the undone snapshots (the next redo last).
pub struct HistoryState {
    pub past: Seq<Seq<char>>,
    pub present: Seq<char>,
    pub future: Seq<Seq<char>>,
}

/// A new history whose present is `snapshot`.
pub open spec fn history_start(snapshot: Seq<char>) -> HistoryState {
    HistoryState { past: Seq::empty(), present: snapshot, future: Seq::empty() }
}

/// Committing makes `snapshot` the present, pushes the old present onto the
/// past and discards everything that could have been redone.
pub open spec fn history_commit(h: HistoryState, snapshot: Seq<char>) -> HistoryState {
    HistoryState { past: h.past.push(h.present), present: snapshot, future: Seq::empty() }
}

/// Undo (defined when the past is non-empty): the newest past snapshot
/// becomes the present and the old present becomes the next redo.
pub open spec fn history_undo(h: HistoryState) -> HistoryState {
    HistoryState { past: h.past.drop_last(), present: h.past.last(), future: h.future.push(h.present) }
}

/// Redo (defined when the future is non-empty): the newest undone snapshot
/// becomes the present and the old present returns to the past.
pub open spec fn history_redo(h: HistoryState) -> HistoryState {
    HistoryState { past: h.past.push(h.present), present: h.future.last(), future: h.future.drop_last() }
}

/// Linear undo/redo history of serialized document snapshots.
#[derive(Debug, Clone)]
pub struct DocumentHistory {
    past: Vec<String>,
    present: String,
    future: Vec<String>,
}

impl View for DocumentHistory {
    type V = HistoryState;

    closed spec fn view(&self) -> HistoryState {
        HistoryState {
            past: self.past@.map_values(|s: String| s@),
            present: self.present@,
            future: self.future@.map_values(|s: String| s@),
        }
    }
}

impl DocumentHistory {
    /// A history whose only state is `snapshot`.
    pub fn new(snapshot: String) -> (h: DocumentHistory)
        ensures
            h@ == history_start(snapshot@),
    {
        let h = DocumentHistory { past: Vec::new(), present: snapshot, future: Vec::new() };
        assert(h@.past =~= Seq::<Seq<char>>::empty());
        assert(h@.future =~= Seq::<Seq<char>>::empty());
        h
    }

    /// Records `snapshot` as the new present state.
    pub fn commit(&mut self, snapshot: String)
        ensures
            final(self)@ == history_commit(old(self)@, snapshot@),
    {
        let mut previous = snapshot;
        std::mem::swap(&mut self.present, &mut previous);
        self.past.push(previous);
        self.future.clear();
        assert(self@.past =~= old(self)@.past.push(old(self)@.present));
        assert(self@.future =~= Seq::<Seq<char>>::empty());
    }

    /// Steps back to the previous snapshot and returns it; fails, changing
    /// nothing, when there is nothing to undo.
    pub fn undo(&mut self) -> (r: Result<String, HistoryError>)
        ensures
            match r {
                Ok(snapshot) => {
                    &&& old(self)@.past.len() > 0
                    &&& final(self)@ == history_undo(old(self)@)
                    &&& snapshot@ == final(self)@.present
                },
                Err(e) => {
                    &&& old(self)@.past.len() == 0
                    &&& e == HistoryError::NothingToUndo
                    &&& final(self)@ == old(self)@
                },
            },
    {
        let previous = match self.past.pop() {
            Some(previous) => previous,
            None => return Err(HistoryError::NothingToUndo),
        };
        let mut current = previous;
        std::mem::swap(&mut self.present, &mut current);
        self.future.push(current);
        assert(self@.past =~= old(self)@.past.drop_last());
        assert(self@.future =~= old(self)@.future.push(old(self)@.present));
        Ok(self.present.clone())
    }

    /// Steps forward to the most recently undone snapshot and returns it;
    /// fails, changing nothing, when there is nothing to redo.
    pub fn redo(&mut self) -> (r: Result<String, HistoryError>)
        ensures
            match r {
                Ok(snapshot) => {
                    &&& old(self)@.future.len() > 0
                    &&& final(self)@ == history_redo(old(self)@)
                    &&& snapshot@ == final(self)@.present
                },
                Err(e) => {
                    &&& old(self)@.future.len() == 0
                    &&& e == HistoryError::NothingToRedo
                    &&& final(self)@ == old(self)@
                },
            },
    {
        let next = match self.future.pop() {
            Some(next) => next,
            None => return Err(HistoryError::NothingToRedo),
        };
        let mut current = next;
        std::mem::swap(&mut self.present, &mut current);
        self.past.push(current);
        assert(self@.past =~= old(self)@.past.push(old(self)@.present));
        assert(self@.future =~= old(self)@.future.drop_last());
        Ok(self.present.clone())
    }

    /// The current snapshot.
    pub fn present(&self) -> (s: &String)
        ensures
            s@ == self@.present,
    {
        &self.present
    }

    /// How many undo steps are available.
    pub fn undo_depth(&self) -> (n: usize)
        ensures
            n == self@.past.len(),
    {
        self.past.len()
    }

    /// How many redo steps are available.
    pub fn redo_depth(&self) -> (n: usize)
        ensures
            n == self@.future.len(),
    {
        self.future.len()
    }
}

/// Undoing a commit restores the state that was present before it, keeps the
/// earlier past, and makes the committed snapshot the next redo.
pub proof fn lemma_undo_reverts_commit(h: HistoryState, snapshot: Seq<char>)
    ensures
        history_commit(h, snapshot).past.len() > 0,
        history_undo(history_commit(h, snapshot)).present == h.present,
        history_undo(history_commit(h, snapshot)).past == h.past,
        history_undo(history_commit(h, snapshot)).future == seq![snapshot],
{
    assert(h.past.push(h.present).drop_last() =~= h.past);
    assert(Seq::<Seq<char>>::empty().push(snapshot) =~= seq![snapshot]);
}

/// Redoing right after an undo returns the history to exactly the state it
/// had before the undo.
pub proof fn lemma_redo_reverts_undo(h: HistoryState)
    requires
        h.past.len() > 0,
    ensures
        history_undo(h).future.len() > 0,
        history_redo(history_undo(h)) == h,
{
    assert(h.past.drop_last().push(h.past.last()) =~= h.past);
    assert(h.future.push(h.present).drop_last() =~= h.future);
}

/// Undoing right after a redo returns the history to exactly the state it
/// had before the redo.
pub proof fn lemma_undo_reverts_redo(h: HistoryState)
    requires
        h.future.len() > 0,
    ensures
        history_redo(h).past.len() > 0,
        history_undo(history_redo(h)) == h,
{
    assert(h.future.drop_last().push(h.future.last()) =~= h.future);
    assert(h.past.push(h.present).drop_last() =~= h.past);
}

/// A commit discards every pending redo and adds exactly one undo step.
pub proof fn lemma_commit_clears_redo(h: HistoryState, snapshot: Seq<char>)
    ensures
        history_commit(h, snapshot).future.len() == 0,
        history_commit(h, snapshot).past.len() == h.past.len() + 1,
        history_commit(h, snapshot).present == snapshot,
{
}

/// Undo and redo never create or lose snapshots: the total number of stored
/// states is unchanged.
pub proof fn lemma_undo_redo_preserve_state_count(h: HistoryState)
    ensures
        h.past.len() > 0 ==> history_undo(h).past.len() + history_undo(h).future.len() == h.past.len()
            + h.future.len(),
        h.future.len() > 0 ==> history_redo(h).past.len() + history_redo(h).future.len()
            == h.past.len() + h.future.len(),
{
}

/// A history operation: a commit of a snapshot, an undo or a redo.
/// `apply_op` is what `DocumentHistory::commit`, `undo` and `redo` do to the
/// history's view, by their contracts; `undo_depth` and `redo_depth` are the
/// lengths of its `past` and `future`.
pub enum HistoryOp {
    Commit(Seq<char>),
    Undo,
    Redo,
}

/// Whether `op` succeeds on `h`: commits always do, undo and redo need a
/// snapshot to step to.
pub open spec fn op_succeeds(h: HistoryState, op: HistoryOp) -> bool {
    match op {
        HistoryOp::Commit(_) => true,
        HistoryOp::Undo => h.past.len() > 0,
        HistoryOp::Redo => h.future.len() > 0,
    }
}

/// The history after `op`; an undo or redo that fails changes nothing.
pub open spec fn apply_op(h: HistoryState, op: HistoryOp) -> HistoryState {
    match op {
        HistoryOp::Commit(snapshot) => history_commit(h, snapshot),
        HistoryOp::Undo => if h.past.len() > 0 { history_undo(h) } else { h },
        HistoryOp::Redo => if h.future.len() > 0 { history_redo(h) } else { h },
    }
}

/// The history after performing `ops` in order, starting from `h`.
pub open spec fn run_ops(h: HistoryState, ops: Seq<HistoryOp>) -> HistoryState
    decreases ops.len(),
{
    if ops.len() == 0 {
        h
    } else {
        apply_op(run_ops(h, ops.drop_last()), ops.last())
    }
}

/// How many of `ops`, performed from `h`, are successful commits, undos
/// and redos.
pub open spec fn successes(h: HistoryState, ops: Seq<HistoryOp>) -> (int, int, int)
    decreases ops.len(),
{
    if ops.len() == 0 {
        (0, 0, 0)
    } else {
        let (c, u, r) = successes(h, ops.drop_last());
        let before = run_ops(h, ops.drop_last());
        match ops.last() {
            HistoryOp::Commit(_) => (c + 1, u, r),
            HistoryOp::Undo => if op_succeeds(before, HistoryOp::Undo) { (c, u + 1, r) } else { (c, u, r) },
            HistoryOp::Redo => if op_succeeds(before, HistoryOp::Redo) { (c, u, r + 1) } else { (c, u, r) },
        }
    }
}

/// The number of leading operations of `ops` up to and including its last
/// commit; 0 when it has none.
pub open spec fn through_last_commit(ops: Seq<HistoryOp>) -> int
    decreases ops.len(),
{
    if ops.len() == 0 {
        0
    } else if ops.last() is Commit {
        ops.len() as int
    } else {
        through_last_commit(ops.drop_last())
    }
}

proof fn lemma_through_last_commit_bounds(ops: Seq<HistoryOp>)
    ensures
        0 <= through_last_commit(ops) <= ops.len(),
        through_last_commit(ops) > 0 ==> ops[through_last_commit(ops) - 1] is Commit,
        forall|i: int| through_last_commit(ops) <= i < ops.len() ==> !(#[trigger] ops[i] is Commit),
    decreases ops.len(),
{
    if ops.len() > 0 && !(ops.last() is Commit) {
        lemma_through_last_commit_bounds(ops.drop_last());
        assert forall|i: int| through_last_commit(ops) <= i < ops.len() implies !(#[trigger] ops[i] is Commit) by {
            if i < ops.len() - 1 {
                assert(ops[i] == ops.drop_last()[i]);
            }
        }
    }
}

/// Performing `ops` is performing its first `k` operations, then the rest.
pub proof fn lemma_run_ops_split(h: HistoryState, ops: Seq<HistoryOp>, k: int)
    requires
        0 <= k <= ops.len(),
    ensures
        run_ops(run_ops(h, ops.take(k)), ops.skip(k)) == run_ops(h, ops),
    decreases ops.len(),
{
    if k == ops.len() {
        assert(ops.take(k) =~= ops);
        assert(ops.skip(k).len() == 0);
    } else {
        lemma_run_ops_split(h, ops.drop_last(), k);
        assert(ops.drop_last().take(k) =~= ops.take(k));
        assert(ops.skip(k).drop_last() =~= ops.drop_last().skip(k));
        assert(ops.skip(k).last() == ops.last());
    }
}

/// Undo depth over any sequence of calls: the undo steps available are
/// those at the start plus the successful commits, minus the successful
/// undos, plus the successful redos; and an undo fails exactly when none is
/// left.
pub proof fn lemma_undo_depth_counts_steps(h: HistoryState, ops: Seq<HistoryOp>)
    ensures
        ({
            let (c, u, r) = successes(h, ops);
            run_ops(h, ops).past.len() == h.past.len() + c - u + r
        }),
        op_succeeds(run_ops(h, ops), HistoryOp::Undo) <==> run_ops(h, ops).past.len() > 0,
    decreases ops.len(),
{
    if ops.len() > 0 {
        lemma_undo_depth_counts_steps(h, ops.drop_last());
    }
}

/// Redo depth over any sequence of calls: it is the redo depth at the start
/// (0 once anything was committed) plus the successful undos minus the
/// successful redos since the last commit; a redo fails exactly when none
/// is left.
pub proof fn lemma_redo_depth_counts_steps(h: HistoryState, ops: Seq<HistoryOp>)
    ensures
        ({
            let k = through_last_commit(ops);
            let (_, u, r) = successes(run_ops(h, ops.take(k)), ops.skip(k));
            run_ops(h, ops).future.len() == (if k == 0 { h.future.len() as int } else { 0 }) + u - r
        }),
        op_succeeds(run_ops(h, ops), HistoryOp::Redo) <==> run_ops(h, ops).future.len() > 0,
    decreases ops.len(),
{
    lemma_through_last_commit_bounds(ops);
    let k = through_last_commit(ops);
    if ops.len() == 0 {
        assert(ops.take(0) =~= ops);
    } else if ops.last() is Commit {
        assert(ops.take(k) =~= ops);
        assert(ops.skip(k).len() == 0);
    } else {
        let init = ops.drop_last();
        lemma_redo_depth_counts_steps(h, init);
        assert(through_last_commit(init) == k);
        assert(init.take(k) =~= ops.take(k));
        let start = run_ops(h, ops.take(k));
        let rest = ops.skip(k);
        assert(rest.drop_last() =~= init.skip(k));
        assert(rest.last() == ops.last());
        lemma_run_ops_split(h, init, k);
        assert(run_ops(start, rest.drop_last()) == run_ops(h, init));
    }
}

} // verus!
