use std::collections::VecDeque;
use vstd::prelude::*;

verus! {

/// Most commands in flight on one connection before reading pauses.
pub const MAX_CONCURRENCY: usize = 8192;

/// How a command is handled.
#[derive(Debug, Clone, Copy, PartialEq, Eq, Structural)]
pub enum CmdType {
    /// Routed to the shard that owns its slot.
    Normal,
    /// A connection-control command, answered locally as not supported.
    Ctrl,
    /// A command the proxy does not support, answered locally.
    NotSupport,
    /// Split into sub-commands, each routed on its own.
    Complex,
}

/// A routable unit: a simple command, or one sub-command of a complex one.
#[derive(Debug, Clone, Copy, PartialEq, Eq, Structural)]
pub struct Unit {
    pub kind: CmdType,
    /// The unit has its reply.
    pub done: bool,
    /// The reply is the local "not supported" error.
    pub not_supported: bool,
}

/// Units answered locally, without reaching the cluster.
pub open spec fn answered_locally(k: CmdType) -> bool {
    k == CmdType::NotSupport || k == CmdType::Ctrl
}

/// What a connection's pipeline holds: all units, the units of each command
/// (command ids count arrivals from 0), the commands not yet written in arrival
/// order, the units not yet handed to the cluster in dispatch order, the number
/// of commands written, and the number written since the last flush.
pub struct HandleView {
    pub units: Seq<Unit>,
    pub cmds: Seq<Seq<usize>>,
    pub pending: Seq<usize>,
    pub waiting: Seq<usize>,
    pub written: nat,
    pub unflushed: nat,
}

/// A command is done when every one of its units is.
pub open spec fn cmd_done(v: HandleView, c: int) -> bool {
    forall|i: int| 0 <= i < v.cmds[c].len() ==> #[trigger] v.units[v.cmds[c][i] as int].done
}

/// `len` consecutive ids starting at `start`.
pub open spec fn id_run(start: int, len: nat) -> Seq<usize> {
    Seq::new(len, |k: int| (start + k) as usize)
}

/// Pending commands are exactly those read and not yet written, oldest first;
/// every unit id refers to a unit; and reading stopped once more than the
/// concurrency ceiling was pending.
pub open spec fn view_wf(v: HandleView) -> bool {
    &&& v.written <= v.cmds.len()
    &&& v.pending == id_run(v.written as int, (v.cmds.len() - v.written) as nat)
    &&& v.pending.len() <= MAX_CONCURRENCY + 1
    &&& forall|c: int, i: int|
        0 <= c < v.cmds.len() && 0 <= i < v.cmds[c].len() ==> #[trigger] v.cmds[c][i]
            < v.units.len()
    &&& forall|i: int| 0 <= i < v.waiting.len() ==> #[trigger] v.waiting[i] < v.units.len()
    &&& v.unflushed <= v.written
    &&& v.cmds.len() <= v.units.len()
    &&& v.units.len() <= usize::MAX
}

/// The units that a newly read command brings: its sub-commands if it is
/// complex, else the command itself.
pub open spec fn fresh_units(kind: CmdType, subs: Seq<CmdType>) -> Seq<Unit> {
    if kind == CmdType::Complex {
        subs.map_values(|k: CmdType| Unit { kind: k, done: false, not_supported: false })
    } else {
        seq![Unit { kind, done: false, not_supported: false }]
    }
}

/// The units after those listed in `ws` were answered with the local error.
pub open spec fn mark_local(units: Seq<Unit>, ws: Seq<usize>) -> Seq<Unit> {
    Seq::new(
        units.len(),
        |u: int|
            if ws.contains(u as usize) {
                Unit { kind: units[u].kind, done: true, not_supported: true }
            } else {
                units[u]
            },
    )
}

/// One dispatch step from `v` to `w`: the units at the front of the queue
/// that are answered locally get the "not supported" error and leave the
/// queue; `r` is the unit then at the front, which goes to the cluster, or
/// `None` once the queue is empty.
pub open spec fn dispatch_step(v: HandleView, w: HandleView, r: Option<usize>) -> bool {
    let j = v.waiting.len() - w.waiting.len();
    &&& 0 <= j <= v.waiting.len()
    &&& w.waiting == v.waiting.skip(j)
    &&& forall|k: int| 0 <= k < j ==> answered_locally(#[trigger] v.units[v.waiting[k] as int].kind)
    &&& w == HandleView { units: mark_local(v.units, v.waiting.take(j)), waiting: v.waiting.skip(j), ..v }
    &&& match r {
        Some(u) => j < v.waiting.len() && u == v.waiting[j] && !answered_locally(v.units[u as int].kind),
        None => j == v.waiting.len(),
    }
}

/// Per-connection pipeline state: reads commands, hands their units to the
/// cluster, and writes commands back in the order they arrived.
pub struct Handle {
    units: Vec<Unit>,
    cmds: Vec<Vec<usize>>,
    pending: VecDeque<usize>,
    waitq: VecDeque<usize>,
    written: usize,
    count: usize,
}

impl View for Handle {
    type V = HandleView;

    closed spec fn view(&self) -> HandleView {
        HandleView {
            units: self.units@,
            cmds: self.cmds@.map_values(|c: Vec<usize>| c@),
            pending: self.pending@,
            waiting: self.waitq@,
            written: self.written as nat,
            unflushed: self.count as nat,
        }
    }
}

impl Handle {
    pub open spec fn wf(&self) -> bool {
        view_wf(self@)
    }

    /// A pipeline with nothing read yet.
    pub fn new() -> (r: Handle)
        ensures
            r.wf(),
            r@.units.len() == 0,
            r@.cmds.len() == 0,
            r@.waiting.len() == 0,
            r@.written == 0,
            r@.unflushed == 0,
    {
        let r = Handle {
            units: Vec::new(),
            cmds: Vec::new(),
            pending: VecDeque::new(),
            waitq: VecDeque::new(),
            written: 0,
            count: 0,
        };
        assert(r@.pending =~= id_run(0, 0));
        r
    }

    /// Whether the read stage may take another command: not while more than
    /// the concurrency ceiling is pending.
    pub fn can_read(&self) -> (r: bool)
        requires
            self.wf(),
        ensures
            r == (self@.pending.len() <= MAX_CONCURRENCY),
    {
        self.pending.len() <= MAX_CONCURRENCY
    }

    /// Read stage: takes one command from the client. It joins the pending
    /// queue under the next arrival id, and its units join the dispatch queue.
    pub fn push_cmd(&mut self, kind: CmdType, subs: Vec<CmdType>) -> (r: usize)
        requires
            old(self).wf(),
            old(self)@.pending.len() <= MAX_CONCURRENCY,
            kind == CmdType::Complex ==> subs@.len() > 0,
            old(self)@.units.len() + subs@.len() + 1 <= usize::MAX,
        ensures
            final(self).wf(),
            r == old(self)@.cmds.len(),
            ({
                let v = old(self)@;
                let fresh = fresh_units(kind, subs@);
                let ids = id_run(v.units.len() as int, fresh.len());
                final(self)@ == HandleView {
                    units: v.units + fresh,
                    cmds: v.cmds.push(ids),
                    pending: v.pending.push(r),
                    waiting: v.waiting + ids,
                    ..v
                }
            }),
    {
        let ghost v = self@;
        let ghost fresh = fresh_units(kind, subs@);
        let start = self.units.len();
        let mut ids: Vec<usize> = Vec::new();
        if kind == CmdType::Complex {
            let mut i: usize = 0;
            while i < subs.len()
                invariant
                    i <= subs@.len(),
                    kind == CmdType::Complex,
                    fresh == fresh_units(kind, subs@),
                    start == v.units.len(),
                    v.units.len() + subs@.len() + 1 <= usize::MAX,
                    self.units@ == v.units + fresh.take(i as int),
                    ids@ == id_run(start as int, i as nat),
                    self.waitq@ == v.waiting + ids@,
                    self.cmds == old(self).cmds,
                    self.pending == old(self).pending,
                    self.written == old(self).written,
                    self.count == old(self).count,
                decreases subs@.len() - i,
            {
                let id = self.units.len();
                self.units.push(Unit { kind: subs[i], done: false, not_supported: false });
                self.waitq.push_back(id);
                ids.push(id);
                assert(fresh.take(i + 1) =~= fresh.take(i as int).push(fresh[i as int]));
                assert(ids@ =~= id_run(start as int, (i + 1) as nat));
                i = i + 1;
            }
            assert(fresh.take(i as int) =~= fresh);
        } else {
            self.units.push(Unit { kind, done: false, not_supported: false });
            self.waitq.push_back(start);
            ids.push(start);
            assert(self.units@ =~= v.units + fresh);
            assert(ids@ =~= id_run(start as int, 1));
        }
        let id = self.cmds.len();
        let ghost idv = ids@;
        self.cmds.push(ids);
        self.pending.push_back(id);
        assert(self@.cmds =~= v.cmds.push(idv));
        assert(self@.pending =~= id_run(v.written as int, (self@.cmds.len() - v.written) as nat));
        assert forall|c: int, i: int|
            0 <= c < self@.cmds.len() && 0 <= i < self@.cmds[c].len() implies #[trigger] self@.cmds[c][i]
            < self@.units.len() by {
            if c < v.cmds.len() {
                assert(self@.cmds[c] == v.cmds[c]);
            }
        }
        assert(self@.units == v.units + fresh);
        assert(self@.waiting == v.waiting + idv);
        assert(idv == id_run(v.units.len() as int, fresh.len()));
        assert(self@.pending == v.pending.push(id));
        id
    }

    /// Dispatch stage, one step: answers the units at the front of the
    /// dispatch queue that are answered locally with the "not supported"
    /// error, removing them, and returns the unit now at the front, which is
    /// one for the cluster, or `None` when the queue ran empty.
    pub fn next_dispatch(&mut self) -> (r: Option<usize>)
        requires
            old(self).wf(),
        ensures
            final(self).wf(),
            dispatch_step(old(self)@, final(self)@, r),
    {
        let ghost v = self@;
        let ghost mut j: int = 0;
        assert(v.units =~= mark_local(v.units, v.waiting.take(0)));
        assert(v.waiting.skip(0) =~= v.waiting);
        while self.waitq.len() > 0
            invariant
                self.wf(),
                0 <= j <= v.waiting.len(),
                self.waitq@ == v.waiting.skip(j),
                forall|k: int|
                    0 <= k < j ==> answered_locally(#[trigger] v.units[v.waiting[k] as int].kind),
                self@ == (HandleView {
                    units: mark_local(v.units, v.waiting.take(j)),
                    waiting: v.waiting.skip(j),
                    ..v
                }),
                view_wf(v),
                v == old(self)@,
            decreases self.waitq@.len(),
        {
            assert(self.waitq@.len() == v.waiting.len() - j);
            let u = self.waitq[0];
            assert(self@.waiting[0] == u);
            assert(self.waitq@[0] == v.waiting[j]);
            let k = self.units[u].kind;
            assert(u == v.waiting[j]);
            if k != CmdType::NotSupport && k != CmdType::Ctrl {
                assert(self.units@[u as int].kind == v.units[u as int].kind);
                assert(self@.waiting.len() == v.waiting.len() - j);
                assert(!answered_locally(v.units[u as int].kind));
                assert(u == v.waiting[j]);
                return Some(u);
            }
            assert(self.units@[u as int].kind == v.units[u as int].kind);
            assert(j < v.waiting.len());
            self.units.set(u, Unit { kind: k, done: true, not_supported: true });
            self.waitq.pop_front();
            assert(v.waiting.take(j + 1) =~= v.waiting.take(j).push(u));
            let ghost before = v.waiting.take(j);
            let ghost after = v.waiting.take(j + 1);
            assert forall|w: int| 0 <= w < v.units.len() implies #[trigger] self.units@[w]
                == mark_local(v.units, after)[w] by {
                if after.contains(w as usize) && w != u as int {
                    let x = choose|x: int| 0 <= x < after.len() && after[x] == w as usize;
                    assert(x < j);
                    assert(before[x] == w as usize);
                }
                if before.contains(w as usize) {
                    let x = choose|x: int| 0 <= x < before.len() && before[x] == w as usize;
                    assert(after[x] == w as usize);
                }
                if w == u as int {
                    assert(after[j] == u);
                }
            }
            assert(self.units@ =~= mark_local(v.units, after));
            assert(self.waitq@ =~= v.waiting.skip(j + 1));
            proof {
                j = j + 1;
            }
        }
        assert(v.waiting.skip(j).len() == 0);
        None
    }

    /// The cluster accepted the unit at the front of the dispatch queue:
    /// it leaves the queue.
    pub fn dispatched(&mut self)
        requires
            old(self).wf(),
            old(self)@.waiting.len() > 0,
        ensures
            final(self).wf(),
            final(self)@ == (HandleView { waiting: old(self)@.waiting.drop_first(), ..old(self)@ }),
    {
        self.waitq.pop_front();
        assert(self@.waiting =~= old(self)@.waiting.drop_first());
    }

    /// The reply of a unit arrived: the unit is done.
    pub fn complete(&mut self, unit: usize)
        requires
            old(self).wf(),
            unit < old(self)@.units.len(),
        ensures
            final(self).wf(),
            final(self)@ == (HandleView {
                units: old(self)@.units.update(
                    unit as int,
                    Unit { done: true, ..old(self)@.units[unit as int] },
                ),
                ..old(self)@
            }),
    {
        let u = self.units[unit];
        self.units.set(unit, Unit { done: true, ..u });
    }

    /// Whether every unit of a command is done.
    pub fn cmd_is_done(&self, cmd: usize) -> (r: bool)
        requires
            self.wf(),
            cmd < self@.cmds.len(),
        ensures
            r == cmd_done(self@, cmd as int),
    {
        let ids = &self.cmds[cmd];
        assert(ids@ == self@.cmds[cmd as int]);
        let mut i: usize = 0;
        while i < ids.len()
            invariant
                self.wf(),
                cmd < self@.cmds.len(),
                ids@ == self@.cmds[cmd as int],
                i <= ids@.len(),
                forall|k: int| 0 <= k < i ==> #[trigger] self@.units[ids@[k] as int].done,
            decreases ids@.len() - i,
        {
            assert(ids@[i as int] < self@.units.len());
            if !self.units[ids[i]].done {
                return false;
            }
            i = i + 1;
        }
        true
    }

    /// Write stage, one step: the oldest unwritten command, if it is done
    /// and so may be written to the client next.
    pub fn next_write(&self) -> (r: Option<usize>)
        requires
            self.wf(),
        ensures
            r == (if self@.pending.len() > 0 && cmd_done(self@, self@.pending[0] as int) {
                Some(self@.pending[0])
            } else {
                None::<usize>
            }),
            r is Some ==> r->0 == self@.written,
    {
        if self.pending.len() == 0 {
            return None;
        }
        let c = self.pending[0];
        assert(c == self@.written);
        if self.cmd_is_done(c) {
            Some(c)
        } else {
            None
        }
    }

    /// The client sink took the oldest unwritten command, which was done: it
    /// leaves the pending queue and counts toward the next flush.
    pub fn written(&mut self)
        requires
            old(self).wf(),
            old(self)@.pending.len() > 0,
            cmd_done(old(self)@, old(self)@.pending[0] as int),
        ensures
            final(self).wf(),
            old(self)@.pending[0] == old(self)@.written,
            final(self)@ == (HandleView {
                pending: old(self)@.pending.drop_first(),
                written: old(self)@.written + 1,
                unflushed: old(self)@.unflushed + 1,
                ..old(self)@
            }),
    {
        self.pending.pop_front();
        self.written = self.written + 1;
        self.count = self.count + 1;
        assert(self@.pending =~= id_run(self@.written as int, (self@.cmds.len() - self@.written) as nat));
    }

    /// Whether commands were written since the last completed flush, so
    /// that the sink must be flushed.
    pub fn flush_owed(&self) -> (r: bool)
        ensures
            r == (self@.unflushed > 0),
    {
        self.count > 0
    }

    /// The sink finished a flush: nothing written is left unflushed. Until
    /// then the count stands, so a flush that did not finish is tried again.
    pub fn flushed(&mut self)
        requires
            old(self).wf(),
        ensures
            final(self).wf(),
            final(self)@ == (HandleView { unflushed: 0, ..old(self)@ }),
    {
        self.count = 0;
    }

    /// Commands read and not yet written.
    pub fn pending_len(&self) -> (r: usize)
        ensures
            r == self@.pending.len(),
    {
        self.pending.len()
    }

    /// Units not yet handed to the cluster.
    pub fn waiting_len(&self) -> (r: usize)
        ensures
            r == self@.waiting.len(),
    {
        self.waitq.len()
    }

    /// Units created so far.
    pub fn unit_count(&self) -> (r: usize)
        ensures
            r == self@.units.len(),
    {
        self.units.len()
    }

    /// One unit.
    pub fn unit(&self, u: usize) -> (r: Unit)
        requires
            u < self@.units.len(),
        ensures
            r == self@.units[u as int],
    {
        self.units[u]
    }

    /// The units of one command, in order.
    pub fn cmd_units(&self, cmd: usize) -> (r: Vec<usize>)
        requires
            cmd < self@.cmds.len(),
        ensures
            r@ == self@.cmds[cmd as int],
    {
        self.cmds[cmd].clone()
    }
}

/// What the drive loop does after a round of its stages.
#[derive(Debug, Clone, Copy, PartialEq, Eq, Structural)]
pub enum Drive {
    /// The client stream ended: the connection is over, and whatever is
    /// still pending or waiting is dropped.
    Finish,
    /// Some stage made progress: run another round.
    Again,
    /// No stage can go on: wait until a blocked resource is ready.
    Suspend,
}

/// Decides the next move of the drive loop from the outcomes of one round:
/// `read` is `None` when the read stage saw the end of the client stream,
/// else whether it took a command; the others say whether dispatch, reply
/// handling and writing made progress.
pub fn round_action(read: Option<bool>, sent: bool, completed: bool, wrote: bool) -> (r: Drive)
    ensures
        r == (match read {
            None => Drive::Finish,
            Some(rd) => if rd || sent || completed || wrote {
                Drive::Again
            } else {
                Drive::Suspend
            },
        }),
{
    match read {
        None => Drive::Finish,
        Some(rd) => {
            if rd || sent || completed || wrote {
                Drive::Again
            } else {
                Drive::Suspend
            }
        },
    }
}

/// The command written next is always the oldest one not yet written, and
/// the pending queue holds the unwritten commands in arrival order; so
/// commands are written exactly in the order they arrived, whatever order
/// their units complete in.
pub proof fn lemma_written_in_arrival_order(v: HandleView)
    requires
        view_wf(v),
    ensures
        forall|k: int| 0 <= k < v.pending.len() ==> #[trigger] v.pending[k] == v.written + k,
        v.pending.len() == v.cmds.len() - v.written,
{
}

/// However long the client sink refuses writes, the pending queue never
/// holds more than one command beyond the concurrency ceiling.
pub proof fn lemma_pending_bounded(v: HandleView)
    requires
        view_wf(v),
    ensures
        v.pending.len() <= MAX_CONCURRENCY + 1,
{
}

} // verus!
