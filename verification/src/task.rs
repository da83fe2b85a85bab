//! Background tasks: ids, cancellation requests, and the events the UI is sent. Running the
//! work on threads and delivering the events is the application's part.

use vstd::prelude::*;

use crate::error::{decimal, Error, ErrorDto};

verus! {

broadcast use {vstd::string::group_string_axioms, vstd::seq_lib::group_seq_properties};

/// What the UI hears about tasks (and about files changed outside the app).
#[derive(Debug, Clone)]
pub enum TaskEvent {
    Progress { id: u32, done: u32, total: u32, msg: String },
    Finished { id: u32 },
    Cancelled { id: u32 },
    Failed { id: u32, error: ErrorDto },
    /// Not a task: files changed outside the app (`what` = "mods" | "config").
    FsChanged { what: String },
}

/// Where task events go; the UI layer implements this.
pub trait TaskSink {
    fn emit(&self, event: TaskEvent);
}

/// The handle a running task is given.
#[derive(Debug, Clone, Copy)]
pub struct TaskCtx {
    pub id: u32,
}

impl TaskCtx {
    /// A progress event of the running task.
    pub fn progress(&self, done: u32, total: u32, msg: String) -> (e: TaskEvent)
        ensures
            (e matches TaskEvent::Progress { id, done: d, total: t, msg: m } && id == self.id && d == done
                && t == total && m@ == msg@),
    {
        TaskEvent::Progress { id: self.id, done, total, msg }
    }

    /// Whether a cancel of the running task was requested.
    pub fn is_cancelled(&self, m: &TaskManager) -> (b: bool)
        requires
            m.wf(),
        ensures
            b == (m@.contains_key(self.id) && m@[self.id]),
    {
        m.is_cancelled(self.id)
    }

    /// `Err(Cancelled)` once cancelling was asked for, for use with `?` in loops.
    pub fn check(&self, m: &TaskManager) -> (r: Result<(), Error>)
        requires
            m.wf(),
        ensures
            (m@.contains_key(self.id) && m@[self.id]) ==> r matches Err(Error::Cancelled),
            !(m@.contains_key(self.id) && m@[self.id]) ==> r is Ok,
    {
        if self.is_cancelled(m) {
            Err(Error::Cancelled)
        } else {
            Ok(())
        }
    }
}

/// The running tasks and whether each was asked to stop.
pub struct TaskManager {
    next: u32,
    running: Vec<(u32, bool)>,
    /// How many tasks were started.
    started: Ghost<nat>,
}

/// The flags of the running tasks (a later entry wins).
pub open spec fn flags(e: Seq<(u32, bool)>) -> Map<u32, bool>
    decreases e.len(),
{
    if e.len() == 0 {
        Map::empty()
    } else {
        flags(e.drop_last()).insert(e.last().0, e.last().1)
    }
}

/// No id twice.
pub open spec fn unique_ids(e: Seq<(u32, bool)>) -> bool {
    forall|i: int, j: int| 0 <= i < j < e.len() ==> #[trigger] e[i].0 != #[trigger] e[j].0
}

proof fn lemma_flags(e: Seq<(u32, bool)>, id: u32)
    requires
        unique_ids(e),
    ensures
        flags(e).contains_key(id) <==> exists|i: int| 0 <= i < e.len() && #[trigger] e[i].0 == id,
        forall|i: int| 0 <= i < e.len() && #[trigger] e[i].0 == id ==> flags(e)[id] == e[i].1,
    decreases e.len(),
{
    if e.len() > 0 {
        let d = e.drop_last();
        assert forall|a: int, b: int| 0 <= a < b < d.len() implies #[trigger] d[a].0 != #[trigger] d[b].0 by {
            assert(d[a] == e[a]);
            assert(d[b] == e[b]);
        }
        lemma_flags(d, id);
        if flags(d).contains_key(id) {
            let i = choose|i: int| 0 <= i < d.len() && #[trigger] d[i].0 == id;
            assert(e[i].0 == id);
        }
        if exists|i: int| 0 <= i < e.len() && #[trigger] e[i].0 == id {
            let i = choose|i: int| 0 <= i < e.len() && #[trigger] e[i].0 == id;
            if i < e.len() - 1 {
                assert(d[i].0 == id);
            }
        }
        assert forall|i: int| 0 <= i < e.len() && #[trigger] e[i].0 == id implies flags(e)[id] == e[i].1 by {
            if i < e.len() - 1 {
                assert(d[i] == e[i]);
                assert(e[i].0 != e[e.len() - 1].0);
            }
        }
    }
}

/// The entries without task `id`.
fn drop_id(running: &Vec<(u32, bool)>, id: u32) -> (kept: Vec<(u32, bool)>)
    requires
        unique_ids(running@),
    ensures
        unique_ids(kept@),
        flags(kept@) == flags(running@).remove(id),
        forall|j: int| 0 <= j < kept@.len() ==> #[trigger] kept@[j].0 != id,
{
        let ghost before = running@;
        proof {
            lemma_flags(before, id);
        }
        let mut kept: Vec<(u32, bool)> = Vec::new();
        let mut i: usize = 0;
        while i < running.len()
            invariant
                0 <= i <= running@.len(),
                running@ == before,
                unique_ids(before),
                unique_ids(kept@),
                forall|j: int| 0 <= j < kept@.len() ==> #[trigger] kept@[j].0 != id,
                flags(kept@) == flags(before.take(i as int)).remove(id),
                forall|j: int| #![trigger kept@[j]] 0 <= j < kept@.len() ==> exists|k: int| 0 <= k < i && #[trigger] before[k] == kept@[j],
            decreases running@.len() - i,
        {
            let x = running[i];
            proof {
                assert(before.take(i + 1).drop_last() == before.take(i as int));
                assert(before.take(i + 1).last() == x);
            }
            if x.0 != id {
                let ghost o = kept@;
                kept.push(x);
                proof {
                    assert(kept@.drop_last() == o);
                    assert forall|a: int, b: int| 0 <= a < b < kept@.len() implies #[trigger] kept@[a].0 != #[trigger] kept@[b].0 by {
                        if b == kept@.len() - 1 {
                            assert(kept@[a] == o[a]);
                            let k = choose|k: int| 0 <= k < i && #[trigger] before[k] == o[a];
                            assert(before[k].0 != before[i as int].0);
                        } else {
                            assert(kept@[a] == o[a]);
                            assert(kept@[b] == o[b]);
                        }
                    }
                    assert forall|j: int| #![trigger kept@[j]] 0 <= j < kept@.len() implies exists|k: int| 0 <= k < i + 1 && #[trigger] before[k] == kept@[j] by {
                        if j == kept@.len() - 1 {
                            assert(before[i as int] == kept@[j]);
                        } else {
                            assert(kept@[j] == o[j]);
                            let k = choose|k: int| 0 <= k < i && #[trigger] before[k] == o[j];
                            assert(before[k] == kept@[j]);
                        }
                    }
                    assert(flags(kept@) =~= flags(before.take(i + 1)).remove(id));
                }
            } else {
                proof {
                    assert(flags(kept@) =~= flags(before.take(i + 1)).remove(id));
                }
            }
            i += 1;
        }
        proof {
            assert(before.take(before.len() as int) == before);
        }
    kept
}

impl View for TaskManager {
    type V = Map<u32, bool>;

    closed spec fn view(&self) -> Map<u32, bool> {
        flags(self.running@)
    }
}

impl TaskManager {
    /// Internal consistency: each running task once, `next` follows the number of tasks
    /// started, and every running id was handed out.
    pub closed spec fn wf(&self) -> bool {
        &&& unique_ids(self.running@)
        &&& self.next == (self.started@ + 1) % 0x1_0000_0000
        &&& forall|k: u32| #[trigger] self@.contains_key(k) ==> self.issued(k)
    }

    /// Id `id` was handed out by `start`: ids count up from 1, so before the counter wraps
    /// these are 1 to the number of tasks started; after it wraps, every id was.
    pub closed spec fn issued(&self, id: u32) -> bool {
        if self.started@ < 0x1_0000_0000 {
            1 <= id && id <= self.started@
        } else {
            true
        }
    }

    /// The id the next task gets.
    pub closed spec fn next_id(&self) -> u32 {
        self.next
    }

    /// No tasks; the first gets id 1.
    pub fn new() -> (r: TaskManager)
        ensures
            r.wf(),
            r@ == Map::<u32, bool>::empty(),
            r.next_id() == 1,
            forall|x: u32| !r.issued(x),
    {
        TaskManager { next: 1, running: Vec::new(), started: Ghost(0) }
    }

    /// Position of task `id`.
    fn find(&self, id: u32) -> (r: Option<usize>)
        requires
            self.wf(),
        ensures
            match r {
                Some(i) => i < self.running@.len() && self.running@[i as int].0 == id,
                None => !self@.contains_key(id),
            },
    {
        proof {
            lemma_flags(self.running@, id);
        }
        let mut i: usize = 0;
        while i < self.running.len()
            invariant
                0 <= i <= self.running@.len(),
                forall|j: int| 0 <= j < i ==> #[trigger] self.running@[j].0 != id,
            decreases self.running@.len() - i,
        {
            if self.running[i].0 == id {
                return Some(i);
            }
            i += 1;
        }
        None
    }

    /// Register a new task, not asked to stop, and give its handle. Ids count up from 1,
    /// wrapping around.
    pub fn start(&mut self) -> (ctx: TaskCtx)
        requires
            old(self).wf(),
        ensures
            final(self).wf(),
            ctx.id == old(self).next_id(),
            final(self)@ == old(self)@.insert(ctx.id, false),
            final(self).next_id() == (if old(self).next_id() == u32::MAX { 0 } else { old(self).next_id() + 1 }),
            forall|x: u32| #[trigger] final(self).issued(x) == (old(self).issued(x) || x == ctx.id),
    {
        let id = self.next;
        self.next = if id == u32::MAX { 0 } else { id + 1 };
        self.started = Ghost(self.started@ + 1);
        let ghost before = self.running@;
        let mut kept = drop_id(&self.running, id);
        let ghost k0 = kept@;
        kept.push((id, false));
        proof {
            assert(kept@.drop_last() == k0);
            assert forall|a: int, b: int| 0 <= a < b < kept@.len() implies #[trigger] kept@[a].0 != #[trigger] kept@[b].0 by {
                assert(kept@[a] == k0[a]);
                if b < kept@.len() - 1 {
                    assert(kept@[b] == k0[b]);
                }
            }
            assert(flags(kept@) =~= flags(before).insert(id, false));
        }
        let ghost old_started = self.started@ - 1;
        self.running = kept;
        proof {
            assert(id == (old_started + 1) % 0x1_0000_0000);
            assert(self.next == (self.started@ + 1) % 0x1_0000_0000);
            assert forall|k: u32| #[trigger] self@.contains_key(k) implies self.issued(k) by {
                if k != id {
                    assert(old(self)@.contains_key(k));
                    assert(old(self).issued(k));
                }
            }
        }
        TaskCtx { id }
    }

    /// Ask task `id` to stop; an id that is not running is refused.
    pub fn cancel(&mut self, id: u32) -> (r: Result<(), Error>)
        requires
            old(self).wf(),
        ensures
            final(self).wf(),
            final(self).next_id() == old(self).next_id(),
            old(self)@.contains_key(id) ==> (r is Ok && final(self)@ == old(self)@.insert(id, true)),
            !old(self)@.contains_key(id) ==> (r matches Err(Error::TaskNotFound(n)) && n == id && final(self)@
                == old(self)@),
    {
        match self.find(id) {
            Some(i) => {
                let ghost before = self.running@;
                proof {
                    lemma_flags(before, id);
                }
                self.running.set(i, (id, true));
                proof {
                    let e = self.running@;
                    assert forall|a: int, b: int| 0 <= a < b < e.len() implies #[trigger] e[a].0 != #[trigger] e[b].0 by {
                        assert(before[a].0 != before[b].0);
                    }
                    lemma_flags(e, id);
                    assert forall|k: u32| #[trigger] flags(e).contains_key(k) == flags(before).insert(id, true).contains_key(k) by {
                        lemma_flags(e, k);
                        lemma_flags(before, k);
                        if flags(before).contains_key(k) && k != id {
                            let j = choose|j: int| 0 <= j < before.len() && #[trigger] before[j].0 == k;
                            assert(e[j].0 == k);
                        }
                        if flags(e).contains_key(k) && k != id {
                            let j = choose|j: int| 0 <= j < e.len() && #[trigger] e[j].0 == k;
                            assert(before[j].0 == k);
                        }
                        assert(e[i as int].0 == id);
                    }
                    assert forall|k: u32| #[trigger] flags(e).contains_key(k) implies flags(e)[k] == flags(before).insert(id, true)[k] by {
                        lemma_flags(e, k);
                        lemma_flags(before, k);
                        if k != id {
                            let j = choose|j: int| 0 <= j < e.len() && #[trigger] e[j].0 == k;
                            assert(before[j] == e[j]);
                        } else {
                            assert(e[i as int].0 == id);
                        }
                    }
                    assert(flags(e) =~= flags(before).insert(id, true));
                    assert forall|k: u32| #[trigger] self@.contains_key(k) implies self.issued(k) by {
                        assert(old(self)@.contains_key(k));
                        assert(old(self).issued(k));
                    }
                }
                Ok(())
            },
            None => Err(Error::TaskNotFound(id)),
        }
    }

    /// Whether task `id` runs and was asked to stop.
    pub fn is_cancelled(&self, id: u32) -> (b: bool)
        requires
            self.wf(),
        ensures
            b == (self@.contains_key(id) && self@[id]),
    {
        match self.find(id) {
            Some(i) => {
                proof {
                    lemma_flags(self.running@, id);
                }
                self.running[i].1
            },
            None => false,
        }
    }

    /// Task `id` is over: it no longer runs, and the event the UI gets says how it ended —
    /// finished, cancelled, or failed with the error.
    pub fn finish(&mut self, id: u32, outcome: Result<(), Error>) -> (e: TaskEvent)
        requires
            old(self).wf(),
        ensures
            final(self).wf(),
            final(self).next_id() == old(self).next_id(),
            final(self)@ == old(self)@.remove(id),
            match outcome {
                Ok(()) => (e matches TaskEvent::Finished { id: x } && x == id),
                Err(Error::Cancelled) => (e matches TaskEvent::Cancelled { id: x } && x == id),
                Err(err) => (e matches TaskEvent::Failed { id: x, error: d } && x == id && d.kind@ == err.kind_spec()),
            },
    {
        let ghost before = self.running@;
        let kept = drop_id(&self.running, id);
        self.running = kept;
        proof {
            assert forall|k: u32| #[trigger] self@.contains_key(k) implies self.issued(k) by {
                assert(old(self)@.contains_key(k));
                assert(old(self).issued(k));
            }
        }
        match outcome {
            Ok(()) => TaskEvent::Finished { id },
            Err(Error::Cancelled) => TaskEvent::Cancelled { id },
            Err(err) => TaskEvent::Failed { id, error: ErrorDto::from_error(&err) },
        }
    }
}

/// An id that `start` never handed out is not running, so `cancel` refuses it with
/// `TaskNotFound` and `check` of it never reports a cancel.
pub proof fn law_unstarted_id_unknown(m: &TaskManager, id: u32)
    requires
        m.wf(),
        !m.issued(id),
    ensures
        !m@.contains_key(id),
{
}

/// Until the ids wrap around, the id `start` hands out next is not running, so starting a
/// task never resets another task's cancel request.
pub proof fn law_next_id_is_fresh(m: &TaskManager)
    requires
        m.wf(),
        !m.issued(m.next_id()),
    ensures
        !m@.contains_key(m.next_id()),
{
}


/// A cancel request is not undone while the task runs. Over the views that `start`, `cancel`
/// and `finish` give: once `id` runs and was asked to stop, starting a task with another id
/// (`law_next_id_is_fresh` says when that is so), cancelling any task, or finishing another
/// task leaves it running and asked to stop; finishing `id` itself ends it.
pub proof fn law_cancel_persists(m: Map<u32, bool>, id: u32, other: u32)
    requires
        m.contains_key(id) && m[id],
        other != id,
    ensures
        m.insert(other, false).contains_key(id) && m.insert(other, false)[id],
        m.insert(other, true).contains_key(id) && m.insert(other, true)[id],
        m.insert(id, true) == m,
        m.remove(other).contains_key(id) && m.remove(other)[id],
        !m.remove(id).contains_key(id),
{
    assert(m.insert(id, true) =~= m);
}

} // verus!
