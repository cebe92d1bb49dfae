use vstd::prelude::*;

use std::collections::{HashMap, VecDeque};
use std::sync::mpsc::{Receiver, Sender};

use crate::channel::{copy_sender, open_channel, poll, post, wait, Event, TaskEvent};
use crate::model::{ints, Content, SystemView};
use crate::object::Object;
use crate::system::{Frame, System};

verus! {

broadcast use vstd::std_specs::hash::group_hash_axioms;

/// The mathematical state of a task loop: the last task id handed out, the
/// suspended tasks (by id, with their frames), the frames ready to run (first
/// to run first), and the history of frames started and of events handled.
pub struct TaskLoopView {
    pub counter: nat,
    pub background: Map<u64, usize>,
    pub tasks: Seq<int>,
    pub started: Seq<int>,
    pub handled: Seq<u64>,
}

/// The driver: a queue of frames ready to run, and the tasks suspended until
/// a background handle reports.
pub struct TaskLoop {
    pub(crate) counter: u64,
    pub(crate) background: HashMap<u64, usize>,
    pub(crate) tx: Sender<Event>,
    pub(crate) rx: Receiver<Event>,
    pub(crate) tasks: VecDeque<usize>,
    pub(crate) started: Ghost<Seq<int>>,
    pub(crate) handled: Ghost<Seq<u64>>,
}

/// What a running object is handed. Turning it into a background handle
/// keeps the frame running until the handle is dropped.
pub struct RunContext {
    pub(crate) id: u64,
    pub(crate) tx: Sender<Event>,
    pub(crate) backgrounded: bool,
}

/// The producer side of a suspended task: updates sent through it reach the
/// frame's object, and dropping it completes the frame.
pub struct BackgroundTask {
    pub(crate) id: u64,
    pub(crate) tx: Sender<Event>,
}

impl View for TaskLoop {
    type V = TaskLoopView;

    closed spec fn view(&self) -> TaskLoopView {
        TaskLoopView {
            counter: self.counter as nat,
            background: self.background@,
            tasks: ints(self.tasks@),
            started: self.started@,
            handled: self.handled@,
        }
    }
}

/// The task loop's queue and registry agree with the frames' flags: a frame
/// is scheduled exactly when it sits in the queue, where it sits once; no
/// frame is both scheduled and running; a suspended frame is running, and is
/// suspended under one id only. The arena's `Then` targets can all be found.
pub open spec fn consistent(sv: SystemView, tv: TaskLoopView) -> bool {
    &&& sv.wf()
    &&& sv.targets_resolve()
    &&& forall|i: int| 0 <= i < tv.tasks.len() ==> sv.has_frame(#[trigger] tv.tasks[i])
    &&& forall|i: int, j: int|
        0 <= i < tv.tasks.len() && 0 <= j < tv.tasks.len() && i != j ==> #[trigger] tv.tasks[i]
            != #[trigger] tv.tasks[j]
    &&& forall|f: int| sv.has_frame(f) ==> (#[trigger] sv.frames[f].scheduled <==> tv.tasks.contains(f))
    &&& forall|f: int| sv.has_frame(f) ==> !(#[trigger] sv.frames[f].running && sv.frames[f].scheduled)
    &&& forall|id: u64|
        #[trigger] tv.background.contains_key(id) ==> id <= tv.counter && sv.has_frame(
            tv.background[id] as int,
        ) && sv.frames[tv.background[id] as int].running
    &&& forall|i: u64, j: u64|
        tv.background.contains_key(i) && tv.background.contains_key(j) && i != j ==> #[trigger] tv.background[i]
            != #[trigger] tv.background[j]
}

/// Frame `f` is not among the suspended frames.
pub open spec fn not_suspended(tv: TaskLoopView, f: int) -> bool {
    forall|id: u64| #[trigger] tv.background.contains_key(id) ==> tv.background[id] as int != f
}

/// Scheduling frame `f`: queued once, unless it is queued or running
/// already.
pub open spec fn enqueue(sv: SystemView, tv: TaskLoopView, f: int) -> (SystemView, TaskLoopView) {
    if sv.frames[f].scheduled || sv.frames[f].running {
        (sv, tv)
    } else {
        (
            sv.with_flags(f, true, false),
            TaskLoopView {
                counter: tv.counter,
                background: tv.background,
                tasks: tv.tasks.push(f),
                started: tv.started,
                handled: tv.handled,
            },
        )
    }
}

/// Scheduling the frames `fs` in order.
pub open spec fn enqueue_all(sv: SystemView, tv: TaskLoopView, fs: Seq<int>) -> (SystemView, TaskLoopView)
    decreases fs.len(),
{
    if fs.len() == 0 {
        (sv, tv)
    } else {
        let (s1, t1) = enqueue_all(sv, tv, fs.drop_last());
        enqueue(s1, t1, fs.last())
    }
}

/// Frame `f` completes: it stops running and its successors are scheduled.
pub open spec fn complete(sv: SystemView, tv: TaskLoopView, f: int) -> (SystemView, TaskLoopView) {
    enqueue_all(sv.with_flags(f, sv.frames[f].scheduled, false), tv, sv.fired(f))
}

/// The head of the queue leaves it and starts running.
pub open spec fn start(sv: SystemView, tv: TaskLoopView) -> (SystemView, TaskLoopView) {
    let f = tv.tasks[0];
    (
        sv.with_flags(f, false, true),
        TaskLoopView {
            counter: tv.counter,
            background: tv.background,
            tasks: tv.tasks.drop_first(),
            started: tv.started.push(f),
            handled: tv.handled,
        },
    )
}

/// The running frame `f` is suspended under the next task id.
pub open spec fn suspend(sv: SystemView, tv: TaskLoopView, f: int) -> (SystemView, TaskLoopView) {
    (
        sv,
        TaskLoopView {
            counter: tv.counter + 1,
            background: tv.background.insert((tv.counter + 1) as u64, f as usize),
            tasks: tv.tasks,
            started: tv.started,
            handled: tv.handled,
        },
    )
}

/// An event for task `id` arrives and is recorded: a drop completes the
/// suspended frame; an update, or an event for no suspended task, changes
/// nothing else.
pub open spec fn delivered(sv: SystemView, tv: TaskLoopView, id: u64, is_drop: bool) -> (SystemView, TaskLoopView) {
    let t1 = TaskLoopView {
        counter: tv.counter,
        background: tv.background,
        tasks: tv.tasks,
        started: tv.started,
        handled: tv.handled.push(id),
    };
    if is_drop && tv.background.contains_key(id) {
        complete(
            sv,
            TaskLoopView {
                counter: t1.counter,
                background: t1.background.remove(id),
                tasks: t1.tasks,
                started: t1.started,
                handled: t1.handled,
            },
            tv.background[id] as int,
        )
    } else {
        (sv, t1)
    }
}

/// The head of the queue ran: it started, then completed or was suspended.
pub open spec fn head_ran(s0: SystemView, t0: TaskLoopView, s1: SystemView, t1: TaskLoopView) -> bool {
    t0.tasks.len() > 0 && {
        let (sa, ta) = start(s0, t0);
        (s1, t1) == complete(sa, ta, t0.tasks[0]) || (s1, t1) == suspend(sa, ta, t0.tasks[0])
    }
}

/// One step of the loop: the head of the queue ran, or, while a task is
/// suspended, an event was handled.
pub open spec fn stepped(s0: SystemView, t0: TaskLoopView, s1: SystemView, t1: TaskLoopView) -> bool {
    ||| head_ran(s0, t0, s1, t1)
    ||| t0.background.len() > 0 && exists|id: u64, is_drop: bool|
        (s1, t1) == delivered(s0, t0, id, is_drop)
}

/// One call of `run_one`: a step, or nothing at all when no frame is queued.
pub open spec fn moved(s0: SystemView, t0: TaskLoopView, s1: SystemView, t1: TaskLoopView) -> bool {
    stepped(s0, t0, s1, t1) || (s1 == s0 && t1 == t0 && t0.tasks.len() == 0)
}

/// Each state of `trace` follows from the one before by a call of
/// `run_one`.
pub open spec fn run_trace(trace: Seq<(SystemView, TaskLoopView)>) -> bool {
    forall|i: int|
        0 <= i < trace.len() - 1 ==> moved(
            (#[trigger] trace[i]).0,
            trace[i].1,
            trace[i + 1].0,
            trace[i + 1].1,
        )
}

impl RunContext {
    pub closed spec fn is_backgrounded(&self) -> bool {
        self.backgrounded
    }

    pub closed spec fn task_id(&self) -> u64 {
        self.id
    }

    /// Keeps the task running after the object's `run` returns; the handle
    /// reports on the same task.
    pub fn background(&mut self) -> (r: BackgroundTask)
        ensures
            final(self).is_backgrounded(),
            final(self).task_id() == old(self).task_id(),
            r.task_id() == old(self).task_id(),
    {
        self.backgrounded = true;
        BackgroundTask { id: self.id, tx: copy_sender(&self.tx) }
    }
}

impl BackgroundTask {
    pub closed spec fn task_id(&self) -> u64 {
        self.id
    }

    /// Builds the message that carries `update` to the handle's frame.
    pub fn update_event(&self, update: Vec<u8>) -> (r: Event)
        ensures
            r == (self.task_id(), TaskEvent::Update(update)),
    {
        (self.id, TaskEvent::Update(update))
    }

    /// Builds the message that completes the handle's frame.
    pub fn drop_event(&self) -> (r: Event)
        ensures
            r == (self.task_id(), TaskEvent::Drop),
        opens_invariants none
        no_unwind
    {
        (self.id, TaskEvent::Drop)
    }

    /// Sends the event `update_event(update)` to the task loop.
    pub fn send_update(&mut self, update: Vec<u8>)
        ensures
            final(self).task_id() == old(self).task_id(),
    {
        let event = self.update_event(update);
        post(&self.tx, event);
    }
}

impl Drop for BackgroundTask {
    /// Sends the event `drop_event()` to the task loop.
    fn drop(&mut self)
        opens_invariants none
        no_unwind
    {
        let event = self.drop_event();
        post(&self.tx, event);
    }
}

impl Frame {
    /// Queues this frame to run, unless it is queued or running already.
    pub fn schedule<O>(self, system: &mut System<O>, task_loop: &mut TaskLoop)
        requires
            consistent(old(system)@, old(task_loop)@),
            old(system)@.has_frame(self.index as int),
            old(system)@.frames[self.index as int].content is Some,
        ensures
            consistent(final(system)@, final(task_loop)@),
            (final(system)@, final(task_loop)@) == enqueue(old(system)@, old(task_loop)@, self.index as int),
    {
        task_loop.enqueue(system, self.index);
    }
}

impl TaskLoop {
    /// An empty task loop with its own channel.
    pub fn new() -> (r: TaskLoop)
        ensures
            r@.counter == 0,
            r@.background == Map::<u64, usize>::empty(),
            r@.tasks.len() == 0,
            r@.started.len() == 0,
            r@.handled.len() == 0,
    {
        let (tx, rx) = open_channel();
        let r = TaskLoop {
            counter: 0,
            background: HashMap::new(),
            tx,
            rx,
            tasks: VecDeque::new(),
            started: Ghost(Seq::empty()),
            handled: Ghost(Seq::empty()),
        };
        assert(r@.tasks =~= Seq::<int>::empty());
        r
    }

    /// The number of frames waiting in the queue.
    pub fn queued(&self) -> (r: usize)
        ensures
            r == self@.tasks.len(),
    {
        self.tasks.len()
    }

    /// The number of suspended tasks.
    pub fn suspended(&self) -> (r: usize)
        ensures
            r == self@.background.len(),
    {
        self.background.len()
    }

    /// Schedules frame `f`, unless it is scheduled or running already.
    fn enqueue<O>(&mut self, system: &mut System<O>, f: usize)
        requires
            consistent(old(system)@, old(self)@),
            old(system)@.has_frame(f as int),
        ensures
            consistent(final(system)@, final(self)@),
            (final(system)@, final(self)@) == enqueue(old(system)@, old(self)@, f as int),
    {
        proof {
            lemma_enqueue(system@, self@, f as int);
        }
        if !system.scheduled(Frame { index: f }) && !system.running(Frame { index: f }) {
            system.set_flags(f, true, false);
            let ghost before = ints(self.tasks@);
            self.tasks.push_back(f);
            assert(ints(self.tasks@) =~= before.push(f as int));
        }
    }

    /// Frame `f` completes: it stops running and its successors are
    /// scheduled in order.
    fn finish<O>(&mut self, system: &mut System<O>, f: usize)
        requires
            consistent(old(system)@, old(self)@),
            old(system)@.has_frame(f as int),
            not_suspended(old(self)@, f as int),
        ensures
            consistent(final(system)@, final(self)@),
            (final(system)@, final(self)@) == complete(old(system)@, old(self)@, f as int),
    {
        let ghost s0 = system@;
        let ghost t0 = self@;
        let next = system.fired(f);
        proof {
            lemma_complete(s0, t0, f as int);
        }
        let scheduled = system.scheduled(Frame { index: f });
        system.set_flags(f, scheduled, false);
        let ghost s1 = system@;
        proof {
            lemma_complete_flags(s0, t0, f as int);
        }
        let mut i: usize = 0;
        assert(ints(next@).subrange(0, 0) =~= Seq::<int>::empty());
        while i < next.len()
            invariant
                i <= next@.len(),
                ints(next@) == s0.fired(f as int),
                forall|j: int| 0 <= j < next@.len() ==> s0.has_frame(#[trigger] next@[j] as int),
                s1 == s0.with_flags(f as int, s0.frames[f as int].scheduled, false),
                s1.frames.len() == s0.frames.len(),
                consistent(s1, t0),
                consistent(system@, self@),
                (system@, self@) == enqueue_all(s1, t0, ints(next@).subrange(0, i as int)),
            decreases next@.len() - i,
        {
            assert(ints(next@).subrange(0, i + 1).drop_last() =~= ints(next@).subrange(0, i as int));
            assert(ints(next@).subrange(0, i + 1).last() == next@[i as int] as int);
            proof {
                assert forall|j: int| 0 <= j < i implies s1.has_frame(
                    #[trigger] ints(next@).subrange(0, i as int)[j],
                ) by {
                    assert(ints(next@).subrange(0, i as int)[j] == next@[j] as int);
                }
                lemma_enqueue_all(s1, t0, ints(next@).subrange(0, i as int));
            }
            self.enqueue(system, next[i]);
            i = i + 1;
        }
        assert(ints(next@).subrange(0, i as int) =~= ints(next@));
    }

    /// Handles an event for task `event.0` and records it: an update reaches
    /// the suspended frame's object, a drop completes the frame; an event
    /// for a task that is not suspended changes nothing else.
    pub fn handle_event<O: Object>(&mut self, system: &mut System<O>, event: Event)
        requires
            consistent(old(system)@, old(self)@),
        ensures
            consistent(final(system)@, final(self)@),
            (final(system)@, final(self)@) == delivered(
                old(system)@,
                old(self)@,
                event.0,
                event.1 is Drop,
            ),
    {
        let ghost s0 = system@;
        let ghost t0 = self@;
        let (id, kind) = event;
        self.handled = Ghost(self.handled@.push(id));
        let ghost t1 = self@;
        assert(t1 == TaskLoopView {
            counter: t0.counter,
            background: t0.background,
            tasks: t0.tasks,
            started: t0.started,
            handled: t0.handled.push(id),
        });
        proof {
            lemma_same_queue(s0, t0, t1);
        }
        match kind {
            TaskEvent::Update(update) => {
                match self.background.get(&id) {
                    Some(f) => {
                        let f = *f;
                        assert(t0.background.contains_key(id));
                        assert(system@.frame_wf(f as int));
                        match system.content_of(f) {
                            Some(Content::Other(k)) => {
                                system.update_object(k, update);
                            },
                            _ => {},
                        }
                    },
                    None => {},
                }
                assert(system@ == s0 && self@ == t1);
                assert(delivered(s0, t0, id, false) == (s0, t1));
            },
            TaskEvent::Drop => {
                match self.background.remove(&id) {
                    Some(f) => {
                        proof {
                            lemma_unregister(s0, t1, id);
                        }
                        self.finish(system, f);
                    },
                    None => {
                        assert(self@.background =~= t0.background);
                        assert(self@ == t1);
                    },
                }
            },
        }
    }

    /// Runs the frame at the head of the queue and tells whether its object
    /// turned its context into a background handle. Without one the frame
    /// completes when the object returns; with one it stays running,
    /// suspended under the next task id. A frame that holds no object of the
    /// program completes at once.
    fn run_head<O: Object>(&mut self, system: &mut System<O>) -> (b: bool)
        requires
            consistent(old(system)@, old(self)@),
            old(self)@.tasks.len() > 0,
            old(self)@.counter < u64::MAX,
        ensures
            consistent(final(system)@, final(self)@),
            ({
                let (sa, ta) = start(old(system)@, old(self)@);
                let f = old(self)@.tasks[0];
                &&& b ==> (final(system)@, final(self)@) == suspend(sa, ta, f)
                &&& !b ==> (final(system)@, final(self)@) == complete(sa, ta, f)
            }),
    {
        let ghost s0 = system@;
        let ghost t0 = self@;
        proof {
            lemma_start(s0, t0);
        }
        let f = match self.tasks.pop_front() {
            Some(f) => f,
            None => {
                return false;
            },
        };
        system.set_flags(f, false, true);
        self.started = Ghost(self.started@.push(f as int));
        assert(self@.tasks =~= t0.tasks.drop_first());
        assert(system@.frame_wf(f as int));
        match system.content_of(f) {
            Some(Content::Other(k)) => {
                let id = self.counter + 1;
                let mut ctx = RunContext { id, tx: copy_sender(&self.tx), backgrounded: false };
                system.run_object(k, &mut ctx);
                if ctx.backgrounded {
                    proof {
                        lemma_suspend(system@, self@, f as int);
                    }
                    self.counter = id;
                    self.background.insert(id, f);
                    true
                } else {
                    self.finish(system, f);
                    false
                }
            },
            _ => {
                self.finish(system, f);
                false
            },
        }
    }

    /// One step on what the channel gave: a given event is handled;
    /// otherwise the head of the queue runs, and with no frame queued
    /// nothing changes and the step reports no progress.
    pub fn step<O: Object>(&mut self, system: &mut System<O>, event: Option<Event>) -> (r: bool)
        requires
            consistent(old(system)@, old(self)@),
            old(self)@.counter < u64::MAX,
        ensures
            consistent(final(system)@, final(self)@),
            event matches Some(e) ==> r && (final(system)@, final(self)@) == delivered(
                old(system)@,
                old(self)@,
                e.0,
                e.1 is Drop,
            ),
            event is None && old(self)@.tasks.len() > 0 ==> r && head_ran(
                old(system)@,
                old(self)@,
                final(system)@,
                final(self)@,
            ),
            event is None && old(self)@.tasks.len() == 0 ==> !r && final(system)@ == old(system)@
                && final(self)@ == old(self)@,
    {
        match event {
            Some(e) => {
                self.handle_event(system, e);
                true
            },
            None => {
                if self.tasks.len() > 0 {
                    self.run_head(system);
                    true
                } else {
                    false
                }
            },
        }
    }

    /// One step: while a task is suspended, a waiting event first; else the
    /// head of the queue; else, while a task is suspended, a wait for an
    /// event. Returns false, changing nothing, when no frame is queued and no
    /// event came.
    pub fn run_one<O: Object>(&mut self, system: &mut System<O>) -> (r: bool)
        requires
            consistent(old(system)@, old(self)@),
            old(self)@.counter < u64::MAX,
        ensures
            consistent(final(system)@, final(self)@),
            r ==> stepped(old(system)@, old(self)@, final(system)@, final(self)@),
            !r ==> final(system)@ == old(system)@ && final(self)@ == old(self)@ && old(self)@.tasks.len()
                == 0,
            old(self)@.tasks.len() > 0 ==> r,
            old(self)@.background.len() == 0 ==> (r ==> head_ran(
                old(system)@,
                old(self)@,
                final(system)@,
                final(self)@,
            )),
    {
        let ghost s0 = system@;
        let ghost t0 = self@;
        let polled = if self.background.len() > 0 {
            poll(&self.rx)
        } else {
            None
        };
        let event = match polled {
            Some(e) => Some(e),
            None => {
                if self.tasks.len() == 0 && self.background.len() > 0 {
                    wait(&self.rx)
                } else {
                    None
                }
            },
        };
        let ghost given = event;
        let r = self.step(system, event);
        proof {
            if let Some(e) = given {
                assert(t0.background.len() > 0);
                assert((system@, self@) == delivered(s0, t0, e.0, e.1 is Drop));
            }
        }
        r
    }

    /// Calls `run_one` `n` times, stopping early only when task ids run out.
    pub fn run_iterations<O: Object>(&mut self, system: &mut System<O>, n: u32)
        requires
            consistent(old(system)@, old(self)@),
        ensures
            consistent(final(system)@, final(self)@),
            exists|trace: Seq<(SystemView, TaskLoopView)>|
                #![trigger trace.len()]
                run_trace(trace) && trace.len() >= 1 && trace[0] == (old(system)@, old(self)@)
                    && trace.last() == (final(system)@, final(self)@) && (trace.len() == n + 1
                    || final(self)@.counter == u64::MAX),
    {
        let ghost mut trace: Seq<(SystemView, TaskLoopView)> = seq![(system@, self@)];
        let mut i: u32 = 0;
        while i < n && self.counter < u64::MAX
            invariant
                i <= n,
                consistent(system@, self@),
                run_trace(trace),
                trace.len() == i + 1,
                trace[0] == (old(system)@, old(self)@),
                trace.last() == (system@, self@),
            decreases n - i,
        {
            self.run_one(system);
            proof {
                let t2 = trace.push((system@, self@));
                assert forall|j: int| 0 <= j < t2.len() - 1 implies moved(
                    (#[trigger] t2[j]).0,
                    t2[j].1,
                    t2[j + 1].0,
                    t2[j + 1].1,
                ) by {
                    if j < trace.len() - 1 {
                        assert(t2[j] == trace[j] && t2[j + 1] == trace[j + 1]);
                    }
                }
                trace = t2;
            }
            i = i + 1;
        }
    }

    /// Calls `run_one` until it reports no progress (no frame queued and no
    /// event came), task ids run out, or `u64::MAX` calls were made.
    pub fn run_until_done<O: Object>(&mut self, system: &mut System<O>)
        requires
            consistent(old(system)@, old(self)@),
        ensures
            consistent(final(system)@, final(self)@),
            exists|trace: Seq<(SystemView, TaskLoopView)>|
                #![trigger trace.len()]
                run_trace(trace) && trace.len() >= 1 && trace[0] == (old(system)@, old(self)@)
                    && trace.last() == (final(system)@, final(self)@) && (final(self)@.tasks.len() == 0
                    || final(self)@.counter == u64::MAX || trace.len() == u64::MAX + 1),
    {
        let ghost mut trace: Seq<(SystemView, TaskLoopView)> = seq![(system@, self@)];
        let mut budget: u64 = u64::MAX;
        while budget > 0 && self.counter < u64::MAX
            invariant
                consistent(system@, self@),
                run_trace(trace),
                trace.len() == u64::MAX - budget + 1,
                trace[0] == (old(system)@, old(self)@),
                trace.last() == (system@, self@),
            decreases budget,
        {
            let progressed = self.run_one(system);
            proof {
                let t2 = trace.push((system@, self@));
                assert forall|j: int| 0 <= j < t2.len() - 1 implies moved(
                    (#[trigger] t2[j]).0,
                    t2[j].1,
                    t2[j + 1].0,
                    t2[j + 1].1,
                ) by {
                    if j < trace.len() - 1 {
                        assert(t2[j] == trace[j] && t2[j + 1] == trace[j + 1]);
                    }
                }
                trace = t2;
            }
            budget = budget - 1;
            if !progressed {
                return;
            }
        }
    }
}

proof fn lemma_start(sv: SystemView, tv: TaskLoopView)
    requires
        consistent(sv, tv),
        tv.tasks.len() > 0,
    ensures
        consistent(start(sv, tv).0, start(sv, tv).1),
        not_suspended(start(sv, tv).1, tv.tasks[0]),
        start(sv, tv).0.frames[tv.tasks[0]].running,
{
    let f = tv.tasks[0];
    let (s1, t1) = start(sv, tv);
    crate::model_lemmas::lemma_flags_wf(sv, f, false, true);
    assert(tv.tasks.contains(f));
    assert(sv.frames[f].scheduled);
    assert forall|i: int| 0 <= i < t1.tasks.len() implies sv.has_frame(#[trigger] t1.tasks[i]) by {
        assert(t1.tasks[i] == tv.tasks[i + 1]);
    }
    assert forall|i: int, j: int|
        0 <= i < t1.tasks.len() && 0 <= j < t1.tasks.len() && i != j implies #[trigger] t1.tasks[i]
            != #[trigger] t1.tasks[j] by {
        assert(t1.tasks[i] == tv.tasks[i + 1]);
        assert(t1.tasks[j] == tv.tasks[j + 1]);
    }
    assert forall|g: int| s1.has_frame(g) implies (#[trigger] s1.frames[g].scheduled <==> t1.tasks.contains(g)) by {
        if g == f {
            if t1.tasks.contains(g) {
                let i = choose|i: int| 0 <= i < t1.tasks.len() && t1.tasks[i] == g;
                assert(tv.tasks[i + 1] == tv.tasks[0]);
            }
        } else {
            assert(sv.frames[g].scheduled <==> tv.tasks.contains(g));
            if tv.tasks.contains(g) {
                let i = choose|i: int| 0 <= i < tv.tasks.len() && tv.tasks[i] == g;
                assert(i != 0);
                assert(t1.tasks[i - 1] == g);
            }
            if t1.tasks.contains(g) {
                let i = choose|i: int| 0 <= i < t1.tasks.len() && t1.tasks[i] == g;
                assert(tv.tasks[i + 1] == g);
            }
        }
    }
    assert forall|g: int| s1.has_frame(g) implies !(#[trigger] s1.frames[g].running && s1.frames[g].scheduled) by {
        assert(!(sv.frames[g].running && sv.frames[g].scheduled));
    }
    assert forall|id: u64| #[trigger] t1.background.contains_key(id) implies id <= t1.counter && s1.has_frame(
        t1.background[id] as int,
    ) && s1.frames[t1.background[id] as int].running by {
        assert(sv.frames[tv.background[id] as int].running);
    }
    assert forall|id: u64| #[trigger] t1.background.contains_key(id) implies t1.background[id] as int != f by {
        assert(sv.frames[tv.background[id] as int].running);
        assert(!(sv.frames[f].running && sv.frames[f].scheduled));
    }
}

/// Consistency looks only at the queue and the suspended tasks.
proof fn lemma_same_queue(sv: SystemView, tv: TaskLoopView, t1: TaskLoopView)
    requires
        consistent(sv, tv),
        t1.counter == tv.counter,
        t1.background == tv.background,
        t1.tasks == tv.tasks,
    ensures
        consistent(sv, t1),
{
    assert forall|g: int| sv.has_frame(g) implies (#[trigger] sv.frames[g].scheduled <==> t1.tasks.contains(g)) by {
        assert(sv.frames[g].scheduled <==> tv.tasks.contains(g));
    }
}

proof fn lemma_suspend(sv: SystemView, tv: TaskLoopView, f: int)
    requires
        consistent(sv, tv),
        sv.has_frame(f),
        f <= usize::MAX,
        sv.frames[f].running,
        not_suspended(tv, f),
        tv.counter < u64::MAX,
    ensures
        consistent(suspend(sv, tv, f).0, suspend(sv, tv, f).1),
{
    let (s1, t1) = suspend(sv, tv, f);
    let k = (tv.counter + 1) as u64;
    assert(!tv.background.contains_key(k));
    assert forall|id: u64| #[trigger] t1.background.contains_key(id) implies id <= t1.counter && s1.has_frame(
        t1.background[id] as int,
    ) && s1.frames[t1.background[id] as int].running by {
        if id != k {
            assert(tv.background.contains_key(id));
        }
    }
    assert forall|i: u64, j: u64|
        t1.background.contains_key(i) && t1.background.contains_key(j) && i != j implies #[trigger] t1.background[i]
            != #[trigger] t1.background[j] by {
        if i != k && j != k {
            assert(tv.background[i] != tv.background[j]);
        } else if i == k {
            assert(tv.background.contains_key(j));
        } else {
            assert(tv.background.contains_key(i));
        }
    }
}

proof fn lemma_unregister(sv: SystemView, tv: TaskLoopView, id: u64)
    requires
        consistent(sv, tv),
        tv.background.contains_key(id),
    ensures
        ({
            let t1 = TaskLoopView {
                counter: tv.counter,
                background: tv.background.remove(id),
                tasks: tv.tasks,
                started: tv.started,
                handled: tv.handled,
            };
            consistent(sv, t1) && not_suspended(t1, tv.background[id] as int) && sv.has_frame(
                tv.background[id] as int,
            )
        }),
{
    let t1 = TaskLoopView {
        counter: tv.counter,
        background: tv.background.remove(id),
        tasks: tv.tasks,
        started: tv.started,
        handled: tv.handled,
    };
    assert forall|j: u64| #[trigger] t1.background.contains_key(j) implies t1.background[j] as int
        != tv.background[id] as int by {
        assert(tv.background[j] != tv.background[id]);
    }
    assert forall|g: int| sv.has_frame(g) implies (#[trigger] sv.frames[g].scheduled <==> t1.tasks.contains(g)) by {
        assert(sv.frames[g].scheduled <==> tv.tasks.contains(g));
    }
}

proof fn lemma_enqueue(sv: SystemView, tv: TaskLoopView, f: int)
    requires
        consistent(sv, tv),
        sv.has_frame(f),
    ensures
        consistent(enqueue(sv, tv, f).0, enqueue(sv, tv, f).1),
        enqueue(sv, tv, f).0.frames.len() == sv.frames.len(),
        forall|g: int| sv.has_frame(g) ==> #[trigger] enqueue(sv, tv, f).0.frames[g].running == sv.frames[g].running,
        enqueue(sv, tv, f).1.background == tv.background,
{
    if !(sv.frames[f].scheduled || sv.frames[f].running) {
        let (s1, t1) = enqueue(sv, tv, f);
        crate::model_lemmas::lemma_flags_wf(sv, f, true, false);
        assert(!tv.tasks.contains(f));
        assert forall|i: int, j: int|
            0 <= i < t1.tasks.len() && 0 <= j < t1.tasks.len() && i != j implies #[trigger] t1.tasks[i]
                != #[trigger] t1.tasks[j] by {
            if i == tv.tasks.len() {
                assert(tv.tasks[j] != f);
            } else if j == tv.tasks.len() {
                assert(tv.tasks[i] != f);
            }
        }
        assert forall|g: int| s1.has_frame(g) implies (#[trigger] s1.frames[g].scheduled <==> t1.tasks.contains(g)) by {
            if g != f {
                assert(sv.frames[g].scheduled <==> tv.tasks.contains(g));
                if tv.tasks.contains(g) {
                    let i = choose|i: int| 0 <= i < tv.tasks.len() && tv.tasks[i] == g;
                    assert(t1.tasks[i] == g);
                }
                if t1.tasks.contains(g) {
                    let i = choose|i: int| 0 <= i < t1.tasks.len() && t1.tasks[i] == g;
                    assert(tv.tasks[i] == g);
                }
            } else {
                assert(t1.tasks[tv.tasks.len() as int] == f);
            }
        }
        assert forall|g: int| s1.has_frame(g) implies !(#[trigger] s1.frames[g].running && s1.frames[g].scheduled) by {
            assert(!(sv.frames[g].running && sv.frames[g].scheduled));
        }
        assert forall|id: u64| #[trigger] t1.background.contains_key(id) implies id <= t1.counter && s1.has_frame(
            t1.background[id] as int,
        ) && s1.frames[t1.background[id] as int].running by {
            assert(sv.frames[tv.background[id] as int].running);
        }
    }
}

proof fn lemma_enqueue_all(sv: SystemView, tv: TaskLoopView, fs: Seq<int>)
    requires
        consistent(sv, tv),
        forall|i: int| 0 <= i < fs.len() ==> sv.has_frame(#[trigger] fs[i]),
    ensures
        consistent(enqueue_all(sv, tv, fs).0, enqueue_all(sv, tv, fs).1),
        enqueue_all(sv, tv, fs).0.frames.len() == sv.frames.len(),
    decreases fs.len(),
{
    if fs.len() > 0 {
        lemma_enqueue_all(sv, tv, fs.drop_last());
        let (s1, t1) = enqueue_all(sv, tv, fs.drop_last());
        lemma_enqueue(s1, t1, fs.last());
    }
}

/// Stopping frame `f` keeps the task loop consistent when `f` is not
/// suspended.
proof fn lemma_complete_flags(sv: SystemView, tv: TaskLoopView, f: int)
    requires
        consistent(sv, tv),
        sv.has_frame(f),
        not_suspended(tv, f),
    ensures
        consistent(sv.with_flags(f, sv.frames[f].scheduled, false), tv),
{
    let s1 = sv.with_flags(f, sv.frames[f].scheduled, false);
    crate::model_lemmas::lemma_flags_wf(sv, f, sv.frames[f].scheduled, false);
    assert forall|g: int| s1.has_frame(g) implies (#[trigger] s1.frames[g].scheduled <==> tv.tasks.contains(g)) by {
        assert(sv.frames[g].scheduled <==> tv.tasks.contains(g));
    }
    assert forall|g: int| s1.has_frame(g) implies !(#[trigger] s1.frames[g].running && s1.frames[g].scheduled) by {
        assert(!(sv.frames[g].running && sv.frames[g].scheduled));
    }
    assert forall|id: u64| #[trigger] tv.background.contains_key(id) implies id <= tv.counter && s1.has_frame(
        tv.background[id] as int,
    ) && s1.frames[tv.background[id] as int].running by {
        assert(sv.frames[tv.background[id] as int].running);
    }
}

pub(crate) proof fn lemma_complete(sv: SystemView, tv: TaskLoopView, f: int)
    requires
        consistent(sv, tv),
        sv.has_frame(f),
        not_suspended(tv, f),
    ensures
        consistent(complete(sv, tv, f).0, complete(sv, tv, f).1),
{
    lemma_complete_flags(sv, tv, f);
    crate::model_lemmas::lemma_fired_valid(sv, f);
    lemma_enqueue_all(sv.with_flags(f, sv.frames[f].scheduled, false), tv, sv.fired(f));
}

} // verus!
