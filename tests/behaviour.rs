use std::cell::RefCell;
use std::rc::Rc;

use dataflow::{ConcreteObject, Frame, Object, Relation, RunContext, System, TaskEvent, TaskLoop};

type Log = Rc<RefCell<Vec<String>>>;

enum Probe {
    Logger { name: String, log: Log },
    Slow { log: Log },
    Hold { log: Log },
}

impl Object for Probe {
    fn name(&self) -> &'static str {
        match self {
            Probe::Logger { .. } => "MockObject",
            Probe::Slow { .. } | Probe::Hold { .. } => "SlowObject",
        }
    }

    fn run(&mut self, ctx: &mut RunContext) {
        match self {
            Probe::Logger { name, log } => log.borrow_mut().push(name.clone()),
            Probe::Slow { log } => {
                log.borrow_mut().push("start".to_string());
                let mut background = ctx.background();
                background.send_update(vec![1, 2, 3]);
                background.send_update(vec![4]);
            }
            Probe::Hold { log } => {
                log.borrow_mut().push("hold".to_string());
                std::mem::forget(ctx.background());
            }
        }
    }

    fn update(&mut self, update: Vec<u8>) {
        if let Probe::Slow { log } = self {
            log.borrow_mut().push(format!("update{}", update.len()));
        }
    }
}

fn logger(name: &str, log: &Log) -> Option<ConcreteObject<Probe>> {
    Some(ConcreteObject::Other(Probe::Logger { name: name.to_string(), log: log.clone() }))
}

fn joined(log: &Log) -> String {
    log.borrow().join(" ")
}

fn new_log() -> Log {
    Rc::new(RefCell::new(Vec::new()))
}

#[test]
fn names_get_the_smallest_free_suffix() {
    let log = new_log();
    let mut system: System<Probe> = System::new();
    let a = system.frame(logger("a", &log));
    let b = system.frame(logger("b", &log));
    let c = system.frame(logger("c", &log));
    let empty = system.frame(None);
    let empty2 = system.frame(None);
    let inner = system.new_system();
    let holder = system.frame(Some(ConcreteObject::System(inner)));
    assert_eq!(system.name_of(a), "MockObject");
    assert_eq!(system.name_of(b), "MockObject2");
    assert_eq!(system.name_of(c), "MockObject3");
    assert_eq!(system.name_of(empty), "Frame");
    assert_eq!(system.name_of(empty2), "Frame2");
    assert_eq!(system.name_of(holder), "System");
}

#[test]
fn names_avoid_nested_frames() {
    let log = new_log();
    let mut system: System<Probe> = System::new();
    let inner = system.new_system();
    let nested = system.frame_in(inner, logger("x", &log));
    assert_eq!(system.name_of(nested), "MockObject");
    system.frame(Some(ConcreteObject::System(inner)));
    let outer = system.frame(logger("y", &log));
    assert_eq!(system.name_of(outer), "MockObject2");
}

#[test]
fn names_count_past_nine() {
    let log = new_log();
    let mut system: System<Probe> = System::new();
    let mut last = system.frame(logger("0", &log));
    for i in 1..11 {
        last = system.frame(logger(&i.to_string(), &log));
    }
    assert_eq!(system.name_of(last), "MockObject11");
}

#[test]
fn scheduling_twice_queues_once() {
    let log = new_log();
    let mut system: System<Probe> = System::new();
    let mut task_loop = TaskLoop::new();
    let a = system.frame(logger(":a", &log));
    a.schedule(&mut system, &mut task_loop);
    a.schedule(&mut system, &mut task_loop);
    a.schedule(&mut system, &mut task_loop);
    assert_eq!(task_loop.queued(), 1);
    assert!(system.scheduled(a));
    task_loop.run_until_done(&mut system);
    assert_eq!(joined(&log), ":a");
}

#[test]
fn flags_follow_the_queue() {
    let log = new_log();
    let mut system: System<Probe> = System::new();
    let mut task_loop = TaskLoop::new();
    let a = system.frame(logger(":a", &log));
    assert!(!system.scheduled(a));
    a.schedule(&mut system, &mut task_loop);
    assert!(system.scheduled(a) && !system.running(a));
    assert!(task_loop.run_one(&mut system));
    assert!(!system.scheduled(a) && !system.running(a));
    assert_eq!(task_loop.queued(), 0);
    assert!(!task_loop.run_one(&mut system));
}

#[test]
fn idle_loop_reports_no_progress() {
    let mut system: System<Probe> = System::new();
    let mut task_loop = TaskLoop::new();
    assert!(!task_loop.run_one(&mut system));
    task_loop.run_iterations(&mut system, 5);
    assert_eq!(task_loop.queued(), 0);
}

#[test]
fn extra_iterations_stop_quietly() {
    let log = new_log();
    let mut system: System<Probe> = System::new();
    let mut task_loop = TaskLoop::new();
    let a = system.frame(logger(":a", &log));
    a.schedule(&mut system, &mut task_loop);
    task_loop.run_iterations(&mut system, 5);
    assert_eq!(joined(&log), ":a");
}

#[test]
fn background_task_keeps_running_until_dropped() {
    let log = new_log();
    let mut system: System<Probe> = System::new();
    let mut task_loop = TaskLoop::new();
    let slow = system.frame(Some(ConcreteObject::Other(Probe::Slow { log: log.clone() })));
    let next = system.frame(logger("next", &log));
    system.link(slow, next, Relation::Then);
    slow.schedule(&mut system, &mut task_loop);
    assert!(task_loop.run_one(&mut system));
    assert!(system.running(slow));
    assert_eq!(task_loop.suspended(), 1);
    task_loop.run_until_done(&mut system);
    assert!(!system.running(slow));
    assert_eq!(task_loop.suspended(), 0);
    assert_eq!(joined(&log), "start update3 update1 next");
}

#[test]
fn arg_links_do_not_schedule() {
    let log = new_log();
    let mut system: System<Probe> = System::new();
    let mut task_loop = TaskLoop::new();
    let a = system.frame(logger(":a", &log));
    let b = system.frame(logger(":b", &log));
    system.link(a, b, Relation::Arg);
    a.schedule(&mut system, &mut task_loop);
    task_loop.run_until_done(&mut system);
    assert_eq!(joined(&log), ":a");
}

#[test]
fn duplicate_links_schedule_once_per_completion() {
    let log = new_log();
    let mut system: System<Probe> = System::new();
    let mut task_loop = TaskLoop::new();
    let a = system.frame(logger(":a", &log));
    let b = system.frame(logger(":b", &log));
    system.link(a, b, Relation::Then);
    system.link(a, b, Relation::Then);
    a.schedule(&mut system, &mut task_loop);
    task_loop.run_until_done(&mut system);
    assert_eq!(joined(&log), ":a :b");
}

#[test]
fn swapping_leaves_twice_restores() {
    let log = new_log();
    let mut system: System<Probe> = System::new();
    let mut task_loop = TaskLoop::new();
    let a = system.frame(logger(":a", &log));
    let b = system.frame(logger(":b", &log));
    Frame::swap(&mut system, a, b);
    Frame::swap(&mut system, a, b);
    a.schedule(&mut system, &mut task_loop);
    task_loop.run_until_done(&mut system);
    assert_eq!(joined(&log), ":a");
}

#[test]
fn unresolved_reference_is_reported_and_healed_on_return() {
    let log = new_log();
    let mut system: System<Probe> = System::new();
    let mut task_loop = TaskLoop::new();
    let top = system.frame(logger("top", &log));
    let inner_system = system.new_system();
    let inner = system.frame_in(inner_system, logger("inner", &log));
    let holder = system.frame(Some(ConcreteObject::System(inner_system)));
    let leaf = system.frame(logger("leaf", &log));
    system.link(top, inner, Relation::Then);
    assert!(system.targets_resolve());

    Frame::swap(&mut system, holder, leaf);
    assert!(!system.targets_resolve());

    Frame::swap(&mut system, holder, leaf);
    assert!(system.targets_resolve());
    top.schedule(&mut system, &mut task_loop);
    task_loop.run_until_done(&mut system);
    assert_eq!(joined(&log), "top inner");
}

#[test]
fn a_source_found_by_name_fires() {
    let log = new_log();
    let mut system: System<Probe> = System::new();
    let mut task_loop = TaskLoop::new();
    let first = system.new_system();
    let inner = system.frame_in(first, logger("inner", &log));
    let holder = system.frame(Some(ConcreteObject::System(first)));
    let leaf = system.frame(logger("leaf", &log));
    let after = system.frame(logger("after", &log));
    system.link(inner, after, Relation::Then);

    Frame::swap(&mut system, holder, leaf);
    let second = system.new_system();
    let replacement = system.frame_in(second, logger("replacement", &log));
    holder.adopt(&mut system, Some(ConcreteObject::System(second)));
    assert!(system.targets_resolve());

    replacement.schedule(&mut system, &mut task_loop);
    task_loop.run_until_done(&mut system);
    assert_eq!(joined(&log), "replacement after");
}

#[test]
fn a_running_frame_is_not_scheduled() {
    let log = new_log();
    let mut system: System<Probe> = System::new();
    let mut task_loop = TaskLoop::new();
    let slow = system.frame(Some(ConcreteObject::Other(Probe::Hold { log: log.clone() })));
    slow.schedule(&mut system, &mut task_loop);
    task_loop.run_iterations(&mut system, 1);
    assert!(system.running(slow));
    slow.schedule(&mut system, &mut task_loop);
    assert!(!system.scheduled(slow));
    assert_eq!(task_loop.queued(), 0);
}

#[test]
fn adopt_replaces_the_object() {
    let log = new_log();
    let mut system: System<Probe> = System::new();
    let mut task_loop = TaskLoop::new();
    let a = system.frame(logger(":a", &log));
    a.adopt(&mut system, logger(":z", &log));
    assert_eq!(system.name_of(a), "MockObject");
    a.schedule(&mut system, &mut task_loop);
    task_loop.run_until_done(&mut system);
    assert_eq!(joined(&log), ":z");
}

#[test]
fn completion_reaches_every_enclosing_system() {
    let log = new_log();
    let mut system: System<Probe> = System::new();
    let mut task_loop = TaskLoop::new();
    let outer_next = system.frame(logger("outer", &log));
    let middle = system.new_system();
    let inner = system.new_system();
    let deep = system.frame_in(inner, logger("deep", &log));
    let inner_next = system.frame_in(inner, logger("inner", &log));
    let middle_next = system.frame_in(middle, logger("middle", &log));
    system.frame_in(middle, Some(ConcreteObject::System(inner)));
    system.frame(Some(ConcreteObject::System(middle)));
    system.link_in(inner, deep, inner_next, Relation::Then);
    system.link_in(middle, deep, middle_next, Relation::Then);
    system.link(deep, outer_next, Relation::Then);
    deep.schedule(&mut system, &mut task_loop);
    task_loop.run_until_done(&mut system);
    assert_eq!(joined(&log), "deep inner middle outer");
}

#[test]
fn events_for_unknown_tasks_change_nothing() {
    let log = new_log();
    let mut system: System<Probe> = System::new();
    let mut task_loop = TaskLoop::new();
    let a = system.frame(logger(":a", &log));
    a.schedule(&mut system, &mut task_loop);
    task_loop.handle_event(&mut system, (7, TaskEvent::Drop));
    task_loop.handle_event(&mut system, (7, TaskEvent::Update(vec![1])));
    assert_eq!(task_loop.queued(), 1);
    assert!(system.scheduled(a));
    assert_eq!(joined(&log), "");
}

#[test]
fn a_drop_event_completes_the_suspended_frame() {
    let log = new_log();
    let mut system: System<Probe> = System::new();
    let mut task_loop = TaskLoop::new();
    let slow = system.frame(Some(ConcreteObject::Other(Probe::Slow { log: log.clone() })));
    let next = system.frame(logger("next", &log));
    system.link(slow, next, Relation::Then);
    slow.schedule(&mut system, &mut task_loop);
    assert!(task_loop.run_one(&mut system));
    task_loop.handle_event(&mut system, (1, TaskEvent::Drop));
    assert!(!system.running(slow));
    assert!(system.scheduled(next));
    assert_eq!(task_loop.suspended(), 0);
}

#[test]
fn swapping_back_finds_the_shallowest_name() {
    let log = new_log();
    let mut system: System<Probe> = System::new();
    let mut task_loop = TaskLoop::new();
    let top = system.frame(logger("top", &log));
    let outer = system.new_system();
    let shallow = system.frame_in(outer, logger("shallow", &log));
    let inner = system.new_system();
    let deep = system.frame_in(inner, logger("deep", &log));
    system.frame_in(outer, Some(ConcreteObject::System(inner)));
    let a = system.frame(Some(ConcreteObject::System(outer)));
    let other = system.new_system();
    system.frame_in(other, logger("other", &log));
    let b = system.frame(Some(ConcreteObject::System(other)));
    assert_eq!(system.name_of(shallow), system.name_of(deep));
    system.link(top, deep, Relation::Then);

    Frame::swap(&mut system, a, b);
    top.schedule(&mut system, &mut task_loop);
    task_loop.run_until_done(&mut system);
    Frame::swap(&mut system, a, b);
    top.schedule(&mut system, &mut task_loop);
    task_loop.run_until_done(&mut system);
    assert_eq!(joined(&log), "top other top shallow");
}
