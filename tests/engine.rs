use std::cell::RefCell;
use std::rc::Rc;

use dataflow::{
    BackgroundTask, ConcreteObject, Frame, Object, Relation, RunContext, System, SystemId, TaskLoop,
};

type Log = Rc<RefCell<Vec<String>>>;

/// Test objects: one that logs its name when run, and one that finishes in
/// the background after one update.
enum Mock {
    Logger { name: String, log: Log },
    Slow { log: Log, slot: Slot },
}

/// Where a slow object leaves its background handle for the producer.
type Slot = Rc<RefCell<Option<BackgroundTask>>>;

impl Object for Mock {
    fn name(&self) -> &'static str {
        match self {
            Mock::Logger { .. } => "MockObject",
            Mock::Slow { .. } => "SlowObject",
        }
    }

    fn can_run(&self) -> bool {
        true
    }

    fn run(&mut self, ctx: &mut RunContext) {
        match self {
            Mock::Logger { name, log } => log.borrow_mut().push(name.clone()),
            Mock::Slow { log, slot } => {
                log.borrow_mut().push("start".to_string());
                *slot.borrow_mut() = Some(ctx.background());
            }
        }
    }

    fn update(&mut self, _update: Vec<u8>) {
        if let Mock::Slow { log, .. } = self {
            log.borrow_mut().push("end".to_string());
        }
    }
}

struct TestableSystem {
    a: Frame,
    b: Frame,
    c: Frame,
}

struct Test {
    log: Log,
    task_loop: TaskLoop,
    system: System<Mock>,
}

impl Test {
    fn new() -> Self {
        Test { log: Rc::new(RefCell::new(Vec::new())), task_loop: TaskLoop::new(), system: System::new() }
    }

    fn mock(&self, name: &str) -> Option<ConcreteObject<Mock>> {
        Some(ConcreteObject::Other(Mock::Logger { name: name.to_string(), log: self.log.clone() }))
    }

    fn make_in(&mut self, s: SystemId, name: &str) -> TestableSystem {
        let a = self.mock(&format!("{}:a", name));
        let b = self.mock(&format!("{}:b", name));
        let c = self.mock(&format!("{}:c", name));
        let a = self.system.frame_in(s, a);
        let b = self.system.frame_in(s, b);
        let c = self.system.frame_in(s, c);
        TestableSystem { a, b, c }
    }

    fn make_system(&mut self, name: &str) -> TestableSystem {
        let root = self.system.root();
        self.make_in(root, name)
    }

    fn schedule(&mut self, f: Frame) {
        f.schedule(&mut self.system, &mut self.task_loop);
    }

    fn run_until_done(&mut self) {
        self.task_loop.run_until_done(&mut self.system);
    }

    fn run_iterations(&mut self, n: u32) {
        self.task_loop.run_iterations(&mut self.system, n);
    }

    fn log(&self) -> String {
        self.log.borrow().join(" ")
    }
}

#[test]
fn run_nothing() {
    let mut test = Test::new();
    test.make_system("");
    test.run_until_done();
    assert_eq!(test.log(), "");
}

#[test]
fn run_one() {
    let mut test = Test::new();
    let TestableSystem { a, .. } = test.make_system("");
    test.schedule(a);
    test.run_until_done();
    assert_eq!(test.log(), ":a");
}

#[test]
fn swap() {
    let mut test = Test::new();
    let TestableSystem { a, b, .. } = test.make_system("");
    Frame::swap(&mut test.system, a, b);
    test.schedule(a);
    test.run_until_done();
    assert_eq!(test.log(), ":b");
}

#[test]
fn then() {
    let mut test = Test::new();
    let TestableSystem { a, b, .. } = test.make_system("");
    test.system.link(a, b, Relation::Then);
    test.schedule(a);
    test.run_until_done();
    assert_eq!(test.log(), ":a :b");
}

#[test]
fn test_loop() {
    let mut test = Test::new();
    let TestableSystem { a, .. } = test.make_system("");
    test.system.link(a, a, Relation::Then);
    test.schedule(a);
    test.run_iterations(3);
    assert_eq!(test.log(), ":a :a :a");
}

#[test]
fn split() {
    let mut test = Test::new();
    let TestableSystem { a, b, c } = test.make_system("");
    test.system.link(a, b, Relation::Then);
    test.system.link(a, c, Relation::Then);
    test.schedule(a);
    test.run_until_done();
    assert_eq!(test.log(), ":a :b :c");
}

#[test]
fn merge() {
    let mut test = Test::new();
    let TestableSystem { a, b, c } = test.make_system("");
    test.system.link(a, c, Relation::Then);
    test.system.link(b, c, Relation::Then);
    test.schedule(a);
    test.schedule(b);
    test.run_until_done();
    assert_eq!(test.log(), ":a :b :c");
}

#[test]
fn repeat() {
    let mut test = Test::new();
    let TestableSystem { a, b, c } = test.make_system("");
    test.system.link(a, c, Relation::Then);
    test.system.link(b, c, Relation::Then);
    test.schedule(a);
    test.run_until_done();
    test.schedule(b);
    test.run_until_done();
    assert_eq!(test.log(), ":a :c :b :c");
}

/// A root system with frames `Top:a`, `Top:b`, `Top:c`, where `Top:b` holds
/// a system with `Left:a`, ... and `Top:c` one with `Right:a`, ...
struct CrossSystemTest {
    test: Test,
    top: Frame,
    left: Frame,
    right: Frame,
    left_holder: Frame,
    right_holder: Frame,
}

impl CrossSystemTest {
    fn new() -> Self {
        let mut test = Test::new();
        let top = test.make_system("Top");
        let left_system = test.system.new_system();
        let left = test.make_in(left_system, "Left");
        let right_system = test.system.new_system();
        let right = test.make_in(right_system, "Right");
        top.b.adopt(&mut test.system, Some(ConcreteObject::System(left_system)));
        top.c.adopt(&mut test.system, Some(ConcreteObject::System(right_system)));
        CrossSystemTest {
            test,
            top: top.a,
            left: left.a,
            right: right.a,
            left_holder: top.b,
            right_holder: top.c,
        }
    }
}

#[test]
fn enter_system() {
    let CrossSystemTest { mut test, top, left, .. } = CrossSystemTest::new();
    test.system.link(top, left, Relation::Then);
    test.schedule(top);
    test.run_iterations(2);
    assert_eq!(test.log(), "Top:a Left:a");
}

#[test]
fn exit_system() {
    let CrossSystemTest { mut test, top, left, .. } = CrossSystemTest::new();
    test.system.link(left, top, Relation::Then);
    test.schedule(left);
    test.run_iterations(2);
    assert_eq!(test.log(), "Left:a Top:a");
}

#[test]
fn cross_systems() {
    let CrossSystemTest { mut test, left, right, .. } = CrossSystemTest::new();
    test.system.link(left, right, Relation::Then);
    test.system.link(right, left, Relation::Then);
    test.schedule(left);
    test.run_iterations(4);
    assert_eq!(test.log(), "Left:a Right:a Left:a Right:a");
}

#[test]
fn exit_link_follows_the_swapped_position() {
    let CrossSystemTest { mut test, top, left, right, left_holder, right_holder } =
        CrossSystemTest::new();
    test.system.link(left, top, Relation::Then);
    Frame::swap(&mut test.system, left_holder, right_holder);
    test.schedule(left);
    test.run_until_done();
    assert_eq!(test.log(), "Left:a");
    test.schedule(right);
    test.run_until_done();
    assert_eq!(test.log(), "Left:a Right:a Top:a");
}

#[test]
fn swapping_systems_twice_restores() {
    let CrossSystemTest { mut test, top, left, left_holder, right_holder, .. } = CrossSystemTest::new();
    test.system.link(top, top, Relation::Arg);
    Frame::swap(&mut test.system, left_holder, right_holder);
    Frame::swap(&mut test.system, left_holder, right_holder);
    test.system.link(top, left, Relation::Then);
    test.schedule(top);
    test.run_iterations(2);
    assert_eq!(test.log(), "Top:a Left:a");
    assert_eq!(test.system.name_of(left_holder), "MockObject2");
}

#[test]
fn outer_successors_survive_a_swap() {
    let CrossSystemTest { mut test, top, left_holder, right_holder, .. } = CrossSystemTest::new();
    let next_object = test.mock("Top:d");
    let next = test.system.frame(next_object);
    test.system.link(top, next, Relation::Then);
    Frame::swap(&mut test.system, left_holder, right_holder);
    test.schedule(top);
    test.run_until_done();
    assert_eq!(test.log(), "Top:a Top:d");
}

#[test]
fn system_substitution() {
    let mut test = Test::new();
    let top_object = test.mock("top");
    let top = test.system.frame(top_object);

    let left1_system = test.system.new_system();
    let left1 = test.system.frame(Some(ConcreteObject::System(left1_system)));
    let left2_system = test.system.new_system();
    let left2 = test.system.frame_in(left1_system, Some(ConcreteObject::System(left2_system)));
    let left3_object = test.mock("left3");
    let left3 = test.system.frame_in(left2_system, left3_object);

    let right1_system = test.system.new_system();
    let right1 = test.system.frame(Some(ConcreteObject::System(right1_system)));
    let right2_system = test.system.new_system();
    let right2 = test.system.frame_in(right1_system, Some(ConcreteObject::System(right2_system)));
    let right3_object = test.mock("right3");
    let right3 = test.system.frame_in(right2_system, right3_object);

    test.system.link(top, left3, Relation::Then);
    test.schedule(top);
    test.run_until_done();

    assert_eq!(test.log(), "top left3");

    Frame::swap(&mut test.system, left1, right1);
    test.schedule(top);
    test.run_until_done();

    assert_eq!(test.log(), "top left3 top right3");

    Frame::swap(&mut test.system, left2, right2);
    test.schedule(top);
    test.run_until_done();

    assert_eq!(test.log(), "top left3 top right3 top left3");

    Frame::swap(&mut test.system, left3, right3);
    test.schedule(top);
    test.run_until_done();

    assert_eq!(test.log(), "top left3 top right3 top left3 top right3");
}

#[test]
fn background() {
    let mut test = Test::new();
    let slot: Slot = Rc::new(RefCell::new(None));
    let slow_object = Mock::Slow { log: test.log.clone(), slot: slot.clone() };
    let slow = test.system.frame(Some(ConcreteObject::Other(slow_object)));
    let then_object = test.mock("mock");
    let then = test.system.frame(then_object);
    test.system.link(slow, then, Relation::Then);
    test.schedule(slow);
    test.run_iterations(1);
    assert_eq!(test.log(), "start");
    assert!(test.system.running(slow));

    let mut background = slot.borrow_mut().take().unwrap();
    background.send_update(Vec::new());
    drop(background);
    test.run_until_done();

    assert_eq!(test.log(), "start end mock");
}
