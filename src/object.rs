use vstd::prelude::*;

verus! {

/// The kind of a relation between two frames. Only `Then` takes part in
/// scheduling; `Arg` is carried along unchanged.
#[derive(Clone, Copy, Debug, PartialEq, Eq, Structural)]
pub enum Relation {
    Then,
    Arg,
}

/// What a frame is given to hold: an object of the embedding program, or a
/// detached system of the same arena.
pub enum ConcreteObject<O> {
    Other(O),
    System(crate::system::SystemId),
}

/// Anything a frame can hold and run.
///
/// `run` is handed a context; a runnable that wants to finish later turns the
/// context into a background handle, whose updates arrive through `update`
/// and whose drop completes the frame.
pub trait Object {
    /// A short label, used as the base of the frame's name.
    fn name(&self) -> &'static str;

    fn can_run(&self) -> bool {
        false
    }

    fn run(&mut self, ctx: &mut crate::task_loop::RunContext);

    fn update(&mut self, update: Vec<u8>);

    fn serialize(&self) -> Vec<u8> {
        Vec::new()
    }

    fn deserialize(&mut self, bytes: Vec<u8>) {
    }
}

/// Data that a frame can be created with from nothing.
pub trait FrameData: Sized {
    fn new() -> Self;
}

} // verus!
