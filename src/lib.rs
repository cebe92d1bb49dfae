//! A hierarchical dataflow engine: frames held in nested systems, wired by
//! relations, driven by a task loop with background completion.

pub mod channel;
pub mod laws;
pub mod model;
mod model_lemmas;
pub mod object;
pub mod system;
pub mod task_loop;

pub use object::{ConcreteObject, FrameData, Object, Relation};
pub use channel::TaskEvent;
pub use task_loop::{BackgroundTask, RunContext, TaskLoop, TaskLoopView};
pub use model::{Content, EndView, FrameView, LinkView, SysView, SystemView};
pub use system::{Frame, System, SystemId};
