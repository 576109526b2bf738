use vstd::prelude::*;

verus! {

/// Progress of a long-running computation: a named task with its completed
/// and total step counts, and the sub-tasks it is made of.
pub struct Task {
    pub name: String,
    pub completed_steps: usize,
    pub steps_to_completion: usize,
    pub sub_tasks: Vec<Task>,
}

} // verus!
