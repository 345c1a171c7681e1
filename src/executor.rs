use vstd::prelude::*;
use std::sync::Arc;

verus! {

/// What the scheduler reads of a task: its identity, stable across calls and
/// unique among the tasks of one scheduler. Running the task is up to the
/// caller that owns the concurrent runtime.
pub trait Executor {
    fn name(&self) -> &'static str;
}

/// Shares a task behind a reference-counted handle.
pub fn exector_wapper<T: Executor>(executor: T) -> (r: Arc<T>)
    ensures
        *r == executor,
{
    Arc::new(executor)
}

} // verus!
