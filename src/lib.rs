use vstd::prelude::*;

pub mod outline;
pub mod task;
pub mod todo_list;

verus! {

} // verus!
