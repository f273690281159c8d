//! The callback that a job's triggers fire.

use vstd::prelude::*;

verus! {

/// What a job runs when one of its triggers is due. The host implements it;
/// nothing is assumed of what `run` does.
pub trait Worker {
    /// Called once for every shot, with the name of the trigger that fired.
    fn run(&self, trigger_name: &str);
}

} // verus!
