//! Stand-ins for what the host of a match offers: chance, a log, and tasks
//! that run later.

use rand::Rng;
use vstd::prelude::*;

verus! {

/// A number drawn by chance. This calls `Rng::gen` of the crate rand on the
/// thread's generator; nothing is claimed of the number.
#[verifier::external_body]
pub fn rand() -> u32 {
    let mut rng = rand::thread_rng();
    rng.gen()
}

/// Takes a message for the log and drops it.
pub fn debug(message: String) {
}

/// Cancels the task `_task_id` of the room: no task ever runs here, so
/// nothing is done.
pub fn cancel(_room_id: String, _task_id: String) {
}

/// Reserves a task that runs the action for the player after the timeout, and
/// names it: no task ever runs here, and each goes by the name "dummy".
pub fn reserve(_player_id: String, _room_id: String, _action: String, _timeout: u32) -> (id:
    String)
    ensures
        id@ == "dummy"@,
{
    String::from_str("dummy")
}

/// What the host keeps of a match.
pub struct State {
    pub data: String,
}

/// The host's answer when asked for what it keeps.
pub enum ResultState {
    /// What it keeps.
    Found(State),
    /// Why it has nothing to give.
    Failed(String),
}

} // verus!
