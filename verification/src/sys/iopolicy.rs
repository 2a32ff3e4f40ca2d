//! Process policies that make a scan safe.
//!
//! Both have to be set before any worker thread starts: the one on triggers
//! holds for a process only and is refused to a thread.

use vstd::prelude::*;

verus! {

#[derive(Debug, Clone, Copy, PartialEq, Eq, Structural)]
pub struct Policies {
    /// The kernel does not download what iCloud has evicted.
    pub dataless_suppressed: bool,
    /// Automount triggers do not fire.
    pub triggers_suppressed: bool,
}

impl Default for Policies {
    fn default() -> (r: Self)
        ensures
            r == (Policies { dataless_suppressed: false, triggers_suppressed: false }),
    {
        Policies { dataless_suppressed: false, triggers_suppressed: false }
    }
}

/// Which of the two policies hold, given what the two calls of `setiopolicy_np`
/// returned: zero is success.
pub fn harden_process(dataless: i32, triggers: i32) -> (r: Policies)
    ensures
        r.dataless_suppressed == (dataless == 0),
        r.triggers_suppressed == (triggers == 0),
{
    Policies { dataless_suppressed: dataless == 0, triggers_suppressed: triggers == 0 }
}

} // verus!
