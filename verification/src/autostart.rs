//! Reconciling the stored autostart flag with the live login-time
//! registration. Reading and writing the registration itself is an OS
//! capability injected from outside; its failures are reported, never
//! fatal to monitoring.
use vstd::prelude::*;

verus! {

/// What reconciliation has to do: when the stored flag and the live
/// registration disagree, the registration is brought to the stored
/// value; otherwise nothing.
pub fn plan_autostart_sync(config_enabled: bool, registered: bool) -> (r: Option<bool>)
    ensures
        r == (if config_enabled != registered {
            Some(config_enabled)
        } else {
            None::<bool>
        }),
{
    if config_enabled != registered {
        Some(config_enabled)
    } else {
        None
    }
}

} // verus!
