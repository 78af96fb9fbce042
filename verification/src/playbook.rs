//! The playbook interface: the connector itself consumes only a resolved
//! command string, but tasks are carried in this shape from the playbook
//! document to the caller.

use vstd::prelude::*;

verus! {

/// One named task of a playbook: an optional explicit host list, an optional
/// metadata filter (key-value pairs all of which a host's extra keys must
/// match), an optional privilege-escalation user, and the commands to run.
#[derive(Debug)]
pub struct Task {
    pub hosts: Vec<String>,
    pub filter: Vec<(String, String)>,
    pub doas: Option<String>,
    pub commands: Vec<String>,
}

} // verus!
