//! The data model of a scripted scenario: a named sequence of operations a
//! host can replay against the engines.  Loading scenarios from files and
//! executing them is the host's concern.

use vstd::prelude::*;

use crate::common::PageId;

verus! {

/// A scripted scenario: metadata plus the steps to run, in order.
pub struct Scenario {
    pub meta: ScenarioMeta,
    pub steps: Vec<ScenarioStep>,
}

/// What a scenario calls itself.
pub struct ScenarioMeta {
    pub name: String,
    pub description: Option<String>,
}

/// One step of a scenario; `node` picks the compute session to run it on.
pub enum ScenarioStep {
    Put { page_id: PageId, offset: u16, data: String, node: Option<String> },
    Get { page_id: PageId, node: Option<String> },
    Refresh { node: Option<String> },
    SleepMs { value: u64 },
    Repeat { count: u64, steps: Vec<ScenarioStep> },
}

} // verus!
