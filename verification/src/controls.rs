//! Shared control-panel state: what the cracker is doing, and the message
//! wrapper that routes tab edits.

use vstd::prelude::*;

use crate::bedrock_tab::BdrkMessage;

verus! {

/// What the cracker is doing: idle, starting (optionally writing results to
/// the named file), or running.
#[derive(Debug, Default, Eq, PartialEq)]
pub enum CrackerState {
    #[default]
    Idle,
    Starting(Option<String>),
    Running,
}

/// A message addressed to a tab.
#[derive(Debug, Clone)]
pub enum TabMessage {
    BdrkMessage(BdrkMessage),
}

impl From<TabMessage> for BdrkMessage {
    fn from(tab_msg: TabMessage) -> (r: BdrkMessage) {
        match tab_msg {
            TabMessage::BdrkMessage(msg) => msg,
        }
    }
}

impl vstd::std_specs::convert::FromSpecImpl<TabMessage> for BdrkMessage {
    open spec fn obeys_from_spec() -> bool {
        true
    }

    open spec fn from_spec(tab_msg: TabMessage) -> BdrkMessage {
        match tab_msg {
            TabMessage::BdrkMessage(msg) => msg,
        }
    }
}

} // verus!
