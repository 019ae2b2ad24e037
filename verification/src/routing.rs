//! Where a message goes.

use vstd::prelude::*;
use vstd::string::StringExecFns;

verus! {

/// What a routing policy decides about a message.
#[derive(Clone, Copy, Debug, PartialEq, Eq, Structural)]
pub enum RoutingDecision {
    /// Hand the message to the language model.
    SendToLlm,
    /// Handle the message where it is.
    ProcessLocally,
    /// Discard the message.
    Drop,
}

/// The name under which a decision is reported.
pub open spec fn decision_name_spec(d: RoutingDecision) -> Seq<char> {
    match d {
        RoutingDecision::SendToLlm => "SendToLLM"@,
        RoutingDecision::ProcessLocally => "ProcessLocally"@,
        RoutingDecision::Drop => "Drop"@,
    }
}

/// The name under which a decision is reported.
pub fn decision_name(d: RoutingDecision) -> (name: String)
    ensures
        name@ == decision_name_spec(d),
{
    match d {
        RoutingDecision::SendToLlm => String::from_str("SendToLLM"),
        RoutingDecision::ProcessLocally => String::from_str("ProcessLocally"),
        RoutingDecision::Drop => String::from_str("Drop"),
    }
}

} // verus!
