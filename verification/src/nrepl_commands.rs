use crate::nrepl::session::NodeState;
use std::sync::mpsc::{Receiver, Sender};
use vstd::prelude::*;

verus! {

#[verifier::external_type_specification]
#[verifier::external_body]
#[verifier::reject_recursive_types(T)]
pub struct ExSender<T>(Sender<T>);

#[verifier::external_type_specification]
#[verifier::external_body]
#[verifier::reject_recursive_types(T)]
pub struct ExReceiver<T>(Receiver<T>);

/// A change to the graphs that the nREPL evaluator asks the main loop for,
/// with the channel that takes the answer.
pub enum NreplCommand {
    CreateCanvas { name: String, reply: Sender<Result<(), String>> },
    ListCanvases { reply: Sender<Vec<String>> },
    CreateNode {
        canvas: String,
        label: String,
        code: String,
        exports: Vec<String>,
        imports: Vec<(String, String)>,
        reply: Sender<Result<String, String>>,
    },
    DeleteNode { canvas: String, label: String, reply: Sender<Result<(), String>> },
    UpdateNode {
        canvas: String,
        label: String,
        code: Option<String>,
        exports: Option<Vec<String>>,
        imports: Option<Vec<(String, String)>>,
        reply: Sender<Result<(), String>>,
    },
    NodeState { canvas: String, label: String, reply: Sender<Option<NodeState>> },
    ComputeNode { canvas: String, label: String, reply: Sender<Result<(), String>> },
}

/// `std::sync::mpsc::channel`: the two ends of a new channel of commands.
/// Nothing is claimed of them.
#[verifier::external_body]
pub fn channel() -> (Sender<NreplCommand>, Receiver<NreplCommand>) {
    std::sync::mpsc::channel()
}

} // verus!
