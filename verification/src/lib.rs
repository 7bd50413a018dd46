//! A verified core of a BPMN (Business Process Model and Notation) execution
//! engine: a token-flow interpreter that advances hierarchical process
//! instances through a graph of bit-encoded BPMN elements.
//!
//! The crate has two halves. The flow model (`Iflow`, built by `set_element`
//! and `link_sub_process`) is the immutable-after-link description of one
//! sub-process: per-element pre/post token conditions, a packed `type_info`
//! word, adjacency, events and nested sub-process references. The execution
//! engine (`Module`) walks instances of those flows: it fires enabled
//! elements against a two-word marking, throws and catches events across the
//! instance tree, broadcasts signals and kills sub-trees.
//!
//! Host-side effects (materialising a data contract, evaluating a script) go
//! through the `Host` trait, which callers implement; the engine itself is
//! pure state transformation over its two registries and is verified.

use vstd::prelude::*;

pub mod table;
pub mod instance;
pub mod codec;
pub mod flow;
pub mod engine;

verus! {

/// Errors surfaced by the interpreter core.
#[derive(Clone, Copy, Debug, PartialEq, Eq, Structural)]
pub enum Errors {
    /// The requested flow or instance key is absent from its registry.
    InstanceNotFound,
    /// `link_sub_process` was aimed at an element that is not a sub-process.
    SubprocessToLinkNotFound,
    /// `set_element` attempted to overwrite a typed element with a
    /// different `type_info`.
    TypeMismatch,
    /// The host failed to materialise a data-contract instance.
    InstantiationFailure,
    /// The host's script result did not decode to a `u128`.
    ScriptDecodingError,
    /// `create_instance` was invoked with the root sentinel as parent.
    ParentIsRoot,
    /// Event propagation or the kill cascade exceeded the caller-supplied
    /// depth bound.
    RecursionLimit,
}

/// Notifications the engine emits while executing; the host drains them.
#[derive(Clone, Debug, PartialEq, Eq)]
pub enum InterpreterEvent {
    /// A factory was attached to a flow: `(flow_id, data_hash)`.
    FactorySet(u128, [u8; 32]),
    /// A process instance was materialised: carries the data-contract
    /// account returned by the factory.
    NewCaseCreated(u128),
    /// A message throw event published its 32-byte event code.
    MessageSent([u8; 32]),
}

/// The two host capabilities the core consumes and cannot provide itself:
/// materialising a fresh data-contract instance and evaluating a user
/// script. Nothing is assumed of either result; the engine states what holds
/// of its own state whatever comes back.
pub trait Host {
    /// Instantiate the data contract identified by `data_hash`, handing it
    /// `input_data` (instantiate selector followed by the encoded flow id).
    /// Returns the fresh contract account, or `None` on failure.
    fn instantiate(&mut self, data_hash: [u8; 32], input_data: Vec<u8>) -> Option<u128>;

    /// Ask the data contract at `address` to evaluate the script attached to
    /// `element_index`; returns the raw reply bytes.
    fn execute_script(&mut self, address: u128, selector: Vec<u8>, element_index: u128) -> Vec<u8>;
}

} // verus!
