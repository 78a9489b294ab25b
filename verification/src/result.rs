//! The engine's error type.

use vstd::prelude::*;

verus! {

/// What can go wrong while a graph is wired or run.
#[derive(Debug, PartialEq, Eq)]
pub enum Error {
    /// The agent declares no port of this name, or its array input has no
    /// element of this key.
    PortNotFound(String),
    /// The producer's output schema (first) differs from the consumer's input
    /// schema (second).
    SchemaMismatch(String, String),
    /// The module's port declaration cannot be used to build an agent.
    ModuleLoadFailure(String),
    /// No agent is registered under this name.
    AgentNotFound(String),
    /// The scalar output of this name, or the element of this key of an
    /// array output, has no channel installed.
    OutputNotConnected(String),
    /// The handle does not lead to a channel.
    ChannelClosed,
    /// The channel holds no message.
    ChannelEmpty,
    /// A failure of an agent's own logic.
    Domain(String),
}

/// The mathematical form of an [`Error`]: each variant of [`Error`] with its
/// names as character sequences.
pub enum ErrorView {
    PortNotFound(Seq<char>),
    SchemaMismatch(Seq<char>, Seq<char>),
    ModuleLoadFailure(Seq<char>),
    AgentNotFound(Seq<char>),
    OutputNotConnected(Seq<char>),
    ChannelClosed,
    ChannelEmpty,
    Domain(Seq<char>),
}

impl View for Error {
    type V = ErrorView;

    open spec fn view(&self) -> ErrorView {
        match self {
            Error::PortNotFound(p) => ErrorView::PortNotFound(p@),
            Error::SchemaMismatch(a, b) => ErrorView::SchemaMismatch(a@, b@),
            Error::ModuleLoadFailure(m) => ErrorView::ModuleLoadFailure(m@),
            Error::AgentNotFound(a) => ErrorView::AgentNotFound(a@),
            Error::OutputNotConnected(p) => ErrorView::OutputNotConnected(p@),
            Error::ChannelClosed => ErrorView::ChannelClosed,
            Error::ChannelEmpty => ErrorView::ChannelEmpty,
            Error::Domain(d) => ErrorView::Domain(d@),
        }
    }
}

} // verus!
