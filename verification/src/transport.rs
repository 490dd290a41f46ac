//! Lifecycle of one running language server: classification of spawn
//! failures, and the shutdown choreography between the writer, the process
//! pipes and the process itself.
//!
//! The ordering is part of the contract: the writer must have finished before
//! the pipes are closed, the pipes must be closed before the process is
//! awaited, and the process is forcibly terminated only after two polite
//! waits both found it still running.

use vstd::prelude::*;
use vstd::string::*;

verus! {

/// Why spawning the server process failed, as the operating system reported it.
#[derive(Clone, Copy, PartialEq, Eq, Structural, Debug)]
pub enum SpawnErrorKind {
    NotFound,
    PermissionDenied,
    Other,
}

/// The user-facing message for a spawn failure: for a missing or unreadable
/// executable the offending command is appended, other errors pass unchanged.
pub fn spawn_error_message(kind: SpawnErrorKind, error: &str, cmd: &str) -> (r: String)
    ensures
        kind == SpawnErrorKind::NotFound || kind == SpawnErrorKind::PermissionDenied ==> r@
            == error@ + ": "@ + cmd@,
        kind == SpawnErrorKind::Other ==> r@ == error@,
{
    match kind {
        SpawnErrorKind::NotFound | SpawnErrorKind::PermissionDenied => {
            let mut s = String::from_str(error);
            s.append(": ");
            s.append(cmd);
            s
        },
        SpawnErrorKind::Other => String::from_str(error),
    }
}

/// Where a transport stands in its shutdown choreography.
#[derive(Clone, Copy, PartialEq, Eq, Structural, Debug)]
pub enum ShutdownPhase {
    /// Workers running, process alive.
    Running,
    /// The writer flushed its last message and exited.
    WriterFinished,
    /// All three pipe handles are closed; the process may now be awaited.
    PipesClosed,
    /// One poll found the process still running; one more wait is owed.
    WaitedOnce,
    /// The process exited on its own.
    Exited,
    /// The process outlived both waits and was forcibly terminated.
    Killed,
}

/// What the caller must do next after reporting a poll of the process.
#[derive(Clone, Copy, PartialEq, Eq, Structural, Debug)]
pub enum ShutdownAction {
    /// Wait once more, then poll again.
    WaitAgain,
    /// Forcibly terminate the process.
    Kill,
    /// Nothing left to do.
    Done,
}

/// One running language server: its identity and how far its shutdown has
/// progressed. The process, its pipes and the worker threads live outside;
/// this value is the authority on the order of their teardown.
pub struct LanguageServerTransport {
    pub server_id: u64,
    pub phase: ShutdownPhase,
}

impl LanguageServerTransport {
    /// True once the process is known to be gone, politely or not.
    pub open spec fn finished(self) -> bool {
        self.phase == ShutdownPhase::Exited || self.phase == ShutdownPhase::Killed
    }

    pub fn new(server_id: u64) -> (r: LanguageServerTransport)
        ensures
            r.server_id == server_id,
            r.phase == ShutdownPhase::Running,
    {
        LanguageServerTransport { server_id, phase: ShutdownPhase::Running }
    }

    /// The writer worker has flushed and exited. Nothing else may advance the
    /// shutdown before this: pipes stay open while the writer can still write.
    pub fn writer_finished(&mut self)
        requires
            old(self).phase == ShutdownPhase::Running,
        ensures
            final(self).server_id == old(self).server_id,
            final(self).phase == ShutdownPhase::WriterFinished,
    {
        self.phase = ShutdownPhase::WriterFinished;
    }

    /// All three pipe handles were closed; only legal once the writer is done,
    /// so a reader blocked on a pipe cannot race the polite exit.
    pub fn pipes_closed(&mut self)
        requires
            old(self).phase == ShutdownPhase::WriterFinished,
        ensures
            final(self).server_id == old(self).server_id,
            final(self).phase == ShutdownPhase::PipesClosed,
    {
        self.phase = ShutdownPhase::PipesClosed;
    }

    /// Report the outcome of one poll of the process, after one wait. The
    /// escalation is fixed: a first unsuccessful poll earns exactly one more
    /// wait, a second unsuccessful poll earns the kill; an exited process ends
    /// the shutdown at once.
    pub fn process_polled(&mut self, exited: bool) -> (action: ShutdownAction)
        requires
            old(self).phase == ShutdownPhase::PipesClosed || old(self).phase
                == ShutdownPhase::WaitedOnce,
        ensures
            final(self).server_id == old(self).server_id,
            exited ==> final(self).phase == ShutdownPhase::Exited && action == ShutdownAction::Done,
            !exited && old(self).phase == ShutdownPhase::PipesClosed ==> final(self).phase
                == ShutdownPhase::WaitedOnce && action == ShutdownAction::WaitAgain,
            !exited && old(self).phase == ShutdownPhase::WaitedOnce ==> final(self).phase
                == ShutdownPhase::Killed && action == ShutdownAction::Kill,
            final(self).finished() <==> (exited || old(self).phase == ShutdownPhase::WaitedOnce),
    {
        if exited {
            self.phase = ShutdownPhase::Exited;
            ShutdownAction::Done
        } else if self.phase == ShutdownPhase::PipesClosed {
            self.phase = ShutdownPhase::WaitedOnce;
            ShutdownAction::WaitAgain
        } else {
            self.phase = ShutdownPhase::Killed;
            ShutdownAction::Kill
        }
    }
}

} // verus!
