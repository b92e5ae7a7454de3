//! Progress events and the cooperative pause/cancel primitive.
//!
//! The pipeline reports its work through `EventSink::send` and honours
//! external intervention through `EventSink::check`; the closed set of
//! events covers every phase from download to the final prune.

use vstd::prelude::*;

verus! {

use crate::pipeline::PipelineError;

/// Everything the pipeline reports to a consumer, one variant per event
/// kind, carrying only that event's fields.
pub enum UiEvent {
    Log(Vec<u8>),
    DatasetStarted { index: usize, total: usize, name: Vec<u8> },
    DatasetSkipped { name: Vec<u8> },
    DatasetComplete,
    DownloadStarted { total_bytes: u64 },
    DownloadProgress { bytes_read: u64 },
    DownloadComplete { size_bytes: u64 },
    /// Progress reading the compressed archive (either pass).
    FileProgress { bytes_read: u64, total_bytes: u64 },
    Pass1Started,
    Pass1Progress { games_scanned: u64, valid_games: u64, unique_players: u64 },
    Pass1Complete {
        total_scanned: u64,
        valid_games: u64,
        qualifying_players: u64,
        qualifying_games: u64,
    },
    Pass2Started,
    Pass2Progress { games_extracted: u64 },
    Pass2Complete { total_extracted: u64 },
    PruneStarted { to_remove: u64 },
    PruneComplete { remaining: u64, removed: u64 },
    Finished,
    Error(Vec<u8>),
}

/// Abstraction for sending pipeline events and for honouring pause and
/// cancellation.  `send` must never block or fail the caller.  `check`
/// returns the cancellation error once cancellation was requested; while
/// paused it may block the calling thread until resumed or cancelled.
pub trait EventSink {
    fn send(&self, event: UiEvent);

    fn check(&self) -> Result<(), PipelineError>;
}

/// The pause/cancel flag pair.  Blocking while paused is a concern of the
/// thread that owns the run; these flags alone decide what `check`
/// reports: cancellation wins, and cancelling also releases a pause so a
/// paused run can still be stopped.
pub struct PipelineControl {
    paused: bool,
    cancelled: bool,
}

impl PipelineControl {
    pub closed spec fn paused_flag(&self) -> bool {
        self.paused
    }

    pub closed spec fn cancelled_flag(&self) -> bool {
        self.cancelled
    }

    pub fn new() -> (c: Self)
        ensures
            !c.paused_flag(),
            !c.cancelled_flag(),
    {
        PipelineControl { paused: false, cancelled: false }
    }

    pub fn pause(&mut self)
        ensures
            final(self).paused_flag(),
            final(self).cancelled_flag() == old(self).cancelled_flag(),
    {
        self.paused = true;
    }

    pub fn resume(&mut self)
        ensures
            !final(self).paused_flag(),
            final(self).cancelled_flag() == old(self).cancelled_flag(),
    {
        self.paused = false;
    }

    /// Request cancellation; also releases a pause.
    pub fn cancel(&mut self)
        ensures
            final(self).cancelled_flag(),
            !final(self).paused_flag(),
    {
        self.cancelled = true;
        self.paused = false;
    }

    pub fn is_paused(&self) -> (r: bool)
        ensures
            r == self.paused_flag(),
    {
        self.paused
    }

    pub fn is_cancelled(&self) -> (r: bool)
        ensures
            r == self.cancelled_flag(),
    {
        self.cancelled
    }

    /// The designed shutdown path: an error exactly when cancellation has
    /// been requested, and that error is the distinguished cancellation
    /// value, never an operational failure.
    pub fn check(&self) -> (r: Result<(), PipelineError>)
        ensures
            r is Err <==> self.cancelled_flag(),
            r is Err ==> r->Err_0 is Cancelled,
    {
        if self.cancelled {
            Err(PipelineError::Cancelled)
        } else {
            Ok(())
        }
    }
}

} // verus!
