//! Single-flight checkpoints: which snapshot a background writer gets, and when.
use crate::archive::{at_rest, saved_document, ArchiveDocument};
use crate::document::StrokeDocument;
use crate::errors::{DocumentIoError, ErrorModel};
use crate::text::same_text;
use vstd::prelude::*;

verus! {

/// Result metadata for an atomic save or background checkpoint.
#[derive(Clone, Debug, PartialEq, Eq)]
pub struct DocumentSaveReport {
    /// Where the document was written.
    pub path: String,
    /// Revision that was written.
    pub revision: u64,
    /// Size of the file.
    pub bytes_written: u64,
}

/// Mathematical value of a [`DocumentSaveReport`].
#[verifier::ext_equal]
pub struct ReportModel {
    pub path: Seq<char>,
    pub revision: u64,
    pub bytes_written: u64,
}

impl View for DocumentSaveReport {
    type V = ReportModel;

    open spec fn view(&self) -> ReportModel {
        ReportModel {
            path: self.path@,
            revision: self.revision,
            bytes_written: self.bytes_written,
        }
    }
}

/// Result of asking the bounded checkpoint service to start work.
#[derive(Clone, Copy, Debug, PartialEq, Eq, Structural)]
pub enum CheckpointRequest {
    /// A snapshot was handed to the writer.
    Started,
    /// The writer still holds an earlier snapshot.
    Busy,
    /// The revision was written to the path already.
    Unchanged,
}

/// Mathematical value of a [`DocumentCheckpointManager`].
#[verifier::ext_equal]
pub struct CheckpointModel {
    /// Path and revision of the snapshot that the writer holds.
    pub in_flight: Option<(Seq<char>, u64)>,
    /// Path and revision of the latest snapshot that was written.
    pub last_saved: Option<(Seq<char>, u64)>,
}

impl CheckpointModel {
    /// What a request is answered, if it is not refused.
    pub open spec fn answer(self, path: Seq<char>, revision: u64) -> CheckpointRequest {
        if self.in_flight is Some {
            CheckpointRequest::Busy
        } else if self.last_saved == Some((path, revision)) {
            CheckpointRequest::Unchanged
        } else {
            CheckpointRequest::Started
        }
    }

    /// The manager after the writer took a snapshot.
    pub open spec fn started(self, path: Seq<char>, revision: u64) -> Self {
        CheckpointModel { in_flight: Some((path, revision)), ..self }
    }

    /// The manager after the writer finished, successfully if it left a report.
    pub open spec fn finished(self, report: Option<ReportModel>) -> Self {
        CheckpointModel {
            in_flight: None,
            last_saved: match report {
                Some(written) => Some((written.path, written.revision)),
                None => self.last_saved,
            },
        }
    }
}

/// The report of a successful outcome.
pub open spec fn report_of(outcome: Result<DocumentSaveReport, DocumentIoError>) -> Option<
    ReportModel,
> {
    match outcome {
        Ok(report) => Some(report@),
        Err(_) => None,
    }
}

/// Single-flight background serializer. At most one complete document snapshot
/// is retained by a worker, preventing an unbounded autosave queue.
///
/// Paths are compared as text, so callers name one file in one way.
#[derive(Debug)]
pub struct DocumentCheckpointManager {
    in_flight: Option<(String, u64)>,
    last_saved: Option<(String, u64)>,
}

impl View for DocumentCheckpointManager {
    type V = CheckpointModel;

    closed spec fn view(&self) -> CheckpointModel {
        CheckpointModel {
            in_flight: match self.in_flight {
                Some((path, revision)) => Some((path@, revision)),
                None => None,
            },
            last_saved: match self.last_saved {
                Some((path, revision)) => Some((path@, revision)),
                None => None,
            },
        }
    }
}

impl DocumentCheckpointManager {
    /// Creates a manager that knows of no snapshot.
    pub fn new() -> (manager: Self)
        ensures
            manager@ == (CheckpointModel { in_flight: None, last_saved: None }),
    {
        DocumentCheckpointManager { in_flight: None, last_saved: None }
    }

    /// Asks for a checkpoint. Where the answer is that work starts, the snapshot
    /// comes with it, and the caller hands it to the writer.
    pub fn request(&mut self, document: &StrokeDocument, path: &str) -> (result: Result<
        (CheckpointRequest, Option<ArchiveDocument>),
        DocumentIoError,
    >)
        requires
            document.well_formed(),
        ensures
            match old(self)@.answer(path@, document@.revision) {
                CheckpointRequest::Started => if at_rest(document@) {
                    &&& result matches Ok((answer, snapshot))
                    &&& answer is Started
                    &&& snapshot matches Some(archive)
                    &&& archive@ == saved_document(document@)
                    &&& final(self)@ == old(self)@.started(path@, document@.revision)
                } else {
                    &&& result matches Err(error)
                    &&& error@ == ErrorModel::ActiveContacts
                    &&& final(self)@ == old(self)@
                },
                quiet => {
                    &&& result matches Ok((answer, snapshot))
                    &&& answer == quiet
                    &&& snapshot is None
                    &&& final(self)@ == old(self)@
                },
            },
    {
        if self.in_flight.is_some() {
            return Ok((CheckpointRequest::Busy, None));
        }
        let revision: u64 = document.revision();
        let unchanged = match &self.last_saved {
            Some((saved, at)) => same_text(saved.as_str(), path) && *at == revision,
            None => false,
        };
        if unchanged {
            return Ok((CheckpointRequest::Unchanged, None));
        }
        match ArchiveDocument::from_document(document) {
            Err(error) => Err(error),
            Ok(archive) => {
                self.in_flight = Some((path.to_owned(), revision));
                Ok((CheckpointRequest::Started, Some(archive)))
            },
        }
    }

    /// Whether the writer holds a snapshot.
    pub fn is_busy(&self) -> (busy: bool)
        ensures
            busy == self@.in_flight is Some,
    {
        self.in_flight.is_some()
    }

    /// Takes in the writer's outcome, once there is one, and passes it on.
    pub fn poll(
        &mut self,
        outcome: Option<Result<DocumentSaveReport, DocumentIoError>>,
    ) -> (finished: Option<Result<DocumentSaveReport, DocumentIoError>>)
        ensures
            match outcome {
                Some(result) if old(self)@.in_flight is Some => {
                    &&& finished == outcome
                    &&& final(self)@ == old(self)@.finished(report_of(result))
                },
                _ => finished is None && final(self)@ == old(self)@,
            },
    {
        if self.in_flight.is_none() {
            return None;
        }
        match outcome {
            None => None,
            Some(result) => {
                if let Ok(report) = &result {
                    self.last_saved = Some((report.path.clone(), report.revision));
                }
                self.in_flight = None;
                Some(result)
            },
        }
    }
}

impl Default for DocumentCheckpointManager {
    fn default() -> (manager: Self)
        ensures
            manager@ == (CheckpointModel { in_flight: None, last_saved: None }),
    {
        DocumentCheckpointManager::new()
    }
}

/// From the start of a checkpoint until its writer finishes, every request is
/// answered that the service is busy, so at most one snapshot is retained.
pub proof fn law_checkpoints_are_single_flight(
    manager: CheckpointModel,
    path: Seq<char>,
    revision: u64,
    later_path: Seq<char>,
    later_revision: u64,
)
    ensures
        manager.started(path, revision).answer(later_path, later_revision) is Busy,
        !(manager.started(path, revision).finished(None).answer(later_path, later_revision)
            is Busy),
{
}

/// A revision that was written to a path is not written there again until the
/// document changes or another checkpoint is written.
pub proof fn law_written_revisions_are_skipped(
    manager: CheckpointModel,
    report: ReportModel,
    revision: u64,
)
    ensures
        manager.finished(Some(report)).answer(report.path, report.revision) is Unchanged,
        revision != report.revision ==> manager.finished(Some(report)).answer(
            report.path,
            revision,
        ) is Started,
{
}

/// A failed write is forgotten: what was saved before is still what counts as saved.
pub proof fn law_failed_writes_are_retried(manager: CheckpointModel, path: Seq<char>, revision: u64)
    requires
        manager.answer(path, revision) is Started,
    ensures
        manager.started(path, revision).finished(None) == manager,
        manager.started(path, revision).finished(None).answer(path, revision) is Started,
{
}

} // verus!
