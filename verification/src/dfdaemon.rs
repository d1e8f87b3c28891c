//! Decision logic of the dfdaemon RPC endpoints.
//!
//! The transport (socket binds, compression, reflection), the storage
//! and task facades and the id generator are external collaborators.
//! What is here is every decision the endpoints make between those
//! calls: request validation, the mapping of collaborator failures onto
//! the status taxonomy, the assembly of responses, and the disposition
//! of a finished download worker. Unverified glue performs the calls
//! and hands the answers in as plain values.

use vstd::prelude::*;

use crate::sync_pieces::SyncPiecesStream;
use crate::sync_pieces::dedup_keep_first;

verus! {

/// The status taxonomy of the RPC surface.
#[derive(Debug)]
pub enum DfdaemonStatus {
    /// A malformed request: missing download, bad headers, a timeout
    /// that cannot be represented, bad id-generation inputs.
    InvalidArgument(String),
    /// Piece metadata absent for the requested task and number.
    NotFound(String),
    /// A storage, id-generation, probe or task-manager failure.
    Internal(String),
    /// A reserved endpoint.
    Unimplemented,
    /// The client went away or shutdown fired; propagated silently.
    Cancelled,
}

/// Piece metadata as local storage records it.
pub struct PieceMetadata {
    /// The piece number within its task.
    pub number: u32,
    /// The peer this piece was learned from, if any.
    pub parent_id: Option<String>,
    /// Byte offset of the piece within the blob.
    pub offset: u64,
    /// Byte count of the piece.
    pub length: u64,
    /// Content hash of the piece.
    pub digest: String,
}

/// The piece message returned to a downloading peer; `content` is
/// present only here.
pub struct Piece {
    /// The piece number within its task.
    pub number: u32,
    /// The peer this piece was learned from, if any.
    pub parent_id: Option<String>,
    /// Byte offset of the piece within the blob.
    pub offset: u64,
    /// Byte count of the piece.
    pub length: u64,
    /// Content hash of the piece.
    pub digest: String,
    /// The piece's bytes.
    pub content: Option<Vec<u8>>,
}

/// Response of the unary piece-download endpoint.
pub struct DownloadPieceResponse {
    /// The piece with its bytes, when the download succeeded.
    pub piece: Option<Piece>,
}

/// Request of the piece-synchronization stream.
pub struct SyncPiecesRequest {
    /// The watched task.
    pub task_id: String,
    /// The piece numbers the remote peer is interested in.
    pub interested_piece_numbers: Vec<u32>,
}

/// A byte range of a blob.
#[derive(Clone, Copy, PartialEq, Eq, Structural, Debug)]
pub struct Range {
    /// First byte wanted.
    pub start: u64,
    /// Number of bytes wanted.
    pub length: u64,
}

/// A protobuf-style duration: whole seconds and a nanosecond part.
#[derive(Clone, Copy, PartialEq, Eq, Structural, Debug)]
pub struct ProtoDuration {
    /// Whole seconds; negative values denote a negative duration.
    pub seconds: i64,
    /// Nanosecond part.
    pub nanos: i32,
}

/// `true` when `d` denotes a non-negative duration that a machine
/// duration can represent.
pub open spec fn valid_duration(d: ProtoDuration) -> bool {
    d.seconds >= 0 && 0 <= d.nanos < 1_000_000_000
}

/// What to download: the blob and how to slice and filter it.
pub struct Download {
    /// Where the blob lives.
    pub url: String,
    /// Expected digest of the blob, if pinned.
    pub digest: Option<String>,
    /// Tag entering the task id.
    pub tag: Option<String>,
    /// Application name entering the task id.
    pub application: Option<String>,
    /// Byte length of each piece of the task.
    pub piece_length: u64,
    /// URL query filters entering the task id.
    pub filters: Vec<String>,
    /// Request headers for the origin probe.
    pub header: Vec<(String, String)>,
    /// The wanted byte range; absent means the whole blob.
    pub range: Option<Range>,
    /// Bound on the whole call, if any.
    pub timeout: Option<ProtoDuration>,
}

/// Request of the task-download stream.
pub struct DownloadTaskRequest {
    /// What to download; a request without it is invalid.
    pub download: Option<Download>,
}

/// Request delegated verbatim to the scheduler for a task's status.
pub struct SchedulerStatTaskRequest {
    /// The task asked about.
    pub id: String,
}

/// The collaborator call a task-download failure came from.
#[derive(Clone, Copy, PartialEq, Eq, Structural, Debug)]
pub enum DownloadTaskStage {
    /// Deriving the deterministic task id from the download inputs.
    GenerateTaskId,
    /// Recording that the task started.
    TaskStarted,
    /// Converting the request headers.
    ConvertHeader,
    /// Resolving the blob's content length.
    GetContentLength,
}

/// How a finished download worker leaves the task.
#[derive(Clone, Copy, PartialEq, Eq, Structural, Debug)]
pub enum TaskDisposition {
    /// The whole blob arrived: mark the task finished.
    Finished,
    /// A byte range arrived: leave the task partial; later range
    /// requests may complete it.
    Partial,
    /// The worker failed: mark the task failed and close the stream.
    Failed,
}

/// The dfdaemon service handler: every decision of the endpoints, with
/// the collaborator calls left to the caller.
pub struct DfdaemonServerHandler {}

impl DfdaemonServerHandler {
    /// Opens the piece-synchronization stream state for a request: the
    /// interest set is the requested numbers, deduplicated keeping
    /// first occurrences.
    pub fn sync_pieces(&self, request: SyncPiecesRequest) -> (r: SyncPiecesStream)
        ensures
            r.wf(),
            r.interested_view() == dedup_keep_first(request.interested_piece_numbers@),
            r.emitted_view() == Seq::<u32>::empty(),
    {
        SyncPiecesStream::new(request.interested_piece_numbers)
    }

    /// Maps the storage metadata lookup of the piece-download endpoint:
    /// a lookup failure is internal, absent metadata is not found.
    pub fn piece_metadata_step(&self, lookup: Result<Option<PieceMetadata>, String>) -> (r: Result<
        PieceMetadata,
        DfdaemonStatus,
    >)
        ensures
            (match lookup {
                Ok(Some(meta)) => r == Ok::<PieceMetadata, DfdaemonStatus>(meta),
                Ok(None) => (r matches Err(DfdaemonStatus::NotFound(m)) && m@
                    == "piece metadata not found"@),
                Err(e) => (r matches Err(DfdaemonStatus::Internal(m)) && m@ == e@),
            }),
    {
        match lookup {
            Ok(Some(meta)) => Ok(meta),
            Ok(None) => Err(DfdaemonStatus::NotFound("piece metadata not found".to_string())),
            Err(e) => Err(DfdaemonStatus::Internal(e)),
        }
    }

    /// Assembles the piece-download response once metadata was found
    /// and the bytes were read: a read failure is internal; otherwise
    /// the piece is returned with its bytes attached.
    pub fn download_piece(&self, metadata: PieceMetadata, content: Result<Vec<u8>, String>) -> (r:
        Result<DownloadPieceResponse, DfdaemonStatus>)
        ensures
            (match content {
                Err(e) => (r matches Err(DfdaemonStatus::Internal(m)) && m@ == e@),
                Ok(bytes) => (r matches Ok(resp) && resp.piece matches Some(p) && p.number
                    == metadata.number && p.parent_id == metadata.parent_id && p.offset
                    == metadata.offset && p.length == metadata.length && p.digest
                    == metadata.digest && p.content == Some(bytes)),
            }),
    {
        match content {
            Err(e) => Err(DfdaemonStatus::Internal(e)),
            Ok(bytes) => Ok(
                DownloadPieceResponse {
                    piece: Some(
                        Piece {
                            number: metadata.number,
                            parent_id: metadata.parent_id,
                            offset: metadata.offset,
                            length: metadata.length,
                            digest: metadata.digest,
                            content: Some(bytes),
                        },
                    ),
                },
            ),
        }
    }

    /// Validates the task-download request: a request without a
    /// download is invalid; otherwise the download drives the task.
    pub fn download_task(&self, request: DownloadTaskRequest) -> (r: Result<
        Download,
        DfdaemonStatus,
    >)
        ensures
            (match request.download {
                Some(d) => r == Ok::<Download, DfdaemonStatus>(d),
                None => (r matches Err(DfdaemonStatus::InvalidArgument(m)) && m@
                    == "missing download"@),
            }),
    {
        match request.download {
            Some(d) => Ok(d),
            None => Err(DfdaemonStatus::InvalidArgument("missing download".to_string())),
        }
    }

    /// Maps a collaborator failure during task-download setup onto the
    /// status taxonomy: bad id inputs and bad headers are invalid
    /// arguments; task bookkeeping and the content-length probe are
    /// internal.
    pub fn download_task_error(&self, stage: DownloadTaskStage, message: String) -> (r:
        DfdaemonStatus)
        ensures
            (stage == DownloadTaskStage::GenerateTaskId || stage
                == DownloadTaskStage::ConvertHeader) ==> (r matches DfdaemonStatus::InvalidArgument(
                m,
            ) && m@ == message@),
            (stage == DownloadTaskStage::TaskStarted || stage
                == DownloadTaskStage::GetContentLength) ==> (r matches DfdaemonStatus::Internal(m)
                && m@ == message@),
    {
        match stage {
            DownloadTaskStage::GenerateTaskId => DfdaemonStatus::InvalidArgument(message),
            DownloadTaskStage::ConvertHeader => DfdaemonStatus::InvalidArgument(message),
            DownloadTaskStage::TaskStarted => DfdaemonStatus::Internal(message),
            DownloadTaskStage::GetContentLength => DfdaemonStatus::Internal(message),
        }
    }

    /// `true` when a failure at this stage additionally marks the task
    /// failed, so that later status calls see a consistent state.
    pub fn failure_marks_task_failed(&self, stage: DownloadTaskStage) -> (r: bool)
        ensures
            r == (stage == DownloadTaskStage::GetContentLength),
    {
        match stage {
            DownloadTaskStage::GetContentLength => true,
            _ => false,
        }
    }

    /// How a finished download worker leaves the task: a whole-blob
    /// success finishes it, a range success leaves it partial, a
    /// failure fails it.
    pub fn download_task_disposition(&self, worker_ok: bool, has_range: bool) -> (r:
        TaskDisposition)
        ensures
            worker_ok && !has_range ==> r == TaskDisposition::Finished,
            worker_ok && has_range ==> r == TaskDisposition::Partial,
            !worker_ok ==> r == TaskDisposition::Failed,
    {
        if worker_ok {
            if has_range {
                TaskDisposition::Partial
            } else {
                TaskDisposition::Finished
            }
        } else {
            TaskDisposition::Failed
        }
    }

    /// Builds the scheduler request that the task-status endpoint
    /// delegates to verbatim.
    pub fn stat_task(&self, task_id: String) -> (r: SchedulerStatTaskRequest)
        ensures
            r.id == task_id,
    {
        SchedulerStatTaskRequest { id: task_id }
    }

    /// The task-upload endpoint is reserved.
    pub fn upload_task(&self) -> (r: DfdaemonStatus)
        ensures
            r == DfdaemonStatus::Unimplemented,
    {
        DfdaemonStatus::Unimplemented
    }

    /// The task-delete endpoint is reserved.
    pub fn delete_task(&self) -> (r: DfdaemonStatus)
        ensures
            r == DfdaemonStatus::Unimplemented,
    {
        DfdaemonStatus::Unimplemented
    }
}

/// The per-call timeout a task-download client request asks for: absent
/// download is invalid, an unrepresentable timeout is invalid, and no
/// timeout means the default applies.
pub fn download_task_timeout(request: &DownloadTaskRequest) -> (r: Result<
    Option<ProtoDuration>,
    DfdaemonStatus,
>)
    ensures
        (match request.download {
            None => (r matches Err(DfdaemonStatus::InvalidArgument(m)) && m@
                == "missing download in download task request"@),
            Some(d) => (match d.timeout {
                None => r == Ok::<Option<ProtoDuration>, DfdaemonStatus>(None),
                Some(t) => if valid_duration(t) {
                    r == Ok::<Option<ProtoDuration>, DfdaemonStatus>(Some(t))
                } else {
                    (r matches Err(DfdaemonStatus::InvalidArgument(m)) && m@
                        == "invalid timeout"@)
                },
            }),
        }),
{
    match &request.download {
        None => Err(
            DfdaemonStatus::InvalidArgument(
                "missing download in download task request".to_string(),
            ),
        ),
        Some(d) => match d.timeout {
            None => Ok(None),
            Some(t) => {
                if t.seconds >= 0 && t.nanos >= 0 && t.nanos < 1_000_000_000 {
                    Ok(Some(t))
                } else {
                    Err(DfdaemonStatus::InvalidArgument("invalid timeout".to_string()))
                }
            }
        },
    }
}

} // verus!
