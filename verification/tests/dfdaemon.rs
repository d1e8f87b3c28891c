use dfdaemon_core::dfdaemon::{
    DfdaemonServerHandler, DfdaemonStatus, Download, DownloadTaskRequest, DownloadTaskStage,
    PieceMetadata, ProtoDuration, Range, SyncPiecesRequest, TaskDisposition,
    download_task_timeout,
};
use dfdaemon_core::sync_pieces::{PieceLookup, PieceState, RoundOutcome};

fn sample_download(range: Option<Range>, timeout: Option<ProtoDuration>) -> Download {
    Download {
        url: "http://origin.example/blob".to_string(),
        digest: None,
        tag: Some("tag".to_string()),
        application: None,
        piece_length: 4194304,
        filters: Vec::new(),
        header: Vec::new(),
        range,
        timeout,
    }
}

fn sample_metadata() -> PieceMetadata {
    PieceMetadata {
        number: 7,
        parent_id: Some("peer-1".to_string()),
        offset: 29360128,
        length: 4194304,
        digest: "sha256:abc".to_string(),
    }
}

#[test]
fn sync_pieces_opens_deduplicated_stream() {
    let handler = DfdaemonServerHandler {};
    let mut stream = handler.sync_pieces(SyncPiecesRequest {
        task_id: "task-1".to_string(),
        interested_piece_numbers: vec![3, 1, 3, 2, 1],
    });
    assert_eq!(stream.interested().clone(), vec![3, 1, 2]);
    let r = stream.poll(&vec![(1, PieceLookup::Found(PieceState::Started))]);
    assert_eq!(r.outcome, RoundOutcome::Continue);
}

#[test]
fn metadata_lookup_error_is_internal() {
    let handler = DfdaemonServerHandler {};
    let r = handler.piece_metadata_step(Err("disk gone".to_string()));
    assert!(matches!(r, Err(DfdaemonStatus::Internal(m)) if m == "disk gone"));
}

#[test]
fn absent_metadata_is_not_found() {
    let handler = DfdaemonServerHandler {};
    let r = handler.piece_metadata_step(Ok(None));
    assert!(matches!(r, Err(DfdaemonStatus::NotFound(m)) if m == "piece metadata not found"));
}

#[test]
fn present_metadata_passes_through() {
    let handler = DfdaemonServerHandler {};
    let r = handler.piece_metadata_step(Ok(Some(sample_metadata())));
    let meta = r.expect("metadata should pass through");
    assert_eq!(meta.number, 7);
    assert_eq!(meta.digest, "sha256:abc");
}

#[test]
fn piece_read_error_is_internal() {
    let handler = DfdaemonServerHandler {};
    let r = handler.download_piece(sample_metadata(), Err("short read".to_string()));
    assert!(matches!(r, Err(DfdaemonStatus::Internal(m)) if m == "short read"));
}

#[test]
fn piece_response_carries_metadata_and_bytes() {
    let handler = DfdaemonServerHandler {};
    let bytes = vec![1u8, 2, 3, 4];
    let r = handler.download_piece(sample_metadata(), Ok(bytes.clone()));
    let piece = r.expect("response expected").piece.expect("piece expected");
    assert_eq!(piece.number, 7);
    assert_eq!(piece.parent_id, Some("peer-1".to_string()));
    assert_eq!(piece.offset, 29360128);
    assert_eq!(piece.length, 4194304);
    assert_eq!(piece.digest, "sha256:abc");
    assert_eq!(piece.content, Some(bytes));
}

#[test]
fn download_task_without_download_is_invalid() {
    let handler = DfdaemonServerHandler {};
    let r = handler.download_task(DownloadTaskRequest { download: None });
    assert!(matches!(r, Err(DfdaemonStatus::InvalidArgument(m)) if m == "missing download"));
}

#[test]
fn download_task_with_download_passes_through() {
    let handler = DfdaemonServerHandler {};
    let r = handler.download_task(DownloadTaskRequest {
        download: Some(sample_download(None, None)),
    });
    let d = r.expect("download expected");
    assert_eq!(d.url, "http://origin.example/blob");
    assert_eq!(d.piece_length, 4194304);
}

#[test]
fn setup_failures_map_onto_the_taxonomy() {
    let handler = DfdaemonServerHandler {};
    assert!(matches!(
        handler.download_task_error(DownloadTaskStage::GenerateTaskId, "bad url".to_string()),
        DfdaemonStatus::InvalidArgument(m) if m == "bad url"
    ));
    assert!(matches!(
        handler.download_task_error(DownloadTaskStage::ConvertHeader, "bad header".to_string()),
        DfdaemonStatus::InvalidArgument(m) if m == "bad header"
    ));
    assert!(matches!(
        handler.download_task_error(DownloadTaskStage::TaskStarted, "db closed".to_string()),
        DfdaemonStatus::Internal(m) if m == "db closed"
    ));
    assert!(matches!(
        handler.download_task_error(DownloadTaskStage::GetContentLength, "probe failed".to_string()),
        DfdaemonStatus::Internal(m) if m == "probe failed"
    ));
    assert!(!handler.failure_marks_task_failed(DownloadTaskStage::GenerateTaskId));
    assert!(!handler.failure_marks_task_failed(DownloadTaskStage::TaskStarted));
    assert!(!handler.failure_marks_task_failed(DownloadTaskStage::ConvertHeader));
    assert!(handler.failure_marks_task_failed(DownloadTaskStage::GetContentLength));
}

#[test]
fn worker_outcome_decides_task_disposition() {
    let handler = DfdaemonServerHandler {};
    assert_eq!(
        handler.download_task_disposition(true, false),
        TaskDisposition::Finished
    );
    assert_eq!(
        handler.download_task_disposition(true, true),
        TaskDisposition::Partial
    );
    assert_eq!(
        handler.download_task_disposition(false, false),
        TaskDisposition::Failed
    );
    assert_eq!(
        handler.download_task_disposition(false, true),
        TaskDisposition::Failed
    );
}

#[test]
fn stat_task_delegates_the_id() {
    let handler = DfdaemonServerHandler {};
    let r = handler.stat_task("task-9".to_string());
    assert_eq!(r.id, "task-9");
}

#[test]
fn reserved_endpoints_are_unimplemented() {
    let handler = DfdaemonServerHandler {};
    assert!(matches!(handler.upload_task(), DfdaemonStatus::Unimplemented));
    assert!(matches!(handler.delete_task(), DfdaemonStatus::Unimplemented));
}

#[test]
fn timeout_missing_download_is_invalid() {
    let r = download_task_timeout(&DownloadTaskRequest { download: None });
    assert!(matches!(
        r,
        Err(DfdaemonStatus::InvalidArgument(m)) if m == "missing download in download task request"
    ));
}

#[test]
fn timeout_absent_means_default() {
    let r = download_task_timeout(&DownloadTaskRequest {
        download: Some(sample_download(None, None)),
    });
    assert_eq!(r.expect("request is valid"), None);
}

#[test]
fn valid_timeout_passes_through() {
    let t = ProtoDuration {
        seconds: 30,
        nanos: 500_000_000,
    };
    let r = download_task_timeout(&DownloadTaskRequest {
        download: Some(sample_download(Some(Range { start: 0, length: 10 }), Some(t))),
    });
    assert_eq!(r.expect("request is valid"), Some(t));
}

#[test]
fn negative_timeout_is_invalid() {
    let t = ProtoDuration {
        seconds: -1,
        nanos: 0,
    };
    let r = download_task_timeout(&DownloadTaskRequest {
        download: Some(sample_download(None, Some(t))),
    });
    assert!(matches!(
        r,
        Err(DfdaemonStatus::InvalidArgument(m)) if m == "invalid timeout"
    ));
}
