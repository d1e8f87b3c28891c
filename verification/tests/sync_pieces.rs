use dfdaemon_core::sync_pieces::{PieceLookup, PieceState, RoundOutcome, SyncPiecesStream};

fn report(entries: &[(u32, PieceLookup)]) -> Vec<(u32, PieceLookup)> {
    entries.to_vec()
}

#[test]
fn mid_stream_finish_emits_each_once_in_order() {
    let mut stream = SyncPiecesStream::new(vec![1, 2, 3]);
    let mut emissions: Vec<u32> = Vec::new();

    let r1 = stream.poll(&report(&[
        (1, PieceLookup::Found(PieceState::Started)),
        (2, PieceLookup::Found(PieceState::Pending)),
        (3, PieceLookup::Found(PieceState::Pending)),
    ]));
    emissions.extend(&r1.emitted);
    assert_eq!(r1.outcome, RoundOutcome::Continue);

    let r2 = stream.poll(&report(&[
        (1, PieceLookup::Found(PieceState::Finished)),
        (2, PieceLookup::Found(PieceState::Started)),
        (3, PieceLookup::Found(PieceState::Pending)),
    ]));
    emissions.extend(&r2.emitted);
    assert_eq!(r2.outcome, RoundOutcome::Continue);

    // the finish of 2 counts as progress even though 3 is still
    // pending, so the stream polls again rather than closing early
    let r3 = stream.poll(&report(&[
        (2, PieceLookup::Found(PieceState::Finished)),
        (3, PieceLookup::Found(PieceState::Pending)),
    ]));
    emissions.extend(&r3.emitted);
    assert_eq!(r3.outcome, RoundOutcome::Continue);

    let r4 = stream.poll(&report(&[(3, PieceLookup::Found(PieceState::Finished))]));
    emissions.extend(&r4.emitted);
    assert_eq!(r4.outcome, RoundOutcome::Completed);

    assert_eq!(emissions, vec![1, 2, 3]);
}

#[test]
fn no_progress_closes_after_one_round() {
    let mut stream = SyncPiecesStream::new(vec![10]);
    let r = stream.poll(&report(&[(10, PieceLookup::Found(PieceState::Pending))]));
    assert!(r.emitted.is_empty());
    assert_eq!(r.outcome, RoundOutcome::NoProgress);
}

#[test]
fn missing_pieces_are_skipped_but_stay_interesting() {
    let mut stream = SyncPiecesStream::new(vec![1, 2]);
    let r = stream.poll(&report(&[(2, PieceLookup::Found(PieceState::Started))]));
    assert!(r.emitted.is_empty());
    assert_eq!(r.outcome, RoundOutcome::Continue);
    assert_eq!(stream.interested().clone(), vec![1, 2]);
}

#[test]
fn lookup_error_fails_stream_but_keeps_prior_emissions() {
    let mut stream = SyncPiecesStream::new(vec![1, 2, 3]);
    let r = stream.poll(&report(&[
        (1, PieceLookup::Found(PieceState::Finished)),
        (2, PieceLookup::Error),
        (3, PieceLookup::Found(PieceState::Finished)),
    ]));
    // the emission of 1 stands; the failed lookup of 2 stops the round
    assert_eq!(r.emitted, vec![1]);
    assert_eq!(r.outcome, RoundOutcome::Failed);
}

#[test]
fn interest_set_is_deduplicated() {
    let mut stream = SyncPiecesStream::new(vec![4, 4, 5, 4, 5]);
    assert_eq!(stream.interested().clone(), vec![4, 5]);
    let r = stream.poll(&report(&[
        (4, PieceLookup::Found(PieceState::Finished)),
        (5, PieceLookup::Found(PieceState::Finished)),
    ]));
    assert_eq!(r.emitted, vec![4, 5]);
    assert_eq!(r.outcome, RoundOutcome::Completed);
}

#[test]
fn finished_piece_is_not_emitted_again() {
    let mut stream = SyncPiecesStream::new(vec![1, 2]);
    let r1 = stream.poll(&report(&[
        (1, PieceLookup::Found(PieceState::Finished)),
        (2, PieceLookup::Found(PieceState::Started)),
    ]));
    assert_eq!(r1.emitted, vec![1]);
    // the next round still reports 1 as finished; it is no longer
    // interesting, so it is not emitted again
    let r2 = stream.poll(&report(&[
        (1, PieceLookup::Found(PieceState::Finished)),
        (2, PieceLookup::Found(PieceState::Started)),
    ]));
    assert!(r2.emitted.is_empty());
    assert_eq!(r2.outcome, RoundOutcome::Continue);
}

#[test]
fn failed_state_is_skipped_without_progress() {
    let mut stream = SyncPiecesStream::new(vec![8]);
    let r = stream.poll(&report(&[(8, PieceLookup::Found(PieceState::Failed))]));
    assert!(r.emitted.is_empty());
    assert_eq!(r.outcome, RoundOutcome::NoProgress);
}

#[test]
fn empty_interest_set_completes_immediately() {
    let mut stream = SyncPiecesStream::new(Vec::new());
    let r = stream.poll(&report(&[]));
    assert!(r.emitted.is_empty());
    assert_eq!(r.outcome, RoundOutcome::Completed);
}
