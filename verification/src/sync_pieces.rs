//! Server-streaming piece synchronization state machine.
//!
//! One peer watches another peer's progress on a set of interesting
//! piece numbers. Each poll round reads the local storage state of
//! every still-interesting piece, emits the numbers that have finished,
//! and decides whether the stream is done, stuck, failed, or should
//! sleep and poll again. The storage reads themselves are byte I/O done
//! by an external collaborator; a round receives their answers as plain
//! values.

use vstd::prelude::*;

verus! {

/// Derived state of one piece in local storage.
#[derive(Clone, Copy, PartialEq, Eq, Structural, Debug)]
pub enum PieceState {
    /// Known but no download begun.
    Pending,
    /// A download of this piece is underway.
    Started,
    /// The piece's bytes are complete locally.
    Finished,
    /// The download of this piece failed.
    Failed,
}

/// The storage collaborator's answer for one queried piece number.
#[derive(Clone, Copy, PartialEq, Eq, Structural, Debug)]
pub enum PieceLookup {
    /// No metadata for this piece on this peer.
    Missing,
    /// The lookup itself failed; the stream must abort.
    Error,
    /// Metadata found, in the given state.
    Found(PieceState),
}

/// How a poll round left the stream.
#[derive(Clone, Copy, PartialEq, Eq, Structural, Debug)]
pub enum RoundOutcome {
    /// Every interesting piece has finished: close normally.
    Completed,
    /// Nothing finished and nothing underway: no forward progress is
    /// observable from this peer; close normally so the caller retries
    /// elsewhere.
    NoProgress,
    /// A storage lookup failed: abort with an error terminus.
    Failed,
    /// The round observed progress — a piece underway or newly
    /// finished — and interest remains: sleep one interval and poll
    /// again.
    Continue,
}

/// What one poll round produced.
pub struct PollResult {
    /// Piece numbers newly observed as finished, in observation order.
    pub emitted: Vec<u32>,
    /// How the round left the stream.
    pub outcome: RoundOutcome,
}

/// `true` when `n` occurs in `s`.
pub open spec fn num_in(s: Seq<u32>, n: u32) -> bool {
    exists|i: int| 0 <= i < s.len() && s[i] == n
}

/// `true` when no number occurs twice in `s`.
pub open spec fn nums_distinct(s: Seq<u32>) -> bool {
    forall|i: int, j: int| 0 <= i < j < s.len() ==> s[i] != s[j]
}

/// The numbers of `s` that do not occur earlier in `s`, in order.
pub open spec fn dedup_keep_first(s: Seq<u32>) -> Seq<u32>
    decreases s.len(),
{
    if s.len() == 0 {
        Seq::empty()
    } else {
        let init = dedup_keep_first(s.drop_last());
        if num_in(s.drop_last(), s.last()) {
            init
        } else {
            init.push(s.last())
        }
    }
}

/// The storage answer that a round sees for number `n`: the first entry
/// of the report that names `n`, else `Missing`.
pub open spec fn spec_lookup(report: Seq<(u32, PieceLookup)>, n: u32) -> PieceLookup
    decreases report.len(),
{
    if report.len() == 0 {
        PieceLookup::Missing
    } else if report[0].0 == n {
        report[0].1
    } else {
        spec_lookup(report.drop_first(), n)
    }
}

/// `true` when the round hits a failed lookup while walking the
/// interest list in order.
pub open spec fn round_failed(interested: Seq<u32>, report: Seq<(u32, PieceLookup)>) -> bool
    decreases interested.len(),
{
    if interested.len() == 0 {
        false
    } else if spec_lookup(report, interested[0]) == PieceLookup::Error {
        true
    } else {
        round_failed(interested.drop_first(), report)
    }
}

/// The numbers the round emits: those observed `Finished`, in interest
/// order, stopping at the first failed lookup.
pub open spec fn round_emitted(interested: Seq<u32>, report: Seq<(u32, PieceLookup)>) -> Seq<u32>
    decreases interested.len(),
{
    if interested.len() == 0 {
        Seq::empty()
    } else {
        let l = spec_lookup(report, interested[0]);
        if l == PieceLookup::Error {
            Seq::empty()
        } else if l == PieceLookup::Found(PieceState::Finished) {
            seq![interested[0]] + round_emitted(interested.drop_first(), report)
        } else {
            round_emitted(interested.drop_first(), report)
        }
    }
}

/// `true` when the round observes some piece underway before any failed
/// lookup.
pub open spec fn round_started(interested: Seq<u32>, report: Seq<(u32, PieceLookup)>) -> bool
    decreases interested.len(),
{
    if interested.len() == 0 {
        false
    } else {
        let l = spec_lookup(report, interested[0]);
        if l == PieceLookup::Error {
            false
        } else if l == PieceLookup::Found(PieceState::Started) {
            true
        } else {
            round_started(interested.drop_first(), report)
        }
    }
}

/// The interest set left after the round: the numbers not observed
/// `Finished`, in order.
pub open spec fn round_remaining(interested: Seq<u32>, report: Seq<(u32, PieceLookup)>) -> Seq<
    u32,
>
    decreases interested.len(),
{
    if interested.len() == 0 {
        Seq::empty()
    } else {
        let l = spec_lookup(report, interested[0]);
        if l == PieceLookup::Found(PieceState::Finished) {
            round_remaining(interested.drop_first(), report)
        } else {
            seq![interested[0]] + round_remaining(interested.drop_first(), report)
        }
    }
}

/// How a round over `interested` against `report` leaves the stream:
/// a finished piece counts as progress just as an underway one does,
/// so a round that emitted something polls again.
pub open spec fn spec_round_outcome(
    interested: Seq<u32>,
    report: Seq<(u32, PieceLookup)>,
) -> RoundOutcome {
    if round_failed(interested, report) {
        RoundOutcome::Failed
    } else if round_remaining(interested, report).len() == 0 {
        RoundOutcome::Completed
    } else if !round_started(interested, report) && round_emitted(interested, report).len()
        == 0 {
        RoundOutcome::NoProgress
    } else {
        RoundOutcome::Continue
    }
}

/// One `sync_pieces` stream: the still-interesting piece numbers,
/// together with everything the stream has emitted.
pub struct SyncPiecesStream {
    interested: Vec<u32>,
    emitted_all: Ghost<Seq<u32>>,
}

impl SyncPiecesStream {
    /// The piece numbers still watched, in order.
    pub closed spec fn interested_view(&self) -> Seq<u32> {
        self.interested@
    }

    /// Every number emitted on this stream so far, in order.
    pub closed spec fn emitted_view(&self) -> Seq<u32> {
        self.emitted_all@
    }

    /// Invariants of the stream: the watched numbers are distinct, the
    /// emitted numbers are distinct, and nothing emitted is still
    /// watched.
    pub open spec fn wf(&self) -> bool {
        &&& nums_distinct(self.interested_view())
        &&& nums_distinct(self.emitted_view())
        &&& (forall|k: int|
            0 <= k < self.interested_view().len() ==> !num_in(
                self.emitted_view(),
                #[trigger] self.interested_view()[k],
            ))
    }

    /// Opens a stream over the requested numbers, deduplicated keeping
    /// the first occurrence of each.
    pub fn new(interested_piece_numbers: Vec<u32>) -> (r: Self)
        ensures
            r.wf(),
            r.interested_view() == dedup_keep_first(interested_piece_numbers@),
            r.emitted_view() == Seq::<u32>::empty(),
    {
        let ghost input = interested_piece_numbers@;
        let mut interested: Vec<u32> = Vec::new();
        let mut j: usize = 0;
        while j < interested_piece_numbers.len()
            invariant
                j <= input.len(),
                interested_piece_numbers@ == input,
                interested@ == dedup_keep_first(input.take(j as int)),
                nums_distinct(interested@),
                forall|x: u32|
                    #[trigger] num_in(interested@, x) <==> num_in(input.take(j as int), x),
            decreases input.len() - j,
        {
            let ghost pre = interested@;
            let ghost x = input[j as int];
            proof {
                assert(input.take(j as int + 1).drop_last() =~= input.take(j as int));
                assert(input.take(j as int + 1).last() == x);
            }
            if !contains_number(&interested, interested_piece_numbers[j]) {
                interested.push(interested_piece_numbers[j]);
                proof {
                    assert forall|y: u32| #[trigger]
                        num_in(interested@, y) <==> num_in(input.take(j as int + 1), y) by {
                        if num_in(interested@, y) {
                            let p = choose|p: int|
                                0 <= p < interested@.len() && interested@[p] == y;
                            if p < pre.len() {
                                assert(num_in(pre, y));
                            } else {
                                assert(input.take(j as int + 1)[j as int] == x);
                            }
                        }
                        if num_in(input.take(j as int + 1), y) {
                            let p = choose|p: int|
                                0 <= p < input.take(j as int + 1).len() && #[trigger] input.take(
                                    j as int + 1,
                                )[p] == y;
                            if p < j {
                                assert(num_in(input.take(j as int), y));
                                assert(num_in(pre, y));
                                let q = choose|q: int| 0 <= q < pre.len() && pre[q] == y;
                                assert(interested@[q] == y);
                            } else {
                                assert(interested@.last() == x);
                            }
                        }
                    }
                    assert(nums_distinct(interested@)) by {
                        assert(!num_in(pre, x));
                    }
                }
            } else {
                proof {
                    assert forall|y: u32| #[trigger]
                        num_in(interested@, y) <==> num_in(input.take(j as int + 1), y) by {
                        if num_in(input.take(j as int + 1), y) {
                            let p = choose|p: int|
                                0 <= p < input.take(j as int + 1).len() && #[trigger] input.take(
                                    j as int + 1,
                                )[p] == y;
                            if p < j {
                                assert(num_in(input.take(j as int), y));
                            } else {
                                assert(y == x);
                            }
                        }
                        if num_in(interested@, y) {
                            assert(num_in(input.take(j as int), y));
                            let p = choose|p: int|
                                0 <= p < input.take(j as int).len() && #[trigger] input.take(
                                    j as int,
                                )[p] == y;
                            assert(input.take(j as int + 1)[p] == y);
                        }
                    }
                }
            }
            j += 1;
        }
        proof {
            assert(input.take(j as int) =~= input);
        }
        SyncPiecesStream { interested, emitted_all: Ghost(Seq::empty()) }
    }

    /// The piece numbers still watched; the caller queries storage for
    /// each, in this order, to build the next report.
    pub fn interested(&self) -> (r: &Vec<u32>)
        ensures
            r@ == self.interested_view(),
    {
        &self.interested
    }

    /// One poll round against a storage report.
    ///
    /// Walks the interest list in order: a `Finished` piece is emitted
    /// and dropped from the interest set; a failed lookup stops the
    /// emissions and fails the stream; anything else stays interesting.
    /// The round completes the stream when nothing stays interesting,
    /// ends it without progress when nothing was underway and nothing
    /// finished, and asks for another poll otherwise. Nothing already
    /// emitted is ever emitted again.
    pub fn poll(&mut self, report: &Vec<(u32, PieceLookup)>) -> (r: PollResult)
        requires
            old(self).wf(),
        ensures
            final(self).wf(),
            r.emitted@ == round_emitted(old(self).interested_view(), report@),
            r.outcome == spec_round_outcome(old(self).interested_view(), report@),
            final(self).interested_view() == round_remaining(old(self).interested_view(), report@),
            final(self).emitted_view() == old(self).emitted_view() + r.emitted@,
            forall|k: int|
                0 <= k < r.emitted@.len() ==> num_in(
                    old(self).interested_view(),
                    #[trigger] r.emitted@[k],
                ) && !num_in(old(self).emitted_view(), r.emitted@[k]),
    {
        let ghost interested0 = self.interested@;
        let ghost emitted0 = self.emitted_all@;
        let ghost rep = report@;
        let mut emitted: Vec<u32> = Vec::new();
        let mut remaining: Vec<u32> = Vec::new();
        let mut has_started = false;
        let mut failed = false;
        let mut idx: usize = 0;
        proof {
            assert(interested0.skip(0) =~= interested0);
        }
        while idx < self.interested.len()
            invariant
                idx <= interested0.len(),
                self.interested@ == interested0,
                self.emitted_all@ == emitted0,
                report@ == rep,
                round_failed(interested0, rep) == (failed || round_failed(
                    interested0.skip(idx as int),
                    rep,
                )),
                !failed ==> round_emitted(interested0, rep) == emitted@ + round_emitted(
                    interested0.skip(idx as int),
                    rep,
                ),
                failed ==> round_emitted(interested0, rep) == emitted@,
                !failed ==> round_started(interested0, rep) == (has_started || round_started(
                    interested0.skip(idx as int),
                    rep,
                )),
                failed ==> round_started(interested0, rep) == has_started,
                round_remaining(interested0, rep) == remaining@ + round_remaining(
                    interested0.skip(idx as int),
                    rep,
                ),
            decreases interested0.len() - idx,
        {
            let ghost suffix = interested0.skip(idx as int);
            let n = self.interested[idx];
            proof {
                assert(suffix.drop_first() =~= interested0.skip(idx as int + 1));
                assert(suffix[0] == n);
            }
            let ghost pre_emitted = emitted@;
            let ghost pre_remaining = remaining@;
            match lookup_report(report, n) {
                PieceLookup::Error => {
                    failed = true;
                    remaining.push(n);
                    proof {
                        assert(remaining@ + round_remaining(suffix.drop_first(), rep)
                            =~= pre_remaining + round_remaining(suffix, rep));
                    }
                }
                PieceLookup::Found(PieceState::Finished) => {
                    if !failed {
                        emitted.push(n);
                        proof {
                            assert(emitted@ + round_emitted(suffix.drop_first(), rep)
                                =~= pre_emitted + round_emitted(suffix, rep));
                        }
                    }
                }
                PieceLookup::Found(PieceState::Started) => {
                    if !failed {
                        has_started = true;
                    }
                    remaining.push(n);
                    proof {
                        assert(remaining@ + round_remaining(suffix.drop_first(), rep)
                            =~= pre_remaining + round_remaining(suffix, rep));
                    }
                }
                _ => {
                    remaining.push(n);
                    proof {
                        assert(remaining@ + round_remaining(suffix.drop_first(), rep)
                            =~= pre_remaining + round_remaining(suffix, rep));
                    }
                }
            }
            idx += 1;
        }
        proof {
            assert(interested0.skip(interested0.len() as int) =~= Seq::<u32>::empty());
            assert(round_emitted(interested0, rep) =~= emitted@);
            assert(round_remaining(interested0, rep) =~= remaining@);
        }
        let outcome = if failed {
            RoundOutcome::Failed
        } else if remaining.len() == 0 {
            RoundOutcome::Completed
        } else if !has_started && emitted.len() == 0 {
            RoundOutcome::NoProgress
        } else {
            RoundOutcome::Continue
        };
        self.interested = remaining;
        self.emitted_all = Ghost(emitted0 + emitted@);
        proof {
            lemma_stream_wf_after_round(interested0, rep, emitted0);
            lemma_round_partition(interested0, rep);
            assert forall|k: int| 0 <= k < emitted@.len() implies num_in(
                interested0,
                #[trigger] emitted@[k],
            ) && !num_in(emitted0, emitted@[k]) by {
                assert(num_in(round_emitted(interested0, rep), emitted@[k]));
                assert(num_in(interested0, emitted@[k]));
                let q = choose|q: int| 0 <= q < interested0.len() && interested0[q] == emitted@[k];
                assert(!num_in(emitted0, interested0[q]));
            }
        }
        PollResult { emitted, outcome }
    }
}

/// Every number a round emits was interesting and was observed
/// `Finished`; every number that stays interesting was interesting and
/// was not observed `Finished`; neither list repeats a number.
pub proof fn lemma_round_partition(interested: Seq<u32>, report: Seq<(u32, PieceLookup)>)
    requires
        nums_distinct(interested),
    ensures
        forall|n: u32| #[trigger]
            num_in(round_emitted(interested, report), n) ==> num_in(interested, n) && spec_lookup(
                report,
                n,
            ) == PieceLookup::Found(PieceState::Finished),
        forall|n: u32| #[trigger]
            num_in(round_remaining(interested, report), n) ==> num_in(interested, n)
                && spec_lookup(report, n) != PieceLookup::Found(PieceState::Finished),
        nums_distinct(round_emitted(interested, report)),
        nums_distinct(round_remaining(interested, report)),
    decreases interested.len(),
{
    if interested.len() == 0 {
    } else {
        let rest = interested.drop_first();
        assert(nums_distinct(rest)) by {
            assert forall|i: int, j: int| 0 <= i < j < rest.len() implies rest[i] != rest[j] by {
                assert(interested[i + 1] != interested[j + 1]);
            }
        }
        lemma_round_partition(rest, report);
        let n0 = interested[0];
        let l = spec_lookup(report, n0);
        assert(!num_in(rest, n0)) by {
            if num_in(rest, n0) {
                let p = choose|p: int| 0 <= p < rest.len() && rest[p] == n0;
                assert(interested[p + 1] == interested[0]);
            }
        }
        assert forall|n: u32| num_in(rest, n) implies #[trigger] num_in(interested, n) by {
            let p = choose|p: int| 0 <= p < rest.len() && rest[p] == n;
            assert(interested[p + 1] == n);
        }
        let em = round_emitted(interested, report);
        let rm = round_remaining(interested, report);
        let em_rest = round_emitted(rest, report);
        let rm_rest = round_remaining(rest, report);
        assert forall|n: u32| #[trigger] num_in(em, n) implies num_in(interested, n)
            && spec_lookup(report, n) == PieceLookup::Found(PieceState::Finished) by {
            if l != PieceLookup::Error && l == PieceLookup::Found(PieceState::Finished) {
                let p = choose|p: int| 0 <= p < em.len() && em[p] == n;
                if p == 0 {
                    assert(n == n0);
                } else {
                    assert(em_rest[p - 1] == n);
                    assert(num_in(em_rest, n));
                }
            } else if l != PieceLookup::Error {
                assert(num_in(em_rest, n));
            }
        }
        assert forall|n: u32| #[trigger] num_in(rm, n) implies num_in(interested, n)
            && spec_lookup(report, n) != PieceLookup::Found(PieceState::Finished) by {
            if l == PieceLookup::Found(PieceState::Finished) {
                assert(num_in(rm_rest, n));
            } else {
                let p = choose|p: int| 0 <= p < rm.len() && rm[p] == n;
                if p == 0 {
                    assert(n == n0);
                } else {
                    assert(rm_rest[p - 1] == n);
                    assert(num_in(rm_rest, n));
                }
            }
        }
        assert forall|i: int, j: int| 0 <= i < j < em.len() implies em[i] != em[j] by {
            if l == PieceLookup::Found(PieceState::Finished) {
                if i == 0 {
                    assert(num_in(em_rest, em[j]));
                } else {
                    assert(em_rest[i - 1] != em_rest[j - 1]);
                }
            }
        }
        assert forall|i: int, j: int| 0 <= i < j < rm.len() implies rm[i] != rm[j] by {
            if l != PieceLookup::Found(PieceState::Finished) {
                if i == 0 {
                    assert(num_in(rm_rest, rm[j]));
                } else {
                    assert(rm_rest[i - 1] != rm_rest[j - 1]);
                }
            }
        }
    }
}

/// The stream invariants survive a poll round: what stays interesting
/// repeats nothing, the total emissions repeat nothing, and nothing
/// still interesting was ever emitted.
proof fn lemma_stream_wf_after_round(
    interested0: Seq<u32>,
    rep: Seq<(u32, PieceLookup)>,
    emitted0: Seq<u32>,
)
    requires
        nums_distinct(interested0),
        nums_distinct(emitted0),
        forall|k: int|
            0 <= k < interested0.len() ==> !num_in(emitted0, #[trigger] interested0[k]),
    ensures
        nums_distinct(round_remaining(interested0, rep)),
        nums_distinct(emitted0 + round_emitted(interested0, rep)),
        forall|k: int|
            0 <= k < round_remaining(interested0, rep).len() ==> !num_in(
                emitted0 + round_emitted(interested0, rep),
                #[trigger] round_remaining(interested0, rep)[k],
            ),
{
    lemma_round_partition(interested0, rep);
    let em = round_emitted(interested0, rep);
    let rm = round_remaining(interested0, rep);
    let total = emitted0 + em;
    assert forall|i: int, j: int| 0 <= i < j < total.len() implies total[i] != total[j] by {
        if j < emitted0.len() {
            assert(emitted0[i] != emitted0[j]);
        } else if i >= emitted0.len() {
            assert(em[i - emitted0.len()] != em[j - emitted0.len()]);
        } else {
            assert(total[j] == em[j - emitted0.len()]);
            assert(num_in(em, total[j]));
            if total[i] == total[j] {
                assert(num_in(emitted0, total[j]));
                let q = choose|q: int|
                    0 <= q < interested0.len() && interested0[q] == total[j];
                assert(!num_in(emitted0, interested0[q]));
            }
        }
    }
    assert forall|k: int| 0 <= k < rm.len() implies !num_in(
        total,
        #[trigger] rm[k],
    ) by {
        let n = rm[k];
        assert(num_in(rm, n));
        if num_in(total, n) {
            let p = choose|p: int| 0 <= p < total.len() && total[p] == n;
            if p < emitted0.len() {
                assert(num_in(emitted0, n));
                let q = choose|q: int| 0 <= q < interested0.len() && interested0[q] == n;
                assert(!num_in(emitted0, interested0[q]));
            } else {
                assert(em[p - emitted0.len()] == n);
                assert(num_in(em, n));
            }
        }
    }
}

/// Progress-free termination law: when every lookup succeeds and no
/// still-interesting piece is underway or finished, the round neither
/// starts nor emits anything, so it does not ask for another poll —
/// the stream closes within this round, and a peer that never starts
/// an interesting piece holds the stream for at most one poll
/// interval.
pub proof fn lemma_no_progress_terminates(interested: Seq<u32>, report: Seq<(u32, PieceLookup)>)
    requires
        forall|k: int|
            0 <= k < interested.len() ==> {
                let l = spec_lookup(report, #[trigger] interested[k]);
                l != PieceLookup::Error && l != PieceLookup::Found(PieceState::Started) && l
                    != PieceLookup::Found(PieceState::Finished)
            },
    ensures
        spec_round_outcome(interested, report) != RoundOutcome::Continue,
{
    lemma_quiet_round(interested, report);
}

/// A round over lookups that are neither failed, underway nor finished
/// observes no failure and no start.
proof fn lemma_quiet_round(interested: Seq<u32>, report: Seq<(u32, PieceLookup)>)
    requires
        forall|k: int|
            0 <= k < interested.len() ==> {
                let l = spec_lookup(report, #[trigger] interested[k]);
                l != PieceLookup::Error && l != PieceLookup::Found(PieceState::Started) && l
                    != PieceLookup::Found(PieceState::Finished)
            },
    ensures
        !round_failed(interested, report),
        !round_started(interested, report),
        round_emitted(interested, report).len() == 0,
    decreases interested.len(),
{
    if interested.len() == 0 {
    } else {
        let rest = interested.drop_first();
        assert(forall|k: int| 0 <= k < rest.len() ==> rest[k] == interested[k + 1]);
        lemma_quiet_round(rest, report);
        assert(interested[0] == interested[0]);
    }
}

/// `true` when `n` occurs in `v`.
fn contains_number(v: &Vec<u32>, n: u32) -> (r: bool)
    ensures
        r == num_in(v@, n),
{
    let mut i: usize = 0;
    while i < v.len()
        invariant
            i <= v@.len(),
            forall|j: int| 0 <= j < i ==> v@[j] != n,
        decreases v@.len() - i,
    {
        if v[i] == n {
            return true;
        }
        i += 1;
    }
    false
}

/// The storage answer the report holds for number `n`.
fn lookup_report(report: &Vec<(u32, PieceLookup)>, n: u32) -> (r: PieceLookup)
    ensures
        r == spec_lookup(report@, n),
{
    let mut i: usize = 0;
    proof {
        assert(report@.skip(0) =~= report@);
    }
    while i < report.len()
        invariant
            i <= report@.len(),
            spec_lookup(report@, n) == spec_lookup(report@.skip(i as int), n),
        decreases report@.len() - i,
    {
        proof {
            assert(report@.skip(i as int).drop_first() =~= report@.skip(i as int + 1));
        }
        if report[i].0 == n {
            return report[i].1;
        }
        i += 1;
    }
    PieceLookup::Missing
}

} // verus!
