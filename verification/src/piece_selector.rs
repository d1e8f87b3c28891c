//! Single-producer / single-consumer piece rendezvous.
//!
//! The producer (the piece collector) pushes availability notices with
//! `insert`; the consumer (the downloader) pops them under a selection
//! rule. The struct is the synchronous decision core: the counting
//! wake-up primitive of the running system is mirrored by the `permits`
//! field, and the blocking loop around it — acquire a permit, take one
//! `select_with` step, on `Retry` hand the permit back and yield — is
//! driven by unverified glue, which keeps the real semaphore's count
//! equal to `permits` between steps.

use vstd::prelude::*;

verus! {

/// A buffered availability notice: one piece and the set of peers
/// currently advertising it.
pub struct CollectedPiece {
    /// The piece number, unique within a task.
    pub number: u32,
    /// Byte count of this slice.
    pub length: u64,
    /// Peers advertising this piece; grows by union on re-announcement.
    pub parents: Vec<String>,
}

/// `true` when `x` occurs in `s`.
pub open spec fn parent_in(s: Seq<Seq<char>>, x: Seq<char>) -> bool {
    exists|i: int| 0 <= i < s.len() && s[i] == x
}

/// `true` when no element of `s` occurs twice.
pub open spec fn parents_distinct(s: Seq<Seq<char>>) -> bool {
    forall|i: int, j: int| 0 <= i < j < s.len() ==> s[i] != s[j]
}

/// `a` followed by those elements of `b` that `a` lacks, in order.
pub open spec fn merge_parents(a: Seq<Seq<char>>, b: Seq<Seq<char>>) -> Seq<Seq<char>>
    decreases b.len(),
{
    if b.len() == 0 {
        a
    } else {
        let init = merge_parents(a, b.drop_last());
        if parent_in(a, b.last()) {
            init
        } else {
            init.push(b.last())
        }
    }
}

/// The views of a list of parent identities, in order.
pub open spec fn parent_views_of(s: Seq<String>) -> Seq<Seq<char>> {
    Seq::new(s.len(), |i: int| s[i]@)
}

/// `true` when some piece of `s` has number `n`.
pub open spec fn number_in(s: Seq<CollectedPiece>, n: u32) -> bool {
    exists|i: int| 0 <= i < s.len() && s[i].number == n
}

/// The index of the buffered piece with number `n` (meaningful under
/// `number_in`).
pub open spec fn index_of_number(s: Seq<CollectedPiece>, n: u32) -> int {
    choose|i: int| 0 <= i < s.len() && s[i].number == n
}

/// Under distinct numbers, any index that holds `n` is the one
/// `index_of_number` picks.
pub proof fn lemma_number_index_unique(s: Seq<CollectedPiece>, n: u32, i: int)
    requires
        numbers_distinct(s),
        0 <= i < s.len(),
        s[i].number == n,
    ensures
        number_in(s, n),
        index_of_number(s, n) == i,
{
    assert(number_in(s, n));
    let j = index_of_number(s, n);
    assert(0 <= j < s.len() && s[j].number == n);
    if j < i {
        assert(s[j].number != s[i].number);
    } else if i < j {
        assert(s[i].number != s[j].number);
    }
}

/// `true` when no two pieces of `s` share a number.
pub open spec fn numbers_distinct(s: Seq<CollectedPiece>) -> bool {
    forall|i: int, j: int| 0 <= i < j < s.len() ==> s[i].number != s[j].number
}

/// `true` when `n` occurs in the selected set `s`.
pub open spec fn selected_in(s: Seq<u32>, n: u32) -> bool {
    exists|i: int| 0 <= i < s.len() && s[i] == n
}

/// `true` when `x` occurs among `parents`; the order is left alone.
fn contains_parent(parents: &Vec<String>, x: &String) -> (r: bool)
    ensures
        r == parent_in(parent_views_of(parents@), x@),
{
    let mut i: usize = 0;
    while i < parents.len()
        invariant
            i <= parents@.len(),
            forall|j: int| 0 <= j < i ==> parent_views_of(parents@)[j] != x@,
        decreases parents@.len() - i,
    {
        if parents[i] == *x {
            proof {
                assert(parent_views_of(parents@)[i as int] == x@);
            }
            return true;
        }
        i += 1;
    }
    false
}

impl CollectedPiece {
    /// The advertised parents, as mathematical values, in order.
    pub open spec fn parent_views(&self) -> Seq<Seq<char>> {
        parent_views_of(self.parents@)
    }

    /// Well-formedness: a peer is listed at most once.
    pub open spec fn wf(&self) -> bool {
        parents_distinct(self.parent_views())
    }
}

/// One consumer step of the rendezvous, taken after a permit was
/// acquired.
pub enum SelectStep {
    /// A piece moved from buffered to selected; the permit is consumed.
    Selected(CollectedPiece),
    /// The selector is closed and nothing was selectable: the terminal
    /// signal; the wake-up permit of `close` is consumed.
    Terminal,
    /// Nothing selectable and not closed: the permit was handed back;
    /// the caller should yield and try again.
    Retry,
}

/// Buffer of available piece notices with close-aware selection.
///
/// A piece number is in exactly one of three states: buffered (in
/// `buffered`), selected (in `selected`, never re-buffered), or absent.
pub struct PieceSelector {
    buffered: Vec<CollectedPiece>,
    selected: Vec<u32>,
    permits: usize,
    closed: bool,
    close_permit_pending: Ghost<bool>,
    terminated: Ghost<bool>,
}

impl PieceSelector {
    /// The buffered pieces in insertion order.
    pub closed spec fn buffered_view(&self) -> Seq<CollectedPiece> {
        self.buffered@
    }

    /// The numbers already handed to the consumer.
    pub closed spec fn selected_view(&self) -> Seq<u32> {
        self.selected@
    }

    /// The count of the counting wake-up primitive.
    pub closed spec fn spec_permits(&self) -> int {
        self.permits as int
    }

    /// `true` once `close` was called.
    pub closed spec fn spec_closed(&self) -> bool {
        self.closed
    }

    /// `true` while the wake-up permit of `close` is not yet consumed.
    pub closed spec fn close_pending(&self) -> bool {
        self.close_permit_pending@
    }

    /// `true` once the terminal signal was delivered.
    pub closed spec fn spec_terminated(&self) -> bool {
        self.terminated@
    }

    /// Invariants of the rendezvous: buffered numbers are distinct and
    /// never among the selected ones, each entry lists a parent once,
    /// and the permit count equals the buffered count plus at most one
    /// close signal.
    pub open spec fn wf(&self) -> bool {
        &&& numbers_distinct(self.buffered_view())
        &&& (forall|i: int|
            0 <= i < self.buffered_view().len() ==> (#[trigger] self.buffered_view()[i]).wf())
        &&& (forall|i: int|
            0 <= i < self.buffered_view().len() ==> !selected_in(
                self.selected_view(),
                (#[trigger] self.buffered_view()[i]).number,
            ))
        &&& self.spec_permits() == self.buffered_view().len() + (if self.close_pending() {
            1int
        } else {
            0int
        })
        &&& (self.close_pending() ==> self.spec_closed())
        &&& (self.spec_closed() && !self.spec_terminated() ==> self.close_pending())
    }

    /// Creates an empty, open selector.
    pub fn new() -> (r: Self)
        ensures
            r.wf(),
            r.buffered_view() == Seq::<CollectedPiece>::empty(),
            r.selected_view() == Seq::<u32>::empty(),
            r.spec_permits() == 0,
            !r.spec_closed(),
            !r.spec_terminated(),
    {
        PieceSelector {
            buffered: Vec::new(),
            selected: Vec::new(),
            permits: 0,
            closed: false,
            close_permit_pending: Ghost(false),
            terminated: Ghost(false),
        }
    }

    /// Current buffered length.
    pub fn len(&self) -> (r: usize)
        ensures
            r == self.buffered_view().len(),
    {
        self.buffered.len()
    }

    /// The current permit count of the wake-up primitive; the running
    /// system keeps its semaphore at this value between steps.
    pub fn permits(&self) -> (r: usize)
        ensures
            r == self.spec_permits(),
    {
        self.permits
    }

    /// A copy of the buffered pieces in insertion order: the snapshot a
    /// caller-supplied selection rule chooses an index into.
    pub fn snapshot(&self) -> (r: Vec<CollectedPiece>)
        ensures
            r@.len() == self.buffered_view().len(),
            forall|i: int|
                0 <= i < r@.len() ==> (#[trigger] r@[i]).number == self.buffered_view()[i].number
                    && r@[i].length == self.buffered_view()[i].length && r@[i].parent_views()
                    == self.buffered_view()[i].parent_views(),
    {
        let mut out: Vec<CollectedPiece> = Vec::new();
        let mut i: usize = 0;
        while i < self.buffered.len()
            invariant
                i <= self.buffered_view().len(),
                out@.len() == i,
                forall|p: int|
                    0 <= p < i ==> (#[trigger] out@[p]).number == self.buffered_view()[p].number
                        && out@[p].length == self.buffered_view()[p].length
                        && out@[p].parent_views() == self.buffered_view()[p].parent_views(),
            decreases self.buffered_view().len() - i,
        {
            let piece = &self.buffered[i];
            let mut parents: Vec<String> = Vec::new();
            let mut j: usize = 0;
            while j < piece.parents.len()
                invariant
                    j <= piece.parents@.len(),
                    parents@.len() == j,
                    forall|q: int| 0 <= q < j ==> #[trigger] parents@[q] == piece.parents@[q],
                decreases piece.parents@.len() - j,
            {
                parents.push(piece.parents[j].clone());
                j += 1;
            }
            let copy = CollectedPiece { number: piece.number, length: piece.length, parents };
            proof {
                assert(copy.parent_views() =~= piece.parent_views());
            }
            out.push(copy);
            i += 1;
        }
        out
    }

    /// The index of the buffered piece with number `n`, if any.
    fn position_of_number(&self, n: u32) -> (r: Option<usize>)
        ensures
            (match r {
                Some(i) => i < self.buffered_view().len() && self.buffered_view()[i as int].number
                    == n,
                None => !number_in(self.buffered_view(), n),
            }),
    {
        let mut i: usize = 0;
        while i < self.buffered.len()
            invariant
                i <= self.buffered_view().len(),
                forall|j: int| 0 <= j < i ==> self.buffered_view()[j].number != n,
            decreases self.buffered_view().len() - i,
        {
            if self.buffered[i].number == n {
                return Some(i);
            }
            i += 1;
        }
        None
    }

    /// Inserts an availability notice (producer side).
    ///
    /// Once the selector is closed, or when the number was already
    /// handed out, the notice is dropped silently: no transition into
    /// the buffer is possible after `close`. A number already buffered
    /// has its parents merged by union, and no permit is added: the
    /// buffered count did not change. A fresh number is appended and
    /// releases exactly one permit, so a blocked consumer always wakes.
    pub fn insert(&mut self, piece: CollectedPiece)
        requires
            old(self).wf(),
            piece.wf(),
            old(self).buffered_view().len() + 2 <= usize::MAX,
        ensures
            final(self).wf(),
            final(self).spec_closed() == old(self).spec_closed(),
            final(self).close_pending() == old(self).close_pending(),
            final(self).spec_terminated() == old(self).spec_terminated(),
            final(self).selected_view() == old(self).selected_view(),
            old(self).spec_closed() ==> *final(self) == *old(self),
            selected_in(old(self).selected_view(), piece.number) ==> *final(self) == *old(self),
            (!old(self).spec_closed() && !selected_in(old(self).selected_view(), piece.number)
                && number_in(
                old(self).buffered_view(),
                piece.number,
            )) ==> {
                let i = index_of_number(old(self).buffered_view(), piece.number);
                &&& final(self).spec_permits() == old(self).spec_permits()
                &&& final(self).buffered_view().len() == old(self).buffered_view().len()
                &&& (forall|j: int|
                    0 <= j < old(self).buffered_view().len() && j != i
                        ==> final(self).buffered_view()[j] == old(self).buffered_view()[j])
                &&& final(self).buffered_view()[i].number == piece.number
                &&& final(self).buffered_view()[i].length == old(self).buffered_view()[i].length
                &&& final(self).buffered_view()[i].parent_views() == merge_parents(
                    old(self).buffered_view()[i].parent_views(),
                    piece.parent_views(),
                )
            },
            (!old(self).spec_closed() && !selected_in(old(self).selected_view(), piece.number)
                && !number_in(
                old(self).buffered_view(),
                piece.number,
            )) ==> {
                &&& final(self).buffered_view() == old(self).buffered_view().push(piece)
                &&& final(self).spec_permits() == old(self).spec_permits() + 1
                &&& final(self).spec_permits() >= 1
            },
    {
        if self.closed {
            return;
        }
        if self.is_selected(piece.number) {
            return;
        }
        match self.position_of_number(piece.number) {
            Some(i) => {
                proof {
                    lemma_number_index_unique(self.buffered_view(), piece.number, i as int);
                }
                let ghost pre = self.buffered_view();
                let mut entry = self.buffered.remove(i);
                let ghost a = entry.parent_views();
                let ghost b = piece.parent_views();
                let mut j: usize = 0;
                while j < piece.parents.len()
                    invariant
                        j <= b.len(),
                        piece.parent_views() == b,
                        piece.wf(),
                        parents_distinct(a),
                        entry.number == pre[i as int].number,
                        entry.length == pre[i as int].length,
                        entry.parent_views() == merge_parents(a, b.take(j as int)),
                        parents_distinct(entry.parent_views()),
                        forall|x: Seq<char>|
                            #[trigger] parent_in(entry.parent_views(), x) <==> (parent_in(a, x)
                                || parent_in(b.take(j as int), x)),
                    decreases b.len() - j,
                {
                    let ghost merged = entry.parent_views();
                    let ghost x = b[j as int];
                    proof {
                        assert(b.take(j as int + 1).drop_last() =~= b.take(j as int));
                        assert(b.take(j as int + 1).last() == x);
                        // a duplicate inside the notice is ruled out by piece.wf()
                        assert(!parent_in(b.take(j as int), x)) by {
                            assert(forall|p: int|
                                0 <= p < j ==> b.take(j as int)[p] == piece.parent_views()[p]);
                        }
                    }
                    if !contains_parent(&entry.parents, &piece.parents[j]) {
                        entry.parents.push(piece.parents[j].clone());
                        proof {
                            assert(entry.parent_views() =~= merged.push(x));
                            assert forall|y: Seq<char>| #[trigger]
                                parent_in(entry.parent_views(), y) <==> (parent_in(a, y)
                                || parent_in(b.take(j as int + 1), y)) by {
                                if parent_in(merged.push(x), y) {
                                    let p = choose|p: int|
                                        0 <= p < merged.push(x).len() && merged.push(x)[p] == y;
                                    if p < merged.len() {
                                        assert(parent_in(merged, y));
                                    } else {
                                        assert(b.take(j as int + 1)[j as int] == x);
                                    }
                                }
                                if parent_in(b.take(j as int + 1), y) {
                                    let p = choose|p: int|
                                        0 <= p < b.take(j as int + 1).len() && #[trigger] b.take(
                                            j as int + 1,
                                        )[p] == y;
                                    if p < j {
                                        assert(parent_in(b.take(j as int), y));
                                    } else {
                                        assert(merged.push(x).last() == y);
                                    }
                                }
                                if parent_in(a, y) || parent_in(b.take(j as int), y) {
                                    assert(parent_in(merged, y));
                                    let p = choose|p: int| 0 <= p < merged.len() && merged[p] == y;
                                    assert(merged.push(x)[p] == y);
                                }
                            }
                            assert(parents_distinct(merged.push(x))) by {
                                assert(!parent_in(merged, x));
                            }
                        }
                    } else {
                        proof {
                            assert(parent_in(a, x) || parent_in(b.take(j as int), x));
                            assert(parent_in(a, x));
                            assert forall|y: Seq<char>| #[trigger]
                                parent_in(entry.parent_views(), y) <==> (parent_in(a, y)
                                || parent_in(b.take(j as int + 1), y)) by {
                                if parent_in(b.take(j as int + 1), y) {
                                    let p = choose|p: int|
                                        0 <= p < b.take(j as int + 1).len() && #[trigger] b.take(
                                            j as int + 1,
                                        )[p] == y;
                                    if p < j {
                                        assert(parent_in(b.take(j as int), y));
                                    } else {
                                        assert(y == x);
                                    }
                                }
                            }
                        }
                    }
                    j += 1;
                }
                proof {
                    assert(b.take(j as int) =~= b);
                }
                let ghost merged_entry = entry;
                self.buffered.insert(i, entry);
                proof {
                    assert(self.buffered_view() =~= pre.update(i as int, merged_entry));
                    assert forall|p: int, q: int|
                        0 <= p < q < self.buffered_view().len() implies self.buffered_view()[p].number
                        != self.buffered_view()[q].number by {
                        assert(pre[p].number != pre[q].number);
                    }
                }
            }
            None => {
                let ghost pre = self.buffered_view();
                self.buffered.push(piece);
                self.permits = self.permits + 1;
                proof {
                    assert forall|p: int, q: int|
                        0 <= p < q < self.buffered_view().len() implies self.buffered_view()[p].number
                        != self.buffered_view()[q].number by {
                        if q < pre.len() {
                            assert(pre[p].number != pre[q].number);
                        }
                    }
                }
            }
        }
    }

    /// Closes the selector: a latch from open to closed. The first call
    /// releases one extra permit so a blocked consumer wakes and can
    /// observe the close. From then on `insert` drops every notice,
    /// while `select_with` keeps draining buffered pieces and returns
    /// the terminal signal once nothing is selectable.
    pub fn close(&mut self)
        requires
            old(self).wf(),
            old(self).buffered_view().len() + 2 <= usize::MAX,
        ensures
            final(self).wf(),
            final(self).spec_closed(),
            final(self).buffered_view() == old(self).buffered_view(),
            final(self).selected_view() == old(self).selected_view(),
            final(self).spec_terminated() == old(self).spec_terminated(),
            !old(self).spec_closed() ==> final(self).spec_permits() == old(self).spec_permits()
                + 1 && final(self).close_pending(),
            old(self).spec_closed() ==> final(self).spec_permits() == old(self).spec_permits()
                && final(self).close_pending() == old(self).close_pending(),
    {
        if !self.closed {
            self.closed = true;
            self.permits = self.permits + 1;
            self.close_permit_pending = Ghost(true);
        }
    }

    /// `true` when number `n` was already handed to the consumer.
    fn is_selected(&self, n: u32) -> (r: bool)
        ensures
            r == selected_in(self.selected_view(), n),
    {
        let mut i: usize = 0;
        while i < self.selected.len()
            invariant
                i <= self.selected_view().len(),
                forall|j: int| 0 <= j < i ==> self.selected_view()[j] != n,
            decreases self.selected_view().len() - i,
        {
            if self.selected[i] == n {
                return true;
            }
            i += 1;
        }
        false
    }

    /// One consumer step under a selection rule, taken with one acquired
    /// permit in hand: `choice` is the rule's answer over the current
    /// buffered snapshot (in insertion order).
    ///
    /// A valid index moves that piece from buffered to selected and
    /// consumes the permit. An absent or out-of-range choice yields the
    /// terminal signal when the selector is closed, else asks the caller
    /// to hand the permit back and retry.
    pub fn select_with(&mut self, choice: Option<usize>) -> (r: SelectStep)
        requires
            old(self).wf(),
            !old(self).spec_terminated(),
            old(self).spec_permits() >= 1,
        ensures
            final(self).wf(),
            final(self).spec_closed() == old(self).spec_closed(),
            (match choice {
                Some(i) if i < old(self).buffered_view().len() => {
                    &&& r == SelectStep::Selected(old(self).buffered_view()[i as int])
                    &&& final(self).buffered_view() == old(self).buffered_view().remove(i as int)
                    &&& final(self).selected_view() == old(self).selected_view().push(
                        old(self).buffered_view()[i as int].number,
                    )
                    &&& final(self).spec_permits() == old(self).spec_permits() - 1
                    &&& !selected_in(
                        old(self).selected_view(),
                        old(self).buffered_view()[i as int].number,
                    )
                    &&& final(self).spec_terminated() == old(self).spec_terminated()
                    &&& final(self).close_pending() == old(self).close_pending()
                },
                _ => {
                    &&& final(self).buffered_view() == old(self).buffered_view()
                    &&& final(self).selected_view() == old(self).selected_view()
                    &&& (old(self).spec_closed() ==> r == SelectStep::Terminal && final(self).spec_permits() == old(self).spec_permits() - 1 && final(self).spec_terminated())
                    &&& (!old(self).spec_closed() ==> r == SelectStep::Retry && final(self).spec_permits() == old(self).spec_permits() && final(self).spec_terminated()
                        == old(self).spec_terminated())
                },
            }),
    {
        match choice {
            Some(i) if i < self.buffered.len() => {
                let ghost pre = self.buffered_view();
                let selected_piece = self.buffered.remove(i);
                self.selected.push(selected_piece.number);
                self.permits = self.permits - 1;
                proof {
                    assert(!selected_in(old(self).selected_view(), pre[i as int].number));
                    assert forall|p: int, q: int|
                        0 <= p < q < self.buffered_view().len() implies self.buffered_view()[p].number
                        != self.buffered_view()[q].number by {
                        let sp = if p < i {
                            p
                        } else {
                            p + 1
                        };
                        let sq = if q < i {
                            q
                        } else {
                            q + 1
                        };
                        assert(pre[sp].number != pre[sq].number);
                    }
                    assert forall|p: int|
                        0 <= p < self.buffered_view().len() implies !selected_in(
                        self.selected_view(),
                        (#[trigger] self.buffered_view()[p]).number,
                    ) by {
                        let sp = if p < i {
                            p
                        } else {
                            p + 1
                        };
                        assert(self.buffered_view()[p] == pre[sp]);
                        assert(!selected_in(old(self).selected_view(), pre[sp].number));
                        assert(pre[sp].number != pre[i as int].number);
                        assert forall|q: int|
                            0 <= q < self.selected_view().len() implies self.selected_view()[q]
                            != pre[sp].number by {
                            if q < self.selected_view().len() - 1 {
                                assert(!selected_in(old(self).selected_view(), pre[sp].number));
                                assert(old(self).selected_view()[q] != pre[sp].number);
                            }
                        }
                    }
                }
                SelectStep::Selected(selected_piece)
            }
            _ => {
                if self.closed {
                    self.permits = self.permits - 1;
                    self.terminated = Ghost(true);
                    self.close_permit_pending = Ghost(false);
                    SelectStep::Terminal
                } else {
                    SelectStep::Retry
                }
            }
        }
    }

    /// FIFO policy: pops the oldest buffered piece.
    pub fn select_fifo(&mut self) -> (r: SelectStep)
        requires
            old(self).wf(),
            !old(self).spec_terminated(),
            old(self).spec_permits() >= 1,
        ensures
            final(self).wf(),
            final(self).spec_closed() == old(self).spec_closed(),
            old(self).buffered_view().len() > 0 ==> {
                &&& r == SelectStep::Selected(old(self).buffered_view()[0])
                &&& final(self).buffered_view() == old(self).buffered_view().drop_first()
                &&& final(self).selected_view() == old(self).selected_view().push(
                    old(self).buffered_view()[0].number,
                )
                &&& final(self).spec_permits() == old(self).spec_permits() - 1
                &&& final(self).spec_terminated() == old(self).spec_terminated()
            },
            old(self).buffered_view().len() == 0 ==> {
                &&& final(self).buffered_view() == old(self).buffered_view()
                &&& final(self).selected_view() == old(self).selected_view()
                &&& (old(self).spec_closed() ==> r == SelectStep::Terminal && final(self).spec_terminated() && final(self).spec_permits() == old(self).spec_permits() - 1)
                &&& (!old(self).spec_closed() ==> r == SelectStep::Retry && final(self).spec_permits() == old(self).spec_permits())
            },
    {
        let choice = if self.buffered.len() > 0 {
            Some(0)
        } else {
            None
        };
        let r = self.select_with(choice);
        proof {
            if old(self).buffered_view().len() > 0 {
                assert(old(self).buffered_view().remove(0) =~= old(
                    self,
                ).buffered_view().drop_first());
            }
        }
        r
    }

    /// Random policy: pops a piece at an index drawn uniformly over the
    /// buffered snapshot.
    pub fn select_random(&mut self) -> (r: SelectStep)
        requires
            old(self).wf(),
            !old(self).spec_terminated(),
            old(self).spec_permits() >= 1,
        ensures
            final(self).wf(),
            final(self).spec_closed() == old(self).spec_closed(),
            old(self).buffered_view().len() > 0 ==> exists|i: int|
                {
                    &&& 0 <= i < old(self).buffered_view().len()
                    &&& r == SelectStep::Selected(#[trigger] old(self).buffered_view()[i])
                    &&& final(self).buffered_view() == old(self).buffered_view().remove(i)
                    &&& final(self).selected_view() == old(self).selected_view().push(
                        old(self).buffered_view()[i].number,
                    )
                    &&& final(self).spec_permits() == old(self).spec_permits() - 1
                },
            old(self).buffered_view().len() == 0 ==> {
                &&& final(self).buffered_view() == old(self).buffered_view()
                &&& final(self).selected_view() == old(self).selected_view()
                &&& (old(self).spec_closed() ==> r == SelectStep::Terminal && final(self).spec_terminated() && final(self).spec_permits() == old(self).spec_permits() - 1)
                &&& (!old(self).spec_closed() ==> r == SelectStep::Retry && final(self).spec_permits() == old(self).spec_permits())
            },
    {
        let choice = if self.buffered.len() > 0 {
            Some(random_index(self.buffered.len()))
        } else {
            None
        };
        self.select_with(choice)
    }

    /// Drains the selector after `close`: pops every buffered piece in
    /// FIFO order, then consumes the close wake-up and delivers the
    /// terminal signal. This terminates after exactly one step per
    /// buffered piece plus one, whatever the buffer held; the drained
    /// numbers join the selected set in order.
    pub fn drain_after_close(&mut self) -> (out: Vec<CollectedPiece>)
        requires
            old(self).wf(),
            old(self).spec_closed(),
            !old(self).spec_terminated(),
        ensures
            final(self).wf(),
            final(self).spec_terminated(),
            final(self).buffered_view().len() == 0,
            final(self).spec_permits() == 0,
            out@ == old(self).buffered_view(),
            final(self).selected_view() == old(self).selected_view() + out@.map_values(
                |p: CollectedPiece| p.number,
            ),
    {
        let mut out: Vec<CollectedPiece> = Vec::new();
        proof {
            assert(self.selected_view() =~= old(self).selected_view() + out@.map_values(
                |p: CollectedPiece| p.number,
            ));
        }
        while self.len() != 0
            invariant
                self.wf(),
                self.spec_closed(),
                !self.spec_terminated(),
                out@ + self.buffered_view() == old(self).buffered_view(),
                self.selected_view() == old(self).selected_view() + out@.map_values(
                    |p: CollectedPiece| p.number,
                ),
            decreases self.buffered_view().len(),
        {
            let ghost pre_out = out@;
            let ghost pre_buf = self.buffered_view();
            let ghost pre_sel = self.selected_view();
            let step = self.select_fifo();
            if let SelectStep::Selected(piece) = step {
                out.push(piece);
                proof {
                    assert(out@ + self.buffered_view() =~= pre_out + pre_buf);
                    assert(out@.map_values(|p: CollectedPiece| p.number) =~= pre_out.map_values(
                        |p: CollectedPiece| p.number,
                    ).push(piece.number));
                    assert(self.selected_view() =~= old(self).selected_view() + out@.map_values(
                        |p: CollectedPiece| p.number,
                    ));
                }
            } else {
                proof {
                    assert(false);
                }
            }
        }
        let last = self.select_fifo();
        proof {
            assert(out@ + self.buffered_view() =~= out@);
        }
        out
    }
}

/// Dedup law: merging a notice's parents into an already buffered entry
/// yields exactly the union of the two parent sets, each peer listed
/// once, with the entry's existing parents kept in place.
pub proof fn lemma_merge_parents_union(a: Seq<Seq<char>>, b: Seq<Seq<char>>)
    requires
        parents_distinct(a),
        parents_distinct(b),
    ensures
        parents_distinct(merge_parents(a, b)),
        forall|x: Seq<char>| #[trigger]
            parent_in(merge_parents(a, b), x) <==> (parent_in(a, x) || parent_in(b, x)),
        merge_parents(a, b).len() >= a.len(),
        forall|i: int| 0 <= i < a.len() ==> merge_parents(a, b)[i] == a[i],
    decreases b.len(),
{
    if b.len() == 0 {
    } else {
        let b0 = b.drop_last();
        let x = b.last();
        lemma_merge_parents_union(a, b0);
        let init = merge_parents(a, b0);
        let m = merge_parents(a, b);
        assert forall|y: Seq<char>| #[trigger] parent_in(b, y) implies (parent_in(b0, y) || y
            == x) by {
            let p = choose|p: int| 0 <= p < b.len() && b[p] == y;
            if p < b.len() - 1 {
                assert(b0[p] == y);
            }
        }
        assert forall|y: Seq<char>| parent_in(b0, y) implies #[trigger] parent_in(b, y) by {
            let p = choose|p: int| 0 <= p < b0.len() && b0[p] == y;
            assert(b[p] == y);
        }
        if parent_in(a, x) {
            assert(m == init);
            assert forall|y: Seq<char>| #[trigger]
                parent_in(m, y) <==> (parent_in(a, y) || parent_in(b, y)) by {
                if y == x {
                    assert(parent_in(m, y));
                }
            }
        } else {
            assert(m == init.push(x));
            assert(!parent_in(init, x)) by {
                assert(!parent_in(b0, x)) by {
                    if parent_in(b0, x) {
                        let p = choose|p: int| 0 <= p < b0.len() && b0[p] == x;
                        assert(b[p] == b[b.len() - 1]);
                    }
                }
            }
            assert forall|p: int, q: int| 0 <= p < q < m.len() implies m[p] != m[q] by {
                if q < m.len() - 1 {
                    assert(init[p] != init[q]);
                } else {
                    assert(m[p] == init[p]);
                    assert(!parent_in(init, x));
                }
            }
            assert forall|y: Seq<char>| #[trigger]
                parent_in(m, y) <==> (parent_in(a, y) || parent_in(b, y)) by {
                if parent_in(m, y) {
                    let p = choose|p: int| 0 <= p < m.len() && m[p] == y;
                    if p < m.len() - 1 {
                        assert(parent_in(init, y));
                    } else {
                        assert(y == x);
                        assert(parent_in(b, x));
                    }
                } else {
                }
                if parent_in(a, y) || parent_in(b0, y) {
                    assert(parent_in(init, y));
                    let p = choose|p: int| 0 <= p < init.len() && init[p] == y;
                    assert(m[p] == y);
                }
                if y == x {
                    assert(m.last() == x);
                    assert(parent_in(m, y));
                }
            }
        }
    }
}

/// Once selected, always selected: every operation's contract either
/// leaves the selected set alone or appends to it, so a later state's
/// selected set extends an earlier one and membership persists.
pub proof fn lemma_selected_persists(earlier: Seq<u32>, later: Seq<u32>, n: u32)
    requires
        selected_in(earlier, n),
        earlier.len() <= later.len(),
        later.take(earlier.len() as int) == earlier,
    ensures
        selected_in(later, n),
{
    let i = choose|i: int| 0 <= i < earlier.len() && earlier[i] == n;
    assert(later.take(earlier.len() as int)[i] == n);
    assert(later[i] == n);
}

/// Extension of the selected set is transitive: when `b` extends `a`
/// and `c` extends `b`, `c` extends `a`. This chains the per-operation
/// contracts — selected unchanged, or one number appended — across any
/// sequence of operations.
pub proof fn lemma_selected_extends_trans(a: Seq<u32>, b: Seq<u32>, c: Seq<u32>)
    requires
        a.len() <= b.len() <= c.len(),
        b.take(a.len() as int) == a,
        c.take(b.len() as int) == b,
    ensures
        c.take(a.len() as int) == a,
{
    assert forall|i: int| 0 <= i < a.len() implies c.take(a.len() as int)[i] == a[i] by {
        assert(c.take(a.len() as int)[i] == c[i]);
        assert(c.take(b.len() as int)[i] == c[i]);
        assert(b.take(a.len() as int)[i] == b[i]);
    }
    assert(c.take(a.len() as int) =~= a);
}

/// At-most-once law, lifetime form. A step that returns a piece ensures
/// its number was not selected at the start of the step and is selected
/// afterwards, and every operation only extends the selected set. So
/// once a step returned `n1`, any later step — its starting selected
/// set extends the set `n1` entered — returns a number that is not yet
/// selected there, hence never `n1` again.
pub proof fn lemma_at_most_once(
    after_first: Seq<u32>,
    before_second: Seq<u32>,
    n1: u32,
    n2: u32,
)
    requires
        selected_in(after_first, n1),
        after_first.len() <= before_second.len(),
        before_second.take(after_first.len() as int) == after_first,
        !selected_in(before_second, n2),
    ensures
        n1 != n2,
{
    lemma_selected_persists(after_first, before_second, n1);
}

/// At-most-once law: a number already handed to the consumer stays in
/// the selected set and is never buffered again, so no later selection
/// step — which always returns a buffered entry — can return it.
pub proof fn lemma_selected_never_buffered(sel: &PieceSelector, n: u32)
    requires
        sel.wf(),
        selected_in(sel.selected_view(), n),
    ensures
        forall|i: int|
            0 <= i < sel.buffered_view().len() ==> (#[trigger] sel.buffered_view()[i]).number != n,
{
    assert forall|i: int|
        0 <= i < sel.buffered_view().len() implies (#[trigger] sel.buffered_view()[i]).number
        != n by {
        assert(!selected_in(sel.selected_view(), sel.buffered_view()[i].number));
    }
}

/// Relies on fastrand::usize over the range below `n`: the draw comes
/// from the thread-local generator, so nothing is promised beyond the
/// documented bound; it panics on an empty range, which `n >= 1` rules
/// out.
#[verifier::external_body]
fn random_index(n: usize) -> (r: usize)
    requires
        n >= 1,
    ensures
        r < n,
{
    fastrand::usize(..n)
}

} // verus!
