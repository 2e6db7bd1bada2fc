//! The decisions of the update processor: when a snapshot may seed the book,
//! which of the queued updates to fold in, and how folding errors are
//! treated while the book is being maintained.
use crate::book_order::{
    book_after, update_result, BookError, BookOrder, BookView, DepthUpdateError, JsonField,
    Snapshot, SnapshotOutcome, UpdateData, UpdateId, levels_read, snapshot_outcome,
    update_outcome, UpdateOutcome,
};
use crate::depth_updates::DepthUpdate;
use vstd::prelude::*;

verus! {

/// What folding an update into a maintained book returns: the book's id
/// after the update. A malformed update is passed over; any other refusal,
/// a gap among them, is returned as it is, so that a gap can be told apart
/// and the book rebuilt.
pub open spec fn apply_result(book: BookView, u: UpdateData) -> Result<UpdateId, BookError> {
    match update_result(book, u) {
        Ok(()) => Ok(book_after(book, u).last_update_id),
        Err(BookError::Update(DepthUpdateError::ParsingError)) => Ok(book.last_update_id),
        Err(e) => Err(e),
    }
}

/// Whether an update is passed over because it is malformed.
pub open spec fn passed_over(book: BookView, u: UpdateData) -> bool {
    update_result(book, u) == Err::<(), BookError>(BookError::Update(DepthUpdateError::ParsingError))
}

/// The result of folding an update into a maintained book.
#[derive(Debug, Clone, Copy, PartialEq, Eq, Structural)]
pub struct Applied {
    /// The book's id after the update.
    pub book_id: UpdateId,
    /// The update was malformed and passed over.
    pub passed_over_malformed: bool,
}

/// Folds an update into a maintained book and returns the book's id.
pub fn apply_update(book: &mut BookOrder, update: &DepthUpdate) -> (r: Result<Applied, BookError>)
    ensures
        final(book)@ == book_after(old(book)@, update.value),
        match apply_result(old(book)@, update.value) {
            Ok(id) => r == Ok::<Applied, BookError>(
                Applied { book_id: id, passed_over_malformed: passed_over(old(book)@, update.value) },
            ),
            Err(e) => r == Err::<Applied, BookError>(e),
        },
{
    let passed_over_malformed = match book.depth_update(&update.value) {
        Err(BookError::Update(DepthUpdateError::ParsingError)) => true,
        Err(e) => {
            return Err(e);
        },
        Ok(()) => false,
    };
    Ok(Applied { book_id: book.last_update_id(), passed_over_malformed })
}

/// What to do with the held update when the next one is taken from the queue.
#[derive(Debug, Clone, Copy, PartialEq, Eq, Structural)]
pub enum PickAction {
    /// The next update starts after a gap: fold the held one in first, then
    /// hold the next one.
    ApplyLatestThenHoldNext,
    /// The next update reaches further: hold it instead.
    HoldNext,
    /// The held update reaches at least as far: keep it.
    KeepLatest,
}

/// The choice between the held update and the next one.
pub open spec fn pick_spec(latest_last: u64, current_book_id: u64, next_first: u64, next_last: u64) -> PickAction {
    if next_first > current_book_id + 1 {
        PickAction::ApplyLatestThenHoldNext
    } else if next_last > latest_last {
        PickAction::HoldNext
    } else {
        PickAction::KeepLatest
    }
}

/// Chooses between the held update and the next queued one, given the id of
/// the book.
pub fn pick_action(latest: &DepthUpdate, current_book_id: UpdateId, next: &DepthUpdate) -> (r:
    PickAction)
    requires
        current_book_id < u64::MAX,
    ensures
        r == pick_spec(
            latest.last_update_id,
            current_book_id,
            next.first_update_id,
            next.last_update_id,
        ),
{
    if next.first_update_id > current_book_id + 1 {
        PickAction::ApplyLatestThenHoldNext
    } else if next.last_update_id > latest.last_update_id {
        PickAction::HoldNext
    } else {
        PickAction::KeepLatest
    }
}

/// The last id of the update held after a choice.
pub open spec fn held_last(action: PickAction, latest_last: u64, next_last: u64) -> u64 {
    match action {
        PickAction::KeepLatest => latest_last,
        _ => next_last,
    }
}

/// Among updates that continue the book, the one reaching furthest is held:
/// unless a gap forces the held update out, the held update's last id
/// becomes the larger of the two.
pub proof fn lemma_freshest_update_is_held(
    latest_last: u64,
    current_book_id: u64,
    next_first: u64,
    next_last: u64,
)
    requires
        next_first <= current_book_id + 1,
    ensures
        held_last(pick_spec(latest_last, current_book_id, next_first, next_last), latest_last, next_last)
            == if next_last > latest_last {
            next_last
        } else {
            latest_last
        },
        held_last(pick_spec(latest_last, current_book_id, next_first, next_last), latest_last, next_last)
            >= latest_last,
{
}

/// A maintained book's id never goes back: what an update returns is at
/// least the id the book had.
pub proof fn lemma_applied_id_never_decreases(book: BookView, u: UpdateData)
    ensures
        apply_result(book, u) matches Ok(id) ==> id >= book.last_update_id,
{
}

/// Where the processor stands while it drains the queue.
pub enum PickState {
    /// The book, the update held back, and the book's id.
    Holding { book: BookView, latest: DepthUpdate, current: u64 },
    /// Folding an update failed: the book as it is, and the error.
    Stopped { book: BookView, error: BookError },
}

/// One queued update taken: the held update is kept, replaced, or (after a
/// gap) folded in before the next one is held.
pub open spec fn pick_step(s: PickState, next: DepthUpdate) -> PickState {
    match s {
        PickState::Stopped { .. } => s,
        PickState::Holding { book, latest, current } => match pick_spec(
            latest.last_update_id,
            current,
            next.first_update_id,
            next.last_update_id,
        ) {
            PickAction::ApplyLatestThenHoldNext => match apply_result(book, latest.value) {
                Ok(id) => PickState::Holding {
                    book: book_after(book, latest.value),
                    latest: next,
                    current: id,
                },
                Err(e) => PickState::Stopped { book: book_after(book, latest.value), error: e },
            },
            PickAction::HoldNext => PickState::Holding { book, latest: next, current },
            PickAction::KeepLatest => s,
        },
    }
}

/// The queued updates taken in order.
pub open spec fn pick_fold(s: PickState, queue: Seq<DepthUpdate>) -> PickState
    decreases queue.len(),
{
    if queue.len() == 0 {
        s
    } else {
        pick_step(pick_fold(s, queue.drop_last()), queue.last())
    }
}

/// Draining a queue: every queued update is taken, then the held update is
/// folded in. The book after, and what the processor reports.
pub open spec fn drain_outcome(
    book: BookView,
    latest: DepthUpdate,
    current: u64,
    queue: Seq<DepthUpdate>,
) -> (BookView, Result<UpdateId, BookError>) {
    match pick_fold(PickState::Holding { book, latest, current }, queue) {
        PickState::Stopped { book, error } => (book, Err(error)),
        PickState::Holding { book, latest, .. } => (
            book_after(book, latest.value),
            apply_result(book, latest.value),
        ),
    }
}

/// The update reaching furthest among the held one and a queue: the first
/// one with the greatest last id.
pub open spec fn freshest(latest: DepthUpdate, queue: Seq<DepthUpdate>) -> DepthUpdate
    decreases queue.len(),
{
    if queue.len() == 0 {
        latest
    } else {
        let f = freshest(latest, queue.drop_last());
        if queue.last().last_update_id > f.last_update_id {
            queue.last()
        } else {
            f
        }
    }
}

/// Selecting the freshest update from the streams: when no queued update
/// starts after a gap, draining the queue folds exactly one update into the
/// book, the one that reaches furthest; every other queued update is
/// dropped.
pub proof fn lemma_gapless_queue_folds_freshest(
    book: BookView,
    latest: DepthUpdate,
    current: u64,
    queue: Seq<DepthUpdate>,
)
    requires
        forall|i: int| 0 <= i < queue.len() ==> #[trigger] queue[i].first_update_id <= current + 1,
    ensures
        pick_fold(PickState::Holding { book, latest, current }, queue) == (PickState::Holding {
            book,
            latest: freshest(latest, queue),
            current,
        }),
        drain_outcome(book, latest, current, queue) == (
            book_after(book, freshest(latest, queue).value),
            apply_result(book, freshest(latest, queue).value),
        ),
        freshest(latest, queue).last_update_id >= latest.last_update_id,
        forall|i: int|
            0 <= i < queue.len() ==> freshest(latest, queue).last_update_id
                >= #[trigger] queue[i].last_update_id,
        freshest(latest, queue) == latest || exists|i: int|
            0 <= i < queue.len() && freshest(latest, queue) == #[trigger] queue[i],
    decreases queue.len(),
{
    if queue.len() > 0 {
        let rest = queue.drop_last();
        assert forall|i: int| 0 <= i < rest.len() implies #[trigger] rest[i].first_update_id
            <= current + 1 by {
            assert(rest[i] == queue[i]);
        }
        lemma_gapless_queue_folds_freshest(book, latest, current, rest);
        assert(queue.last() == queue[queue.len() - 1]);
        let f = freshest(latest, rest);
        assert forall|i: int|
            0 <= i < queue.len() implies freshest(latest, queue).last_update_id
                >= #[trigger] queue[i].last_update_id by {
            if i < rest.len() {
                assert(rest[i] == queue[i]);
            }
        }
        if freshest(latest, queue) != latest && freshest(latest, queue) != queue.last() {
            let i = choose|i: int| 0 <= i < rest.len() && f == #[trigger] rest[i];
            assert(queue[i] == rest[i]);
        }
    }
}

/// A well-formed update: both event ids and both lists of changes are
/// present, the ids agree with the update's own, and every change reads.
pub open spec fn well_formed_update(d: DepthUpdate) -> bool {
    &&& d.value.first_update_id == JsonField::Present(d.first_update_id)
    &&& d.value.last_update_id == JsonField::Present(d.last_update_id)
    &&& match d.value.bids {
        JsonField::Present(b) => levels_read(b@) is Ok,
        _ => false,
    }
    &&& match d.value.asks {
        JsonField::Present(a) => levels_read(a@) is Ok,
        _ => false,
    }
}

/// The larger of two ids.
pub open spec fn max_id(a: int, b: int) -> int {
    if a >= b {
        a
    } else {
        b
    }
}

/// The furthest event id reached: the book's id and the last ids of the
/// updates seen.
pub open spec fn reach(current: u64, s: Seq<DepthUpdate>) -> int
    decreases s.len(),
{
    if s.len() == 0 {
        current as int
    } else {
        max_id(reach(current, s.drop_last()), s.last().last_update_id as int)
    }
}

/// No update in the sequence skips an event: each one starts at most one
/// past the furthest event reached before it.
pub open spec fn never_skips(current: u64, s: Seq<DepthUpdate>) -> bool {
    forall|p: int| 0 <= p < s.len() ==> #[trigger] s[p].first_update_id <= reach(current, s.take(p)) + 1
}

/// Updates that share an event are copies of one update: they are
/// interleaved copies of one stream of events.
pub open spec fn copies_agree(s: Seq<DepthUpdate>) -> bool {
    forall|i: int, j: int|
        0 <= i < s.len() && 0 <= j < s.len() && #[trigger] s[i].first_update_id
            <= #[trigger] s[j].last_update_id && s[j].first_update_id <= s[i].last_update_id
            ==> s[i] == s[j]
}

/// The book after folding each update in turn, as a depth update call each.
pub open spec fn apply_in_turn(book: BookView, s: Seq<DepthUpdate>) -> BookView
    decreases s.len(),
{
    if s.len() == 0 {
        book
    } else {
        book_after(apply_in_turn(book, s.drop_last()), s.last().value)
    }
}

/// A well-formed update that does not start after a gap is accepted: it is
/// folded in or found stale, and the book then reaches its last id.
proof fn lemma_contiguous_update_accepted(book: BookView, d: DepthUpdate)
    requires
        well_formed_update(d),
        d.first_update_id <= book.last_update_id + 1,
    ensures
        update_result(book, d.value) is Ok,
        !passed_over(book, d.value),
        apply_result(book, d.value) == Ok::<UpdateId, BookError>(
            book_after(book, d.value).last_update_id,
        ),
        book_after(book, d.value).last_update_id == max_id(
            book.last_update_id as int,
            d.last_update_id as int,
        ),
        d.last_update_id <= book.last_update_id ==> book_after(book, d.value) == book,
{
}

/// Folding well-formed updates that never skip an event, each in turn,
/// accepts every one of them and reaches the furthest event seen.
#[verifier::spinoff_prover]
#[verifier::rlimit(50)]
pub proof fn lemma_in_turn_accepts_each(book: BookView, s: Seq<DepthUpdate>)
    requires
        forall|i: int| 0 <= i < s.len() ==> well_formed_update(#[trigger] s[i]),
        never_skips(book.last_update_id, s),
    ensures
        apply_in_turn(book, s).last_update_id == reach(book.last_update_id, s),
        forall|p: int|
            0 <= p < s.len() ==> update_result(apply_in_turn(book, s.take(p)), #[trigger] s[p].value)
                is Ok,
    decreases s.len(),
{
    if s.len() > 0 {
        let rest = s.drop_last();
        assert forall|i: int| 0 <= i < rest.len() implies well_formed_update(#[trigger] rest[i]) by {
            assert(rest[i] == s[i]);
        }
        assert forall|p: int| 0 <= p < rest.len() implies #[trigger] rest[p].first_update_id
            <= reach(book.last_update_id, rest.take(p)) + 1 by {
            assert(rest[p] == s[p]);
            assert(rest.take(p) == s.take(p));
        }
        lemma_in_turn_accepts_each(book, rest);
        let n = s.len() - 1;
        assert(s.take(n) == rest);
        assert(s[n] == s.last());
        assert(s[n].first_update_id <= reach(book.last_update_id, s.take(n)) + 1);
        lemma_contiguous_update_accepted(apply_in_turn(book, rest), s.last());
        assert forall|p: int| 0 <= p < s.len() implies update_result(
            apply_in_turn(book, s.take(p)),
            #[trigger] s[p].value,
        ) is Ok by {
            if p < n {
                assert(rest[p] == s[p]);
                assert(rest.take(p) == s.take(p));
            }
        }
    }
}

/// Merging several streams: when the held update and the queue are
/// interleaved, in-order copies of one stream of well-formed events that
/// never skips an event, draining the queue gives the book that folding
/// every update in turn gives (each new event folded in once, in arrival
/// order), and reports that book's id.
pub proof fn lemma_interleaved_copies_fold_each_event_once(
    book: BookView,
    latest: DepthUpdate,
    queue: Seq<DepthUpdate>,
)
    requires
        forall|i: int|
            0 <= i < (seq![latest] + queue).len() ==> well_formed_update(
                #[trigger] (seq![latest] + queue)[i],
            ),
        copies_agree(seq![latest] + queue),
        never_skips(book.last_update_id, seq![latest] + queue),
    ensures
        drain_outcome(book, latest, book.last_update_id, queue) == (
            apply_in_turn(book, seq![latest] + queue),
            Ok::<UpdateId, BookError>(apply_in_turn(book, seq![latest] + queue).last_update_id),
        ),
        apply_in_turn(book, seq![latest] + queue).last_update_id == reach(
            book.last_update_id,
            seq![latest] + queue,
        ),
{
    let msgs = seq![latest] + queue;
    lemma_drain_keeps_in_turn(book, latest, queue);
    lemma_in_turn_accepts_each(book, msgs);
    let s = pick_fold(PickState::Holding { book, latest, current: book.last_update_id }, queue);
    let b = s->Holding_book;
    let l = s->Holding_latest;
    let i = choose|i: int| 0 <= i < msgs.len() && msgs[i] == l;
    assert(well_formed_update(msgs[i]));
    lemma_contiguous_update_accepted(b, l);
}

/// What holds after each queued update is taken: the processor still holds
/// one of the updates, which starts at most one past the book; folding it
/// into the book gives the in-turn book; and the furthest event reached is
/// that of the in-turn fold.
#[verifier::spinoff_prover]
#[verifier::rlimit(50)]
proof fn lemma_drain_keeps_in_turn(book: BookView, latest: DepthUpdate, queue: Seq<DepthUpdate>)
    requires
        forall|i: int|
            0 <= i < (seq![latest] + queue).len() ==> well_formed_update(
                #[trigger] (seq![latest] + queue)[i],
            ),
        copies_agree(seq![latest] + queue),
        never_skips(book.last_update_id, seq![latest] + queue),
    ensures
        ({
            let msgs = seq![latest] + queue;
            let s = pick_fold(PickState::Holding { book, latest, current: book.last_update_id }, queue);
            &&& s is Holding
            &&& s->Holding_book.last_update_id == s->Holding_current
            &&& s->Holding_latest.first_update_id <= s->Holding_current + 1
            &&& max_id(s->Holding_current as int, s->Holding_latest.last_update_id as int) == reach(
                book.last_update_id,
                msgs,
            )
            &&& book_after(s->Holding_book, s->Holding_latest.value) == apply_in_turn(book, msgs)
            &&& exists|i: int| 0 <= i < msgs.len() && msgs[i] == s->Holding_latest
        }),
    decreases queue.len(),
{
    let msgs = seq![latest] + queue;
    let c0 = book.last_update_id;
    if queue.len() == 0 {
        assert(msgs[0] == latest);
        assert(msgs.take(0) == Seq::<DepthUpdate>::empty());
        assert(msgs.drop_last() == Seq::<DepthUpdate>::empty());
        assert(msgs.last() == latest);
        assert(apply_in_turn(book, msgs) == book_after(apply_in_turn(book, msgs.drop_last()), latest.value));
    } else {
        let rest = queue.drop_last();
        let m = queue.last();
        let prev = seq![latest] + rest;
        assert(msgs.drop_last() == prev);
        assert(msgs.last() == m);
        let n = msgs.len() - 1;
        assert(msgs[n] == m);
        assert(msgs.take(n) == prev);
        assert forall|i: int| 0 <= i < prev.len() implies well_formed_update(#[trigger] prev[i]) by {
            assert(prev[i] == msgs[i]);
        }
        assert forall|i: int, j: int|
            0 <= i < prev.len() && 0 <= j < prev.len() && #[trigger] prev[i].first_update_id
                <= #[trigger] prev[j].last_update_id && prev[j].first_update_id
                <= prev[i].last_update_id implies prev[i] == prev[j] by {
            assert(prev[i] == msgs[i]);
            assert(prev[j] == msgs[j]);
        }
        assert forall|p: int| 0 <= p < prev.len() implies #[trigger] prev[p].first_update_id <= reach(
            c0,
            prev.take(p),
        ) + 1 by {
            assert(prev[p] == msgs[p]);
            assert(prev.take(p) == msgs.take(p));
        }
        lemma_drain_keeps_in_turn(book, latest, rest);
        let s = pick_fold(PickState::Holding { book, latest, current: c0 }, rest);
        let b = s->Holding_book;
        let l = s->Holding_latest;
        let c = s->Holding_current;
        let k = choose|i: int| 0 <= i < prev.len() && prev[i] == l;
        assert(msgs[k] == l);
        assert(well_formed_update(m));
        assert(well_formed_update(l));
        assert(m.first_update_id <= reach(c0, msgs.take(n)) + 1);
        lemma_contiguous_update_accepted(b, l);
        let b1 = book_after(b, l.value);
        assert(apply_in_turn(book, msgs) == book_after(apply_in_turn(book, prev), m.value));
        assert(reach(c0, msgs) == max_id(reach(c0, prev), m.last_update_id as int));
        let t = pick_fold(PickState::Holding { book, latest, current: c0 }, queue);
        assert(t == pick_step(s, m));
        if m.first_update_id > c + 1 {
            lemma_contiguous_update_accepted(b1, m);
            assert(t == PickState::Holding { book: b1, latest: m, current: b1.last_update_id });
            assert(msgs[n] == t->Holding_latest);
            assert(b1 == apply_in_turn(book, prev));
            assert(book_after(t->Holding_book, t->Holding_latest.value) == apply_in_turn(book, msgs));
        } else if m.last_update_id > l.last_update_id {
            if l.last_update_id > c {
                assert(msgs[n] == m);
                assert(msgs[k] == msgs[n]);
                assert(false);
            }
            assert(b1 == b);
            assert(t == PickState::Holding { book: b, latest: m, current: c });
            assert(msgs[n] == t->Holding_latest);
            assert(book_after(t->Holding_book, t->Holding_latest.value) == apply_in_turn(book, msgs));
        } else {
            lemma_contiguous_update_accepted(b1, m);
            assert(t == s);
            assert(book_after(b1, m.value) == b1);
            assert(book_after(t->Holding_book, t->Holding_latest.value) == apply_in_turn(book, msgs));
        }
    }
}

/// An update newer than the book that starts after the book's next event
/// is a gap: the processor reports it as such and leaves the book alone.
pub proof fn lemma_gap_is_reported(book: BookView, u: UpdateData)
    requires
        u.last_update_id is Present,
        u.last_update_id->Present_0 > book.last_update_id,
        u.first_update_id is Present,
        u.first_update_id->Present_0 > book.last_update_id + 1,
    ensures
        apply_result(book, u) == Err::<UpdateId, BookError>(
            BookError::Update(DepthUpdateError::InvalidBook),
        ),
        book_after(book, u) == book,
        !passed_over(book, u),
{
}

/// Only a malformed update is passed over: every other refusal comes back
/// unchanged, and an accepted update reports the book's new id.
pub proof fn lemma_only_malformed_is_passed_over(book: BookView, u: UpdateData)
    ensures
        update_result(book, u) == Ok::<(), BookError>(()) ==> apply_result(book, u)
            == Ok::<UpdateId, BookError>(book_after(book, u).last_update_id),
        update_result(book, u) is Err && update_result(book, u)->Err_0 != BookError::Update(
            DepthUpdateError::ParsingError,
        ) ==> apply_result(book, u) == Err::<UpdateId, BookError>(update_result(book, u)->Err_0),
        apply_result(book, u) is Ok ==> (update_result(book, u) is Ok || passed_over(book, u)),
        passed_over(book, u) ==> apply_result(book, u) == Ok::<UpdateId, BookError>(
            book.last_update_id,
        ) && book_after(book, u) == book,
{
}

/// Whenever the next queued update starts after the book's next event, the
/// held update is folded in and the next one is held, whatever either one
/// reaches: an update past a gap is never dropped.
pub proof fn lemma_gap_forces_held_update_in(
    latest_last: u64,
    current_book_id: u64,
    next_first: u64,
    next_last: u64,
)
    requires
        next_first > current_book_id + 1,
    ensures
        pick_spec(latest_last, current_book_id, next_first, next_last)
            == PickAction::ApplyLatestThenHoldNext,
{
}

/// Draining a held update and one queued update that starts beyond every
/// event reached folds the held update in and then reports the gap.
pub proof fn lemma_drain_surfaces_gap(book: BookView, latest: DepthUpdate, next: DepthUpdate)
    requires
        well_formed_update(latest),
        well_formed_update(next),
        latest.first_update_id <= book.last_update_id + 1,
        next.first_update_id <= next.last_update_id,
        next.first_update_id > max_id(
            book.last_update_id as int,
            latest.last_update_id as int,
        ) + 1,
    ensures
        drain_outcome(book, latest, book.last_update_id, seq![next]) == (
            book_after(book, latest.value),
            Err::<UpdateId, BookError>(BookError::Update(DepthUpdateError::InvalidBook)),
        ),
{
    lemma_contiguous_update_accepted(book, latest);
    let b1 = book_after(book, latest.value);
    assert(seq![next].drop_last() == Seq::<DepthUpdate>::empty());
    assert(seq![next].last() == next);
    let h = PickState::Holding { book, latest, current: book.last_update_id };
    assert(pick_fold(h, Seq::<DepthUpdate>::empty()) == h);
    assert(pick_fold(h, seq![next]) == pick_step(h, next));
    assert(pick_step(h, next) == PickState::Holding {
        book: b1,
        latest: next,
        current: b1.last_update_id,
    });
    lemma_gap_is_reported(b1, next.value);
}

/// A snapshot can seed the book once it is no older than the first update
/// received.
pub open spec fn snapshot_fresh(snapshot: Snapshot, first_update: DepthUpdate) -> bool {
    match snapshot.last_update_id {
        JsonField::Present(id) => id >= first_update.first_update_id,
        _ => false,
    }
}

/// Whether the snapshot can seed the book.
pub fn snapshot_is_fresh(snapshot: &Snapshot, first_update: &DepthUpdate) -> (r: bool)
    ensures
        r == snapshot_fresh(*snapshot, *first_update),
{
    match snapshot.last_update_id {
        JsonField::Present(id) => id >= first_update.first_update_id,
        _ => false,
    }
}

/// What one attempt at seeding the book gives.
pub enum InitStep {
    /// The snapshot carries no usable update id: fetch another.
    NoUpdateId,
    /// The snapshot is older than the first update: fetch another.
    Stale,
    /// The snapshot could not be turned into a book.
    Failed(BookError),
    /// The book, and how folding the first update into it went.
    Ready(BookOrder, Result<(), BookError>),
}

/// Tries to seed the book of `symbol` from a snapshot and the first update
/// received.
pub fn init_step(symbol: &str, snapshot: &Snapshot, first_update: &DepthUpdate) -> (r: InitStep)
    requires
        snapshot_fresh(*snapshot, *first_update) ==> !(snapshot_outcome(*snapshot) is Duplicate),
    ensures
        match snapshot.last_update_id {
            JsonField::Present(id) => if id < first_update.first_update_id {
                r is Stale
            } else {
                match snapshot_outcome(*snapshot) {
                    SnapshotOutcome::Book { last_update_id, bids, asks } => {
                        let seeded = BookView { last_update_id, bids, asks, symbol: symbol@ };
                        match r {
                            InitStep::Ready(book, res) => book@ == book_after(
                                seeded,
                                first_update.value,
                            ) && res == update_result(seeded, first_update.value),
                            _ => false,
                        }
                    },
                    SnapshotOutcome::Failed(e) => r == InitStep::Failed(e),
                    SnapshotOutcome::Duplicate => false,
                }
            },
            _ => r is NoUpdateId,
        },
{
    if !snapshot_is_fresh(snapshot, first_update) {
        return match snapshot.last_update_id {
            JsonField::Present(_) => InitStep::Stale,
            _ => InitStep::NoUpdateId,
        };
    }
    let mut book = match BookOrder::new(symbol, snapshot) {
        Ok(b) => b,
        Err(e) => return InitStep::Failed(e),
    };
    let res = book.depth_update(&first_update.value);
    InitStep::Ready(book, res)
}

} // verus!
