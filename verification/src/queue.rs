use vstd::prelude::*;
use crate::event::PhEvent;
use crate::wire::{wire_event, wire_event_text, serializable};

verus! {

/// The queue never retains more rows than this; inserts beyond it evict the
/// oldest rows in the same operation.
pub const MAX_QUEUE_SIZE: usize = 500;

/// A row whose delivery failed this many times is purged instead of retried.
pub const MAX_RETRY_COUNT: i64 = 5;

/// How many eligible rows one flush pass attempts at most.
pub const FLUSH_BATCH_SIZE: usize = 50;

/// The fixed timeout, in seconds, applied to every delivery attempt.
pub const HTTP_TIMEOUT_SECS: u64 = 10;

/// One pending event, as the durable store holds it.
pub struct QueuedEvent {
    /// Unique, assigned by the store on insert in increasing order, never reused.
    pub id: i64,
    /// The serialized event, spliced verbatim into a later delivery body.
    pub event_json: String,
    /// Insertion time in milliseconds since the epoch; the ordering key for
    /// eviction and retry selection.
    pub created_at: i64,
    /// How many failed delivery attempts have included this row.
    pub retry_count: i64,
}

/// The mathematical value of one stored row.
pub ghost struct RowModel {
    pub id: int,
    pub event_json: Seq<char>,
    pub created_at: int,
    pub retry_count: int,
}

impl View for QueuedEvent {
    type V = RowModel;

    open spec fn view(&self) -> RowModel {
        RowModel {
            id: self.id as int,
            event_json: self.event_json@,
            created_at: self.created_at as int,
            retry_count: self.retry_count as int,
        }
    }
}

/// The values of a whole row sequence.
pub open spec fn models(s: Seq<QueuedEvent>) -> Seq<RowModel> {
    Seq::new(s.len(), |k: int| s[k]@)
}

/// Age order: older insertion time first, ties broken by the smaller id.
pub open spec fn row_lt(a: RowModel, b: RowModel) -> bool {
    a.created_at < b.created_at || (a.created_at == b.created_at && a.id < b.id)
}

/// The rows stand oldest first.
pub open spec fn rows_ordered(s: Seq<RowModel>) -> bool {
    forall|i: int, j: int| 0 <= i < j < s.len() ==> #[trigger] row_lt(s[i], s[j])
}

/// No id occurs twice.
pub open spec fn ids_unique(s: Seq<RowModel>) -> bool {
    forall|i: int, j: int| 0 <= i < j < s.len() ==> #[trigger] s[i].id != #[trigger] s[j].id
}

/// Every id was assigned below the store's next free id.
pub open spec fn ids_below(s: Seq<RowModel>, next_id: int) -> bool {
    forall|i: int| 0 <= i < s.len() ==> 0 <= #[trigger] s[i].id < next_id
}

/// No live row has spent more than the ceiling of failed attempts.
pub open spec fn retries_bounded(s: Seq<RowModel>) -> bool {
    forall|i: int| 0 <= i < s.len() ==> 0 <= #[trigger] s[i].retry_count <= MAX_RETRY_COUNT
}

/// Whether the id set drawn for one flush pass covers this id.
pub open spec fn ids_contain(ids: Seq<i64>, id: int) -> bool {
    exists|k: int| 0 <= k < ids.len() && ids[k] == id
}

/// The durable queue of pending events, modelled as the row sequence the
/// persistent table holds, oldest first. All mutations go through a single
/// logical writer; the host serializes calls into this store.
pub struct QueueStore {
    pub rows: Vec<QueuedEvent>,
    pub next_id: i64,
}

impl View for QueueStore {
    type V = Seq<RowModel>;

    open spec fn view(&self) -> Seq<RowModel> {
        models(self.rows@)
    }
}

impl QueueStore {
    /// The store's invariant: capped size, age order, unique bounded ids,
    /// retry counts within the ceiling.
    pub open spec fn wf(self) -> bool {
        &&& self@.len() <= MAX_QUEUE_SIZE
        &&& rows_ordered(self@)
        &&& ids_unique(self@)
        &&& ids_below(self@, self.next_id as int)
        &&& retries_bounded(self@)
        &&& 1 <= self.next_id
    }

    /// A fresh, empty store.
    pub fn new() -> (q: QueueStore)
        ensures
            q.wf(),
            q@ == Seq::<RowModel>::empty(),
            q.next_id == 1,
    {
        let q = QueueStore { rows: Vec::new(), next_id: 1 };
        proof {
            assert(q@ =~= Seq::<RowModel>::empty());
        }
        q
    }

    /// How many rows the store currently holds.
    pub fn len(&self) -> (n: usize)
        ensures
            n == self@.len(),
    {
        self.rows.len()
    }
}

/// The rows still eligible for a delivery attempt: retry budget left.
pub open spec fn eligible_rows(s: Seq<RowModel>) -> Seq<RowModel>
    decreases s.len(),
{
    if s.len() == 0 {
        Seq::empty()
    } else if s.last().retry_count < MAX_RETRY_COUNT {
        eligible_rows(s.drop_last()).push(s.last())
    } else {
        eligible_rows(s.drop_last())
    }
}

/// The rows left after deleting exactly the rows with the given ids.
pub open spec fn rows_without(s: Seq<RowModel>, ids: Seq<i64>) -> Seq<RowModel>
    decreases s.len(),
{
    if s.len() == 0 {
        Seq::empty()
    } else if !ids_contain(ids, s.last().id) {
        rows_without(s.drop_last(), ids).push(s.last())
    } else {
        rows_without(s.drop_last(), ids)
    }
}

/// Whether a row is purged by a failure pass over the given ids: it was part
/// of the attempt and its retry budget is spent.
pub open spec fn exhausted_among(r: RowModel, ids: Seq<i64>) -> bool {
    ids_contain(ids, r.id) && r.retry_count >= MAX_RETRY_COUNT
}

/// The rows left after purging, among the given ids, those out of retries.
pub open spec fn rows_after_purge(s: Seq<RowModel>, ids: Seq<i64>) -> Seq<RowModel>
    decreases s.len(),
{
    if s.len() == 0 {
        Seq::empty()
    } else if !exhausted_among(s.last(), ids) {
        rows_after_purge(s.drop_last(), ids).push(s.last())
    } else {
        rows_after_purge(s.drop_last(), ids)
    }
}

/// One row after a failure pass over the given ids charged it one attempt.
pub open spec fn bump_row(r: RowModel, ids: Seq<i64>) -> RowModel {
    if ids_contain(ids, r.id) && r.retry_count < MAX_RETRY_COUNT {
        RowModel { retry_count: r.retry_count + 1, ..r }
    } else {
        r
    }
}

/// The whole sequence after a failure pass charged the given ids one attempt.
pub open spec fn rows_bumped(s: Seq<RowModel>, ids: Seq<i64>) -> Seq<RowModel> {
    Seq::new(s.len(), |k: int| bump_row(s[k], ids))
}

/// Structural facts about `eligible_rows`: it is no longer than its source,
/// every kept row has retry budget left, every kept row stands in the source,
/// and age order and id uniqueness carry over.
pub proof fn lemma_eligible_rows_props(s: Seq<RowModel>)
    ensures
        eligible_rows(s).len() <= s.len(),
        forall|k: int| 0 <= k < eligible_rows(s).len()
            ==> (#[trigger] eligible_rows(s)[k]).retry_count < MAX_RETRY_COUNT,
        forall|k: int| 0 <= k < eligible_rows(s).len()
            ==> exists|j: int| 0 <= j < s.len() && s[j] == #[trigger] eligible_rows(s)[k],
        rows_ordered(s) && ids_unique(s) ==> rows_ordered(eligible_rows(s)) && ids_unique(
            eligible_rows(s),
        ),
    decreases s.len(),
{
    if s.len() > 0 {
        lemma_eligible_rows_props(s.drop_last());
        assert(forall|k: int| 0 <= k < eligible_rows(s.drop_last()).len()
            ==> exists|j: int| 0 <= j < s.len() && s[j] == #[trigger] eligible_rows(
            s.drop_last(),
        )[k]) by {
            assert(forall|j: int| 0 <= j < s.drop_last().len() ==> #[trigger] s.drop_last()[j]
                == s[j]);
        }
    }
}

/// Structural facts about `rows_without`, as for `eligible_rows`.
pub proof fn lemma_rows_without_props(s: Seq<RowModel>, ids: Seq<i64>)
    ensures
        rows_without(s, ids).len() <= s.len(),
        forall|k: int| 0 <= k < rows_without(s, ids).len() ==> !ids_contain(
            ids,
            (#[trigger] rows_without(s, ids)[k]).id,
        ),
        forall|k: int| 0 <= k < rows_without(s, ids).len()
            ==> exists|j: int| 0 <= j < s.len() && s[j] == #[trigger] rows_without(s, ids)[k],
        rows_ordered(s) && ids_unique(s) ==> rows_ordered(rows_without(s, ids)) && ids_unique(
            rows_without(s, ids),
        ),
    decreases s.len(),
{
    if s.len() > 0 {
        lemma_rows_without_props(s.drop_last(), ids);
        assert(forall|k: int| 0 <= k < rows_without(s.drop_last(), ids).len()
            ==> exists|j: int| 0 <= j < s.len() && s[j] == #[trigger] rows_without(
            s.drop_last(),
            ids,
        )[k]) by {
            assert(forall|j: int| 0 <= j < s.drop_last().len() ==> #[trigger] s.drop_last()[j]
                == s[j]);
        }
    }
}

/// Structural facts about `rows_after_purge`, as for `eligible_rows`.
pub proof fn lemma_rows_after_purge_props(s: Seq<RowModel>, ids: Seq<i64>)
    ensures
        rows_after_purge(s, ids).len() <= s.len(),
        forall|k: int| 0 <= k < rows_after_purge(s, ids).len() ==> !exhausted_among(
            #[trigger] rows_after_purge(s, ids)[k],
            ids,
        ),
        forall|k: int| 0 <= k < rows_after_purge(s, ids).len()
            ==> exists|j: int| 0 <= j < s.len() && s[j] == #[trigger] rows_after_purge(s, ids)[k],
        rows_ordered(s) && ids_unique(s) ==> rows_ordered(rows_after_purge(s, ids)) && ids_unique(
            rows_after_purge(s, ids),
        ),
    decreases s.len(),
{
    if s.len() > 0 {
        lemma_rows_after_purge_props(s.drop_last(), ids);
        assert(forall|k: int| 0 <= k < rows_after_purge(s.drop_last(), ids).len()
            ==> exists|j: int| 0 <= j < s.len() && s[j] == #[trigger] rows_after_purge(
            s.drop_last(),
            ids,
        )[k]) by {
            assert(forall|j: int| 0 <= j < s.drop_last().len() ==> #[trigger] s.drop_last()[j]
                == s[j]);
        }
    }
}

impl QueueStore {
    /// Removes exactly the rows whose id stands in `ids`; used after a
    /// delivery attempt that the remote end confirmed.
    pub fn delete_ids(&mut self, ids: &Vec<i64>)
        requires
            old(self).wf(),
        ensures
            final(self).wf(),
            final(self)@ == rows_without(old(self)@, ids@),
            final(self).next_id == old(self).next_id,
    {
        let ghost orig = self@;
        let mut kept: Vec<QueuedEvent> = Vec::new();
        let mut i: usize = 0;
        while i < self.rows.len()
            invariant
                orig == models(self.rows@),
                i <= self.rows@.len(),
                models(kept@) == rows_without(orig.take(i as int), ids@),
            decreases self.rows@.len() - i,
        {
            let r = &self.rows[i];
            let keep = !has_id(ids, r.id);
            if keep {
                kept.push(clone_row(r));
            }
            proof {
                assert(orig.take(i as int + 1).drop_last() =~= orig.take(i as int));
                assert(orig.take(i as int + 1).last() == orig[i as int]);
                assert(orig[i as int] == self.rows@[i as int]@);
                if keep {
                    assert(models(kept@) =~= rows_without(orig.take(i as int), ids@).push(
                        orig[i as int],
                    ));
                }
                assert(models(kept@) == rows_without(orig.take(i as int + 1), ids@));
            }
            i += 1;
        }
        proof {
            assert(orig.take(orig.len() as int) =~= orig);
            lemma_rows_without_props(orig, ids@);
        }
        self.rows = kept;
    }

    /// Charges one failed attempt to exactly the rows whose id stands in
    /// `ids`; a row already at the ceiling is left as it is.
    pub fn increment_retry(&mut self, ids: &Vec<i64>)
        requires
            old(self).wf(),
        ensures
            final(self).wf(),
            final(self)@ == rows_bumped(old(self)@, ids@),
            final(self).next_id == old(self).next_id,
    {
        let ghost orig = self@;
        let mut out: Vec<QueuedEvent> = Vec::new();
        let mut i: usize = 0;
        while i < self.rows.len()
            invariant
                orig == models(self.rows@),
                i <= self.rows@.len(),
                models(out@) =~= rows_bumped(orig, ids@).take(i as int),
                retries_bounded(orig),
            decreases self.rows@.len() - i,
        {
            let r = &self.rows[i];
            let hit = has_id(ids, r.id);
            proof {
                assert(models(out@).len() == out@.len());
                assert(rows_bumped(orig, ids@).len() == orig.len());
                assert(rows_bumped(orig, ids@).take(i as int).len() == i as int);
                assert(out@.len() == i as int);
            }
            if hit && r.retry_count < MAX_RETRY_COUNT {
                out.push(
                    QueuedEvent {
                        id: r.id,
                        event_json: clone_string(&r.event_json),
                        created_at: r.created_at,
                        retry_count: r.retry_count + 1,
                    },
                );
            } else {
                out.push(clone_row(r));
            }
            proof {
                assert(orig[i as int] == self.rows@[i as int]@);
                assert(out@.len() == i as int + 1);
                assert(out@[i as int]@ == bump_row(orig[i as int], ids@));
                assert(forall|k: int| 0 <= k < i ==> #[trigger] models(out@)[k] == rows_bumped(
                    orig,
                    ids@,
                ).take(i as int)[k]);
                assert(models(out@) =~= rows_bumped(orig, ids@).take(i as int + 1));
            }
            i += 1;
        }
        proof {
            assert(rows_bumped(orig, ids@).take(orig.len() as int) =~= rows_bumped(orig, ids@));
            assert(forall|a: int, b: int| 0 <= a < b < orig.len() ==> #[trigger] row_lt(
                rows_bumped(orig, ids@)[a],
                rows_bumped(orig, ids@)[b],
            ) == row_lt(orig[a], orig[b]));
        }
        self.rows = out;
    }

    /// Deletes, among the rows whose id stands in `ids`, those whose retry
    /// budget is spent; called right after `increment_retry` in a failure pass.
    pub fn purge_exhausted(&mut self, ids: &Vec<i64>)
        requires
            old(self).wf(),
        ensures
            final(self).wf(),
            final(self)@ == rows_after_purge(old(self)@, ids@),
            final(self).next_id == old(self).next_id,
    {
        let ghost orig = self@;
        let mut kept: Vec<QueuedEvent> = Vec::new();
        let mut i: usize = 0;
        while i < self.rows.len()
            invariant
                orig == models(self.rows@),
                i <= self.rows@.len(),
                models(kept@) == rows_after_purge(orig.take(i as int), ids@),
            decreases self.rows@.len() - i,
        {
            let r = &self.rows[i];
            let hit = has_id(ids, r.id);
            let keep = !(hit && r.retry_count >= MAX_RETRY_COUNT);
            if keep {
                kept.push(clone_row(r));
            }
            proof {
                assert(orig.take(i as int + 1).drop_last() =~= orig.take(i as int));
                assert(orig.take(i as int + 1).last() == orig[i as int]);
                assert(orig[i as int] == self.rows@[i as int]@);
                if keep {
                    assert(models(kept@) =~= rows_after_purge(orig.take(i as int), ids@).push(
                        orig[i as int],
                    ));
                }
                assert(models(kept@) == rows_after_purge(orig.take(i as int + 1), ids@));
            }
            i += 1;
        }
        proof {
            assert(orig.take(orig.len() as int) =~= orig);
            lemma_rows_after_purge_props(orig, ids@);
        }
        self.rows = kept;
    }

    /// Returns up to `limit` rows that still have retry budget, oldest first.
    /// A pure read: the store is unchanged.
    pub fn select_eligible(&self, limit: usize) -> (sel: Vec<QueuedEvent>)
        requires
            self.wf(),
        ensures
            models(sel@) == selected_rows(self@, limit as int),
            forall|k: int| 0 <= k < sel@.len() ==> (#[trigger] sel@[k]).retry_count
                < MAX_RETRY_COUNT,
    {
        let ghost orig = self@;
        let mut sel: Vec<QueuedEvent> = Vec::new();
        let mut i: usize = 0;
        while i < self.rows.len()
            invariant
                orig == models(self.rows@),
                i <= self.rows@.len(),
                models(sel@) == selected_rows(orig.take(i as int), limit as int),
                sel@.len() <= limit,
                forall|k: int| 0 <= k < sel@.len() ==> (#[trigger] sel@[k]).retry_count
                    < MAX_RETRY_COUNT,
            decreases self.rows@.len() - i,
        {
            let r = &self.rows[i];
            let ghost el = eligible_rows(orig.take(i as int));
            proof {
                assert(orig.take(i as int + 1).drop_last() =~= orig.take(i as int));
                assert(orig.take(i as int + 1).last() == orig[i as int]);
                assert(orig[i as int] == self.rows@[i as int]@);
                lemma_eligible_rows_props(orig.take(i as int));
            }
            proof {
                assert(models(sel@).len() == sel@.len());
                assert(sel@.len() == selected_rows(orig.take(i as int), limit as int).len());
            }
            if r.retry_count < MAX_RETRY_COUNT && sel.len() < limit {
                proof {
                    assert(selected_rows(orig.take(i as int), limit as int).len() < limit);
                    assert(el.len() < limit);
                    assert(models(sel@) == el);
                }
                sel.push(clone_row(r));
                proof {
                    assert(eligible_rows(orig.take(i as int + 1)) == el.push(orig[i as int]));
                    assert(models(sel@) =~= selected_rows(orig.take(i as int), limit as int).push(
                        orig[i as int],
                    ));
                    assert(selected_rows(orig.take(i as int + 1), limit as int) =~= models(sel@));
                }
            } else {
                proof {
                    if r.retry_count < MAX_RETRY_COUNT {
                        assert(eligible_rows(orig.take(i as int + 1)) == el.push(orig[i as int]));
                        assert(el.len() >= limit);
                        assert(selected_rows(orig.take(i as int + 1), limit as int) =~= models(
                            sel@,
                        ));
                    } else {
                        assert(eligible_rows(orig.take(i as int + 1)) == el);
                    }
                }
            }
            i += 1;
        }
        proof {
            assert(orig.take(orig.len() as int) =~= orig);
        }
        sel
    }
}

/// The slice of eligible rows one flush pass works on: the oldest eligible
/// rows, up to the limit.
pub open spec fn selected_rows(s: Seq<RowModel>, limit: int) -> Seq<RowModel> {
    let el = eligible_rows(s);
    if el.len() > limit {
        el.take(limit)
    } else {
        el
    }
}

/// Whether the id set drawn for a pass covers the given id: a linear scan.
pub fn has_id(ids: &Vec<i64>, id: i64) -> (r: bool)
    ensures
        r == ids_contain(ids@, id as int),
{
    let mut i: usize = 0;
    while i < ids.len()
        invariant
            i <= ids@.len(),
            forall|k: int| 0 <= k < i ==> ids@[k] != id,
        decreases ids@.len() - i,
    {
        if ids[i] == id {
            return true;
        }
        i += 1;
    }
    false
}

/// An exact copy of one stored row.
fn clone_row(r: &QueuedEvent) -> (c: QueuedEvent)
    ensures
        c@ == r@,
{
    QueuedEvent {
        id: r.id,
        event_json: clone_string(&r.event_json),
        created_at: r.created_at,
        retry_count: r.retry_count,
    }
}

/// An exact copy of a string.
pub(crate) fn clone_string(s: &String) -> (c: String)
    ensures
        c@ == s@,
{
    s.clone()
}


/// How many events of a batch can be serialized and therefore persisted.
pub open spec fn inserted_count(evs: Seq<PhEvent>) -> int
    decreases evs.len(),
{
    if evs.len() == 0 {
        0
    } else {
        inserted_count(evs.drop_last()) + if serializable(evs.last()) {
            1int
        } else {
            0int
        }
    }
}

pub proof fn lemma_inserted_count_bounds(evs: Seq<PhEvent>)
    ensures
        0 <= inserted_count(evs) <= evs.len(),
    decreases evs.len(),
{
    if evs.len() > 0 {
        lemma_inserted_count_bounds(evs.drop_last());
    }
}

/// The rows one batch adds: one per serializable event, in batch order, with
/// consecutive ids from `first_id` and a shared insertion time.
pub open spec fn new_rows(evs: Seq<PhEvent>, now_ms: int, first_id: int) -> Seq<RowModel>
    decreases evs.len(),
{
    if evs.len() == 0 {
        Seq::empty()
    } else {
        let rest = new_rows(evs.drop_last(), now_ms, first_id);
        if serializable(evs.last()) {
            rest.push(
                RowModel {
                    id: first_id + inserted_count(evs.drop_last()),
                    event_json: wire_event_text(evs.last()),
                    created_at: now_ms,
                    retry_count: 0,
                },
            )
        } else {
            rest
        }
    }
}

/// Where a batch inserted at `now_ms` goes in an age-ordered sequence: right
/// after every row that is not younger than the batch.
pub open spec fn insert_pos(s: Seq<RowModel>, now_ms: int) -> int
    decreases s.len(),
{
    if s.len() == 0 {
        0
    } else if s.last().created_at <= now_ms {
        s.len() as int
    } else {
        insert_pos(s.drop_last(), now_ms)
    }
}

/// The store's rows after one enqueue: the batch's rows merged at their age
/// position, then the oldest rows beyond the cap evicted, all in the same
/// logical operation.
pub open spec fn enqueue_result(
    s: Seq<RowModel>,
    evs: Seq<PhEvent>,
    now_ms: int,
    first_id: int,
) -> Seq<RowModel> {
    let p = insert_pos(s, now_ms);
    let merged = s.take(p) + new_rows(evs, now_ms, first_id) + s.skip(p);
    if merged.len() > MAX_QUEUE_SIZE {
        merged.skip(merged.len() - MAX_QUEUE_SIZE)
    } else {
        merged
    }
}


/// Merging a batch of same-age rows with fresh consecutive ids at its age
/// position preserves every part of the store invariant but the cap.
proof fn lemma_merge_wf(
    orig: Seq<RowModel>,
    nm: Seq<RowModel>,
    p: int,
    now: int,
    first_id: int,
    next: int,
)
    requires
        rows_ordered(orig),
        ids_unique(orig),
        ids_below(orig, first_id),
        retries_bounded(orig),
        0 <= p <= orig.len(),
        forall|k: int| 0 <= k < p ==> (#[trigger] orig[k]).created_at <= now,
        forall|k: int| p <= k < orig.len() ==> (#[trigger] orig[k]).created_at > now,
        forall|k: int| 0 <= k < nm.len() ==> (#[trigger] nm[k]).id == first_id + k
            && nm[k].created_at == now && nm[k].retry_count == 0,
        next >= first_id + nm.len(),
        first_id >= 1,
    ensures
        rows_ordered(orig.take(p) + nm + orig.skip(p)),
        ids_unique(orig.take(p) + nm + orig.skip(p)),
        ids_below(orig.take(p) + nm + orig.skip(p), next),
        retries_bounded(orig.take(p) + nm + orig.skip(p)),
{
    let m = orig.take(p) + nm + orig.skip(p);
    assert(m.len() == orig.len() + nm.len());
    assert(forall|x: int| 0 <= x < p ==> #[trigger] m[x] == orig[x]);
    assert(forall|x: int| p <= x < p + nm.len() ==> #[trigger] m[x] == nm[x - p]);
    assert(forall|x: int| p + nm.len() <= x < m.len() ==> #[trigger] m[x] == orig[x - nm.len()]);
    assert forall|a: int, b: int| 0 <= a < b < m.len() implies row_lt(m[a], m[b]) by {
        if a < p {
            if b < p {
                assert(row_lt(orig[a], orig[b]));
            } else if b >= p + nm.len() {
                assert(row_lt(orig[a], orig[b - nm.len()]));
            }
        } else if a >= p + nm.len() {
            assert(row_lt(orig[a - nm.len()], orig[b - nm.len()]));
        }
    }
    assert forall|a: int, b: int| 0 <= a < b < m.len() implies m[a].id != m[b].id by {
        if a < p {
            if b < p {
                assert(orig[a].id != orig[b].id);
            } else if b >= p + nm.len() {
                assert(orig[a].id != orig[b - nm.len()].id);
            }
        } else if a >= p + nm.len() {
            assert(orig[a - nm.len()].id != orig[b - nm.len()].id);
        }
    }
}

/// Evicting a prefix keeps the remaining rows well formed.
proof fn lemma_skip_preserves(s: Seq<RowModel>, d: int, next: int)
    requires
        0 <= d <= s.len(),
        rows_ordered(s),
        ids_unique(s),
        ids_below(s, next),
        retries_bounded(s),
    ensures
        rows_ordered(s.skip(d)),
        ids_unique(s.skip(d)),
        ids_below(s.skip(d), next),
        retries_bounded(s.skip(d)),
{
    assert(forall|x: int| 0 <= x < s.skip(d).len() ==> #[trigger] s.skip(d)[x] == s[d + x]);
}

/// Serializes a batch, assigning consecutive ids from `first` and a shared
/// insertion time; an event that cannot be serialized is dropped, and so is
/// one for which no id is left.
fn serialize_batch(events: &Vec<PhEvent>, first: i64, now_ms: i64) -> (fresh: Vec<QueuedEvent>)
    requires
        1 <= first,
    ensures
        fresh@.len() <= events@.len(),
        first + fresh@.len() <= i64::MAX,
        forall|k: int| 0 <= k < fresh@.len() ==> (#[trigger] fresh@[k])@.id == first + k
            && fresh@[k]@.created_at == now_ms as int && fresh@[k]@.retry_count == 0,
        first + events@.len() <= i64::MAX ==> models(fresh@) == new_rows(
            events@,
            now_ms as int,
            first as int,
        ) && fresh@.len() == inserted_count(events@),
{
    let ghost ok = first as int + events@.len() <= i64::MAX;
    let mut fresh: Vec<QueuedEvent> = Vec::new();
    let mut next: i64 = first;
    let mut i: usize = 0;
    while i < events.len()
        invariant
            1 <= first,
            i <= events@.len(),
            ok == (first as int + events@.len() <= i64::MAX),
            first as int <= next as int <= i64::MAX,
            next as int == first as int + fresh@.len(),
            fresh@.len() <= i,
            forall|k: int| 0 <= k < fresh@.len() ==> (#[trigger] fresh@[k])@.id == first + k
                && fresh@[k]@.created_at == now_ms as int && fresh@[k]@.retry_count == 0,
            ok ==> models(fresh@) == new_rows(events@.take(i as int), now_ms as int, first as int)
                && fresh@.len() == inserted_count(events@.take(i as int)),
        decreases events@.len() - i,
    {
        proof {
            assert(events@.take(i as int + 1).drop_last() =~= events@.take(i as int));
            assert(events@.take(i as int + 1).last() == events@[i as int]);
            lemma_inserted_count_bounds(events@.take(i as int));
        }
        let can_assign = next < i64::MAX;
        match wire_event(&events[i]) {
            Option::Some(text) => {
                if can_assign {
                    let row = QueuedEvent {
                        id: next,
                        event_json: text,
                        created_at: now_ms,
                        retry_count: 0,
                    };
                    fresh.push(row);
                    next = next + 1;
                    proof {
                        if ok {
                            assert(models(fresh@) =~= new_rows(
                                events@.take(i as int + 1),
                                now_ms as int,
                                first as int,
                            ));
                        }
                    }
                } else {
                    // The id space is spent: the insert fails, the event is dropped.
                    proof {
                        assert(!ok);
                    }
                }
            },
            Option::None => {
                proof {
                    if ok {
                        assert(models(fresh@) == new_rows(
                            events@.take(i as int + 1),
                            now_ms as int,
                            first as int,
                        ));
                    }
                }
            },
        }
        i += 1;
    }
    proof {
        assert(events@.take(events@.len() as int) =~= events@);
    }
    fresh
}

/// The age position of a batch inserted at `now_ms`: right after every row
/// that is not younger.
fn find_insert_pos(rows: &Vec<QueuedEvent>, now_ms: i64) -> (p: usize)
    requires
        rows_ordered(models(rows@)),
    ensures
        p <= rows@.len(),
        p as int == insert_pos(models(rows@), now_ms as int),
        forall|k: int| 0 <= k < p ==> (#[trigger] models(rows@)[k]).created_at <= now_ms as int,
        forall|k: int| p <= k < rows@.len() ==> (#[trigger] models(rows@)[k]).created_at
            > now_ms as int,
{
    let ghost orig = models(rows@);
    proof {
        assert(orig.take(orig.len() as int) =~= orig);
    }
    let mut p: usize = rows.len();
    while p > 0 && rows[p - 1].created_at > now_ms
        invariant
            p <= orig.len(),
            orig == models(rows@),
            insert_pos(orig, now_ms as int) == insert_pos(orig.take(p as int), now_ms as int),
            forall|k: int| p <= k < orig.len() ==> (#[trigger] orig[k]).created_at > now_ms as int,
        decreases p,
    {
        proof {
            assert(orig.take(p as int).last() == orig[p as int - 1]);
            assert(orig.take(p as int).drop_last() =~= orig.take(p as int - 1));
            assert(orig[p as int - 1] == rows@[p as int - 1]@);
        }
        p -= 1;
    }
    proof {
        if p > 0 {
            assert(orig.take(p as int).last() == orig[p as int - 1]);
            assert(orig[p as int - 1] == rows@[p as int - 1]@);
            assert(insert_pos(orig.take(p as int), now_ms as int) == p);
        } else {
            assert(insert_pos(orig.take(0), now_ms as int) == 0);
        }
        assert forall|k: int| 0 <= k < p implies (#[trigger] orig[k]).created_at
            <= now_ms as int by {
            assert(orig[p as int - 1] == rows@[p as int - 1]@);
            if k < p - 1 {
                assert(row_lt(orig[k], orig[p as int - 1]));
            }
        }
    }
    p
}

/// The rows with a batch spliced in at position `p`.
fn merge_rows(rows: &Vec<QueuedEvent>, p: usize, fresh: &Vec<QueuedEvent>) -> (out: Vec<
    QueuedEvent,
>)
    requires
        p <= rows@.len(),
    ensures
        models(out@) == models(rows@).take(p as int) + models(fresh@) + models(rows@).skip(
            p as int,
        ),
{
    let mut out: Vec<QueuedEvent> = Vec::new();
    let mut k: usize = 0;
    while k < p
        invariant
            k <= p <= rows@.len(),
            out@.len() == k,
            forall|j: int| 0 <= j < k ==> (#[trigger] out@[j])@ == rows@[j]@,
        decreases p - k,
    {
        out.push(clone_row(&rows[k]));
        k += 1;
    }
    let mut k2: usize = 0;
    while k2 < fresh.len()
        invariant
            p <= rows@.len(),
            k2 <= fresh@.len(),
            out@.len() == p + k2,
            forall|j: int| 0 <= j < p ==> (#[trigger] out@[j])@ == rows@[j]@,
            forall|j: int| p <= j < p + k2 ==> (#[trigger] out@[j])@ == fresh@[j - p]@,
        decreases fresh@.len() - k2,
    {
        out.push(clone_row(&fresh[k2]));
        k2 += 1;
    }
    let mut k3: usize = p;
    while k3 < rows.len()
        invariant
            p <= k3 <= rows@.len(),
            out@.len() == fresh@.len() + k3,
            forall|j: int| 0 <= j < p ==> (#[trigger] out@[j])@ == rows@[j]@,
            forall|j: int| p <= j < p + fresh@.len() ==> (#[trigger] out@[j])@ == fresh@[j - p]@,
            forall|j: int| p + fresh@.len() <= j < fresh@.len() + k3 ==> (#[trigger] out@[j])@
                == rows@[j - fresh@.len()]@,
        decreases rows@.len() - k3,
    {
        out.push(clone_row(&rows[k3]));
        k3 += 1;
    }
    proof {
        assert(models(out@) =~= models(rows@).take(p as int) + models(fresh@) + models(
            rows@,
        ).skip(p as int));
    }
    out
}

/// The rows with the `d` oldest removed.
fn drop_oldest(rows: &Vec<QueuedEvent>, d: usize) -> (out: Vec<QueuedEvent>)
    requires
        d <= rows@.len(),
    ensures
        models(out@) == models(rows@).skip(d as int),
{
    let mut out: Vec<QueuedEvent> = Vec::new();
    let mut k: usize = d;
    while k < rows.len()
        invariant
            d <= k <= rows@.len(),
            out@.len() == k - d,
            forall|j: int| 0 <= j < k - d ==> (#[trigger] out@[j])@ == rows@[d + j]@,
        decreases rows@.len() - k,
    {
        out.push(clone_row(&rows[k]));
        k += 1;
    }
    proof {
        assert(models(out@) =~= models(rows@).skip(d as int));
    }
    out
}

impl QueueStore {
    /// Persists a batch: serializes each event independently (an event that
    /// cannot be serialized is dropped, it does not fail the batch), inserts
    /// the rest with a shared insertion time and fresh consecutive ids, and
    /// evicts the oldest rows beyond the cap in the same operation. Returns
    /// how many rows were persisted.
    pub fn enqueue(&mut self, events: &Vec<PhEvent>, now_ms: i64) -> (n: usize)
        requires
            old(self).wf(),
        ensures
            final(self).wf(),
            final(self)@.len() <= MAX_QUEUE_SIZE,
            n <= events@.len(),
            final(self).next_id == old(self).next_id + n,
            old(self).next_id + events@.len() <= i64::MAX ==> n == inserted_count(events@),
            old(self).next_id + events@.len() <= i64::MAX ==> final(self)@ == enqueue_result(
                old(self)@,
                events@,
                now_ms as int,
                old(self).next_id as int,
            ),
    {
        let ghost orig = self@;
        let ghost first_id = self.next_id as int;
        let ghost ok = first_id + events@.len() <= i64::MAX;

        let fresh = serialize_batch(events, self.next_id, now_ms);
        let n = fresh.len();
        let ghost nm = models(fresh@);
        self.next_id = self.next_id + (n as i64);

        let p = find_insert_pos(&self.rows, now_ms);
        let merged_vec = merge_rows(&self.rows, p, &fresh);
        let ghost merged = models(merged_vec@);
        proof {
            lemma_merge_wf(
                orig,
                nm,
                p as int,
                now_ms as int,
                first_id,
                self.next_id as int,
            );
        }
        let total = merged_vec.len();
        let d: usize = if total > MAX_QUEUE_SIZE {
            total - MAX_QUEUE_SIZE
        } else {
            0
        };
        let kept = drop_oldest(&merged_vec, d);
        self.rows = kept;
        proof {
            lemma_skip_preserves(merged, d as int, self.next_id as int);
            if ok {
                assert(nm == new_rows(events@, now_ms as int, first_id));
                assert(self@ == enqueue_result(orig, events@, now_ms as int, first_id));
            }
        }
        n
    }
}

} // verus!
