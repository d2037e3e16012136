use vstd::prelude::*;
use vstd::string::*;
use crate::event::{BatchPayload, BatchResult, Outcome, PhEvent};
use crate::queue::{
    clone_string, enqueue_result, inserted_count, lemma_eligible_rows_props,
    lemma_rows_after_purge_props, lemma_rows_without_props, models, rows_after_purge, rows_bumped,
    rows_without, selected_rows, eligible_rows, exhausted_among, ids_contain, ids_unique,
    QueueStore, RowModel, FLUSH_BATCH_SIZE, MAX_RETRY_COUNT,
};
use crate::wire::{batch_body, batch_body_text, check_json_text, is_json_text, string_views,
    wire_event, wire_texts};

verus! {

/// The telemetry context the host constructs once at process start and tears
/// down at process exit: the durable queue and the fixed ingestion host.
pub struct TelemetryState {
    pub queue: QueueStore,
    pub api_host: String,
}

impl TelemetryState {
    /// A fresh context for the given ingestion host, with an empty queue.
    pub fn new(api_host: String) -> (s: TelemetryState)
        ensures
            s.queue.wf(),
            s.queue@ == Seq::<RowModel>::empty(),
            s.api_host@ == api_host@,
    {
        TelemetryState { queue: QueueStore::new(), api_host }
    }
}

/// A stored row can still be put into a delivery body exactly when its text
/// is one well-formed JSON value; a corrupted row is skipped, but stays
/// subject to the shared retry accounting of the pass that selected it.
pub open spec fn deliverable(r: RowModel) -> bool {
    is_json_text(r.event_json)
}

/// The deliverable rows of a selected slice, in age order.
pub open spec fn deliverable_rows(s: Seq<RowModel>) -> Seq<RowModel>
    decreases s.len(),
{
    if s.len() == 0 {
        Seq::empty()
    } else if deliverable(s.last()) {
        deliverable_rows(s.drop_last()).push(s.last())
    } else {
        deliverable_rows(s.drop_last())
    }
}

/// The stored texts of a row slice, in order.
pub open spec fn texts_of(s: Seq<RowModel>) -> Seq<Seq<char>> {
    Seq::new(s.len(), |k: int| s[k].event_json)
}

/// Whether an id list names exactly the rows of a slice, in order.
pub open spec fn ids_match(ids: Seq<i64>, s: Seq<RowModel>) -> bool {
    ids.len() == s.len() && forall|k: int| 0 <= k < s.len() ==> ids[k] as int
        == (#[trigger] s[k]).id
}

/// What one flush pass decided: nothing to do, or one delivery to attempt,
/// accounting the selected row ids.
pub enum FlushPlan {
    Skip,
    Attempt { ids: Vec<i64>, endpoint: String, body: String },
}

/// Decides one flush pass over the current queue: reads up to one batch of
/// eligible rows; with no eligible row, no credential, or no deliverable row
/// it skips without requesting any delivery and without touching a row;
/// otherwise it requests one delivery of the deliverable rows' texts, to be
/// accounted afterwards against the whole selected id set via `flush_apply`.
pub fn flush_plan(state: &TelemetryState, api_key: &str) -> (plan: FlushPlan)
    requires
        state.queue.wf(),
    ensures
        ({
            let sel = selected_rows(state.queue@, FLUSH_BATCH_SIZE as int);
            &&& (plan is Skip <==> (sel.len() == 0 || api_key@.len() == 0 || deliverable_rows(
                sel,
            ).len() == 0))
            &&& (plan matches FlushPlan::Attempt { ids, endpoint, body } ==> {
                &&& ids_match(ids@, sel)
                &&& endpoint@ == state.api_host@ + "/batch"@
                &&& body@ == batch_body_text(api_key@, texts_of(deliverable_rows(sel)))
            })
        }),
{
    let ghost selm = selected_rows(state.queue@, FLUSH_BATCH_SIZE as int);
    let sel = state.queue.select_eligible(FLUSH_BATCH_SIZE);
    if sel.is_empty() {
        return FlushPlan::Skip;
    }
    if api_key.is_empty() {
        return FlushPlan::Skip;
    }
    let mut ids: Vec<i64> = Vec::new();
    let mut texts: Vec<String> = Vec::new();
    let mut i: usize = 0;
    proof {
        assert(selm.take(0) =~= Seq::<RowModel>::empty());
        assert(string_views(texts@) =~= texts_of(deliverable_rows(selm.take(0))));
    }
    while i < sel.len()
        invariant
            selm == models(sel@),
            i <= sel@.len(),
            ids@.len() == i,
            forall|k: int| 0 <= k < i ==> ids@[k] as int == (#[trigger] selm[k]).id,
            string_views(texts@) == texts_of(deliverable_rows(selm.take(i as int))),
        decreases sel@.len() - i,
    {
        let r = &sel[i];
        ids.push(r.id);
        proof {
            assert(selm.take(i as int + 1).drop_last() =~= selm.take(i as int));
            assert(selm.take(i as int + 1).last() == selm[i as int]);
            assert(selm[i as int] == sel@[i as int]@);
        }
        let ok = check_json_text(r.event_json.as_str());
        proof {
            assert(r.event_json@ == selm[i as int].event_json);
            assert(ok == deliverable(selm[i as int]));
        }
        if ok {
            proof {
                assert(deliverable_rows(selm.take(i as int + 1)) == deliverable_rows(
                    selm.take(i as int),
                ).push(selm[i as int]));
            }
            let ghost before = texts@;
            texts.push(clone_string(&r.event_json));
            proof {
                assert(texts@.len() == before.len() + 1);
                assert(texts@[before.len() as int]@ == selm[i as int].event_json);
                assert(forall|k: int| 0 <= k < before.len() ==> #[trigger] texts@[k] == before[k]);
                let ghost d0 = deliverable_rows(selm.take(i as int));
                assert(string_views(before).len() == before.len());
                assert(string_views(before) == texts_of(d0));
                assert(texts_of(d0).len() == d0.len());
                assert(d0.len() == before.len());
                assert forall|k: int| 0 <= k < texts@.len() implies #[trigger] string_views(
                    texts@,
                )[k] == texts_of(deliverable_rows(selm.take(i as int + 1)))[k] by {
                    if k < before.len() {
                        assert(string_views(texts@)[k] == before[k]@);
                        assert(before[k]@ == string_views(before)[k]);
                        assert(string_views(before)[k] == texts_of(d0)[k]);
                        assert(texts_of(d0)[k] == d0[k].event_json);
                        assert(deliverable_rows(selm.take(i as int + 1))[k] == d0[k]);
                    } else {
                        assert(string_views(texts@)[k] == selm[i as int].event_json);
                        assert(deliverable_rows(selm.take(i as int + 1))[k] == selm[i as int]);
                    }
                }
                assert(deliverable_rows(selm.take(i as int + 1)).len() == before.len() + 1);
                assert(string_views(texts@).len() == texts@.len());
                assert(texts_of(deliverable_rows(selm.take(i as int + 1))).len() == texts@.len());
                assert(string_views(texts@) =~= texts_of(
                    deliverable_rows(selm.take(i as int + 1)),
                ));
            }
        } else {
            proof {
                assert(deliverable_rows(selm.take(i as int + 1)) == deliverable_rows(
                    selm.take(i as int),
                ));
            }
        }
        i += 1;
    }
    proof {
        assert(selm.take(selm.len() as int) =~= selm);
    }
    if texts.is_empty() {
        return FlushPlan::Skip;
    }
    let body = batch_body(api_key, &texts);
    let mut endpoint = clone_string(&state.api_host);
    endpoint.append("/batch");
    FlushPlan::Attempt { ids, endpoint, body }
}

/// Applies one delivery outcome to the rows a pass selected: on a confirmed
/// delivery the selected rows are deleted — whether or not each of them was
/// deliverable plays no part; on a failure each selected row is charged one
/// attempt and those now out of retries are purged, in the same pass.
pub fn flush_apply(state: &mut TelemetryState, ids: &Vec<i64>, delivered: bool)
    requires
        old(state).queue.wf(),
    ensures
        final(state).queue.wf(),
        final(state).api_host == old(state).api_host,
        final(state).queue.next_id == old(state).queue.next_id,
        delivered ==> final(state).queue@ == rows_without(old(state).queue@, ids@),
        !delivered ==> final(state).queue@ == rows_after_purge(
            rows_bumped(old(state).queue@, ids@),
            ids@,
        ),
{
    if delivered {
        state.queue.delete_ids(ids);
    } else {
        state.queue.increment_retry(ids);
        state.queue.purge_exhausted(ids);
    }
}

/// The wire request of one immediate delivery attempt: the endpoint and the
/// JSON body carrying the credential and every serializable event of the
/// batch.
pub fn batch_request(state: &TelemetryState, payload: &BatchPayload) -> (r: (String, String))
    ensures
        r.0@ == state.api_host@ + "/batch"@,
        r.1@ == batch_body_text(payload.api_key@, wire_texts(payload.events@)),
{
    let evs = &payload.events;
    let mut texts: Vec<String> = Vec::new();
    let mut i: usize = 0;
    while i < evs.len()
        invariant
            i <= evs@.len(),
            string_views(texts@) == wire_texts(evs@.take(i as int)),
        decreases evs@.len() - i,
    {
        proof {
            assert(evs@.take(i as int + 1).drop_last() =~= evs@.take(i as int));
            assert(evs@.take(i as int + 1).last() == evs@[i as int]);
        }
        match wire_event(&evs[i]) {
            Option::Some(text) => {
                texts.push(text);
                proof {
                    assert(string_views(texts@) =~= wire_texts(
                        evs@.take(i as int + 1),
                    ));
                }
            },
            Option::None => {},
        }
        i += 1;
    }
    proof {
        assert(evs@.take(evs@.len() as int) =~= evs@);
    }
    let body = batch_body(payload.api_key.as_str(), &texts);
    let mut endpoint = clone_string(&state.api_host);
    endpoint.append("/batch");
    (endpoint, body)
}

/// The single per-batch entry point, applied after the host performed the
/// immediate delivery attempt built by `batch_request`. On a success the
/// batch is done and reported sent in full (the host then drains backlog
/// with one flush pass); on a rejection or an unreachable endpoint — the two
/// are treated identically — the whole batch is persisted for retry and the
/// count actually stored is reported. It never fails outward: storage and
/// delivery failures are absorbed into the returned counts.
pub fn ph_send_batch(
    state: &mut TelemetryState,
    payload: &BatchPayload,
    outcome: &Outcome,
    now_ms: i64,
) -> (r: BatchResult)
    requires
        old(state).queue.wf(),
    ensures
        final(state).queue.wf(),
        final(state).api_host == old(state).api_host,
        outcome is Success ==> r.sent == payload.events@.len() && r.queued == 0
            && final(state).queue@ == old(state).queue@
            && final(state).queue.next_id == old(state).queue.next_id,
        !(outcome is Success) ==> r.sent == 0 && r.queued <= payload.events@.len()
            && final(state).queue.next_id == old(state).queue.next_id + r.queued,
        !(outcome is Success) && old(state).queue.next_id + payload.events@.len() <= i64::MAX
            ==> r.queued == inserted_count(payload.events@) && final(state).queue@
                == enqueue_result(
                old(state).queue@,
                payload.events@,
                now_ms as int,
                old(state).queue.next_id as int,
            ),
{
    match outcome {
        Outcome::Success => BatchResult { sent: payload.events.len(), queued: 0 },
        _ => {
            let queued = state.queue.enqueue(&payload.events, now_ms);
            BatchResult { sent: 0, queued }
        },
    }
}

/// The single best-effort pass run once at process start, before any
/// credential exists. With an empty credential the pass never requests a
/// delivery and leaves every row untouched, whatever the queue holds; the
/// backlog only drains on the next successfully delivered live batch.
pub fn startup_flush(state: &mut TelemetryState)
    requires
        old(state).queue.wf(),
    ensures
        final(state).queue.wf(),
        final(state).queue@ == old(state).queue@,
        final(state).queue.next_id == old(state).queue.next_id,
        final(state).api_host == old(state).api_host,
{
    let plan = flush_plan(state, "");
    proof {
        reveal_strlit("");
    }
    match plan {
        FlushPlan::Skip => {},
        FlushPlan::Attempt { .. } => {
            // An empty credential never yields an attempt.
            proof {
                assert(false);
            }
        },
    }
}

/// On an empty queue a flush pass selects nothing, so whatever the
/// credential it decides to skip: no row is written, no delivery requested.
pub proof fn lemma_flush_skip_on_empty(s: Seq<RowModel>)
    requires
        s.len() == 0,
    ensures
        selected_rows(s, FLUSH_BATCH_SIZE as int).len() == 0,
{
    assert(eligible_rows(s).len() == 0);
}

/// No row the selection returns is out of retries.
pub proof fn lemma_selected_under_ceiling(s: Seq<RowModel>, limit: int)
    requires
        0 <= limit,
    ensures
        forall|k: int| 0 <= k < selected_rows(s, limit).len() ==> (#[trigger] selected_rows(
            s,
            limit,
        )[k]).retry_count < MAX_RETRY_COUNT,
{
    lemma_eligible_rows_props(s);
    let el = eligible_rows(s);
    if el.len() > limit {
        assert(forall|k: int| 0 <= k < limit ==> #[trigger] el.take(limit)[k] == el[k]);
    }
}

/// A failure pass leaves, among the ids it charged, no row at the ceiling:
/// after the attempt is accounted, every selected row out of retries is gone.
pub proof fn lemma_failed_pass_purges_exhausted(s: Seq<RowModel>, ids: Seq<i64>)
    ensures
        forall|k: int| 0 <= k < rows_after_purge(rows_bumped(s, ids), ids).len() ==> !(
        ids_contain(ids, (#[trigger] rows_after_purge(rows_bumped(s, ids), ids)[k]).id)
            && rows_after_purge(rows_bumped(s, ids), ids)[k].retry_count >= MAX_RETRY_COUNT),
{
    lemma_rows_after_purge_props(rows_bumped(s, ids), ids);
}

/// A row selected one failed attempt short of the ceiling does not survive a
/// failure pass: the pass's increment brings it to the ceiling and the purge
/// of the same pass removes it.
pub proof fn lemma_last_retry_removes(s: Seq<RowModel>, ids: Seq<i64>, j: int)
    requires
        ids_unique(s),
        0 <= j < s.len(),
        ids_contain(ids, s[j].id),
        s[j].retry_count >= MAX_RETRY_COUNT - 1,
    ensures
        forall|k: int| 0 <= k < rows_after_purge(rows_bumped(s, ids), ids).len()
            ==> (#[trigger] rows_after_purge(rows_bumped(s, ids), ids)[k]).id != s[j].id,
{
    let b = rows_bumped(s, ids);
    let res = rows_after_purge(b, ids);
    lemma_rows_after_purge_props(b, ids);
    assert(forall|x: int| 0 <= x < b.len() ==> (#[trigger] b[x]).id == s[x].id);
    assert(b[j].retry_count >= MAX_RETRY_COUNT);
    assert forall|k: int| 0 <= k < res.len() implies (#[trigger] res[k]).id != s[j].id by {
        if res[k].id == s[j].id {
            let x = choose|x: int| 0 <= x < b.len() && b[x] == res[k];
            assert(b[x].id == s[x].id);
            assert(s[x].id == s[j].id);
            assert(x == j);
            assert(exhausted_among(res[k], ids));
        }
    }
}

/// A success pass deletes exactly the ids it selected: a row survives it if
/// and only if it stood in the store and its id was not part of the pass.
/// Whether the row's text was deliverable plays no part.
pub proof fn lemma_success_pass_exact(s: Seq<RowModel>, ids: Seq<i64>, r: RowModel)
    ensures
        rows_without(s, ids).contains(r) <==> (s.contains(r) && !ids_contain(ids, r.id)),
    decreases s.len(),
{
    broadcast use vstd::seq_lib::group_seq_properties;

    if s.len() == 0 {
        assert(!s.contains(r));
        assert(!rows_without(s, ids).contains(r));
    } else {
        lemma_success_pass_exact(s.drop_last(), ids, r);
        let dl = s.drop_last();
        let w = rows_without(dl, ids);
        assert(s =~= dl.push(s.last()));
        assert(s.contains(r) <==> (dl.contains(r) || r == s.last()));
        if !ids_contain(ids, s.last().id) {
            assert(rows_without(s, ids) == w.push(s.last()));
            assert(w.push(s.last()).contains(r) <==> (w.contains(r) || r == s.last()));
        }
    }
}

/// A failure pass keeps exactly the rows that were not both selected and at
/// the ceiling after the charge.
pub proof fn lemma_failure_pass_exact(s: Seq<RowModel>, ids: Seq<i64>, r: RowModel)
    ensures
        rows_after_purge(s, ids).contains(r) <==> (s.contains(r) && !exhausted_among(r, ids)),
    decreases s.len(),
{
    broadcast use vstd::seq_lib::group_seq_properties;

    if s.len() == 0 {
        assert(!s.contains(r));
        assert(!rows_after_purge(s, ids).contains(r));
    } else {
        lemma_failure_pass_exact(s.drop_last(), ids, r);
        let dl = s.drop_last();
        let w = rows_after_purge(dl, ids);
        assert(s =~= dl.push(s.last()));
        assert(s.contains(r) <==> (dl.contains(r) || r == s.last()));
        if !exhausted_among(s.last(), ids) {
            assert(rows_after_purge(s, ids) == w.push(s.last()));
            assert(w.push(s.last()).contains(r) <==> (w.contains(r) || r == s.last()));
        }
    }
}

/// A second, overlapping success pass is harmless: deleting an id set twice
/// deletes nothing more than deleting it once.
pub proof fn lemma_delete_idempotent(s: Seq<RowModel>, ids: Seq<i64>)
    ensures
        rows_without(rows_without(s, ids), ids) == rows_without(s, ids),
    decreases s.len(),
{
    if s.len() > 0 {
        lemma_delete_idempotent(s.drop_last(), ids);
        if !ids_contain(ids, s.last().id) {
            let w = rows_without(s.drop_last(), ids).push(s.last());
            assert(w.drop_last() =~= rows_without(s.drop_last(), ids));
            assert(w.last() == s.last());
        }
    }
}

/// A second, overlapping failure pass charges nothing to rows an earlier
/// success pass already deleted.
pub proof fn lemma_bump_after_delete_noop(s: Seq<RowModel>, ids: Seq<i64>)
    ensures
        rows_bumped(rows_without(s, ids), ids) == rows_without(s, ids),
{
    lemma_rows_without_props(s, ids);
    assert(rows_bumped(rows_without(s, ids), ids) =~= rows_without(s, ids));
}

} // verus!
