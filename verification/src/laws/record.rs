use crate::block::{BlockView, EventKind, EventView};
use crate::comm::MessageView;
use crate::dispatch::{DispatcherView, Pass};
use crate::idset::{lemma_with_id, lemma_without_id, union_ids};
use vstd::prelude::*;

verus! {

/// How often the record `events` says that `kind` happened to the action `id`.
pub open spec fn count(events: Seq<EventView>, kind: EventKind, id: Seq<char>) -> nat
    decreases events.len(),
{
    if events.len() == 0 {
        0
    } else {
        count(events.drop_last(), kind, id) + if events.last().kind == kind && events.last().id
            == id {
            1nat
        } else {
            0nat
        }
    }
}

/// Whether the record of the block agrees with where the action `id` stands: an action
/// that has not started has no entry; one that runs has started once and not ended; one
/// that has ended was either started once and wrapped once, or passed over once and never
/// started; and it stands in one place only.
pub open spec fn in_step(p: Pass, id: Seq<char>) -> bool {
    let starts = count(p.block.events, EventKind::Start, id);
    let wraps = count(p.block.events, EventKind::Wrap, id);
    let skips = count(p.block.events, EventKind::Skip, id);
    if p.queue.contains(id) {
        !p.active.contains(id) && !p.complete.contains(id) && starts == 0 && wraps == 0 && skips
            == 0
    } else if p.active.contains(id) {
        !p.complete.contains(id) && starts == 1 && wraps == 0 && skips == 0
    } else if p.complete.contains(id) {
        wraps + skips == 1 && starts == wraps
    } else {
        starts == 0 && wraps == 0 && skips == 0
    }
}

/// Whether the record of the block agrees with where every action stands.
pub open spec fn orderly(p: Pass) -> bool {
    forall|id: Seq<char>| #[trigger] in_step(p, id)
}

impl DispatcherView {
    /// Whether the record of the block that is loaded agrees with where every action
    /// stands. It does where no block is loaded.
    pub open spec fn orderly(self) -> bool {
        match self.block {
            Some(b) => orderly(self.begin(b)),
            None => true,
        }
    }
}

proof fn lemma_count_push(events: Seq<EventView>, e: EventView, kind: EventKind, id: Seq<char>)
    ensures
        count(events.push(e), kind, id) == count(events, kind, id) + if e.kind == kind && e.id
            == id {
            1nat
        } else {
            0nat
        },
{
    assert(events.push(e).drop_last() =~= events);
}

proof fn lemma_started_orderly(p: Pass, id: Seq<char>)
    requires
        orderly(p),
        p.queue.contains(id),
    ensures
        orderly(p.started(id)),
{
    let q = p.started(id);
    assert forall|x: Seq<char>| #[trigger] in_step(q, x) by {
        assert(in_step(p, x));
        assert(in_step(p, id));
        let e = EventView { kind: EventKind::Start, id };
        lemma_count_push(p.block.events, e, EventKind::Start, x);
        lemma_count_push(p.block.events, e, EventKind::Wrap, x);
        lemma_count_push(p.block.events, e, EventKind::Skip, x);
        lemma_without_id(p.queue, id);
        lemma_with_id(p.active, id);
    }
}

proof fn lemma_skipped_orderly(p: Pass, id: Seq<char>)
    requires
        orderly(p),
        p.queue.contains(id),
    ensures
        orderly(p.skipped(id)),
{
    let q = p.skipped(id);
    assert forall|x: Seq<char>| #[trigger] in_step(q, x) by {
        assert(in_step(p, x));
        assert(in_step(p, id));
        let e = EventView { kind: EventKind::Skip, id };
        lemma_count_push(p.block.events, e, EventKind::Start, x);
        lemma_count_push(p.block.events, e, EventKind::Wrap, x);
        lemma_count_push(p.block.events, e, EventKind::Skip, x);
        lemma_without_id(p.queue, id);
        lemma_with_id(p.complete, id);
    }
}

proof fn lemma_wrapped_orderly(p: Pass, id: Seq<char>)
    requires
        orderly(p),
    ensures
        orderly(p.wrapped(id)),
{
    let q = p.wrapped(id);
    if p.active.contains(id) {
        assert forall|x: Seq<char>| #[trigger] in_step(q, x) by {
            assert(in_step(p, x));
            assert(in_step(p, id));
            let e = EventView { kind: EventKind::Wrap, id };
            lemma_count_push(p.block.events, e, EventKind::Start, x);
            lemma_count_push(p.block.events, e, EventKind::Wrap, x);
            lemma_count_push(p.block.events, e, EventKind::Skip, x);
            lemma_without_id(p.active, id);
            lemma_with_id(p.complete, id);
        }
    }
}

proof fn lemma_swept_orderly(p: Pass, wave: Seq<Seq<char>>, k: int)
    requires
        orderly(p),
    ensures
        orderly(p.swept(wave, k)),
    decreases k,
{
    if k > 0 {
        lemma_swept_orderly(p, wave, k - 1);
        let q = p.swept(wave, k - 1);
        let id = wave[k - 1];
        if q.queue.contains(id) {
            if q.block.lapsed(id) {
                lemma_skipped_orderly(q, id);
            } else {
                lemma_started_orderly(q, id);
            }
        }
    }
}

proof fn lemma_fresh_orderly(p: Pass)
    requires
        orderly(p),
    ensures
        orderly(Pass { wave: Seq::empty(), ..p }),
{
    let q = Pass { wave: Seq::empty(), ..p };
    assert forall|x: Seq<char>| #[trigger] in_step(q, x) by {
        assert(in_step(p, x));
    }
}

proof fn lemma_advanced_orderly(p: Pass, wave: Seq<Seq<char>>, fuel: nat)
    requires
        orderly(p),
    ensures
        orderly(p.advanced(wave, fuel)),
    decreases fuel,
{
    if !(wave.len() == 0 || fuel == 0) {
        lemma_fresh_orderly(p);
        let fresh = Pass { wave: Seq::empty(), ..p };
        lemma_swept_orderly(fresh, wave, wave.len() as int);
        let next = fresh.swept(wave, wave.len() as int);
        lemma_advanced_orderly(next, next.wave, (fuel - 1) as nat);
    }
}

proof fn lemma_closed_orderly(p: Pass, wave: Seq<Seq<char>>, k: int)
    requires
        orderly(p),
    ensures
        orderly(p.closed(wave, k)),
    decreases k,
{
    if k > 0 {
        lemma_closed_orderly(p, wave, k - 1);
        lemma_wrapped_orderly(p.closed(wave, k - 1), wave[k - 1]);
    }
}

proof fn lemma_cascaded_orderly(p: Pass, wave: Seq<Seq<char>>, fuel: nat)
    requires
        orderly(p),
    ensures
        orderly(p.cascaded(wave, fuel)),
    decreases fuel,
{
    if !(wave.len() == 0 || fuel == 0) {
        lemma_fresh_orderly(p);
        let fresh = Pass { wave: Seq::empty(), ..p };
        lemma_closed_orderly(fresh, wave, wave.len() as int);
        let next = fresh.closed(wave, wave.len() as int);
        lemma_cascaded_orderly(next, next.wave, (fuel - 1) as nat);
    }
}

proof fn lemma_run_orderly(p: Pass, ready: Seq<Seq<char>>)
    requires
        orderly(p),
    ensures
        orderly(p.run(ready)),
{
    lemma_fresh_orderly(p);
    let fresh = Pass { wave: Seq::empty(), ..p };
    lemma_advanced_orderly(fresh, ready, (p.queue.len() + 1) as nat);
    let q = fresh.advanced(ready, (p.queue.len() + 1) as nat);
    assert forall|x: Seq<char>| #[trigger] in_step(q.concluded(), x) by {
        assert(in_step(q, x));
    }
}

/// A pass that only looks at the state of another agrees with the record if the other does.
proof fn lemma_same_standing(p: Pass, q: Pass)
    requires
        orderly(p),
        q.queue == p.queue,
        q.active == p.active,
        q.complete == p.complete,
        q.block.events == p.block.events,
    ensures
        orderly(q),
{
    assert forall|x: Seq<char>| #[trigger] in_step(q, x) by {
        assert(in_step(p, x));
    }
}

/// No action starts twice, none is both wrapped and passed over, and none is dealt with
/// twice: a freshly loaded block has a record that agrees with where every action stands.
pub proof fn law_loaded_orderly(block: BlockView)
    requires
        block.events.len() == 0,
    ensures
        DispatcherView::loaded(block).0.orderly(),
{
    let fresh = DispatcherView {
        queue: union_ids(Seq::empty(), crate::block::names(block.nodes)),
        ..DispatcherView::idle()
    };
    let p = fresh.begin(block);
    assert forall|x: Seq<char>| #[trigger] in_step(p, x) by {
        assert(!p.active.contains(x));
        assert(!p.complete.contains(x));
    }
    lemma_run_orderly(p, seq!["entry"@]);
    let q = p.run(seq!["entry"@]);
    lemma_same_standing(q, q.state().begin(q.block));
}

/// The record keeps agreeing with where every action stands when actions are started.
pub proof fn law_advance_orderly(d: DispatcherView, ready: Seq<Seq<char>>)
    requires
        d.orderly(),
    ensures
        d.advance(ready).0.orderly(),
{
    if let Some(b) = d.block {
        let p = d.begin(b);
        lemma_run_orderly(p, ready);
        lemma_same_standing(p.run(ready), p.run(ready).state().begin(p.run(ready).block));
    }
}

/// The record keeps agreeing with where every action stands when an action ends.
pub proof fn law_completed_orderly(d: DispatcherView, id: Seq<char>)
    requires
        d.orderly(),
    ensures
        d.completed(id).0.orderly(),
{
    if let Some(b) = d.block {
        if !d.complete.contains(id) {
            let p = d.begin(b);
            lemma_cascaded_orderly(p, seq![id], (p.active.len() + 1) as nat);
            let c = p.cascaded(seq![id], (p.active.len() + 1) as nat);
            lemma_same_standing(c, c.cleared());
            lemma_run_orderly(c.cleared(), c.cleared().ready);
            let q = p.finished(id);
            lemma_same_standing(q, q.state().begin(q.block));
        }
    }
}

/// The record keeps agreeing with where every action stands whatever message arrives.
pub proof fn law_handled_orderly(d: DispatcherView, message: MessageView)
    requires
        d.orderly(),
    ensures
        d.handled(message).0.orderly(),
{
    if let Some(b) = d.block {
        let after = d.handled(message).0;
        match message {
            MessageView::ActionComplete(id) => {
                law_completed_orderly(d, id);
            },
            MessageView::ActionFailed(id) => {
                if d.active.contains(id) {
                    let noted = DispatcherView { block: Some(b.noted(EventKind::Fail, id)), ..d };
                    assert(noted.orderly()) by {
                        let p = d.begin(b);
                        let q = noted.begin(noted.block->0);
                        let e = EventView { kind: EventKind::Fail, id };
                        assert forall|x: Seq<char>| #[trigger] in_step(q, x) by {
                            assert(in_step(p, x));
                            lemma_count_push(p.block.events, e, EventKind::Start, x);
                            lemma_count_push(p.block.events, e, EventKind::Wrap, x);
                            lemma_count_push(p.block.events, e, EventKind::Skip, x);
                        }
                    }
                    law_completed_orderly(noted, id);
                }
            },
            MessageView::Interrupt => {},
            MessageView::BlockComplete => {},
            _ => {
                if let Some(b2) = after.block {
                    lemma_same_standing(d.begin(b), after.begin(b2));
                }
            },
        }
    }
}

} // verus!
