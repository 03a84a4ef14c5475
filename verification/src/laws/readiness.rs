use crate::action::{ActionView, InfoView};
use crate::block::{first, lapsed, lemma_first, put, released, settled};
use crate::comm::MessageView;
use crate::dispatch::{DispatcherView, Pass};
use crate::idset::lemma_without_id;
use crate::laws::graph::{after_end, coherent, leads, lemma_settled, waits};
use vstd::prelude::*;

verus! {

/// Whether the graph `b` is the graph `a` at a later time: the same actions in the same
/// places, each waiting for no more than it did, and for something only if it ever did.
pub open spec fn shrunk(a: Seq<ActionView>, b: Seq<ActionView>) -> bool {
    &&& a.len() == b.len()
    &&& forall|j: int| 0 <= j < a.len() ==> #[trigger] eased(a[j], b[j])
}

/// Whether the action `b` is the action `a` at a later time.
pub open spec fn eased(a: ActionView, b: ActionView) -> bool {
    &&& b.info().id == a.info().id
    &&& b.info().after is Some == a.info().after is Some
    &&& forall|x: Seq<char>| #[trigger] b.info().pending().contains(x) ==> a.info().pending().contains(x)
}

proof fn lemma_shrunk_chain(a: Seq<ActionView>, b: Seq<ActionView>, c: Seq<ActionView>)
    requires
        shrunk(a, b),
        shrunk(b, c),
    ensures
        shrunk(a, c),
{
    assert forall|j: int| 0 <= j < a.len() implies #[trigger] eased(a[j], c[j]) by {
        assert(eased(a[j], b[j]));
        assert(eased(b[j], c[j]));
    }
}

proof fn lemma_shrunk_same(a: Seq<ActionView>)
    ensures
        shrunk(a, a),
{
    assert forall|j: int| 0 <= j < a.len() implies #[trigger] eased(a[j], a[j]) by {}
}

proof fn lemma_put_shrunk(nodes: Seq<ActionView>, i: int, info: InfoView)
    requires
        0 <= i < nodes.len(),
        eased(nodes[i], nodes[i].with_info(info)),
    ensures
        shrunk(nodes, put(nodes, i, info)),
{
    let r = put(nodes, i, info);
    assert forall|j: int| 0 <= j < nodes.len() implies #[trigger] eased(nodes[j], r[j]) by {}
}

proof fn lemma_released_shrunk(nodes: Seq<ActionView>, id: Seq<char>, succs: Seq<Seq<char>>, k: int)
    ensures
        shrunk(nodes, released(nodes, id, succs, k).0),
    decreases k,
{
    if k <= 0 {
        lemma_shrunk_same(nodes);
    } else {
        lemma_released_shrunk(nodes, id, succs, k - 1);
        let (ns, _) = released(nodes, id, succs, k - 1);
        match first(ns, succs[k - 1]) {
            None => {},
            Some(i) => {
                lemma_first(ns, succs[k - 1]);
                let info = ns[i].info().satisfied(id);
                match ns[i].info().after {
                    Some(ids) => {
                        lemma_without_id(ids, id);
                    },
                    None => {},
                }
                lemma_put_shrunk(ns, i, info);
                lemma_shrunk_chain(nodes, ns, put(ns, i, info));
            },
        }
    }
}

proof fn lemma_lapsed_shrunk(nodes: Seq<ActionView>, deps: Seq<Seq<char>>, done: Seq<Seq<char>>, k: int)
    ensures
        shrunk(nodes, lapsed(nodes, deps, done, k).0),
    decreases k,
{
    if k <= 0 {
        lemma_shrunk_same(nodes);
    } else {
        lemma_lapsed_shrunk(nodes, deps, done, k - 1);
        let (ns, _) = lapsed(nodes, deps, done, k - 1);
        if !done.contains(deps[k - 1]) {
            match first(ns, deps[k - 1]) {
                None => {},
                Some(i) => {
                    lemma_first(ns, deps[k - 1]);
                    let info = InfoView { expired: Some(true), ..ns[i].info() };
                    lemma_put_shrunk(ns, i, info);
                    lemma_shrunk_chain(nodes, ns, put(ns, i, info));
                },
            }
        }
    }
}

/// The end of an action adds to nothing that any action waits for.
pub proof fn lemma_settled_shrunk(nodes: Seq<ActionView>, id: Seq<char>, done: Seq<Seq<char>>)
    ensures
        shrunk(nodes, settled(nodes, id, done).nodes),
{
    match first(nodes, id) {
        None => {
            lemma_shrunk_same(nodes);
        },
        Some(i) => {
            let succs = nodes[i].info().successors;
            let deps = nodes[i].info().dependents;
            lemma_released_shrunk(nodes, id, succs, succs.len() as int);
            let (n1, _) = released(nodes, id, succs, succs.len() as int);
            lemma_lapsed_shrunk(n1, deps, done, deps.len() as int);
            lemma_shrunk_chain(nodes, n1, lapsed(n1, deps, done, deps.len() as int).0);
        },
    }
}

/// An action becomes ready once: a successor that the end of an action finds ready was not
/// ready before, and is ready after. (What it waits for only shrinks, so it stays ready.)
pub proof fn law_ready_once(nodes: Seq<ActionView>, id: Seq<char>, complete: Seq<Seq<char>>)
    requires
        coherent(nodes, complete),
        first(nodes, id) is Some,
        !complete.contains(id),
    ensures
        forall|s: Seq<char>| #[trigger]
            settled(nodes, id, crate::idset::with_id(complete, id)).ready.contains(s) ==> first(
                nodes,
                s,
            ) is Some && nodes[first(nodes, s)->0].info().ready() == Some(false) && settled(
                nodes,
                id,
                crate::idset::with_id(complete, id),
            ).nodes[first(nodes, s)->0].info().ready() == Some(true),
{
    let done = crate::idset::with_id(complete, id);
    let end = settled(nodes, id, done);
    lemma_settled(nodes, id, done);
    lemma_first(nodes, id);
    let i = first(nodes, id)->0;
    assert forall|s: Seq<char>| #[trigger] end.ready.contains(s) implies first(nodes, s) is Some
        && nodes[first(nodes, s)->0].info().ready() == Some(false) && end.nodes[first(
        nodes,
        s,
    )->0].info().ready() == Some(true) by {
        lemma_first(nodes, s);
        let j = first(nodes, s)->0;
        assert(leads(nodes, i, j));
        assert(waits(nodes, j, id));
        assert(end.nodes[j] == after_end(nodes, id, done, j));
    }
}

proof fn lemma_lapsed_once(nodes: Seq<ActionView>, deps: Seq<Seq<char>>, done: Seq<Seq<char>>, k: int)
    ensures
        lapsed(nodes, deps, done, k).1.no_duplicates(),
    decreases k,
{
    if k > 0 {
        lemma_lapsed_once(nodes, deps, done, k - 1);
        crate::idset::lemma_with_id(lapsed(nodes, deps, done, k - 1).1, deps[k - 1]);
    }
}

/// The end of an action marks each of its dependents that has not ended, once, and no
/// action that has ended: the marked ones are named once each, none of them has ended,
/// each is marked as never to run afterwards, and an action that has ended keeps its mark
/// or lack of one.
pub proof fn law_expired_once(nodes: Seq<ActionView>, id: Seq<char>, done: Seq<Seq<char>>)
    requires
        crate::block::distinct(nodes),
        first(nodes, id) is Some,
    ensures
        settled(nodes, id, done).expired.no_duplicates(),
        forall|s: Seq<char>| #[trigger]
            settled(nodes, id, done).expired.contains(s) ==> !done.contains(s) && first(
                nodes,
                s,
            ) is Some && settled(nodes, id, done).nodes[first(nodes, s)->0].info().expired == Some(
                true,
            ),
        forall|j: int|
            0 <= j < nodes.len() && done.contains((#[trigger] nodes[j]).info().id) ==> settled(
                nodes,
                id,
                done,
            ).nodes[j].info().expired == nodes[j].info().expired,
{
    let end = settled(nodes, id, done);
    let i = first(nodes, id)->0;
    lemma_first(nodes, id);
    lemma_settled(nodes, id, done);
    let succs = nodes[i].info().successors;
    let deps = nodes[i].info().dependents;
    let (n1, _) = released(nodes, id, succs, succs.len() as int);
    lemma_lapsed_once(n1, deps, done, deps.len() as int);
    assert forall|s: Seq<char>| #[trigger] end.expired.contains(s) implies !done.contains(s)
        && first(nodes, s) is Some && end.nodes[first(nodes, s)->0].info().expired == Some(
        true,
    ) by {
        lemma_first(nodes, s);
        let j = first(nodes, s)->0;
        assert(end.nodes[j] == after_end(nodes, id, done, j));
    }
    assert forall|j: int|
        0 <= j < nodes.len() && done.contains((#[trigger] nodes[j]).info().id) implies end.nodes[j].info().expired
        == nodes[j].info().expired by {
        assert(end.nodes[j] == after_end(nodes, id, done, j));
    }
}

proof fn lemma_moved_shrunk(p: Pass, id: Seq<char>)
    ensures
        shrunk(p.block.nodes, p.moved(id).block.nodes),
{
    lemma_shrunk_same(p.block.nodes);
    lemma_settled_shrunk(p.block.nodes, id, crate::idset::with_id(p.complete, id));
}

proof fn lemma_swept_shrunk(p: Pass, wave: Seq<Seq<char>>, k: int)
    ensures
        shrunk(p.block.nodes, p.swept(wave, k).block.nodes),
    decreases k,
{
    if k <= 0 {
        lemma_shrunk_same(p.block.nodes);
    } else {
        lemma_swept_shrunk(p, wave, k - 1);
        let q = p.swept(wave, k - 1);
        lemma_moved_shrunk(q, wave[k - 1]);
        lemma_shrunk_chain(p.block.nodes, q.block.nodes, q.moved(wave[k - 1]).block.nodes);
    }
}

proof fn lemma_advanced_shrunk(p: Pass, wave: Seq<Seq<char>>, fuel: nat)
    ensures
        shrunk(p.block.nodes, p.advanced(wave, fuel).block.nodes),
    decreases fuel,
{
    if wave.len() == 0 || fuel == 0 {
        lemma_shrunk_same(p.block.nodes);
    } else {
        let fresh = Pass { wave: Seq::empty(), ..p };
        lemma_swept_shrunk(fresh, wave, wave.len() as int);
        let next = fresh.swept(wave, wave.len() as int);
        lemma_advanced_shrunk(next, next.wave, (fuel - 1) as nat);
        lemma_shrunk_chain(
            p.block.nodes,
            next.block.nodes,
            next.advanced(next.wave, (fuel - 1) as nat).block.nodes,
        );
    }
}

proof fn lemma_wrapped_shrunk(p: Pass, id: Seq<char>)
    ensures
        shrunk(p.block.nodes, p.wrapped(id).block.nodes),
{
    lemma_shrunk_same(p.block.nodes);
    lemma_settled_shrunk(p.block.nodes, id, crate::idset::with_id(p.complete, id));
}

proof fn lemma_closed_shrunk(p: Pass, wave: Seq<Seq<char>>, k: int)
    ensures
        shrunk(p.block.nodes, p.closed(wave, k).block.nodes),
    decreases k,
{
    if k <= 0 {
        lemma_shrunk_same(p.block.nodes);
    } else {
        lemma_closed_shrunk(p, wave, k - 1);
        let q = p.closed(wave, k - 1);
        lemma_wrapped_shrunk(q, wave[k - 1]);
        lemma_shrunk_chain(p.block.nodes, q.block.nodes, q.wrapped(wave[k - 1]).block.nodes);
    }
}

proof fn lemma_cascaded_shrunk(p: Pass, wave: Seq<Seq<char>>, fuel: nat)
    ensures
        shrunk(p.block.nodes, p.cascaded(wave, fuel).block.nodes),
    decreases fuel,
{
    if wave.len() == 0 || fuel == 0 {
        lemma_shrunk_same(p.block.nodes);
    } else {
        let fresh = Pass { wave: Seq::empty(), ..p };
        lemma_closed_shrunk(fresh, wave, wave.len() as int);
        let next = fresh.closed(wave, wave.len() as int);
        lemma_cascaded_shrunk(next, next.wave, (fuel - 1) as nat);
        lemma_shrunk_chain(
            p.block.nodes,
            next.block.nodes,
            next.cascaded(next.wave, (fuel - 1) as nat).block.nodes,
        );
    }
}

/// What an action waits for only shrinks when actions are started.
pub proof fn law_advance_shrinks(d: DispatcherView, ready: Seq<Seq<char>>)
    requires
        d.block is Some,
    ensures
        d.advance(ready).0.block is Some,
        shrunk(d.block->0.nodes, d.advance(ready).0.block->0.nodes),
{
    let p = d.begin(d.block->0);
    let fresh = Pass { wave: Seq::empty(), ..p };
    lemma_advanced_shrunk(fresh, ready, (p.queue.len() + 1) as nat);
}

/// What an action waits for only shrinks when an action ends.
pub proof fn law_completed_shrinks(d: DispatcherView, id: Seq<char>)
    requires
        d.block is Some,
    ensures
        d.completed(id).0.block is Some,
        shrunk(d.block->0.nodes, d.completed(id).0.block->0.nodes),
{
    if d.complete.contains(id) {
        lemma_shrunk_same(d.block->0.nodes);
    } else {
        let p = d.begin(d.block->0);
        lemma_cascaded_shrunk(p, seq![id], (p.active.len() + 1) as nat);
        let e = p.cascaded(seq![id], (p.active.len() + 1) as nat).cleared();
        let fresh = Pass { wave: Seq::empty(), ..e };
        lemma_advanced_shrunk(fresh, e.ready, (e.queue.len() + 1) as nat);
        lemma_shrunk_chain(
            p.block.nodes,
            e.block.nodes,
            fresh.advanced(e.ready, (e.queue.len() + 1) as nat).block.nodes,
        );
    }
}

proof fn lemma_relayed_shrinks(d: DispatcherView, id: Seq<char>, message: MessageView)
    requires
        d.block is Some,
    ensures
        d.relayed(id, message).0.block is Some,
        shrunk(d.block->0.nodes, d.relayed(id, message).0.block->0.nodes),
{
    let nodes = d.block->0.nodes;
    match first(nodes, id) {
        None => {
            lemma_shrunk_same(nodes);
        },
        Some(i) => {
            lemma_first(nodes, id);
            let after = nodes.update(i, nodes[i].updated(message).0);
            assert forall|j: int| 0 <= j < nodes.len() implies #[trigger] eased(
                nodes[j],
                after[j],
            ) by {}
        },
    }
}

/// What an action waits for only shrinks, whatever message arrives, as long as the block
/// stays loaded.
pub proof fn law_handled_shrinks(d: DispatcherView, message: MessageView)
    requires
        d.block is Some,
        d.handled(message).0.block is Some,
    ensures
        shrunk(d.block->0.nodes, d.handled(message).0.block->0.nodes),
{
    let nodes = d.block->0.nodes;
    let after = d.handled(message).0.block->0.nodes;
    match message {
        MessageView::ActionComplete(id) => {
            law_completed_shrinks(d, id);
        },
        MessageView::ActionFailed(id) => {
            lemma_shrunk_same(nodes);
            if d.active.contains(id) {
                let noted = DispatcherView {
                    block: Some(d.block->0.noted(crate::block::EventKind::Fail, id)),
                    ..d
                };
                law_completed_shrinks(noted, id);
            }
        },
        MessageView::Code(_, id, _) => {
            lemma_relayed_shrinks(d, id, message);
        },
        MessageView::Value(_, id, _, _) => {
            lemma_relayed_shrinks(d, id, message);
        },
        MessageView::QueryResponse(id, _) => {
            lemma_relayed_shrinks(d, id, message);
        },
        MessageView::KeyPress(_) => {
            lemma_shrunk_same(nodes);
            if d.monitor_kb is Some {
                lemma_relayed_shrinks(d, d.monitor_kb->0, message);
            } else if d.foreground is Some {
                lemma_relayed_shrinks(d, d.foreground->0, message);
            }
        },
        MessageView::UIEvent(_, _) => {
            lemma_shrunk_same(nodes);
            if d.foreground is Some {
                lemma_relayed_shrinks(d, d.foreground->0, message);
            }
        },
        _ => {
            lemma_shrunk_same(nodes);
        },
    }
}

} // verus!
