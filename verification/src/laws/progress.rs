use crate::action::ActionView;
use crate::block::{first, lemma_first, settled, BlockView};
use crate::dispatch::{joined, lemma_swept_shrinks, CommandView, DispatcherView, Pass};
use crate::idset::{lemma_union_ids, lemma_with_id, lemma_without_id, union_ids, with_id};
use crate::laws::graph::{
    acyclic, after_end, coherent, lemma_first_by_names, lemma_first_own,
    lemma_same_names_chain, lemma_settled, lemma_settled_coherent, ranked, same_names, waits,
};
use vstd::prelude::*;

verus! {

/// Whether the action named `id` stands in the queue, among the running or among the ended.
pub open spec fn somewhere(p: Pass, id: Seq<char>) -> bool {
    p.queue.contains(id) || p.active.contains(id) || p.complete.contains(id)
}

/// Whether the action named `id` stands in one place at most.
pub open spec fn once(p: Pass, id: Seq<char>) -> bool {
    &&& !(p.queue.contains(id) && p.active.contains(id))
    &&& !(p.queue.contains(id) && p.complete.contains(id))
    &&& !(p.active.contains(id) && p.complete.contains(id))
}

/// Whether the queue, the running and the ended hold the actions of the graph, each in one
/// place, and nothing else.
pub open spec fn placed(p: Pass) -> bool {
    &&& forall|id: Seq<char>| #[trigger] somewhere(p, id) ==> first(p.block.nodes, id) is Some
    &&& forall|id: Seq<char>| #[trigger] once(p, id)
    &&& forall|j: int|
        0 <= j < p.block.nodes.len() ==> somewhere(p, (#[trigger] p.block.nodes[j]).info().id)
}

/// Whether the dispatcher and its graph fit together.
pub open spec fn sane(p: Pass) -> bool {
    coherent(p.block.nodes, p.complete) && placed(p)
}

/// Whether the action in place `j` has a reason to wait: a predecessor that has not ended,
/// or, if it waits for its companion alone, a companion that has not started.
pub open spec fn stuck(p: Pass, j: int) -> bool {
    let info = p.block.nodes[j].info();
    info.pending().len() > 0 || (info.after is None && info.with is Some && p.queue.contains(
        info.with->0,
    ))
}

/// Whether every action in the queue has a reason to wait or is among `rest` or the next
/// wave, to be looked at.
pub open spec fn held(p: Pass, rest: Seq<Seq<char>>) -> bool {
    forall|j: int|
        0 <= j < p.block.nodes.len() && p.queue.contains((#[trigger] p.block.nodes[j]).info().id)
            ==> stuck(p, j) || rest.contains(p.block.nodes[j].info().id) || p.wave.contains(
            p.block.nodes[j].info().id,
        )
}

/// Whether every action in the queue has a reason to wait or is noted as ready.
pub open spec fn held_back(p: Pass) -> bool {
    forall|j: int|
        0 <= j < p.block.nodes.len() && p.queue.contains((#[trigger] p.block.nodes[j]).info().id)
            ==> stuck(p, j) || p.ready.contains(p.block.nodes[j].info().id)
}

/// Whether every action in the queue has a reason to wait.
pub open spec fn quiet(p: Pass) -> bool {
    forall|j: int|
        0 <= j < p.block.nodes.len() && p.queue.contains((#[trigger] p.block.nodes[j]).info().id)
            ==> stuck(p, j)
}

/// The next wave holds what it held, and the dependents that may start.
pub proof fn lemma_joined(block: BlockView, deps: Seq<Seq<char>>, k: int, wave: Seq<Seq<char>>)
    requires
        0 <= k <= deps.len(),
    ensures
        forall|x: Seq<char>| wave.contains(x) ==> #[trigger] joined(block, deps, k, wave).contains(x),
        forall|m: int|
            0 <= m < k && block.eager(#[trigger] deps[m]) ==> joined(block, deps, k, wave).contains(
                deps[m],
            ),
    decreases k,
{
    if k > 0 {
        lemma_joined(block, deps, k - 1, wave);
        lemma_with_id(joined(block, deps, k - 1, wave), deps[k - 1]);
    }
}

proof fn lemma_started_keeps(p: Pass, id: Seq<char>, rest: Seq<Seq<char>>, rest2: Seq<Seq<char>>)
    requires
        sane(p),
        held(p, rest),
        p.queue.contains(id),
        forall|x: Seq<char>| rest.contains(x) ==> x == id || #[trigger] rest2.contains(x),
    ensures
        sane(p.started(id)),
        held(p.started(id), rest2),
        p.started(id).block.nodes == p.block.nodes,
        p.started(id).ready == p.ready,
{
    let q = p.started(id);
    let nodes = p.block.nodes;
    lemma_without_id(p.queue, id);
    lemma_with_id(p.active, id);
    assert(somewhere(p, id));
    lemma_first(nodes, id);
    let i = first(nodes, id)->0;
    let deps = nodes[i].info().dependents;
    lemma_joined(p.block, deps, deps.len() as int, p.wave);
    assert forall|x: Seq<char>| #[trigger] somewhere(q, x) implies first(q.block.nodes, x) is Some by {
        assert(somewhere(p, x) || x == id);
    }
    assert forall|x: Seq<char>| #[trigger] once(q, x) by {
        assert(once(p, x));
        assert(once(p, id));
    }
    assert forall|j: int| 0 <= j < nodes.len() implies somewhere(
        q,
        (#[trigger] q.block.nodes[j]).info().id,
    ) by {
        assert(somewhere(p, nodes[j].info().id));
    }
    assert forall|j: int|
        0 <= j < nodes.len() && q.queue.contains((#[trigger] q.block.nodes[j]).info().id) implies stuck(
        q,
        j,
    ) || rest2.contains(nodes[j].info().id) || q.wave.contains(nodes[j].info().id) by {
        let x = nodes[j].info().id;
        assert(p.queue.contains(x) && x != id);
        if stuck(p, j) {
            let info = nodes[j].info();
            if info.pending().len() == 0 {
                let w = info.with->0;
                if w == id {
                    assert(deps.contains(x));
                    let m = choose|m: int| 0 <= m < deps.len() && deps[m] == x;
                    lemma_first_own(nodes, j);
                    assert(p.block.eager(deps[m]));
                }
            }
        }
    }
}

proof fn lemma_skipped_keeps(p: Pass, id: Seq<char>, rest: Seq<Seq<char>>, rest2: Seq<Seq<char>>)
    requires
        sane(p),
        held(p, rest),
        p.queue.contains(id),
        forall|x: Seq<char>| rest.contains(x) ==> x == id || #[trigger] rest2.contains(x),
    ensures
        sane(p.skipped(id)),
        held(p.skipped(id), rest2),
        same_names(p.block.nodes, p.skipped(id).block.nodes),
        forall|rank: spec_fn(Seq<char>) -> nat|
            ranked(p.block.nodes, rank) ==> ranked(p.skipped(id).block.nodes, rank),
        p.skipped(id).ready == p.ready,
{
    let q = p.skipped(id);
    let nodes = p.block.nodes;
    let done = with_id(p.complete, id);
    let end = settled(nodes, id, done);
    lemma_without_id(p.queue, id);
    lemma_with_id(p.complete, id);
    assert(somewhere(p, id));
    lemma_first(nodes, id);
    let i = first(nodes, id)->0;
    lemma_settled(nodes, id, done);
    assert forall|rank: spec_fn(Seq<char>) -> nat| ranked(nodes, rank) implies ranked(
        q.block.nodes,
        rank,
    ) by {
        lemma_settled_coherent(nodes, id, p.complete, rank);
    }
    lemma_settled_coherent(nodes, id, p.complete, |x: Seq<char>| 0nat);
    lemma_union_ids(p.wave, end.ready);
    lemma_union_ids(union_ids(p.wave, end.ready), end.expired);
    assert forall|x: Seq<char>| #[trigger] somewhere(q, x) implies first(q.block.nodes, x) is Some by {
        assert(somewhere(p, x) || x == id);
        lemma_first_by_names(nodes, end.nodes, x);
    }
    assert forall|x: Seq<char>| #[trigger] once(q, x) by {
        assert(once(p, x));
        assert(once(p, id));
    }
    assert forall|j: int| 0 <= j < q.block.nodes.len() implies somewhere(
        q,
        (#[trigger] q.block.nodes[j]).info().id,
    ) by {
        assert(somewhere(p, nodes[j].info().id));
    }
    assert forall|j: int|
        0 <= j < q.block.nodes.len() && q.queue.contains(
            (#[trigger] q.block.nodes[j]).info().id,
        ) implies stuck(q, j) || rest2.contains(q.block.nodes[j].info().id) || q.wave.contains(
        q.block.nodes[j].info().id,
    ) by {
        let x = nodes[j].info().id;
        assert(end.nodes[j] == after_end(nodes, id, done, j));
        assert(p.queue.contains(x) && x != id);
        assert(once(p, x));
        lemma_first_own(nodes, j);
        if stuck(p, j) {
            let info = nodes[j].info();
            if info.pending().len() > 0 {
                if end.nodes[j].info().pending().len() == 0 {
                    assert(nodes[i].info().successors.contains(x));
                    assert(end.ready.contains(x));
                }
            } else {
                let w = info.with->0;
                if w == id {
                    assert(nodes[i].info().dependents.contains(x));
                    assert(end.expired.contains(x));
                }
            }
        }
    }
}

proof fn lemma_moved_keeps(p: Pass, id: Seq<char>, rest: Seq<Seq<char>>, rest2: Seq<Seq<char>>)
    requires
        sane(p),
        held(p, rest),
        forall|x: Seq<char>| rest.contains(x) ==> x == id || #[trigger] rest2.contains(x),
    ensures
        sane(p.moved(id)),
        held(p.moved(id), rest2),
        same_names(p.block.nodes, p.moved(id).block.nodes),
        forall|rank: spec_fn(Seq<char>) -> nat|
            ranked(p.block.nodes, rank) ==> ranked(p.moved(id).block.nodes, rank),
        p.moved(id).ready == p.ready,
{
    if !p.queue.contains(id) {
    } else if p.block.lapsed(id) {
        lemma_skipped_keeps(p, id, rest, rest2);
    } else {
        lemma_started_keeps(p, id, rest, rest2);
    }
}

proof fn lemma_swept_keeps(p: Pass, wave: Seq<Seq<char>>, k: int)
    requires
        sane(p),
        held(p, wave),
        0 <= k <= wave.len(),
    ensures
        sane(p.swept(wave, k)),
        held(p.swept(wave, k), wave.skip(k)),
        same_names(p.block.nodes, p.swept(wave, k).block.nodes),
        forall|rank: spec_fn(Seq<char>) -> nat|
            ranked(p.block.nodes, rank) ==> ranked(p.swept(wave, k).block.nodes, rank),
        p.swept(wave, k).ready == p.ready,
    decreases k,
{
    if k > 0 {
        lemma_swept_keeps(p, wave, k - 1);
        let q = p.swept(wave, k - 1);
        assert forall|x: Seq<char>| wave.skip(k - 1).contains(x) implies x == wave[k - 1]
            || #[trigger] wave.skip(k).contains(x) by {
            let rest = wave.skip(k - 1);
            let m = choose|m: int| 0 <= m < rest.len() && rest[m] == x;
            if m > 0 {
                assert(wave.skip(k)[m - 1] == x);
            }
        }
        lemma_moved_keeps(q, wave[k - 1], wave.skip(k - 1), wave.skip(k));
        lemma_same_names_chain(p.block.nodes, q.block.nodes, q.moved(wave[k - 1]).block.nodes);
    } else {
        assert(wave.skip(0) =~= wave);
    }
}

/// A pass over the graph ends with nothing left to look at, and until then keeps the
/// dispatcher and its graph fitting together.
pub proof fn lemma_advanced_keeps(p: Pass, wave: Seq<Seq<char>>, fuel: nat)
    requires
        sane(p),
        p.wave.len() == 0,
        held(p, wave),
        fuel > p.queue.len(),
    ensures
        sane(p.advanced(wave, fuel)),
        quiet(p.advanced(wave, fuel)),
        same_names(p.block.nodes, p.advanced(wave, fuel).block.nodes),
        forall|rank: spec_fn(Seq<char>) -> nat|
            ranked(p.block.nodes, rank) ==> ranked(p.advanced(wave, fuel).block.nodes, rank),
        p.advanced(wave, fuel).ready == p.ready,
    decreases fuel,
{
    if wave.len() == 0 {
    } else {
        assert(p.wave =~= Seq::empty());
        let fresh = Pass { wave: Seq::empty(), ..p };
        assert(fresh == p);
        lemma_swept_keeps(fresh, wave, wave.len() as int);
        lemma_swept_shrinks(fresh, wave, wave.len() as int);
        let next = fresh.swept(wave, wave.len() as int);
        assert(wave.skip(wave.len() as int) =~= Seq::empty());
        if next.wave.len() == 0 {
            assert(next.advanced(next.wave, (fuel - 1) as nat) == next);
        } else {
            let tail = Pass { wave: Seq::empty(), ..next };
            crate::dispatch::lemma_advanced_fresh(next, next.wave, (fuel - 1) as nat);
            assert(sane(tail)) by {
                assert forall|x: Seq<char>| #[trigger] somewhere(tail, x) implies first(
                    tail.block.nodes,
                    x,
                ) is Some by {
                    assert(somewhere(next, x));
                }
                assert forall|x: Seq<char>| #[trigger] once(tail, x) by {
                    assert(once(next, x));
                }
                assert forall|j: int| 0 <= j < tail.block.nodes.len() implies somewhere(
                    tail,
                    (#[trigger] tail.block.nodes[j]).info().id,
                ) by {
                    assert(somewhere(next, next.block.nodes[j].info().id));
                }
            }
            assert(held(tail, next.wave)) by {
                assert forall|j: int|
                    0 <= j < tail.block.nodes.len() && tail.queue.contains(
                        (#[trigger] tail.block.nodes[j]).info().id,
                    ) implies stuck(tail, j) || next.wave.contains(tail.block.nodes[j].info().id)
                    || tail.wave.contains(tail.block.nodes[j].info().id) by {
                    assert(stuck(next, j) || next.wave.contains(next.block.nodes[j].info().id));
                }
            }
            lemma_advanced_keeps(tail, next.wave, (fuel - 1) as nat);
            lemma_same_names_chain(
                p.block.nodes,
                next.block.nodes,
                tail.advanced(next.wave, (fuel - 1) as nat).block.nodes,
            );
        }
    }
}

proof fn lemma_wrapped_keeps(p: Pass, id: Seq<char>)
    requires
        sane(p),
        held_back(p),
    ensures
        sane(p.wrapped(id)),
        held_back(p.wrapped(id)),
        same_names(p.block.nodes, p.wrapped(id).block.nodes),
        forall|rank: spec_fn(Seq<char>) -> nat|
            ranked(p.block.nodes, rank) ==> ranked(p.wrapped(id).block.nodes, rank),
        p.wrapped(id).queue == p.queue,
{
    if p.active.contains(id) {
        let q = p.wrapped(id);
        let nodes = p.block.nodes;
        let done = with_id(p.complete, id);
        let end = settled(nodes, id, done);
        lemma_without_id(p.active, id);
        lemma_with_id(p.complete, id);
        assert(somewhere(p, id));
        lemma_first(nodes, id);
        let i = first(nodes, id)->0;
        lemma_settled(nodes, id, done);
        assert forall|rank: spec_fn(Seq<char>) -> nat| ranked(nodes, rank) implies ranked(
            q.block.nodes,
            rank,
        ) by {
            lemma_settled_coherent(nodes, id, p.complete, rank);
        }
        lemma_settled_coherent(nodes, id, p.complete, |x: Seq<char>| 0nat);
        lemma_union_ids(p.ready, end.ready);
        assert forall|x: Seq<char>| #[trigger] somewhere(q, x) implies first(
            q.block.nodes,
            x,
        ) is Some by {
            assert(somewhere(p, x) || x == id);
            lemma_first_by_names(nodes, end.nodes, x);
        }
        assert forall|x: Seq<char>| #[trigger] once(q, x) by {
            assert(once(p, x));
            assert(once(p, id));
        }
        assert forall|j: int| 0 <= j < q.block.nodes.len() implies somewhere(
            q,
            (#[trigger] q.block.nodes[j]).info().id,
        ) by {
            assert(somewhere(p, nodes[j].info().id));
        }
        assert forall|j: int|
            0 <= j < q.block.nodes.len() && q.queue.contains(
                (#[trigger] q.block.nodes[j]).info().id,
            ) implies stuck(q, j) || q.ready.contains(q.block.nodes[j].info().id) by {
            let x = nodes[j].info().id;
            assert(end.nodes[j] == after_end(nodes, id, done, j));
            assert(once(p, x));
            assert(once(p, id));
            lemma_first_own(nodes, j);
            if stuck(p, j) {
                let info = nodes[j].info();
                if info.pending().len() > 0 {
                    if end.nodes[j].info().pending().len() == 0 {
                        assert(nodes[i].info().successors.contains(x));
                        assert(end.ready.contains(x));
                    }
                }
            }
        }
    }
}

proof fn lemma_closed_keeps(p: Pass, wave: Seq<Seq<char>>, k: int)
    requires
        sane(p),
        held_back(p),
        0 <= k <= wave.len(),
    ensures
        sane(p.closed(wave, k)),
        held_back(p.closed(wave, k)),
        same_names(p.block.nodes, p.closed(wave, k).block.nodes),
        forall|rank: spec_fn(Seq<char>) -> nat|
            ranked(p.block.nodes, rank) ==> ranked(p.closed(wave, k).block.nodes, rank),
        p.closed(wave, k).queue == p.queue,
    decreases k,
{
    if k > 0 {
        lemma_closed_keeps(p, wave, k - 1);
        let q = p.closed(wave, k - 1);
        lemma_wrapped_keeps(q, wave[k - 1]);
        lemma_same_names_chain(p.block.nodes, q.block.nodes, q.wrapped(wave[k - 1]).block.nodes);
    }
}

/// The state of a pass says nothing of what is noted for the next wave.
proof fn lemma_fresh_keeps(p: Pass)
    requires
        sane(p),
        held_back(p),
    ensures
        sane(Pass { wave: Seq::empty(), ..p }),
        held_back(Pass { wave: Seq::empty(), ..p }),
{
    let q = Pass { wave: Seq::empty(), ..p };
    assert forall|x: Seq<char>| #[trigger] somewhere(q, x) implies first(q.block.nodes, x) is Some by {
        assert(somewhere(p, x));
    }
    assert forall|x: Seq<char>| #[trigger] once(q, x) by {
        assert(once(p, x));
    }
    assert forall|j: int| 0 <= j < q.block.nodes.len() implies somewhere(
        q,
        (#[trigger] q.block.nodes[j]).info().id,
    ) by {
        assert(somewhere(p, p.block.nodes[j].info().id));
    }
    assert forall|j: int|
        0 <= j < q.block.nodes.len() && q.queue.contains(
            (#[trigger] q.block.nodes[j]).info().id,
        ) implies stuck(q, j) || q.ready.contains(q.block.nodes[j].info().id) by {
        assert(stuck(p, j) || p.ready.contains(p.block.nodes[j].info().id));
    }
}

proof fn lemma_cascaded_keeps(p: Pass, wave: Seq<Seq<char>>, fuel: nat)
    requires
        sane(p),
        held_back(p),
    ensures
        sane(p.cascaded(wave, fuel)),
        held_back(p.cascaded(wave, fuel)),
        same_names(p.block.nodes, p.cascaded(wave, fuel).block.nodes),
        forall|rank: spec_fn(Seq<char>) -> nat|
            ranked(p.block.nodes, rank) ==> ranked(p.cascaded(wave, fuel).block.nodes, rank),
        p.cascaded(wave, fuel).queue == p.queue,
    decreases fuel,
{
    if !(wave.len() == 0 || fuel == 0) {
        lemma_fresh_keeps(p);
        let fresh = Pass { wave: Seq::empty(), ..p };
        lemma_closed_keeps(fresh, wave, wave.len() as int);
        let next = fresh.closed(wave, wave.len() as int);
        lemma_cascaded_keeps(next, next.wave, (fuel - 1) as nat);
        lemma_same_names_chain(
            p.block.nodes,
            next.block.nodes,
            next.cascaded(next.wave, (fuel - 1) as nat).block.nodes,
        );
    }
}

/// A place in the sequence whose name ranks lowest.
proof fn lemma_least(s: Seq<Seq<char>>, rank: spec_fn(Seq<char>) -> nat) -> (m: int)
    requires
        s.len() > 0,
    ensures
        0 <= m < s.len(),
        forall|k: int| 0 <= k < s.len() ==> rank(s[m]) <= rank(#[trigger] s[k]),
    decreases s.len(),
{
    if s.len() == 1 {
        0
    } else {
        let front = s.drop_last();
        let m = lemma_least(front, rank);
        assert(front[m] == s[m]);
        if rank(s.last()) < rank(s[m]) {
            assert forall|k: int| 0 <= k < s.len() implies rank(s.last()) <= rank(#[trigger] s[k]) by {
                if k < front.len() {
                    assert(front[k] == s[k]);
                }
            }
            s.len() - 1
        } else {
            assert forall|k: int| 0 <= k < s.len() implies rank(s[m]) <= rank(#[trigger] s[k]) by {
                if k < front.len() {
                    assert(front[k] == s[k]);
                }
            }
            m
        }
    }
}

/// Where every action in the queue has a reason to wait and nothing runs, the queue is
/// empty: in a graph without circles the reasons would never end otherwise.
pub proof fn lemma_quiet_empty(p: Pass, rank: spec_fn(Seq<char>) -> nat)
    requires
        sane(p),
        quiet(p),
        ranked(p.block.nodes, rank),
        p.active.len() == 0,
    ensures
        p.queue.len() == 0,
{
    if p.queue.len() > 0 {
        let nodes = p.block.nodes;
        let m = lemma_least(p.queue, rank);
        let x = p.queue[m];
        assert(p.queue.contains(x));
        assert(somewhere(p, x));
        lemma_first(nodes, x);
        let j = first(nodes, x)->0;
        assert(stuck(p, j));
        let info = nodes[j].info();
        if info.pending().len() > 0 {
            let y = info.pending()[0];
            assert(info.pending().contains(y));
            assert(waits(nodes, j, y));
            lemma_first(nodes, y);
            let i = first(nodes, y)->0;
            assert(somewhere(p, nodes[i].info().id));
            assert(p.queue.contains(y));
            let k = choose|k: int| 0 <= k < p.queue.len() && p.queue[k] == y;
            assert(rank(p.queue[m]) <= rank(p.queue[k]));
        } else {
            let w = info.with->0;
            assert(p.queue.contains(w));
            let k = choose|k: int| 0 <= k < p.queue.len() && p.queue[k] == w;
            assert(rank(p.queue[m]) <= rank(p.queue[k]));
            assert(nodes[j].info().after is None);
        }
    }
}

proof fn lemma_advanced_done(p: Pass, wave: Seq<Seq<char>>, fuel: nat)
    requires
        fuel > p.queue.len(),
        p.wave.len() == 0 || p.wave == wave,
    ensures
        p.advanced(wave, fuel).wave.len() == 0,
    decreases fuel,
{
    if wave.len() > 0 {
        let fresh = Pass { wave: Seq::empty(), ..p };
        lemma_swept_shrinks(fresh, wave, wave.len() as int);
        let next = fresh.swept(wave, wave.len() as int);
        if next.wave.len() > 0 {
            lemma_advanced_done(next, next.wave, (fuel - 1) as nat);
        }
    }
}

proof fn lemma_cascaded_done(p: Pass, wave: Seq<Seq<char>>, fuel: nat)
    requires
        fuel > p.active.len(),
        p.wave.len() == 0 || p.wave == wave,
    ensures
        p.cascaded(wave, fuel).wave.len() == 0,
    decreases fuel,
{
    if wave.len() > 0 {
        let fresh = Pass { wave: Seq::empty(), ..p };
        crate::dispatch::lemma_closed_shrinks(fresh, wave, wave.len() as int);
        let next = fresh.closed(wave, wave.len() as int);
        if next.wave.len() > 0 {
            lemma_cascaded_done(next, next.wave, (fuel - 1) as nat);
        }
    }
}

/// A pass ends because nothing is left to look at, never because it has run out of waves:
/// as many waves as there are actions to start, and one more, are enough for starting, and
/// as many as there are running actions, and one more, for ending.
pub proof fn law_passes_run_out(p: Pass, ready: Seq<Seq<char>>, id: Seq<char>)
    requires
        p.wave.len() == 0,
    ensures
        p.advanced(ready, (p.queue.len() + 1) as nat).wave.len() == 0,
        p.cascaded(seq![id], (p.active.len() + 1) as nat).wave.len() == 0,
{
    lemma_advanced_done(p, ready, (p.queue.len() + 1) as nat);
    lemma_cascaded_done(p, seq![id], (p.active.len() + 1) as nat);
}

/// Whether the commands say nothing of the end of the block.
pub open spec fn calm(out: Seq<CommandView>) -> bool {
    forall|i: int|
        0 <= i < out.len() ==> !((#[trigger] out[i]) is Deadlock) && !(out[i] is BlockComplete)
}

/// What is left to do: the actions that have not started and those that run.
pub open spec fn weight(p: Pass) -> nat {
    p.queue.len() + p.active.len()
}

proof fn lemma_moved_weight(p: Pass, id: Seq<char>)
    ensures
        weight(p.moved(id)) <= weight(p),
        calm(p.out) ==> calm(p.moved(id).out),
{
    lemma_without_id(p.queue, id);
    lemma_with_id(p.active, id);
}

proof fn lemma_swept_weight(p: Pass, wave: Seq<Seq<char>>, k: int)
    ensures
        weight(p.swept(wave, k)) <= weight(p),
        calm(p.out) ==> calm(p.swept(wave, k).out),
    decreases k,
{
    if k > 0 {
        lemma_swept_weight(p, wave, k - 1);
        lemma_moved_weight(p.swept(wave, k - 1), wave[k - 1]);
    }
}

proof fn lemma_advanced_weight(p: Pass, wave: Seq<Seq<char>>, fuel: nat)
    ensures
        weight(p.advanced(wave, fuel)) <= weight(p),
        calm(p.out) ==> calm(p.advanced(wave, fuel).out),
    decreases fuel,
{
    if !(wave.len() == 0 || fuel == 0) {
        let fresh = Pass { wave: Seq::empty(), ..p };
        lemma_swept_weight(fresh, wave, wave.len() as int);
        let next = fresh.swept(wave, wave.len() as int);
        lemma_advanced_weight(next, next.wave, (fuel - 1) as nat);
    }
}

proof fn lemma_wrapped_weight(p: Pass, id: Seq<char>)
    ensures
        weight(p.wrapped(id)) <= weight(p),
        p.active.contains(id) ==> weight(p.wrapped(id)) < weight(p),
        calm(p.out) ==> calm(p.wrapped(id).out),
{
    lemma_without_id(p.active, id);
}

proof fn lemma_closed_weight(p: Pass, wave: Seq<Seq<char>>, k: int)
    ensures
        weight(p.closed(wave, k)) <= weight(p),
        k >= 1 && p.active.contains(wave[0]) ==> weight(p.closed(wave, k)) < weight(p),
        calm(p.out) ==> calm(p.closed(wave, k).out),
    decreases k,
{
    if k > 0 {
        lemma_closed_weight(p, wave, k - 1);
        lemma_wrapped_weight(p.closed(wave, k - 1), wave[k - 1]);
    }
}

proof fn lemma_cascaded_weight(p: Pass, wave: Seq<Seq<char>>, fuel: nat)
    ensures
        weight(p.cascaded(wave, fuel)) <= weight(p),
        fuel >= 1 && wave.len() >= 1 && p.active.contains(wave[0]) ==> weight(
            p.cascaded(wave, fuel),
        ) < weight(p),
        calm(p.out) ==> calm(p.cascaded(wave, fuel).out),
    decreases fuel,
{
    if !(wave.len() == 0 || fuel == 0) {
        let fresh = Pass { wave: Seq::empty(), ..p };
        lemma_closed_weight(fresh, wave, wave.len() as int);
        let next = fresh.closed(wave, wave.len() as int);
        lemma_cascaded_weight(next, next.wave, (fuel - 1) as nat);
    }
}

/// Whether the graph of a freshly built block is fit to run: it hangs together, has no
/// circle of actions that wait for each other, and every action but the entry gate waits
/// for a predecessor or for its companion.
pub open spec fn well_built(nodes: Seq<ActionView>) -> bool {
    &&& coherent(nodes, Seq::empty())
    &&& acyclic(nodes)
    &&& forall|j: int|
        0 <= j < nodes.len() ==> (#[trigger] nodes[j]).info().id == "entry"@
            || nodes[j].info().pending().len() > 0 || (nodes[j].info().after is None
            && nodes[j].info().with is Some)
}

impl DispatcherView {
    /// Whether the dispatcher is at rest on a block that is fit to run: it fits together
    /// with the graph, the graph has no circle, and every action that has not started has a
    /// reason to wait. It is where no block is loaded.
    pub open spec fn steady(self) -> bool {
        match self.block {
            Some(b) => sane(self.begin(b)) && quiet(self.begin(b)) && acyclic(b.nodes),
            None => true,
        }
    }
}

/// What a pass has come to when it is over: every action that has not started has a reason
/// to wait, no deadlock is reported, and the end of the block is reported, as the last
/// command, exactly where nothing runs any more; nothing is left to start then.
pub open spec fn well_ended(q: Pass) -> bool {
    &&& q.state().steady()
    &&& forall|i: int| 0 <= i < q.out.len() ==> !((#[trigger] q.out[i]) is Deadlock)
    &&& forall|i: int|
        0 <= i < q.out.len() && (#[trigger] q.out[i]) is BlockComplete ==> i == q.out.len() - 1
    &&& q.active.len() == 0 <==> q.out.len() > 0 && q.out.last() is BlockComplete
    &&& q.active.len() == 0 ==> q.queue.len() == 0
}

proof fn lemma_state_keeps(q: Pass)
    requires
        sane(q),
        quiet(q),
    ensures
        sane(q.state().begin(q.block)),
        quiet(q.state().begin(q.block)),
{
    let r = q.state().begin(q.block);
    assert forall|x: Seq<char>| #[trigger] somewhere(r, x) implies first(r.block.nodes, x) is Some by {
        assert(somewhere(q, x));
    }
    assert forall|x: Seq<char>| #[trigger] once(r, x) by {
        assert(once(q, x));
    }
    assert forall|j: int| 0 <= j < r.block.nodes.len() implies somewhere(
        r,
        (#[trigger] r.block.nodes[j]).info().id,
    ) by {
        assert(somewhere(q, q.block.nodes[j].info().id));
    }
    assert forall|j: int|
        0 <= j < r.block.nodes.len() && r.queue.contains(
            (#[trigger] r.block.nodes[j]).info().id,
        ) implies stuck(r, j) by {
        assert(stuck(q, j));
    }
}

proof fn lemma_run_ends_well(p: Pass, ready: Seq<Seq<char>>)
    requires
        sane(p),
        acyclic(p.block.nodes),
        held(Pass { wave: Seq::empty(), ..p }, ready),
        calm(p.out),
    ensures
        well_ended(p.run(ready)),
        weight(p.run(ready)) <= weight(p),
        same_names(p.block.nodes, p.run(ready).block.nodes),
{
    let fresh = Pass { wave: Seq::empty(), ..p };
    assert(sane(fresh)) by {
        assert forall|x: Seq<char>| #[trigger] somewhere(fresh, x) implies first(
            fresh.block.nodes,
            x,
        ) is Some by {
            assert(somewhere(p, x));
        }
        assert forall|x: Seq<char>| #[trigger] once(fresh, x) by {
            assert(once(p, x));
        }
        assert forall|j: int| 0 <= j < fresh.block.nodes.len() implies somewhere(
            fresh,
            (#[trigger] fresh.block.nodes[j]).info().id,
        ) by {
            assert(somewhere(p, p.block.nodes[j].info().id));
        }
    }
    let fuel = (p.queue.len() + 1) as nat;
    lemma_advanced_keeps(fresh, ready, fuel);
    lemma_advanced_weight(fresh, ready, fuel);
    let q = fresh.advanced(ready, fuel);
    let rank = choose|rank: spec_fn(Seq<char>) -> nat| ranked(p.block.nodes, rank);
    assert(ranked(q.block.nodes, rank));
    if q.active.len() == 0 {
        lemma_quiet_empty(q, rank);
    }
    let e = q.concluded();
    assert(sane(e) && quiet(e)) by {
        assert forall|x: Seq<char>| #[trigger] somewhere(e, x) implies first(
            e.block.nodes,
            x,
        ) is Some by {
            assert(somewhere(q, x));
        }
        assert forall|x: Seq<char>| #[trigger] once(e, x) by {
            assert(once(q, x));
        }
        assert forall|j: int| 0 <= j < e.block.nodes.len() implies somewhere(
            e,
            (#[trigger] e.block.nodes[j]).info().id,
        ) by {
            assert(somewhere(q, q.block.nodes[j].info().id));
        }
        assert forall|j: int|
            0 <= j < e.block.nodes.len() && e.queue.contains(
                (#[trigger] e.block.nodes[j]).info().id,
            ) implies stuck(e, j) by {
            assert(stuck(q, j));
        }
    }
    lemma_state_keeps(e);
    assert(acyclic(e.block.nodes));
}

/// A graph that passes the test of `runnable` is fit to run.
pub proof fn law_runnable_well_built(nodes: Seq<ActionView>)
    requires
        crate::block::runnable(nodes),
    ensures
        well_built(nodes),
{
    let none = Seq::<Seq<char>>::empty();
    assert forall|i: int, j: int|
        0 <= i < nodes.len() && 0 <= j < nodes.len() && #[trigger] crate::laws::graph::leads(
            nodes,
            i,
            j,
        ) && !none.contains(nodes[i].info().id) implies waits(nodes, j, nodes[i].info().id) by {
        assert(crate::block::runnable_at(nodes, i));
        let succs = nodes[i].info().successors;
        let m = choose|m: int| 0 <= m < succs.len() && succs[m] == nodes[j].info().id;
        assert(crate::block::awaits(nodes, i, succs[m]));
        lemma_first_own(nodes, j);
    }
    assert forall|j: int, x: Seq<char>|
        0 <= j < nodes.len() && #[trigger] waits(nodes, j, x) implies first(nodes, x) is Some
        && !none.contains(x) && nodes[first(nodes, x)->0].info().successors.contains(
        nodes[j].info().id,
    ) by {
        assert(crate::block::runnable_at(nodes, j));
        let pending = nodes[j].info().pending();
        let m = choose|m: int| 0 <= m < pending.len() && pending[m] == x;
        assert(crate::block::heeded(nodes, j, pending[m]));
    }
    assert forall|j: int|
        0 <= j < nodes.len() && (#[trigger] nodes[j]).info().with is Some implies first(
        nodes,
        nodes[j].info().with->0,
    ) is Some && nodes[first(nodes, nodes[j].info().with->0)->0].info().dependents.contains(
        nodes[j].info().id,
    ) by {
        assert(crate::block::runnable_at(nodes, j));
    }
    let rank = |x: Seq<char>|
        match first(nodes, x) {
            Some(i) => i as nat,
            None => 0nat,
        };
    assert(ranked(nodes, rank)) by {
        assert forall|j: int, x: Seq<char>|
            0 <= j < nodes.len() && #[trigger] waits(nodes, j, x) implies rank(x) < rank(
            nodes[j].info().id,
        ) by {
            assert(crate::block::runnable_at(nodes, j));
            let pending = nodes[j].info().pending();
            let m = choose|m: int| 0 <= m < pending.len() && pending[m] == x;
            assert(crate::block::heeded(nodes, j, pending[m]));
            lemma_first_own(nodes, j);
            lemma_first(nodes, x);
        }
        assert forall|j: int|
            0 <= j < nodes.len() && (#[trigger] nodes[j]).info().after is None
                && nodes[j].info().with is Some implies rank(nodes[j].info().with->0) < rank(
            nodes[j].info().id,
        ) by {
            assert(crate::block::runnable_at(nodes, j));
            lemma_first_own(nodes, j);
            lemma_first(nodes, nodes[j].info().with->0);
        }
    }
    assert forall|j: int| 0 <= j < nodes.len() implies (#[trigger] nodes[j]).info().id == "entry"@
        || nodes[j].info().pending().len() > 0 || (nodes[j].info().after is None
        && nodes[j].info().with is Some) by {
        assert(crate::block::runnable_at(nodes, j));
    }
}

/// Loading a block that is fit to run leaves the dispatcher at rest, without a deadlock;
/// the end of the block is reported, as the last command, exactly where nothing runs.
pub proof fn law_loaded_steady(block: BlockView)
    requires
        well_built(block.nodes),
    ensures
        DispatcherView::loaded(block).0.steady(),
        forall|i: int|
            0 <= i < DispatcherView::loaded(block).1.len() ==> !((
            #[trigger] DispatcherView::loaded(block).1[i]) is Deadlock),
        forall|i: int|
            0 <= i < DispatcherView::loaded(block).1.len() && (
            #[trigger] DispatcherView::loaded(block).1[i]) is BlockComplete ==> i
                == DispatcherView::loaded(block).1.len() - 1,
        DispatcherView::loaded(block).0.active.len() == 0 <==> DispatcherView::loaded(
            block,
        ).1.len() > 0 && DispatcherView::loaded(block).1.last() is BlockComplete,
        DispatcherView::loaded(block).0.active.len() == 0 ==> DispatcherView::loaded(
            block,
        ).0.queue.len() == 0,
{
    let nodes = block.nodes;
    let names = crate::block::names(nodes);
    let fresh = DispatcherView { queue: union_ids(Seq::empty(), names), ..DispatcherView::idle() };
    let p = fresh.begin(block);
    lemma_union_ids(Seq::empty(), names);
    assert forall|x: Seq<char>| #[trigger] somewhere(p, x) implies first(nodes, x) is Some by {
        assert(names.contains(x));
        let j = choose|j: int| 0 <= j < names.len() && names[j] == x;
        assert(nodes[j].info().id == x);
        lemma_first(nodes, x);
    }
    assert forall|x: Seq<char>| #[trigger] once(p, x) by {}
    assert forall|j: int| 0 <= j < nodes.len() implies somewhere(
        p,
        (#[trigger] p.block.nodes[j]).info().id,
    ) by {
        assert(names[j] == nodes[j].info().id);
        assert(names.contains(nodes[j].info().id));
    }
    let ready = seq!["entry"@];
    assert(held(Pass { wave: Seq::empty(), ..p }, ready)) by {
        assert forall|j: int|
            0 <= j < nodes.len() && p.queue.contains((#[trigger] p.block.nodes[j]).info().id) implies stuck(
            Pass { wave: Seq::empty(), ..p },
            j,
        ) || ready.contains(nodes[j].info().id) by {
            if nodes[j].info().id == "entry"@ {
                assert(ready[0] == "entry"@);
            } else if nodes[j].info().pending().len() > 0 {
            } else {
                let w = nodes[j].info().with->0;
                lemma_first(nodes, w);
                let i = first(nodes, w)->0;
                assert(names[i] == w);
                assert(names.contains(w));
            }
        }
    }
    lemma_run_ends_well(p, ready);
}

/// Starting actions leaves a dispatcher at rest at rest, without a deadlock; the end of the
/// block is reported, as the last command, exactly where nothing runs.
pub proof fn law_advance_steady(d: DispatcherView, ready: Seq<Seq<char>>)
    requires
        d.steady(),
    ensures
        d.advance(ready).0.steady(),
        d.block is Some ==> well_ended(d.begin(d.block->0).run(ready)),
        d.advance(ready).0.queue.len() + d.advance(ready).0.active.len() <= d.queue.len()
            + d.active.len(),
{
    if let Some(b) = d.block {
        let p = d.begin(b);
        assert(held(Pass { wave: Seq::empty(), ..p }, ready)) by {
            assert forall|j: int|
                0 <= j < p.block.nodes.len() && p.queue.contains(
                    (#[trigger] p.block.nodes[j]).info().id,
                ) implies stuck(Pass { wave: Seq::empty(), ..p }, j) by {
                assert(stuck(p, j));
            }
        }
        lemma_run_ends_well(p, ready);
    }
}

/// The end of an action leaves a dispatcher at rest at rest, without a deadlock; the end of
/// the block is reported, as the last command, exactly where nothing runs; and if the
/// action was running, less is left to do than before.
pub proof fn law_completed_steady(d: DispatcherView, id: Seq<char>)
    requires
        d.steady(),
    ensures
        d.completed(id).0.steady(),
        d.block is Some && !d.complete.contains(id) ==> well_ended(
            d.begin(d.block->0).finished(id),
        ),
        d.completed(id).0.queue.len() + d.completed(id).0.active.len() <= d.queue.len()
            + d.active.len(),
        d.block is Some && d.active.contains(id) ==> d.completed(id).0.queue.len()
            + d.completed(id).0.active.len() < d.queue.len() + d.active.len(),
{
    if let Some(b) = d.block {
        let p = d.begin(b);
        assert(once(p, id));
        if !d.complete.contains(id) {
            let fuel = (p.active.len() + 1) as nat;
            assert(held_back(p)) by {
                assert forall|j: int|
                    0 <= j < p.block.nodes.len() && p.queue.contains(
                        (#[trigger] p.block.nodes[j]).info().id,
                    ) implies stuck(p, j) by {}
            }
            lemma_cascaded_keeps(p, seq![id], fuel);
            lemma_cascaded_weight(p, seq![id], fuel);
            let c = p.cascaded(seq![id], fuel);
            let e = c.cleared();
            assert(sane(e) && held_back(e)) by {
                assert forall|x: Seq<char>| #[trigger] somewhere(e, x) implies first(
                    e.block.nodes,
                    x,
                ) is Some by {
                    assert(somewhere(c, x));
                }
                assert forall|x: Seq<char>| #[trigger] once(e, x) by {
                    assert(once(c, x));
                }
                assert forall|j: int| 0 <= j < e.block.nodes.len() implies somewhere(
                    e,
                    (#[trigger] e.block.nodes[j]).info().id,
                ) by {
                    assert(somewhere(c, c.block.nodes[j].info().id));
                }
                assert forall|j: int|
                    0 <= j < e.block.nodes.len() && e.queue.contains(
                        (#[trigger] e.block.nodes[j]).info().id,
                    ) implies stuck(e, j) || e.ready.contains(e.block.nodes[j].info().id) by {
                    assert(stuck(c, j) || c.ready.contains(c.block.nodes[j].info().id));
                }
            }
            let rank = choose|rank: spec_fn(Seq<char>) -> nat| ranked(p.block.nodes, rank);
            assert(ranked(e.block.nodes, rank));
            assert(held(Pass { wave: Seq::empty(), ..e }, e.ready)) by {
                assert forall|j: int|
                    0 <= j < e.block.nodes.len() && e.queue.contains(
                        (#[trigger] e.block.nodes[j]).info().id,
                    ) implies stuck(Pass { wave: Seq::empty(), ..e }, j) || e.ready.contains(
                    e.block.nodes[j].info().id,
                ) by {
                    assert(stuck(e, j) || e.ready.contains(e.block.nodes[j].info().id));
                }
            }
            lemma_run_ends_well(e, e.ready);
        }
    }
}

/// Whether two graphs agree in everything that the order of their actions rests on: the
/// names, what the actions wait for, their companions, and who they know as successors and
/// dependents.
pub open spec fn same_frame(a: Seq<ActionView>, b: Seq<ActionView>) -> bool {
    a.len() == b.len() && forall|j: int|
        0 <= j < a.len() ==> (#[trigger] b[j]).info().id == a[j].info().id && b[j].info().after
            == a[j].info().after && b[j].info().with == a[j].info().with
            && b[j].info().successors == a[j].info().successors && b[j].info().dependents
            == a[j].info().dependents
}

proof fn lemma_same_frame(p: Pass, nodes: Seq<ActionView>)
    requires
        sane(p),
        quiet(p),
        same_frame(p.block.nodes, nodes),
    ensures
        sane(Pass { block: p.block.with_nodes(nodes), ..p }),
        quiet(Pass { block: p.block.with_nodes(nodes), ..p }),
        forall|rank: spec_fn(Seq<char>) -> nat|
            ranked(p.block.nodes, rank) ==> ranked(nodes, rank),
{
    let old = p.block.nodes;
    let q = Pass { block: p.block.with_nodes(nodes), ..p };
    assert(same_names(old, nodes)) by {
        assert forall|j: int| 0 <= j < old.len() implies (#[trigger] old[j]).info().id == (
        #[trigger] nodes[j]).info().id by {}
    }
    assert(crate::block::distinct(nodes)) by {
        assert forall|a: int, b: int|
            0 <= a < nodes.len() && 0 <= b < nodes.len() && a != b implies (
        #[trigger] nodes[a]).info().id != (#[trigger] nodes[b]).info().id by {
            assert(nodes[a].info().id == old[a].info().id);
            assert(nodes[b].info().id == old[b].info().id);
        }
    }
    assert forall|i: int, j: int|
        0 <= i < nodes.len() && 0 <= j < nodes.len() && #[trigger] crate::laws::graph::leads(
            nodes,
            i,
            j,
        ) && !p.complete.contains(nodes[i].info().id) implies waits(nodes, j, nodes[i].info().id) by {
        assert(nodes[i].info().id == old[i].info().id);
        assert(nodes[j].info().id == old[j].info().id);
        assert(crate::laws::graph::leads(old, i, j));
        assert(waits(old, j, old[i].info().id));
    }
    assert forall|j: int, x: Seq<char>|
        0 <= j < nodes.len() && #[trigger] waits(nodes, j, x) implies first(nodes, x) is Some
        && !p.complete.contains(x) && nodes[first(nodes, x)->0].info().successors.contains(
        nodes[j].info().id,
    ) by {
        assert(nodes[j].info().id == old[j].info().id);
        assert(waits(old, j, x));
        lemma_first_by_names(old, nodes, x);
        lemma_first(old, x);
        let i = first(old, x)->0;
        assert(nodes[i].info().id == old[i].info().id);
    }
    assert forall|j: int|
        0 <= j < nodes.len() && (#[trigger] nodes[j]).info().with is Some implies first(
        nodes,
        nodes[j].info().with->0,
    ) is Some && nodes[first(nodes, nodes[j].info().with->0)->0].info().dependents.contains(
        nodes[j].info().id,
    ) by {
        assert(old[j].info().with is Some);
        let w = old[j].info().with->0;
        lemma_first_by_names(old, nodes, w);
        lemma_first(old, w);
        let i = first(old, w)->0;
        assert(nodes[i].info().id == old[i].info().id);
    }
    assert forall|x: Seq<char>| #[trigger] somewhere(q, x) implies first(q.block.nodes, x) is Some by {
        assert(somewhere(p, x));
        lemma_first_by_names(old, nodes, x);
    }
    assert forall|x: Seq<char>| #[trigger] once(q, x) by {
        assert(once(p, x));
    }
    assert forall|j: int| 0 <= j < nodes.len() implies somewhere(
        q,
        (#[trigger] q.block.nodes[j]).info().id,
    ) by {
        assert(somewhere(p, old[j].info().id));
    }
    assert forall|j: int|
        0 <= j < nodes.len() && q.queue.contains((#[trigger] q.block.nodes[j]).info().id) implies stuck(
        q,
        j,
    ) by {
        assert(nodes[j].info().id == old[j].info().id);
        assert(stuck(p, j));
    }
    assert forall|rank: spec_fn(Seq<char>) -> nat| ranked(old, rank) implies ranked(nodes, rank) by {
        assert forall|j: int, x: Seq<char>|
            0 <= j < nodes.len() && #[trigger] waits(nodes, j, x) implies rank(x) < rank(
            nodes[j].info().id,
        ) by {
            assert(nodes[j].info().id == old[j].info().id);
            assert(waits(old, j, x));
        }
        assert forall|j: int|
            0 <= j < nodes.len() && (#[trigger] nodes[j]).info().after is None
                && nodes[j].info().with is Some implies rank(nodes[j].info().with->0) < rank(
            nodes[j].info().id,
        ) by {
            assert(old[j].info().after is None && old[j].info().with is Some);
        }
    }
}

proof fn lemma_reframed_steady(
    d: DispatcherView,
    nodes: Seq<ActionView>,
    events: Seq<crate::block::EventView>,
)
    requires
        d.steady(),
        d.block is Some,
        same_frame(d.block->0.nodes, nodes),
    ensures
        (DispatcherView {
            block: Some(BlockView { nodes, events, ..d.block->0 }),
            ..d
        }).steady(),
{
    let b = d.block->0;
    let p = d.begin(b);
    lemma_same_frame(p, nodes);
    let q = Pass { block: p.block.with_nodes(nodes), ..p };
    let after = DispatcherView { block: Some(BlockView { nodes, events, ..b }), ..d };
    let r = after.begin(after.block->0);
    assert forall|x: Seq<char>| #[trigger] somewhere(r, x) implies first(r.block.nodes, x) is Some by {
        assert(somewhere(q, x));
    }
    assert forall|x: Seq<char>| #[trigger] once(r, x) by {
        assert(once(q, x));
    }
    assert forall|j: int| 0 <= j < r.block.nodes.len() implies somewhere(
        r,
        (#[trigger] r.block.nodes[j]).info().id,
    ) by {
        assert(somewhere(q, q.block.nodes[j].info().id));
    }
    assert forall|j: int|
        0 <= j < r.block.nodes.len() && r.queue.contains(
            (#[trigger] r.block.nodes[j]).info().id,
        ) implies stuck(r, j) by {
        assert(stuck(q, j));
    }
    let rank = choose|rank: spec_fn(Seq<char>) -> nat| ranked(b.nodes, rank);
    assert(ranked(nodes, rank));
}

proof fn lemma_same_frame_itself(nodes: Seq<ActionView>)
    ensures
        same_frame(nodes, nodes),
{
    assert forall|j: int| 0 <= j < nodes.len() implies (#[trigger] nodes[j]).info().id
        == nodes[j].info().id by {}
}

proof fn lemma_relayed_steady(d: DispatcherView, id: Seq<char>, message: crate::comm::MessageView)
    requires
        d.steady(),
    ensures
        d.relayed(id, message).0.steady(),
{
    if let Some(b) = d.block {
        match first(b.nodes, id) {
            None => {},
            Some(i) => {
                lemma_first(b.nodes, id);
                let nodes = b.nodes.update(i, b.nodes[i].updated(message).0);
                assert(same_frame(b.nodes, nodes)) by {
                    assert forall|j: int| 0 <= j < b.nodes.len() implies (
                    #[trigger] nodes[j]).info().id == b.nodes[j].info().id && nodes[j].info().after
                        == b.nodes[j].info().after && nodes[j].info().with
                        == b.nodes[j].info().with && nodes[j].info().successors
                        == b.nodes[j].info().successors && nodes[j].info().dependents
                        == b.nodes[j].info().dependents by {}
                }
                lemma_reframed_steady(d, nodes, b.events);
                assert(d.relayed(id, message).0 == (DispatcherView {
                    block: Some(BlockView { nodes, events: b.events, ..b }),
                    ..d
                }));
            },
        }
    }
}

/// A dispatcher at rest on a block that is fit to run stays so whatever message arrives.
pub proof fn law_handled_steady(d: DispatcherView, message: crate::comm::MessageView)
    requires
        d.steady(),
    ensures
        d.handled(message).0.steady(),
{
    if let Some(b) = d.block {
        match message {
            crate::comm::MessageView::Code(_, id, _) => {
                lemma_relayed_steady(d, id, message);
            },
            crate::comm::MessageView::Value(_, id, _, _) => {
                lemma_relayed_steady(d, id, message);
            },
            crate::comm::MessageView::QueryResponse(id, _) => {
                lemma_relayed_steady(d, id, message);
            },
            crate::comm::MessageView::KeyPress(_) => {
                if d.monitor_kb is Some {
                    lemma_relayed_steady(d, d.monitor_kb->0, message);
                } else if d.foreground is Some {
                    lemma_relayed_steady(d, d.foreground->0, message);
                }
            },
            crate::comm::MessageView::UIEvent(_, _) => {
                if d.foreground is Some {
                    lemma_relayed_steady(d, d.foreground->0, message);
                }
            },
            crate::comm::MessageView::ActionComplete(id) => {
                law_completed_steady(d, id);
            },
            crate::comm::MessageView::ActionFailed(id) => {
                if d.active.contains(id) {
                    lemma_same_frame_itself(b.nodes);
                    let events = b.noted(crate::block::EventKind::Fail, id).events;
                    lemma_reframed_steady(d, b.nodes, events);
                    let noted = DispatcherView {
                        block: Some(b.noted(crate::block::EventKind::Fail, id)),
                        ..d
                    };
                    assert(noted == (DispatcherView {
                        block: Some(BlockView { nodes: b.nodes, events, ..b }),
                        ..d
                    }));
                    law_completed_steady(noted, id);
                }
            },
            _ => {},
        }
    }
}

/// Once nothing runs on a block that is fit to run, the block is over for good: nothing is
/// left to start, and word that one of its actions has ended is met with silence, so that
/// the end of the block is reported once only.
pub proof fn law_over_for_good(d: DispatcherView, id: Seq<char>)
    requires
        d.steady(),
        d.block is Some,
        d.active.len() == 0,
        first(d.block->0.nodes, id) is Some,
    ensures
        d.queue.len() == 0,
        d.completed(id) == (d, Seq::<CommandView>::empty()),
{
    let p = d.begin(d.block->0);
    let rank = choose|rank: spec_fn(Seq<char>) -> nat| ranked(p.block.nodes, rank);
    lemma_quiet_empty(p, rank);
    lemma_first(p.block.nodes, id);
    let j = first(p.block.nodes, id)->0;
    assert(somewhere(p, p.block.nodes[j].info().id));
}

} // verus!
