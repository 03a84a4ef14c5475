use crate::action::{ActionView, InfoView};
use crate::block::{distinct, first, lapsed, lemma_first, released, settled};
use crate::idset::{lemma_push_contains, lemma_with_id, lemma_without_id, with_id, without_id};
use vstd::prelude::*;

verus! {

/// Whether two graphs hold the same names in the same places.
pub open spec fn same_names(a: Seq<ActionView>, b: Seq<ActionView>) -> bool {
    a.len() == b.len() && forall|j: int|
        0 <= j < a.len() ==> (#[trigger] a[j]).info().id == (#[trigger] b[j]).info().id
}

/// Graphs that hold the same names as a third hold the same names.
pub proof fn lemma_same_names_chain(a: Seq<ActionView>, b: Seq<ActionView>, c: Seq<ActionView>)
    requires
        same_names(a, b),
        same_names(b, c),
    ensures
        same_names(a, c),
{
    assert forall|j: int| 0 <= j < a.len() implies (#[trigger] a[j]).info().id == (
    #[trigger] c[j]).info().id by {
        assert(a[j].info().id == b[j].info().id);
        assert(b[j].info().id == c[j].info().id);
    }
}

/// Looking an action up goes by the names alone.
pub proof fn lemma_first_by_names(a: Seq<ActionView>, b: Seq<ActionView>, id: Seq<char>)
    requires
        same_names(a, b),
    ensures
        first(a, id) == first(b, id),
{
    lemma_first(a, id);
    lemma_first(b, id);
    match first(a, id) {
        Some(i) => {
            assert(a[i].info().id == b[i].info().id);
            match first(b, id) {
                Some(j) => {
                    if j < i {
                        assert(a[j].info().id == b[j].info().id);
                    }
                    if i < j {
                        assert(a[i].info().id == b[i].info().id);
                    }
                },
                None => {
                    assert(b[i].info().id != id);
                },
            }
        },
        None => {
            match first(b, id) {
                Some(j) => {
                    assert(a[j].info().id == b[j].info().id);
                },
                None => {},
            }
        },
    }
}

/// Among distinct names, an action is found in its own place.
pub proof fn lemma_first_own(nodes: Seq<ActionView>, j: int)
    requires
        distinct(nodes),
        0 <= j < nodes.len(),
    ensures
        first(nodes, nodes[j].info().id) == Some(j),
{
    lemma_first(nodes, nodes[j].info().id);
}

/// An action as the end of `id` leaves it, if it waited for `id`.
pub open spec fn freed(a: ActionView, id: Seq<char>) -> ActionView {
    a.with_info(a.info().satisfied(id))
}

/// An action marked as never to run.
pub open spec fn marked(a: ActionView) -> ActionView {
    a.with_info(InfoView { expired: Some(true), ..a.info() })
}

/// Striking a name off twice is striking it off once.
pub proof fn lemma_freed_twice(a: ActionView, id: Seq<char>)
    ensures
        freed(freed(a, id), id) == freed(a, id),
        freed(a, id).info().id == a.info().id,
{
    match a.info().after {
        Some(ids) => {
            lemma_without_id(ids, id);
            lemma_without_id(without_id(ids, id), id);
        },
        None => {},
    }
}

/// What `released` does, action by action: those named among the successors looked at so
/// far have `id` struck off, the others are as they were; and ready are those of the
/// successors that wait for nothing any more.
pub proof fn lemma_released(nodes: Seq<ActionView>, id: Seq<char>, succs: Seq<Seq<char>>, k: int)
    requires
        distinct(nodes),
        0 <= k <= succs.len(),
    ensures
        same_names(nodes, released(nodes, id, succs, k).0),
        forall|j: int|
            0 <= j < nodes.len() ==> #[trigger] released(nodes, id, succs, k).0[j] == if succs.take(
                k,
            ).contains(nodes[j].info().id) {
                freed(nodes[j], id)
            } else {
                nodes[j]
            },
        forall|s: Seq<char>| #[trigger]
            released(nodes, id, succs, k).1.contains(s) <==> succs.take(k).contains(s) && first(
                nodes,
                s,
            ) is Some && freed(nodes[first(nodes, s)->0], id).info().ready() == Some(true),
    decreases k,
{
    if k > 0 {
        lemma_released(nodes, id, succs, k - 1);
        let (ns, ready) = released(nodes, id, succs, k - 1);
        let (r, ready2) = released(nodes, id, succs, k);
        let s = succs[k - 1];
        let before = succs.take(k - 1);
        assert(succs.take(k) =~= before.push(s));
        lemma_first_by_names(nodes, ns, s);
        lemma_first(nodes, s);
        match first(ns, s) {
            None => {
                assert forall|j: int| 0 <= j < nodes.len() implies #[trigger] r[j] == if succs.take(
                    k,
                ).contains(nodes[j].info().id) {
                    freed(nodes[j], id)
                } else {
                    nodes[j]
                } by {
                    lemma_push_contains(before, s, nodes[j].info().id);
                }
                assert forall|x: Seq<char>| #[trigger]
                    ready2.contains(x) <==> succs.take(k).contains(x) && first(nodes, x) is Some
                        && freed(nodes[first(nodes, x)->0], id).info().ready() == Some(true) by {
                    lemma_push_contains(before, s, x);
                }
            },
            Some(i) => {
                lemma_freed_twice(nodes[i], id);
                assert forall|j: int| 0 <= j < nodes.len() implies #[trigger] r[j] == if succs.take(
                    k,
                ).contains(nodes[j].info().id) {
                    freed(nodes[j], id)
                } else {
                    nodes[j]
                } by {
                    lemma_push_contains(before, s, nodes[j].info().id);
                    if j == i {
                        assert(r[j] == freed(ns[i], id));
                    } else {
                        assert(r[j] == ns[j]);
                    }
                }
                assert(same_names(nodes, r)) by {
                    assert forall|j: int| 0 <= j < nodes.len() implies (#[trigger] nodes[j]).info().id
                        == (#[trigger] r[j]).info().id by {
                        lemma_freed_twice(nodes[j], id);
                    }
                }
                lemma_with_id(ready, s);
                assert forall|x: Seq<char>| #[trigger]
                    ready2.contains(x) <==> succs.take(k).contains(x) && first(nodes, x) is Some
                        && freed(nodes[first(nodes, x)->0], id).info().ready() == Some(true) by {
                    lemma_push_contains(before, s, x);
                }
            },
        }
    } else {
        assert(succs.take(0) =~= Seq::empty());
    }
}

/// What `lapsed` does, action by action: those named among the dependents looked at so far
/// and not among `done` are marked, the others are as they were; and the marked ones are
/// named.
pub proof fn lemma_lapsed(nodes: Seq<ActionView>, deps: Seq<Seq<char>>, done: Seq<Seq<char>>, k: int)
    requires
        distinct(nodes),
        0 <= k <= deps.len(),
    ensures
        same_names(nodes, lapsed(nodes, deps, done, k).0),
        forall|j: int|
            0 <= j < nodes.len() ==> #[trigger] lapsed(nodes, deps, done, k).0[j] == if deps.take(
                k,
            ).contains(nodes[j].info().id) && !done.contains(nodes[j].info().id) {
                marked(nodes[j])
            } else {
                nodes[j]
            },
        forall|s: Seq<char>| #[trigger]
            lapsed(nodes, deps, done, k).1.contains(s) <==> deps.take(k).contains(s)
                && !done.contains(s) && first(nodes, s) is Some,
    decreases k,
{
    if k > 0 {
        lemma_lapsed(nodes, deps, done, k - 1);
        let (ns, expired) = lapsed(nodes, deps, done, k - 1);
        let (r, expired2) = lapsed(nodes, deps, done, k);
        let d = deps[k - 1];
        let before = deps.take(k - 1);
        assert(deps.take(k) =~= before.push(d));
        lemma_first_by_names(nodes, ns, d);
        lemma_first(nodes, d);
        assert forall|j: int| 0 <= j < nodes.len() implies #[trigger] r[j] == if deps.take(
            k,
        ).contains(nodes[j].info().id) && !done.contains(nodes[j].info().id) {
            marked(nodes[j])
        } else {
            nodes[j]
        } by {
            lemma_push_contains(before, d, nodes[j].info().id);
            if !done.contains(d) {
                match first(ns, d) {
                    Some(i) => {
                        if j == i {
                            assert(r[j] == marked(ns[i]));
                            assert(marked(marked(nodes[i])) == marked(nodes[i]));
                        } else {
                            assert(r[j] == ns[j]);
                        }
                    },
                    None => {},
                }
            }
        }
        if !done.contains(d) && first(ns, d) is Some {
            lemma_with_id(expired, d);
        }
        assert forall|s: Seq<char>| #[trigger]
            expired2.contains(s) <==> deps.take(k).contains(s) && !done.contains(s) && first(
                nodes,
                s,
            ) is Some by {
            lemma_push_contains(before, d, s);
        }
    } else {
        assert(deps.take(0) =~= Seq::empty());
    }
}

/// What the end of the action `id` does to the graph, action by action.
pub proof fn lemma_settled(nodes: Seq<ActionView>, id: Seq<char>, done: Seq<Seq<char>>)
    requires
        distinct(nodes),
        first(nodes, id) is Some,
    ensures
        same_names(nodes, settled(nodes, id, done).nodes),
        distinct(settled(nodes, id, done).nodes),
        forall|j: int|
            0 <= j < nodes.len() ==> #[trigger] settled(nodes, id, done).nodes[j] == after_end(
                nodes,
                id,
                done,
                j,
            ),
        forall|s: Seq<char>| #[trigger]
            settled(nodes, id, done).ready.contains(s) <==> nodes[first(
                nodes,
                id,
            )->0].info().successors.contains(s) && first(nodes, s) is Some && freed(
                nodes[first(nodes, s)->0],
                id,
            ).info().ready() == Some(true),
        forall|s: Seq<char>| #[trigger]
            settled(nodes, id, done).expired.contains(s) <==> nodes[first(
                nodes,
                id,
            )->0].info().dependents.contains(s) && !done.contains(s) && first(nodes, s) is Some,
{
    let i = first(nodes, id)->0;
    lemma_first(nodes, id);
    let succs = nodes[i].info().successors;
    let deps = nodes[i].info().dependents;
    lemma_released(nodes, id, succs, succs.len() as int);
    let (n1, ready) = released(nodes, id, succs, succs.len() as int);
    assert(succs.take(succs.len() as int) =~= succs);
    assert(distinct(n1));
    lemma_lapsed(n1, deps, done, deps.len() as int);
    let (n2, expired) = lapsed(n1, deps, done, deps.len() as int);
    assert(deps.take(deps.len() as int) =~= deps);
    assert forall|j: int| 0 <= j < nodes.len() implies #[trigger] settled(nodes, id, done).nodes[j]
        == after_end(nodes, id, done, j) by {
        assert(n1[j].info().id == nodes[j].info().id);
        lemma_freed_twice(nodes[j], id);
    }
    assert forall|s: Seq<char>| #[trigger]
        settled(nodes, id, done).expired.contains(s) <==> deps.contains(s) && !done.contains(s)
            && first(nodes, s) is Some by {
        lemma_first_by_names(nodes, n1, s);
    }
    assert(same_names(nodes, n2));
}

/// The action in place `j` after the end of the action `id`: it no longer waits for `id`
/// if `id` knew it as a successor, and is marked if `id` knew it as a dependent that has
/// not ended.
pub open spec fn after_end(
    nodes: Seq<ActionView>,
    id: Seq<char>,
    done: Seq<Seq<char>>,
    j: int,
) -> ActionView {
    let i = first(nodes, id)->0;
    let a = if nodes[i].info().successors.contains(nodes[j].info().id) {
        freed(nodes[j], id)
    } else {
        nodes[j]
    };
    if nodes[i].info().dependents.contains(nodes[j].info().id) && !done.contains(
        nodes[j].info().id,
    ) {
        marked(a)
    } else {
        a
    }
}

/// Whether the action in place `j` waits for the action named `x`.
pub open spec fn waits(nodes: Seq<ActionView>, j: int, x: Seq<char>) -> bool {
    nodes[j].info().pending().contains(x)
}

/// Whether the action in place `i` knows the action in place `j` as a successor.
pub open spec fn leads(nodes: Seq<ActionView>, i: int, j: int) -> bool {
    nodes[i].info().successors.contains(nodes[j].info().id)
}

/// Whether the graph hangs together, given the actions `complete` that have ended: no two
/// actions share a name; what an action waits for is an action that has not ended and
/// knows it as a successor; the successors of an action that has not ended wait for it; and
/// the companion of an action is an action that knows it as a dependent.
pub open spec fn coherent(nodes: Seq<ActionView>, complete: Seq<Seq<char>>) -> bool {
    &&& distinct(nodes)
    &&& forall|i: int, j: int|
        0 <= i < nodes.len() && 0 <= j < nodes.len() && #[trigger] leads(nodes, i, j)
            && !complete.contains(nodes[i].info().id) ==> waits(nodes, j, nodes[i].info().id)
    &&& forall|j: int, x: Seq<char>|
        0 <= j < nodes.len() && #[trigger] waits(nodes, j, x) ==> first(nodes, x) is Some
            && !complete.contains(x) && nodes[first(nodes, x)->0].info().successors.contains(
            nodes[j].info().id,
        )
    &&& forall|j: int|
        0 <= j < nodes.len() && (#[trigger] nodes[j]).info().with is Some ==> first(
            nodes,
            nodes[j].info().with->0,
        ) is Some && nodes[first(nodes, nodes[j].info().with->0)->0].info().dependents.contains(
            nodes[j].info().id,
        )
}

/// Whether `rank` orders the graph: every action ranks above what it waits for, and an
/// action that waits for nothing but its companion's start ranks above its companion.
pub open spec fn ranked(nodes: Seq<ActionView>, rank: spec_fn(Seq<char>) -> nat) -> bool {
    &&& forall|j: int, x: Seq<char>|
        0 <= j < nodes.len() && #[trigger] waits(nodes, j, x) ==> rank(x) < rank(
            nodes[j].info().id,
        )
    &&& forall|j: int|
        0 <= j < nodes.len() && (#[trigger] nodes[j]).info().after is None
            && nodes[j].info().with is Some ==> rank(nodes[j].info().with->0) < rank(
            nodes[j].info().id,
        )
}

/// Whether the graph has no circle of actions that wait for each other.
pub open spec fn acyclic(nodes: Seq<ActionView>) -> bool {
    exists|rank: spec_fn(Seq<char>) -> nat| ranked(nodes, rank)
}

/// The end of an action that has not ended before leaves the graph hanging together, and
/// an order of the graph stays one.
pub proof fn lemma_settled_coherent(
    nodes: Seq<ActionView>,
    id: Seq<char>,
    complete: Seq<Seq<char>>,
    rank: spec_fn(Seq<char>) -> nat,
)
    requires
        coherent(nodes, complete),
        first(nodes, id) is Some,
    ensures
        coherent(settled(nodes, id, with_id(complete, id)).nodes, with_id(complete, id)),
        ranked(nodes, rank) ==> ranked(settled(nodes, id, with_id(complete, id)).nodes, rank),
        forall|j: int, x: Seq<char>|
            0 <= j < nodes.len() && #[trigger] waits(
                settled(nodes, id, with_id(complete, id)).nodes,
                j,
                x,
            ) ==> waits(nodes, j, x) && x != id,
{
    let done = with_id(complete, id);
    let end = settled(nodes, id, done);
    let i = first(nodes, id)->0;
    lemma_first(nodes, id);
    lemma_settled(nodes, id, done);
    lemma_with_id(complete, id);
    assert forall|j: int, x: Seq<char>|
        0 <= j < nodes.len() && #[trigger] waits(end.nodes, j, x) implies waits(nodes, j, x) && x
        != id by {
        assert(end.nodes[j] == after_end(nodes, id, done, j));
        match nodes[j].info().after {
            Some(ids) => {
                lemma_without_id(ids, id);
                if waits(nodes, j, id) {
                    assert(nodes[i].info().successors.contains(nodes[j].info().id));
                }
            },
            None => {},
        }
    }
    assert forall|j: int, x: Seq<char>|
        0 <= j < end.nodes.len() && #[trigger] waits(end.nodes, j, x) implies first(
        end.nodes,
        x,
    ) is Some && !done.contains(x) && end.nodes[first(end.nodes, x)->0].info().successors.contains(
        end.nodes[j].info().id,
    ) by {
        assert(waits(nodes, j, x));
        lemma_first_by_names(nodes, end.nodes, x);
        let m = first(nodes, x)->0;
        lemma_first(nodes, x);
        assert(end.nodes[m] == after_end(nodes, id, done, m));
        assert(end.nodes[j] == after_end(nodes, id, done, j));
    }
    assert forall|i: int, j: int|
        0 <= i < end.nodes.len() && 0 <= j < end.nodes.len() && #[trigger] leads(end.nodes, i, j)
            && !done.contains(end.nodes[i].info().id) implies waits(
        end.nodes,
        j,
        end.nodes[i].info().id,
    ) by {
        assert(end.nodes[i] == after_end(nodes, id, done, i));
        assert(end.nodes[j] == after_end(nodes, id, done, j));
        assert(leads(nodes, i, j));
        assert(waits(nodes, j, nodes[i].info().id));
        match nodes[j].info().after {
            Some(ids) => {
                lemma_without_id(ids, id);
            },
            None => {},
        }
    }
    assert forall|j: int|
        0 <= j < end.nodes.len() && (#[trigger] end.nodes[j]).info().with is Some implies first(
        end.nodes,
        end.nodes[j].info().with->0,
    ) is Some && end.nodes[first(end.nodes, end.nodes[j].info().with->0)->0].info().dependents.contains(
    end.nodes[j].info().id) by {
        assert(end.nodes[j] == after_end(nodes, id, done, j));
        let w = nodes[j].info().with->0;
        assert(nodes[j].info().with is Some);
        lemma_first_by_names(nodes, end.nodes, w);
        let m = first(nodes, w)->0;
        lemma_first(nodes, w);
        assert(end.nodes[m] == after_end(nodes, id, done, m));
    }
    if ranked(nodes, rank) {
        assert forall|j: int, x: Seq<char>|
            0 <= j < end.nodes.len() && #[trigger] waits(end.nodes, j, x) implies rank(x) < rank(
            end.nodes[j].info().id,
        ) by {
            assert(waits(nodes, j, x));
            assert(end.nodes[j] == after_end(nodes, id, done, j));
        }
        assert forall|j: int|
            0 <= j < end.nodes.len() && (#[trigger] end.nodes[j]).info().after is None
                && end.nodes[j].info().with is Some implies rank(end.nodes[j].info().with->0)
            < rank(end.nodes[j].info().id) by {
            assert(end.nodes[j] == after_end(nodes, id, done, j));
            assert(nodes[j].info().after is None);
        }
    }
}

} // verus!
