use crate::action::{ActionView, InfoView};
use crate::block::{accompanied, distinct, first, followed, indexed, lemma_first};
use crate::idset::{lemma_push_contains, lemma_with_id, with_id};
use crate::laws::graph::{
    coherent, leads, lemma_first_by_names, lemma_first_own, same_names, waits,
};
use vstd::prelude::*;

verus! {

/// An action that knows `owner` as a successor, beside those it knew.
pub open spec fn known(a: ActionView, owner: Seq<char>) -> ActionView {
    a.with_info(InfoView { successors: with_id(a.info().successors, owner), ..a.info() })
}

/// An action that knows `owner` as a dependent, beside those it knew.
pub open spec fn relied(a: ActionView, owner: Seq<char>) -> ActionView {
    a.with_info(InfoView { dependents: with_id(a.info().dependents, owner), ..a.info() })
}

/// Whether one of the first `k` actions goes by the name `x` and waits for the action in
/// place `m`.
pub open spec fn fed(nodes: Seq<ActionView>, k: int, m: int, x: Seq<char>) -> bool {
    exists|j: int|
        0 <= j < k && j < nodes.len() && (#[trigger] nodes[j]).info().id == x && waits(
            nodes,
            j,
            nodes[m].info().id,
        )
}

/// Whether one of the first `k` actions goes by the name `x` and names the action in place
/// `m` as its companion.
pub open spec fn led(nodes: Seq<ActionView>, k: int, m: int, x: Seq<char>) -> bool {
    exists|j: int|
        0 <= j < k && j < nodes.len() && (#[trigger] nodes[j]).info().id == x
            && nodes[j].info().with == Some(nodes[m].info().id)
}

/// Whether two graphs differ at most in what their actions know of successors and
/// dependents.
pub open spec fn same_but_known(a: Seq<ActionView>, b: Seq<ActionView>) -> bool {
    a.len() == b.len() && forall|m: int|
        0 <= m < a.len() ==> (#[trigger] b[m]) == a[m].with_info(
            InfoView {
                successors: b[m].info().successors,
                dependents: b[m].info().dependents,
                ..a[m].info()
            },
        )
}

/// What `followed` does, action by action: those named among the predecessors looked at so
/// far know `owner` as a successor, the others are as they were; and every predecessor
/// looked at names an action.
pub proof fn lemma_followed(nodes: Seq<ActionView>, owner: Seq<char>, after: Seq<Seq<char>>, k: int)
    requires
        distinct(nodes),
        0 <= k <= after.len(),
        followed(nodes, owner, after, k) is Ok,
    ensures
        followed(nodes, owner, after, k)->Ok_0.len() == nodes.len(),
        forall|m: int|
            0 <= m < nodes.len() ==> #[trigger] followed(nodes, owner, after, k)->Ok_0[m]
                == if after.take(k).contains(nodes[m].info().id) {
                known(nodes[m], owner)
            } else {
                nodes[m]
            },
        forall|n: int| 0 <= n < k ==> first(nodes, #[trigger] after[n]) is Some,
    decreases k,
{
    if k > 0 {
        lemma_followed(nodes, owner, after, k - 1);
        let ns = followed(nodes, owner, after, k - 1)->Ok_0;
        let r = followed(nodes, owner, after, k)->Ok_0;
        let x = after[k - 1];
        let before = after.take(k - 1);
        assert(after.take(k) =~= before.push(x));
        assert(same_names(nodes, ns)) by {
            assert forall|j: int| 0 <= j < nodes.len() implies (#[trigger] nodes[j]).info().id == (
            #[trigger] ns[j]).info().id by {}
        }
        lemma_first_by_names(nodes, ns, x);
        lemma_first(nodes, x);
        let i = first(ns, x)->0;
        lemma_with_id(nodes[i].info().successors, owner);
        assert(known(known(nodes[i], owner), owner) == known(nodes[i], owner));
        assert forall|m: int| 0 <= m < nodes.len() implies #[trigger] r[m] == if after.take(
            k,
        ).contains(nodes[m].info().id) {
            known(nodes[m], owner)
        } else {
            nodes[m]
        } by {
            lemma_push_contains(before, x, nodes[m].info().id);
            if m == i {
                assert(r[m] == known(ns[i], owner));
            } else {
                assert(r[m] == ns[m]);
            }
        }
    } else {
        assert(after.take(0) =~= Seq::empty());
    }
}

/// What telling the predecessors and companions of the first `k` actions does, action by
/// action: nothing but what the actions know of successors and dependents changes; an
/// action knows as successors those it knew and those of the first `k` that wait for it,
/// and as dependents those it knew and those of the first `k` that name it as their
/// companion; and what the first `k` wait for or name as companion are actions.
pub proof fn lemma_indexed(nodes: Seq<ActionView>, k: int)
    requires
        distinct(nodes),
        0 <= k <= nodes.len(),
        indexed(nodes, k) is Ok,
    ensures
        same_but_known(nodes, indexed(nodes, k)->Ok_0),
        forall|m: int, x: Seq<char>|
            0 <= m < nodes.len() ==> (#[trigger] indexed(
                nodes,
                k,
            )->Ok_0[m].info().successors.contains(x) <==> nodes[m].info().successors.contains(x)
                || fed(nodes, k, m, x)),
        forall|m: int, x: Seq<char>|
            0 <= m < nodes.len() ==> (#[trigger] indexed(
                nodes,
                k,
            )->Ok_0[m].info().dependents.contains(x) <==> nodes[m].info().dependents.contains(x)
                || led(nodes, k, m, x)),
        forall|j: int, x: Seq<char>|
            0 <= j < k && #[trigger] waits(nodes, j, x) ==> first(nodes, x) is Some,
        forall|j: int|
            0 <= j < k && (#[trigger] nodes[j]).info().with is Some ==> first(
                nodes,
                nodes[j].info().with->0,
            ) is Some,
    decreases k,
{
    if k > 0 {
        lemma_indexed(nodes, k - 1);
        let ns = indexed(nodes, k - 1)->Ok_0;
        let r = indexed(nodes, k)->Ok_0;
        let info = ns[k - 1].info();
        assert(ns[k - 1] == nodes[k - 1].with_info(
            InfoView {
                successors: ns[k - 1].info().successors,
                dependents: ns[k - 1].info().dependents,
                ..nodes[k - 1].info()
            },
        ));
        let owner = nodes[k - 1].info().id;
        let after = nodes[k - 1].info().pending();
        assert(info.id == owner && info.pending() == after && info.with
            == nodes[k - 1].info().with);
        assert(same_names(nodes, ns)) by {
            assert forall|j: int| 0 <= j < nodes.len() implies (#[trigger] nodes[j]).info().id == (
            #[trigger] ns[j]).info().id by {
                assert(ns[j] == nodes[j].with_info(
                    InfoView {
                        successors: ns[j].info().successors,
                        dependents: ns[j].info().dependents,
                        ..nodes[j].info()
                    },
                ));
            }
        }
        assert(distinct(ns)) by {
            assert forall|a: int, b: int|
                0 <= a < ns.len() && 0 <= b < ns.len() && a != b implies (#[trigger] ns[a]).info().id
                != (#[trigger] ns[b]).info().id by {
                assert(nodes[a].info().id == ns[a].info().id);
                assert(nodes[b].info().id == ns[b].info().id);
            }
        }
        lemma_followed(ns, owner, after, after.len() as int);
        assert(after.take(after.len() as int) =~= after);
        let linked = followed(ns, owner, after, after.len() as int)->Ok_0;
        assert(same_names(ns, linked)) by {
            assert forall|j: int| 0 <= j < ns.len() implies (#[trigger] ns[j]).info().id == (
            #[trigger] linked[j]).info().id by {}
        }
        let with = nodes[k - 1].info().with;
        assert(r == accompanied(linked, owner, with)->Ok_0);
        if with is Some {
            lemma_first_by_names(ns, linked, with->0);
            lemma_first_by_names(nodes, ns, with->0);
            lemma_first(nodes, with->0);
        }
        assert forall|m: int| 0 <= m < nodes.len() implies #[trigger] r[m] == {
            let a = if after.contains(nodes[m].info().id) {
                known(ns[m], owner)
            } else {
                ns[m]
            };
            if with == Some(nodes[m].info().id) {
                relied(a, owner)
            } else {
                a
            }
        } by {
            lemma_first_own(nodes, m);
            if with is Some {
                let i = first(linked, with->0)->0;
                if m == i {
                    assert(r[m] == relied(linked[i], owner));
                } else {
                    assert(r[m] == linked[m]);
                }
            }
        }
        assert forall|j: int, x: Seq<char>| 0 <= j < k && #[trigger] waits(nodes, j, x) implies first(
            nodes,
            x,
        ) is Some by {
            if j == k - 1 {
                let n = choose|n: int| 0 <= n < after.len() && after[n] == x;
                assert(first(ns, after[n]) is Some);
                lemma_first_by_names(nodes, ns, x);
            }
        }
        assert forall|m: int, x: Seq<char>| 0 <= m < nodes.len() implies (
        #[trigger] r[m].info().successors.contains(x) <==> nodes[m].info().successors.contains(x)
            || fed(nodes, k, m, x)) by {
            lemma_with_id(ns[m].info().successors, owner);
            assert(ns[m].info().successors.contains(x) <==> nodes[m].info().successors.contains(x)
                || fed(nodes, k - 1, m, x));
            if fed(nodes, k - 1, m, x) {
                let j = choose|j: int|
                    0 <= j < k - 1 && j < nodes.len() && (#[trigger] nodes[j]).info().id == x
                        && waits(nodes, j, nodes[m].info().id);
                assert(0 <= j < k && nodes[j].info().id == x && waits(nodes, j, nodes[m].info().id));
            }
            if x == owner && after.contains(nodes[m].info().id) {
                assert(nodes[k - 1].info().id == x && waits(nodes, k - 1, nodes[m].info().id));
            }
            if fed(nodes, k, m, x) {
                let j = choose|j: int|
                    0 <= j < k && j < nodes.len() && (#[trigger] nodes[j]).info().id == x && waits(
                        nodes,
                        j,
                        nodes[m].info().id,
                    );
                if j < k - 1 {
                    assert(fed(nodes, k - 1, m, x));
                }
            }
        }
        assert forall|m: int, x: Seq<char>| 0 <= m < nodes.len() implies (
        #[trigger] r[m].info().dependents.contains(x) <==> nodes[m].info().dependents.contains(x)
            || led(nodes, k, m, x)) by {
            lemma_with_id(ns[m].info().dependents, owner);
            assert(ns[m].info().dependents.contains(x) <==> nodes[m].info().dependents.contains(x)
                || led(nodes, k - 1, m, x));
            if led(nodes, k - 1, m, x) {
                let j = choose|j: int|
                    0 <= j < k - 1 && j < nodes.len() && (#[trigger] nodes[j]).info().id == x
                        && nodes[j].info().with == Some(nodes[m].info().id);
                assert(0 <= j < k && nodes[j].info().id == x && nodes[j].info().with == Some(
                    nodes[m].info().id,
                ));
            }
            if x == owner && with == Some(nodes[m].info().id) {
                assert(nodes[k - 1].info().id == x && nodes[k - 1].info().with == Some(
                    nodes[m].info().id,
                ));
            }
            if led(nodes, k, m, x) {
                let j = choose|j: int|
                    0 <= j < k && j < nodes.len() && (#[trigger] nodes[j]).info().id == x
                        && nodes[j].info().with == Some(nodes[m].info().id);
                if j < k - 1 {
                    assert(led(nodes, k - 1, m, x));
                }
            }
        }
        assert(same_but_known(nodes, r)) by {
            assert forall|m: int| 0 <= m < nodes.len() implies (#[trigger] r[m])
                == nodes[m].with_info(
                InfoView {
                    successors: r[m].info().successors,
                    dependents: r[m].info().dependents,
                    ..nodes[m].info()
                },
            ) by {
                assert(ns[m] == nodes[m].with_info(
                    InfoView {
                        successors: ns[m].info().successors,
                        dependents: ns[m].info().dependents,
                        ..nodes[m].info()
                    },
                ));
            }
        }
    } else {
        assert(same_but_known(nodes, nodes)) by {
            assert forall|m: int| 0 <= m < nodes.len() implies (#[trigger] nodes[m])
                == nodes[m].with_info(
                InfoView {
                    successors: nodes[m].info().successors,
                    dependents: nodes[m].info().dependents,
                    ..nodes[m].info()
                },
            ) by {}
        }
    }
}

/// Whether no action knows of a successor or a dependent yet.
pub open spec fn bare(nodes: Seq<ActionView>) -> bool {
    forall|m: int|
        0 <= m < nodes.len() ==> (#[trigger] nodes[m]).info().successors.len() == 0
            && nodes[m].info().dependents.len() == 0
}

/// The index is exact: once the predecessors and companions of every action of a graph
/// have been told, an action knows as successors exactly the actions that wait for it, and
/// as dependents exactly those that name it as their companion; every reference names an
/// action; and nothing else about the actions has changed.
pub proof fn law_index_exact(nodes: Seq<ActionView>)
    requires
        distinct(nodes),
        bare(nodes),
        indexed(nodes, nodes.len() as int) is Ok,
    ensures
        same_but_known(nodes, indexed(nodes, nodes.len() as int)->Ok_0),
        coherent(indexed(nodes, nodes.len() as int)->Ok_0, Seq::empty()),
        forall|i: int, j: int|
            0 <= i < nodes.len() && 0 <= j < nodes.len() ==> (#[trigger] leads(
                indexed(nodes, nodes.len() as int)->Ok_0,
                i,
                j,
            ) <==> waits(nodes, j, nodes[i].info().id)),
        forall|i: int, j: int|
            0 <= i < nodes.len() && 0 <= j < nodes.len() ==> (#[trigger] indexed(
                nodes,
                nodes.len() as int,
            )->Ok_0[i].info().dependents.contains(nodes[j].info().id) <==> nodes[j].info().with
                == Some(nodes[i].info().id)),
{
    let n = nodes.len() as int;
    let g = indexed(nodes, n)->Ok_0;
    lemma_indexed(nodes, n);
    assert forall|m: int| 0 <= m < n implies (#[trigger] g[m]).info().id == nodes[m].info().id
        && g[m].info().after == nodes[m].info().after && g[m].info().with
        == nodes[m].info().with by {
        assert(g[m] == nodes[m].with_info(
            InfoView {
                successors: g[m].info().successors,
                dependents: g[m].info().dependents,
                ..nodes[m].info()
            },
        ));
    }
    assert(same_names(nodes, g)) by {
        assert forall|j: int| 0 <= j < nodes.len() implies (#[trigger] nodes[j]).info().id == (
        #[trigger] g[j]).info().id by {
            assert(g[j].info().id == nodes[j].info().id);
        }
    }
    assert(distinct(g)) by {
        assert forall|a: int, b: int| 0 <= a < g.len() && 0 <= b < g.len() && a != b implies (
        #[trigger] g[a]).info().id != (#[trigger] g[b]).info().id by {
            assert(g[a].info().id == nodes[a].info().id);
            assert(g[b].info().id == nodes[b].info().id);
        }
    }
    assert forall|i: int, j: int| 0 <= i < n && 0 <= j < n implies (#[trigger] leads(g, i, j)
        <==> waits(nodes, j, nodes[i].info().id)) by {
        let x = nodes[j].info().id;
        assert(g[j].info().id == x);
        assert(g[i].info().successors.contains(x) <==> nodes[i].info().successors.contains(x)
            || fed(nodes, n, i, x));
        assert(!nodes[i].info().successors.contains(x));
        if fed(nodes, n, i, x) {
            let w = choose|w: int|
                0 <= w < n && w < nodes.len() && (#[trigger] nodes[w]).info().id == x && waits(
                    nodes,
                    w,
                    nodes[i].info().id,
                );
            assert(w == j);
        }
        if waits(nodes, j, nodes[i].info().id) {
            assert(nodes[j].info().id == x);
            assert(fed(nodes, n, i, x));
        }
    }
    assert forall|i: int, j: int| 0 <= i < n && 0 <= j < n implies (
    #[trigger] g[i].info().dependents.contains(nodes[j].info().id) <==> nodes[j].info().with
        == Some(nodes[i].info().id)) by {
        let x = nodes[j].info().id;
        assert(g[i].info().dependents.contains(x) <==> nodes[i].info().dependents.contains(x)
            || led(nodes, n, i, x));
        assert(!nodes[i].info().dependents.contains(x));
        if led(nodes, n, i, x) {
            let w = choose|w: int|
                0 <= w < n && w < nodes.len() && (#[trigger] nodes[w]).info().id == x
                    && nodes[w].info().with == Some(nodes[i].info().id);
            assert(w == j);
        }
        if nodes[j].info().with == Some(nodes[i].info().id) {
            assert(nodes[j].info().id == x);
            assert(led(nodes, n, i, x));
        }
    }
    let none = Seq::<Seq<char>>::empty();
    assert forall|i: int, j: int|
        0 <= i < g.len() && 0 <= j < g.len() && #[trigger] leads(g, i, j) && !none.contains(
            g[i].info().id,
        ) implies waits(g, j, g[i].info().id) by {
        assert(waits(nodes, j, nodes[i].info().id));
        assert(g[j].info().after == nodes[j].info().after);
        assert(g[i].info().id == nodes[i].info().id);
    }
    assert forall|j: int, x: Seq<char>| 0 <= j < g.len() && #[trigger] waits(g, j, x) implies first(
        g,
        x,
    ) is Some && !none.contains(x) && g[first(g, x)->0].info().successors.contains(
        g[j].info().id,
    ) by {
        assert(g[j].info().after == nodes[j].info().after);
        assert(waits(nodes, j, x));
        lemma_first_by_names(nodes, g, x);
        lemma_first(nodes, x);
        let i = first(nodes, x)->0;
        assert(leads(g, i, j) <==> waits(nodes, j, nodes[i].info().id));
        assert(g[j].info().id == nodes[j].info().id);
    }
    assert forall|j: int| 0 <= j < g.len() && (#[trigger] g[j]).info().with is Some implies first(
        g,
        g[j].info().with->0,
    ) is Some && g[first(g, g[j].info().with->0)->0].info().dependents.contains(
        g[j].info().id,
    ) by {
        assert(g[j].info().with == nodes[j].info().with);
        assert(nodes[j].info().with is Some);
        let w = nodes[j].info().with->0;
        lemma_first_by_names(nodes, g, w);
        lemma_first(nodes, w);
        let i = first(nodes, w)->0;
        assert(g[i].info().dependents.contains(nodes[j].info().id) <==> nodes[j].info().with
            == Some(nodes[i].info().id));
        assert(g[j].info().id == nodes[j].info().id);
    }
}

/// The graph of a block hangs together: no two of its actions share a name, what an
/// action waits for is an action that knows it as a successor, the successors of an action
/// wait for it, and the companion of an action is an action that knows it as a dependent.
pub proof fn law_built_coherent(declared: Seq<ActionView>)
    requires
        crate::block::built(declared) is Ok,
    ensures
        coherent(crate::block::built(declared)->Ok_0, Seq::empty()),
{
    let list = crate::action::expand::initialized_list(declared, 0, declared.len(), None)->Ok_0;
    let fenced = crate::action::flow::gated(
        crate::action::expand::flattened(list),
        Some(Seq::empty()),
        None,
    );
    let ids = crate::idset::union_ids(Seq::empty(), crate::block::names(fenced));
    crate::block::lemma_repeated(fenced, fenced.len() as int);
    crate::block::lemma_linked_all_distinct(fenced, ids, fenced.len() as int);
    let linked = crate::block::linked_all(fenced, ids, fenced.len() as int)->Ok_0;
    crate::block::lemma_stripped_distinct(linked);
    let start = crate::block::stripped(linked);
    assert(bare(start)) by {
        assert forall|m: int| 0 <= m < start.len() implies (
        #[trigger] start[m]).info().successors.len() == 0 && start[m].info().dependents.len()
            == 0 by {}
    }
    law_index_exact(start);
}

} // verus!
