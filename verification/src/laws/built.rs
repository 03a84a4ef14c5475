use crate::action::expand::{expanded, flattened, initialized_list, inlined};
use crate::action::flow::{fenced, gate, gated};
use crate::action::{resolved_all, ActionView, InfoView, MAX_DEPTH};
use crate::block::{built, linked_all, names, stripped};
use crate::idset::{lemma_with_id, union_ids, with_id};
use crate::laws::graph::acyclic;
use crate::laws::index::{law_built_coherent, lemma_indexed};
use crate::laws::progress::well_built;
use vstd::prelude::*;

verus! {

/// Whether an action waits for predecessors or names a companion.
pub open spec fn tied(a: ActionView) -> bool {
    a.info().after is Some || a.info().with is Some
}

/// Whether every action of the list waits for predecessors or names a companion.
pub open spec fn all_tied(list: Seq<ActionView>) -> bool {
    forall|j: int| 0 <= j < list.len() ==> tied(#[trigger] list[j])
}

/// Whether an action waits for predecessors or names a companion, and if it is a template,
/// so does every action that it stands for.
pub open spec fn deeply_tied(a: ActionView) -> bool {
    tied(a) && (a is Template ==> all_tied(a->Template_actions))
}

/// Whether every action of the list is tied, and what it stands for.
pub open spec fn all_deeply_tied(list: Seq<ActionView>) -> bool {
    forall|j: int| 0 <= j < list.len() ==> deeply_tied(#[trigger] list[j])
}

proof fn lemma_expanded_tied(outer: InfoView, inner: Seq<ActionView>)
    requires
        outer.after is Some || outer.with is Some,
        all_tied(inner),
    ensures
        all_tied(expanded(outer, inner)),
{
    let named = Seq::new(
        inner.len(),
        |i: int| inner[i].with_info(inner[i].info().scoped_in(outer.id, outer.after)),
    );
    let walled = gated(named, outer.after, outer.with);
    let r = expanded(outer, inner);
    assert forall|j: int| 0 <= j < r.len() implies tied(#[trigger] r[j]) by {
        if j == 0 {
        } else if j == r.len() - 1 {
        } else {
            assert(tied(inner[j - 1]));
            assert(walled[j] == fenced(named[j - 1], outer.with));
        }
    }
}

proof fn lemma_flattened_tied(list: Seq<ActionView>)
    requires
        all_deeply_tied(list),
    ensures
        all_tied(flattened(list)),
    decreases list.len(),
{
    if list.len() > 0 {
        let front = list.drop_last();
        assert(all_deeply_tied(front)) by {
            assert forall|j: int| 0 <= j < front.len() implies deeply_tied(#[trigger] front[j]) by {
                assert(front[j] == list[j]);
            }
        }
        lemma_flattened_tied(front);
        let head = flattened(front);
        let tail = inlined(list.last());
        assert(deeply_tied(list[list.len() - 1]));
        let r = flattened(list);
        assert forall|j: int| 0 <= j < r.len() implies tied(#[trigger] r[j]) by {
            if j < head.len() {
                assert(r[j] == head[j]);
            } else {
                assert(r[j] == tail[j - head.len()]);
            }
        }
    }
}

proof fn lemma_initialized_tied(a: ActionView, position: nat, last: Option<Seq<char>>, depth: nat)
    requires
        a.initialized(position, last, depth) is Ok,
    ensures
        deeply_tied(a.initialized(position, last, depth)->Ok_0),
    decreases MAX_DEPTH + 1 - depth, 0nat, 0nat,
{
    let info = a.info().enrolled(position, last);
    match a {
        ActionView::Template { source, params, actions, .. } => {
            lemma_initialized_list_tied(actions, depth + 1, actions.len(), Some(source));
            let inner = initialized_list(actions, depth + 1, actions.len(), Some(source))->Ok_0;
            lemma_flattened_tied(inner);
            lemma_expanded_tied(info, flattened(inner));
        },
        _ => {},
    }
}

proof fn lemma_initialized_list_tied(
    list: Seq<ActionView>,
    depth: nat,
    k: nat,
    template: Option<Seq<char>>,
)
    requires
        initialized_list(list, depth, k, template) is Ok,
    ensures
        all_deeply_tied(initialized_list(list, depth, k, template)->Ok_0),
    decreases MAX_DEPTH + 1 - depth, 1nat, k,
{
    if !(k == 0 || k > list.len()) {
        lemma_initialized_list_tied(list, depth, (k - 1) as nat, template);
        let front = initialized_list(list, depth, (k - 1) as nat, template)->Ok_0;
        let last = if front.len() == 0 {
            None
        } else {
            Some(front.last().info().id)
        };
        lemma_initialized_tied(list[k - 1], k, last, depth);
        let a = list[k - 1].initialized(k, last, depth)->Ok_0;
        let r = front.push(a);
        assert forall|j: int| 0 <= j < r.len() implies deeply_tied(#[trigger] r[j]) by {
            if j < front.len() {
                assert(r[j] == front[j]);
            }
        }
    }
}

/// Resolving references keeps a set of predecessors from running empty.
proof fn lemma_resolved_all_stays(after: Seq<Seq<char>>, ids: Seq<Seq<char>>)
    requires
        after.len() > 0,
        resolved_all(after, ids) is Ok,
    ensures
        resolved_all(after, ids)->Ok_0.len() > 0,
{
    let front = resolved_all(after.drop_last(), ids)->Ok_0;
    let r = crate::action::resolved(after.last(), ids)->0;
    lemma_with_id(front, r);
    assert(with_id(front, r).contains(r));
}

/// What resolving the references of the first `k` actions does, action by action.
proof fn lemma_linked_all(nodes: Seq<ActionView>, ids: Seq<Seq<char>>, k: int)
    requires
        0 <= k <= nodes.len(),
        linked_all(nodes, ids, k) is Ok,
    ensures
        linked_all(nodes, ids, k)->Ok_0.len() == nodes.len(),
        forall|j: int|
            0 <= j < k ==> nodes[j].info().linked(ids) is Ok && #[trigger] linked_all(
                nodes,
                ids,
                k,
            )->Ok_0[j] == nodes[j].with_info(nodes[j].info().linked(ids)->Ok_0),
        forall|j: int|
            k <= j < nodes.len() ==> #[trigger] linked_all(nodes, ids, k)->Ok_0[j] == nodes[j],
    decreases k,
{
    if k > 0 {
        lemma_linked_all(nodes, ids, k - 1);
        let ns = linked_all(nodes, ids, k - 1)->Ok_0;
        assert(ns[k - 1] == nodes[k - 1]);
    }
}

/// Whether the action has something to wait for, or is the entry gate.
pub open spec fn anchored(a: ActionView) -> bool {
    a.info().id == "entry"@ || a.info().pending().len() > 0 || (a.info().after is None
        && a.info().with is Some)
}

proof fn lemma_linked_anchored(info: InfoView, ids: Seq<Seq<char>>, a: ActionView)
    requires
        a.info() == info,
        anchored(a),
        info.linked(ids) is Ok,
    ensures
        anchored(a.with_info(info.linked(ids)->Ok_0)),
{
    match info.after {
        Some(s) => {
            if s.len() > 0 {
                lemma_resolved_all_stays(s, ids);
                let r = resolved_all(s, ids)->Ok_0;
                let mid = InfoView { after: Some(r), ..info };
                match info.with {
                    Some(w) => {
                        lemma_with_id(mid.pending(), crate::text::scoped_name(w, "entry"@));
                    },
                    None => {},
                }
            }
        },
        None => {
            match info.with {
                Some(w) => {
                    let gate = crate::text::scoped_name(w, "entry"@);
                    lemma_with_id(info.pending(), gate);
                    assert(with_id(info.pending(), gate).contains(gate));
                },
                None => {},
            }
        },
    }
}

/// The graph of a block is fit to run if it has no circle of actions that wait for each
/// other and its exit gate has something to wait for. Every graph that was built hangs
/// together, and every action of it but the two gates has something to wait for: the
/// entry gate if nothing else.
pub proof fn law_built_runs(declared: Seq<ActionView>)
    requires
        built(declared) is Ok,
        acyclic(built(declared)->Ok_0),
        built(declared)->Ok_0.last().info().pending().len() > 0,
    ensures
        well_built(built(declared)->Ok_0),
{
    let g = built(declared)->Ok_0;
    law_built_coherent(declared);
    lemma_initialized_list_tied(declared, 0, declared.len(), None);
    let list = initialized_list(declared, 0, declared.len(), None)->Ok_0;
    lemma_flattened_tied(list);
    let flat = flattened(list);
    let walled = gated(flat, Some(Seq::empty()), None);
    let ids = union_ids(Seq::empty(), names(walled));
    let n = walled.len() as int;
    assert(n == flat.len() + 2);
    lemma_linked_all(walled, ids, n);
    let linked = linked_all(walled, ids, n)->Ok_0;
    crate::block::lemma_repeated(walled, n);
    crate::block::lemma_linked_all_distinct(walled, ids, n);
    crate::block::lemma_stripped_distinct(linked);
    lemma_indexed(stripped(linked), n);
    assert forall|j: int| 0 <= j < g.len() implies (#[trigger] g[j]).info().id == "entry"@
        || g[j].info().pending().len() > 0 || (g[j].info().after is None
        && g[j].info().with is Some) by {
        assert(g[j] == stripped(linked)[j].with_info(
            InfoView {
                successors: g[j].info().successors,
                dependents: g[j].info().dependents,
                ..stripped(linked)[j].info()
            },
        ));
        assert(g[j].info().id == linked[j].info().id && g[j].info().after
            == linked[j].info().after && g[j].info().with == linked[j].info().with);
        if j < n - 1 {
            assert(anchored(walled[j])) by {
                if j > 0 {
                    assert(tied(flat[j - 1]));
                    assert(walled[j] == fenced(flat[j - 1], None));
                    match flat[j - 1].info().after {
                        Some(s) => {
                            lemma_with_id(s, "entry"@);
                            assert(with_id(s, "entry"@).contains("entry"@));
                        },
                        None => {},
                    }
                }
            }
            lemma_linked_anchored(walled[j].info(), ids, walled[j]);
        }
    }
}

} // verus!
