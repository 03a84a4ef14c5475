use crate::action::{
    action_views, clone_text, opt_ids, opt_text, Action, ActionView, Info, InfoView, ID,
};
use crate::error::BuildError;
use crate::idset::{lemma_with_id, with_id, IdSet};
use vstd::prelude::*;

verus! {

/// A gate: an action that presents nothing and is skipped as soon as it is ready.
pub open spec fn gate(
    id: Seq<char>,
    after: Option<Seq<Seq<char>>>,
    with: Option<Seq<char>>,
) -> ActionView {
    ActionView::Nothing {
        info: InfoView {
            id,
            with,
            after,
            monitor_kb: false,
            keystrokes: Seq::empty(),
            background: None,
            timeout: Some(0u16),
            dependents: Seq::empty(),
            successors: Seq::empty(),
            expired: Some(true),
        },
    }
}

/// Whether some action of `nodes` waits for `id`.
pub open spec fn awaited(nodes: Seq<ActionView>, id: Seq<char>) -> bool {
    exists|j: int| 0 <= j < nodes.len() && (#[trigger] nodes[j]).info().pending().contains(id)
}

/// Among the first `k` of `nodes`, the names of those that no action of `nodes` waits for.
pub open spec fn leaves(nodes: Seq<ActionView>, k: int) -> Seq<Seq<char>>
    decreases k,
{
    if k <= 0 {
        Seq::empty()
    } else {
        let front = leaves(nodes, k - 1);
        let id = nodes[k - 1].info().id;
        if awaited(nodes, id) {
            front
        } else {
            with_id(front, id)
        }
    }
}

/// The names of the actions that none of `nodes` waits for, in their order.
pub open spec fn finalists(nodes: Seq<ActionView>) -> Seq<Seq<char>> {
    leaves(nodes, nodes.len() as int)
}

/// An action as it stands between the gates of its scope: it waits for the entry gate if it
/// waits for anything, and takes the scope's companion if it names none.
pub open spec fn fenced(a: ActionView, with: Option<Seq<char>>) -> ActionView {
    a.with_info(
        InfoView {
            after: match a.info().after {
                Some(ids) => Some(with_id(ids, "entry"@)),
                None => None,
            },
            with: if a.info().with is None {
                with
            } else {
                a.info().with
            },
            ..a.info()
        },
    )
}

/// The scope `nodes` between its two gates.
pub open spec fn gated(
    nodes: Seq<ActionView>,
    after: Option<Seq<Seq<char>>>,
    with: Option<Seq<char>>,
) -> Seq<ActionView> {
    seq![gate("entry"@, after, with)] + Seq::new(nodes.len(), |i: int| fenced(nodes[i], with))
        + seq![gate("exit"@, Some(finalists(nodes)), with)]
}

/// The leaves are the names of the actions that nothing in the scope waits for.
pub proof fn lemma_leaves(nodes: Seq<ActionView>, k: int)
    requires
        0 <= k <= nodes.len(),
    ensures
        forall|x: Seq<char>| #[trigger]
            leaves(nodes, k).contains(x) <==> !awaited(nodes, x) && exists|i: int|
                0 <= i < k && (#[trigger] nodes[i]).info().id == x,
        leaves(nodes, k).no_duplicates(),
    decreases k,
{
    if k > 0 {
        lemma_leaves(nodes, k - 1);
        let front = leaves(nodes, k - 1);
        let id = nodes[k - 1].info().id;
        lemma_with_id(front, id);
        assert forall|x: Seq<char>| #[trigger]
            leaves(nodes, k).contains(x) <==> !awaited(nodes, x) && exists|i: int|
                0 <= i < k && (#[trigger] nodes[i]).info().id == x by {
            if leaves(nodes, k).contains(x) {
                if front.contains(x) {
                    let i = choose|i: int| 0 <= i < k - 1 && (#[trigger] nodes[i]).info().id == x;
                    assert(0 <= i < k && nodes[i].info().id == x);
                } else {
                    assert(nodes[k - 1].info().id == x);
                }
            }
            if !awaited(nodes, x) && exists|i: int|
                0 <= i < k && (#[trigger] nodes[i]).info().id == x {
                let i = choose|i: int| 0 <= i < k && (#[trigger] nodes[i]).info().id == x;
                if i < k - 1 {
                    assert(front.contains(x));
                }
            }
        }
    }
}

fn make_gate(id: &str, after: Option<IdSet>, with: Option<ID>) -> (r: Action)
    ensures
        r@ == gate(id@, opt_ids(after), opt_text(with)),
{
    let r = Action::Nothing {
        info: Info {
            id: String::from_str(id),
            with,
            after,
            monitor_kb: false,
            keystrokes: Vec::new(),
            background: None,
            timeout: Some(0),
            dependents: IdSet::new(),
            successors: IdSet::new(),
            expired: Some(true),
        },
    };
    assert(r@.info().keystrokes =~= Seq::empty());
    r
}

/// Whether some action of the list waits for `id`.
pub fn is_awaited(actions: &Vec<Action>, id: &str) -> (r: bool)
    ensures
        r == awaited(action_views(actions@), id@),
{
    let mut j: usize = 0;
    while j < actions.len()
        invariant
            j <= actions.len(),
            forall|k: int|
                0 <= k < j ==> !(#[trigger] action_views(actions@)[k]).info().pending().contains(
                    id@,
                ),
        decreases actions.len() - j,
    {
        if let Some(ids) = &actions[j].info().after {
            if ids.contains(id) {
                assert(action_views(actions@)[j as int].info().pending().contains(id@));
                return true;
            }
        }
        j += 1;
    }
    false
}

/// Puts the scope `actions` between an entry gate and an exit gate. The entry gate waits for
/// `after` and the exit gate for the scope's leaves; both take the companion `with`, as does
/// every action that names none; every action that waits for anything waits for `entry` too.
pub fn add_gates(actions: &mut Vec<Action>, after: Option<IdSet>, with: Option<ID>) -> (r: Result<
    (),
    BuildError,
>)
    ensures
        r is Ok,
        action_views(final(actions)@) == gated(
            action_views(old(actions)@),
            opt_ids(after),
            opt_text(with),
        ),
        final(actions)@.len() == old(actions)@.len() + 2,
        final(actions)@[0]@ == gate("entry"@, opt_ids(after), opt_text(with)),
        final(actions)@[final(actions)@.len() - 1]@ == gate(
            "exit"@,
            Some(finalists(action_views(old(actions)@))),
            opt_text(with),
        ),
        forall|x: Seq<char>| #[trigger]
            finalists(action_views(old(actions)@)).contains(x) <==> !awaited(
                action_views(old(actions)@),
                x,
            ) && exists|i: int|
                0 <= i < old(actions).len() && (#[trigger] old(actions)@[i])@.info().id == x,
{
    let ghost nodes = action_views(actions@);
    let ghost with_view: Option<Seq<char>> = opt_text(with);
    let ghost after_view: Option<Seq<Seq<char>>> = opt_ids(after);
    let mut last = IdSet::new();
    let mut i: usize = 0;
    while i < actions.len()
        invariant
            i <= actions.len(),
            nodes == action_views(actions@),
            last@ == leaves(nodes, i as int),
        decreases actions.len() - i,
    {
        let id = actions[i].id();
        if !is_awaited(actions, id.as_str()) {
            last.insert(id);
        }
        i += 1;
    }
    let n = actions.len();
    i = 0;
    while i < n
        invariant
            i <= n,
            n == actions.len(),
            n == nodes.len(),
            with_view == opt_text(with),
            forall|j: int| 0 <= j < i ==> (#[trigger] actions@[j])@ == fenced(nodes[j], with_view),
            forall|j: int| i <= j < n ==> (#[trigger] actions@[j])@ == nodes[j],
        decreases n - i,
    {
        let info = actions[i].info_mut();
        if let Some(ids) = &mut info.after {
            ids.insert(String::from_str("entry"));
        }
        if info.with.is_none() {
            info.with = clone_text(&with);
        }
        i += 1;
    }
    let entry = make_gate("entry", after, clone_text(&with));
    let exit = make_gate("exit", Some(last), with);
    actions.insert(0, entry);
    actions.push(exit);
    proof {
        lemma_leaves(nodes, nodes.len() as int);
        assert(action_views(actions@) =~= gated(nodes, after_view, with_view));
        assert forall|x: Seq<char>| #[trigger]
            finalists(nodes).contains(x) <==> !awaited(nodes, x) && exists|i: int|
                0 <= i < old(actions).len() && (#[trigger] old(actions)@[i])@.info().id == x by {
            if finalists(nodes).contains(x) {
                let i = choose|i: int| 0 <= i < nodes.len() && (#[trigger] nodes[i]).info().id == x;
                assert(old(actions)@[i]@.info().id == x);
            }
            if exists|i: int|
                0 <= i < old(actions).len() && (#[trigger] old(actions)@[i])@.info().id == x {
                let i = choose|i: int|
                    0 <= i < old(actions).len() && (#[trigger] old(actions)@[i])@.info().id == x;
                assert(nodes[i].info().id == x);
            }
        }
    }
    Ok(())
}

} // verus!
