use crate::action::expand::{flatten, flattened, init_list, initialized_list, named_among};
use crate::action::flow::{add_gates, gated};
use crate::action::{
    action_views, artifact_views, job_views, opt_text, Action, ActionView, Artifact, InfoView,
    Job, Reply, ID,
};
use crate::comm::Message;
use crate::error::{BuildError, BuildErrorView};
use crate::idset::{texts, union_ids, with_id, IdSet};
use crate::util::timestamp;
use vstd::prelude::*;

verus! {

/// The transitions of an action that a block records.
#[derive(Debug, Clone, Copy, PartialEq, Eq, Structural)]
pub enum EventKind {
    Start,
    Wrap,
    Skip,
    /// The job of the action broke down.
    Fail,
}

/// One line of a block's record: what happened to which action, and when.
#[derive(Debug)]
pub struct Event {
    pub stamp: String,
    pub kind: EventKind,
    pub id: ID,
}

impl Clone for Event {
    fn clone(&self) -> (r: Event)
        ensures
            r@ == self@,
            r.stamp@ == self.stamp@,
    {
        Event { stamp: self.stamp.clone(), kind: self.kind, id: self.id.clone() }
    }
}

/// An event without its moment.
pub struct EventView {
    pub kind: EventKind,
    pub id: Seq<char>,
}

impl View for Event {
    type V = EventView;

    open spec fn view(&self) -> EventView {
        EventView { kind: self.kind, id: self.id@ }
    }
}

/// The events of a record, without their moments.
pub open spec fn event_views(list: Seq<Event>) -> Seq<EventView> {
    Seq::new(list.len(), |i: int| list[i]@)
}

/// The word that stands for a kind of event in the written record.
pub open spec fn kind_word(kind: EventKind) -> Seq<char> {
    match kind {
        EventKind::Start => "START"@,
        EventKind::Wrap => "WRAP"@,
        EventKind::Skip => "SKIP"@,
        EventKind::Fail => "FAIL"@,
    }
}

impl Event {
    /// The line of the written record: moment, kind and action, two blanks between them.
    pub open spec fn line(&self) -> Seq<char> {
        self.stamp@ + "  "@ + kind_word(self.kind) + "  "@ + self.id@
    }

    /// Writes the event as a line of the record.
    pub fn to_line(&self) -> (r: String)
        ensures
            r@ == self.line(),
    {
        let mut r = self.stamp.clone();
        r.append("  ");
        match self.kind {
            EventKind::Start => r.append("START"),
            EventKind::Wrap => r.append("WRAP"),
            EventKind::Skip => r.append("SKIP"),
            EventKind::Fail => r.append("FAIL"),
        }
        r.append("  ");
        r.append(self.id.as_str());
        r
    }
}

/// The place of the first action named `id` among `nodes`.
pub open spec fn first(nodes: Seq<ActionView>, id: Seq<char>) -> Option<int>
    decreases nodes.len(),
{
    if nodes.len() == 0 {
        None
    } else {
        match first(nodes.drop_last(), id) {
            Some(i) => Some(i),
            None => if nodes.last().info().id == id {
                Some(nodes.len() - 1)
            } else {
                None
            },
        }
    }
}

/// `first` finds the least place that holds the name, and none only where none holds it.
pub proof fn lemma_first(nodes: Seq<ActionView>, id: Seq<char>)
    ensures
        match first(nodes, id) {
            Some(i) => 0 <= i < nodes.len() && nodes[i].info().id == id && forall|j: int|
                0 <= j < i ==> (#[trigger] nodes[j]).info().id != id,
            None => forall|j: int| 0 <= j < nodes.len() ==> (#[trigger] nodes[j]).info().id != id,
        },
    decreases nodes.len(),
{
    if nodes.len() > 0 {
        let front = nodes.drop_last();
        lemma_first(front, id);
        match first(front, id) {
            Some(i) => {
                assert(front[i] == nodes[i]);
                assert forall|j: int| 0 <= j < i implies (#[trigger] nodes[j]).info().id != id by {
                    assert(front[j] == nodes[j]);
                }
            },
            None => {
                assert forall|j: int| 0 <= j < nodes.len() - 1 implies (#[trigger] nodes[j]).info().id
                    != id by {
                    assert(front[j] == nodes[j]);
                }
            },
        }
    }
}

/// Whether no two actions share a name.
pub open spec fn distinct(nodes: Seq<ActionView>) -> bool {
    forall|i: int, j: int|
        0 <= i < nodes.len() && 0 <= j < nodes.len() && i != j ==> (#[trigger] nodes[i]).info().id
            != (#[trigger] nodes[j]).info().id
}

/// The name of the first among the first `k` actions that an action before it bears too.
pub open spec fn repeated(nodes: Seq<ActionView>, k: int) -> Option<Seq<char>>
    decreases k,
{
    if k <= 0 || k > nodes.len() {
        None
    } else {
        match repeated(nodes, k - 1) {
            Some(id) => Some(id),
            None => if named_among(nodes, k - 1, nodes[k - 1].info().id) {
                Some(nodes[k - 1].info().id)
            } else {
                None
            },
        }
    }
}

/// Where no name is repeated, the names are distinct.
pub proof fn lemma_repeated(nodes: Seq<ActionView>, k: int)
    requires
        0 <= k <= nodes.len(),
        repeated(nodes, k) is None,
    ensures
        forall|i: int, j: int|
            0 <= i < k && 0 <= j < k && i != j ==> (#[trigger] nodes[i]).info().id != (
            #[trigger] nodes[j]).info().id,
    decreases k,
{
    if k > 0 {
        lemma_repeated(nodes, k - 1);
        assert(!named_among(nodes, k - 1, nodes[k - 1].info().id));
    }
}

/// A name repeated among the first `k` actions is repeated among them all.
pub proof fn lemma_repeated_stays(nodes: Seq<ActionView>, k: int, n: int)
    requires
        0 <= k <= n <= nodes.len(),
        repeated(nodes, k) is Some,
    ensures
        repeated(nodes, n) == repeated(nodes, k),
    decreases n - k,
{
    if k < n {
        lemma_repeated_stays(nodes, k, n - 1);
    }
}

/// The names of the actions, in order.
pub open spec fn names(nodes: Seq<ActionView>) -> Seq<Seq<char>> {
    Seq::new(nodes.len(), |i: int| nodes[i].info().id)
}

/// The actions `nodes`, the one at place `i` with the record `info`.
pub open spec fn put(nodes: Seq<ActionView>, i: int, info: InfoView) -> Seq<ActionView> {
    nodes.update(i, nodes[i].with_info(info))
}

/// The graph after the finished action `id` was struck off the predecessors of the first `k`
/// of its successors `succs`, and those of them that are ready now.
pub open spec fn released(nodes: Seq<ActionView>, id: Seq<char>, succs: Seq<Seq<char>>, k: int) -> (
    Seq<ActionView>,
    Seq<Seq<char>>,
)
    decreases k,
{
    if k <= 0 {
        (nodes, Seq::empty())
    } else {
        let (ns, ready) = released(nodes, id, succs, k - 1);
        match first(ns, succs[k - 1]) {
            None => (ns, ready),
            Some(i) => {
                let info = ns[i].info().satisfied(id);
                (
                    put(ns, i, info),
                    if info.ready() == Some(true) {
                        with_id(ready, succs[k - 1])
                    } else {
                        ready
                    },
                )
            },
        }
    }
}

/// The graph after those of the first `k` companions-in-waiting `deps` that are not among
/// `done` were marked as never to run, and their names.
pub open spec fn lapsed(
    nodes: Seq<ActionView>,
    deps: Seq<Seq<char>>,
    done: Seq<Seq<char>>,
    k: int,
) -> (Seq<ActionView>, Seq<Seq<char>>)
    decreases k,
{
    if k <= 0 {
        (nodes, Seq::empty())
    } else {
        let (ns, expired) = lapsed(nodes, deps, done, k - 1);
        let d = deps[k - 1];
        if done.contains(d) {
            (ns, expired)
        } else {
            match first(ns, d) {
                None => (ns, expired),
                Some(i) => (
                    put(ns, i, InfoView { expired: Some(true), ..ns[i].info() }),
                    with_id(expired, d),
                ),
            }
        }
    }
}

/// What the end of an action does to the graph.
pub struct Settled {
    /// The graph afterwards.
    pub nodes: Seq<ActionView>,
    /// The successors that wait for nothing any more.
    pub ready: Seq<Seq<char>>,
    /// The dependents that were marked as never to run.
    pub expired: Seq<Seq<char>>,
}

/// What the end of the action `id` does to the graph `nodes`, where the actions `done` have
/// ended before: `id` is struck off the predecessors of its successors, and its dependents
/// that have not ended are marked as never to run.
pub open spec fn settled(nodes: Seq<ActionView>, id: Seq<char>, done: Seq<Seq<char>>) -> Settled {
    match first(nodes, id) {
        None => Settled { nodes, ready: Seq::empty(), expired: Seq::empty() },
        Some(i) => {
            let succs = nodes[i].info().successors;
            let deps = nodes[i].info().dependents;
            let (n1, ready) = released(nodes, id, succs, succs.len() as int);
            let (n2, expired) = lapsed(n1, deps, done, deps.len() as int);
            Settled { nodes: n2, ready, expired }
        },
    }
}

/// The graph with the references of its first `k` actions resolved among the names `ids`, or
/// the first reason why one cannot be.
pub open spec fn linked_all(nodes: Seq<ActionView>, ids: Seq<Seq<char>>, k: int) -> Result<
    Seq<ActionView>,
    BuildErrorView,
>
    decreases k,
{
    if k <= 0 || k > nodes.len() {
        Ok(nodes)
    } else {
        match linked_all(nodes, ids, k - 1) {
            Err(e) => Err(e),
            Ok(ns) => match ns[k - 1].info().linked(ids) {
                Err(e) => Err(e),
                Ok(info) => Ok(put(ns, k - 1, info)),
            },
        }
    }
}

/// The graph in which the first `k` of the predecessors `after` know `owner` as their
/// successor, or the first of them that is no action.
pub open spec fn followed(
    nodes: Seq<ActionView>,
    owner: Seq<char>,
    after: Seq<Seq<char>>,
    k: int,
) -> Result<Seq<ActionView>, BuildErrorView>
    decreases k,
{
    if k <= 0 || k > after.len() {
        Ok(nodes)
    } else {
        match followed(nodes, owner, after, k - 1) {
            Err(e) => Err(e),
            Ok(ns) => match first(ns, after[k - 1]) {
                None => Err(BuildErrorView::UnknownAction(after[k - 1])),
                Some(i) => Ok(
                    put(
                        ns,
                        i,
                        InfoView {
                            successors: with_id(ns[i].info().successors, owner),
                            ..ns[i].info()
                        },
                    ),
                ),
            },
        }
    }
}

/// The graph in which the companion `with`, if there is one, knows `owner` as its
/// dependent, or the companion that is no action.
pub open spec fn accompanied(nodes: Seq<ActionView>, owner: Seq<char>, with: Option<Seq<char>>) -> Result<
    Seq<ActionView>,
    BuildErrorView,
> {
    match with {
        None => Ok(nodes),
        Some(w) => match first(nodes, w) {
            None => Err(BuildErrorView::UnknownAction(w)),
            Some(i) => Ok(
                put(
                    nodes,
                    i,
                    InfoView {
                        dependents: with_id(nodes[i].info().dependents, owner),
                        ..nodes[i].info()
                    },
                ),
            ),
        },
    }
}

/// The graph in which the predecessors and the companions of the first `k` actions know
/// them as their successors and dependents, or the first reference that leads nowhere.
pub open spec fn indexed(nodes: Seq<ActionView>, k: int) -> Result<Seq<ActionView>, BuildErrorView>
    decreases k,
{
    if k <= 0 || k > nodes.len() {
        Ok(nodes)
    } else {
        match indexed(nodes, k - 1) {
            Err(e) => Err(e),
            Ok(ns) => {
                let info = ns[k - 1].info();
                match followed(ns, info.id, info.pending(), info.pending().len() as int) {
                    Err(e) => Err(e),
                    Ok(linked) => accompanied(linked, info.id, info.with),
                }
            },
        }
    }
}

/// The graph of a block whose declared actions are `nodes`: every action made ready in
/// turn, templates replaced by what they stand for, the whole between an entry and an exit
/// gate, no name borne twice, every reference resolved and known to the action it names,
/// and to no other; or the first reason why there is no such graph.
pub open spec fn built(nodes: Seq<ActionView>) -> Result<Seq<ActionView>, BuildErrorView> {
    match initialized_list(nodes, 0, nodes.len(), None) {
        Err(e) => Err(e),
        Ok(list) => {
            let fenced = gated(flattened(list), Some(Seq::empty()), None);
            let ids = union_ids(Seq::empty(), names(fenced));
            match repeated(fenced, fenced.len() as int) {
                Some(id) => Err(BuildErrorView::DuplicateId { id, template: None }),
                None => match linked_all(fenced, ids, fenced.len() as int) {
                    Err(e) => Err(e),
                    Ok(linked) => indexed(stripped(linked), linked.len() as int),
                },
            }
        },
    }
}

/// A failure among the first `k` actions is the failure of them all.
pub proof fn lemma_linked_all_fails(nodes: Seq<ActionView>, ids: Seq<Seq<char>>, k: int, n: int)
    requires
        0 <= k <= n <= nodes.len(),
        linked_all(nodes, ids, k) is Err,
    ensures
        linked_all(nodes, ids, n) == linked_all(nodes, ids, k),
    decreases n - k,
{
    if k < n {
        lemma_linked_all_fails(nodes, ids, k, n - 1);
    }
}

/// A failure among the first `k` predecessors is the failure of them all.
pub proof fn lemma_followed_fails(
    nodes: Seq<ActionView>,
    owner: Seq<char>,
    after: Seq<Seq<char>>,
    k: int,
    n: int,
)
    requires
        0 <= k <= n <= after.len(),
        followed(nodes, owner, after, k) is Err,
    ensures
        followed(nodes, owner, after, n) == followed(nodes, owner, after, k),
    decreases n - k,
{
    if k < n {
        lemma_followed_fails(nodes, owner, after, k, n - 1);
    }
}

/// A failure among the first `k` actions is the failure of them all.
pub proof fn lemma_indexed_fails(nodes: Seq<ActionView>, k: int, n: int)
    requires
        0 <= k <= n <= nodes.len(),
        indexed(nodes, k) is Err,
    ensures
        indexed(nodes, n) == indexed(nodes, k),
    decreases n - k,
{
    if k < n {
        lemma_indexed_fails(nodes, k, n - 1);
    }
}

/// Telling predecessors of their successor leaves the graph at its length.
pub proof fn lemma_followed_len(nodes: Seq<ActionView>, owner: Seq<char>, after: Seq<Seq<char>>, k: int)
    ensures
        followed(nodes, owner, after, k) is Ok ==> followed(nodes, owner, after, k)->Ok_0.len()
            == nodes.len(),
    decreases k,
{
    if !(k <= 0 || k > after.len()) {
        lemma_followed_len(nodes, owner, after, k - 1);
        if followed(nodes, owner, after, k - 1) is Ok {
            lemma_first(followed(nodes, owner, after, k - 1)->Ok_0, after[k - 1]);
        }
    }
}

/// Linking changes only the record of one action at a time: the graph keeps its length.
pub proof fn lemma_linked_all_len(nodes: Seq<ActionView>, ids: Seq<Seq<char>>, k: int)
    ensures
        linked_all(nodes, ids, k) is Ok ==> linked_all(nodes, ids, k)->Ok_0.len() == nodes.len(),
    decreases k,
{
    if !(k <= 0 || k > nodes.len()) {
        lemma_linked_all_len(nodes, ids, k - 1);
    }
}

/// Giving actions other records under their names leaves the names distinct.
pub proof fn lemma_put_distinct(nodes: Seq<ActionView>, i: int, info: InfoView)
    requires
        distinct(nodes),
        0 <= i < nodes.len(),
        info.id == nodes[i].info().id,
    ensures
        distinct(put(nodes, i, info)),
        put(nodes, i, info).len() == nodes.len(),
        forall|j: int|
            0 <= j < nodes.len() ==> (#[trigger] put(nodes, i, info)[j]).info().id
                == nodes[j].info().id,
{
    let r = put(nodes, i, info);
    assert forall|j: int| 0 <= j < nodes.len() implies (#[trigger] r[j]).info().id
        == nodes[j].info().id by {}
    assert forall|a: int, b: int| 0 <= a < r.len() && 0 <= b < r.len() && a != b implies (
    #[trigger] r[a]).info().id != (#[trigger] r[b]).info().id by {
        assert(r[a].info().id == nodes[a].info().id);
        assert(r[b].info().id == nodes[b].info().id);
    }
}

/// Resolving references leaves the names as they are.
pub proof fn lemma_linked_all_distinct(nodes: Seq<ActionView>, ids: Seq<Seq<char>>, k: int)
    requires
        distinct(nodes),
        linked_all(nodes, ids, k) is Ok,
    ensures
        distinct(linked_all(nodes, ids, k)->Ok_0),
        linked_all(nodes, ids, k)->Ok_0.len() == nodes.len(),
    decreases k,
{
    if !(k <= 0 || k > nodes.len()) {
        lemma_linked_all_distinct(nodes, ids, k - 1);
        let ns = linked_all(nodes, ids, k - 1)->Ok_0;
        lemma_put_distinct(ns, k - 1, ns[k - 1].info().linked(ids)->Ok_0);
    }
}

/// Telling predecessors of their successor leaves the names as they are.
pub proof fn lemma_followed_distinct(
    nodes: Seq<ActionView>,
    owner: Seq<char>,
    after: Seq<Seq<char>>,
    k: int,
)
    requires
        distinct(nodes),
        followed(nodes, owner, after, k) is Ok,
    ensures
        distinct(followed(nodes, owner, after, k)->Ok_0),
        followed(nodes, owner, after, k)->Ok_0.len() == nodes.len(),
    decreases k,
{
    if !(k <= 0 || k > after.len()) {
        lemma_followed_distinct(nodes, owner, after, k - 1);
        let ns = followed(nodes, owner, after, k - 1)->Ok_0;
        let i = first(ns, after[k - 1])->0;
        lemma_first(ns, after[k - 1]);
        lemma_put_distinct(
            ns,
            i,
            InfoView { successors: with_id(ns[i].info().successors, owner), ..ns[i].info() },
        );
    }
}

/// Telling predecessors and companions of those that name them leaves the names as they
/// are.
pub proof fn lemma_indexed_distinct(nodes: Seq<ActionView>, k: int)
    requires
        distinct(nodes),
        indexed(nodes, k) is Ok,
    ensures
        distinct(indexed(nodes, k)->Ok_0),
        indexed(nodes, k)->Ok_0.len() == nodes.len(),
    decreases k,
{
    if !(k <= 0 || k > nodes.len()) {
        lemma_indexed_distinct(nodes, k - 1);
        let ns = indexed(nodes, k - 1)->Ok_0;
        let info = ns[k - 1].info();
        lemma_followed_distinct(ns, info.id, info.pending(), info.pending().len() as int);
        let linked = followed(ns, info.id, info.pending(), info.pending().len() as int)->Ok_0;
        match info.with {
            None => {},
            Some(w) => {
                let i = first(linked, w)->0;
                lemma_first(linked, w);
                lemma_put_distinct(
                    linked,
                    i,
                    InfoView {
                        dependents: with_id(linked[i].info().dependents, info.id),
                        ..linked[i].info()
                    },
                );
            },
        }
    }
}

/// No two actions of a built graph share a name.
pub proof fn lemma_built_distinct(nodes: Seq<ActionView>)
    requires
        built(nodes) is Ok,
    ensures
        distinct(built(nodes)->Ok_0),
{
    let list = initialized_list(nodes, 0, nodes.len(), None)->Ok_0;
    let fenced = gated(flattened(list), Some(Seq::empty()), None);
    let ids = union_ids(Seq::empty(), names(fenced));
    lemma_repeated(fenced, fenced.len() as int);
    lemma_linked_all_distinct(fenced, ids, fenced.len() as int);
    let linked = linked_all(fenced, ids, fenced.len() as int)->Ok_0;
    lemma_stripped_distinct(linked);
    lemma_indexed_distinct(stripped(linked), linked.len() as int);
}

/// Forgetting successors and dependents leaves the names as they are.
pub proof fn lemma_stripped_distinct(nodes: Seq<ActionView>)
    requires
        distinct(nodes),
    ensures
        distinct(stripped(nodes)),
{
    let r = stripped(nodes);
    assert forall|a: int, b: int| 0 <= a < r.len() && 0 <= b < r.len() && a != b implies (
    #[trigger] r[a]).info().id != (#[trigger] r[b]).info().id by {
        assert(r[a].info().id == nodes[a].info().id);
        assert(r[b].info().id == nodes[b].info().id);
    }
}

impl Clone for Block {
    fn clone(&self) -> (r: Block)
        ensures
            r@ == self@,
    {
        let mut events: Vec<Event> = Vec::new();
        let mut i: usize = 0;
        while i < self.events.len()
            invariant
                i <= self.events.len(),
                events@.len() == i,
                forall|j: int| 0 <= j < i ==> (#[trigger] events@[j])@ == self.events@[j]@,
            decreases self.events.len() - i,
        {
            events.push(self.events[i].clone());
            i += 1;
        }
        assert(event_views(events@) =~= event_views(self.events@));
        Block {
            id: self.id,
            title: self.title.clone(),
            description: self.description.clone(),
            actions: crate::action::clone_actions(&self.actions),
            events,
        }
    }
}

impl BlockView {
    /// The block with one more event in its record.
    pub open spec fn noted(self, kind: EventKind, id: Seq<char>) -> BlockView {
        BlockView { events: self.events.push(EventView { kind, id }), ..self }
    }

    /// The block with another graph.
    pub open spec fn with_nodes(self, nodes: Seq<ActionView>) -> BlockView {
        BlockView { nodes, ..self }
    }
}

/// One run of a task: a titled list of actions, and the record of what happened to them.
#[derive(Debug)]
pub struct Block {
    pub id: usize,
    pub title: String,
    pub description: String,
    pub actions: Vec<Action>,
    pub events: Vec<Event>,
}

pub struct BlockView {
    pub id: usize,
    pub title: Seq<char>,
    pub description: Seq<char>,
    pub nodes: Seq<ActionView>,
    pub events: Seq<EventView>,
}

impl View for Block {
    type V = BlockView;

    open spec fn view(&self) -> BlockView {
        BlockView {
            id: self.id,
            title: self.title@,
            description: self.description@,
            nodes: action_views(self.actions@),
            events: event_views(self.events@),
        }
    }
}

/// The names of the actions, in order.
pub fn names_of(actions: &Vec<Action>) -> (r: Vec<ID>)
    ensures
        texts(r@) == names(action_views(actions@)),
{
    let mut r: Vec<ID> = Vec::new();
    let mut i: usize = 0;
    while i < actions.len()
        invariant
            i <= actions.len(),
            r@.len() == i,
            forall|j: int| 0 <= j < i ==> r@[j]@ == actions@[j]@.info().id,
        decreases actions.len() - i,
    {
        r.push(actions[i].id());
        i += 1;
    }
    assert(texts(r@) =~= names(action_views(actions@)));
    r
}

/// The place of the first action named `id`.
pub fn locate(actions: &Vec<Action>, id: &str) -> (r: Option<usize>)
    ensures
        match r {
            Some(i) => first(action_views(actions@), id@) == Some(i as int) && i < actions.len(),
            None => first(action_views(actions@), id@) is None,
        },
{
    let mut i: usize = 0;
    while i < actions.len()
        invariant
            i <= actions.len(),
            forall|j: int| 0 <= j < i ==> (#[trigger] action_views(actions@)[j]).info().id != id@,
        decreases actions.len() - i,
    {
        if actions[i].is(id) {
            proof {
                assert(action_views(actions@)[i as int].info().id == id@);
                lemma_first(action_views(actions@), id@);
            }
            return Some(i);
        }
        i += 1;
    }
    proof {
        lemma_first(action_views(actions@), id@);
    }
    None
}

/// Tests that no two actions share a name.
pub fn unique(actions: &Vec<Action>) -> (r: Result<(), BuildError>)
    ensures
        match r {
            Ok(()) => repeated(action_views(actions@), actions@.len() as int) is None,
            Err(e) => repeated(action_views(actions@), actions@.len() as int) is Some && e@ == (
            BuildErrorView::DuplicateId {
                id: repeated(action_views(actions@), actions@.len() as int)->0,
                template: None,
            }),
        },
{
    let ghost nodes = action_views(actions@);
    let n = actions.len();
    let mut k: usize = 0;
    while k < n
        invariant
            k <= n,
            n == actions.len(),
            nodes == action_views(actions@),
            repeated(nodes, k as int) is None,
        decreases n - k,
    {
        let id = actions[k].id();
        let mut j: usize = 0;
        while j < k
            invariant
                j <= k,
                k < n,
                n == actions.len(),
                nodes == action_views(actions@),
                id@ == nodes[k as int].info().id,
                repeated(nodes, k as int) is None,
                !named_among(nodes, j as int, id@),
            decreases k - j,
        {
            if actions[j].is(id.as_str()) {
                proof {
                    assert(nodes[j as int].info().id == id@);
                    assert(named_among(nodes, k as int, id@));
                    assert(repeated(nodes, k + 1) == Some(id@));
                    lemma_repeated_stays(nodes, k + 1, n as int);
                }
                return Err(BuildError::DuplicateId { id, template: None });
            }
            j += 1;
        }
        k += 1;
    }
    Ok(())
}

/// Resolves the references of every action among the names `id_list`.
fn link_all(actions: &mut Vec<Action>, id_list: &IdSet) -> (r: Result<(), BuildError>)
    ensures
        match r {
            Ok(()) => linked_all(action_views(old(actions)@), id_list@, old(actions)@.len() as int)
                == Ok::<Seq<ActionView>, BuildErrorView>(action_views(final(actions)@)),
            Err(e) => linked_all(action_views(old(actions)@), id_list@, old(actions)@.len() as int)
                == Err::<Seq<ActionView>, BuildErrorView>(e@),
        },
{
    let ghost nodes = action_views(actions@);
    let n = actions.len();
    let mut k: usize = 0;
    while k < n
        invariant
            k <= n,
            n == actions.len(),
            n == nodes.len(),
            nodes == action_views(old(actions)@),
            linked_all(nodes, id_list@, k as int) == Ok::<Seq<ActionView>, BuildErrorView>(
                action_views(actions@),
            ),
        decreases n - k,
    {
        let ghost ns = action_views(actions@);
        match actions[k].verify(id_list) {
            Err(e) => {
                proof {
                    assert(linked_all(nodes, id_list@, k + 1) == Err::<
                        Seq<ActionView>,
                        BuildErrorView,
                    >(e@));
                    lemma_linked_all_fails(nodes, id_list@, k + 1, n as int);
                }
                return Err(e);
            },
            Ok(()) => {},
        }
        assert(action_views(actions@) =~= put(
            ns,
            k as int,
            ns[k as int].info().linked(id_list@)->Ok_0,
        ));
        k += 1;
    }
    Ok(())
}

/// An action that knows of no successor and of no dependent.
pub open spec fn forgetful(a: ActionView) -> ActionView {
    a.with_info(InfoView { successors: Seq::empty(), dependents: Seq::empty(), ..a.info() })
}

/// The graph in which no action knows of a successor or a dependent.
pub open spec fn stripped(nodes: Seq<ActionView>) -> Seq<ActionView> {
    Seq::new(nodes.len(), |m: int| forgetful(nodes[m]))
}

/// Makes every action forget the successors and dependents it knows of.
fn strip(actions: &mut Vec<Action>)
    ensures
        action_views(final(actions)@) == stripped(action_views(old(actions)@)),
{
    let ghost nodes = action_views(actions@);
    let n = actions.len();
    let mut k: usize = 0;
    while k < n
        invariant
            k <= n,
            n == actions.len(),
            n == nodes.len(),
            forall|j: int| 0 <= j < k ==> (#[trigger] actions@[j])@ == forgetful(nodes[j]),
            forall|j: int| k <= j < n ==> (#[trigger] actions@[j])@ == nodes[j],
        decreases n - k,
    {
        let info = actions[k].info_mut();
        info.successors = IdSet::new();
        info.dependents = IdSet::new();
        k += 1;
    }
    assert(action_views(actions@) =~= stripped(nodes));
}

/// Tells each of the predecessors `after` that `owner` waits for it.
fn follow(actions: &mut Vec<Action>, owner: &ID, after: &IdSet) -> (r: Result<(), BuildError>)
    ensures
        match r {
            Ok(()) => followed(action_views(old(actions)@), owner@, after@, after@.len() as int)
                == Ok::<Seq<ActionView>, BuildErrorView>(action_views(final(actions)@)),
            Err(e) => followed(action_views(old(actions)@), owner@, after@, after@.len() as int)
                == Err::<Seq<ActionView>, BuildErrorView>(e@),
        },
{
    let ghost nodes = action_views(actions@);
    let mut j: usize = 0;
    while j < after.len()
        invariant
            j <= after@.len(),
            nodes == action_views(old(actions)@),
            followed(nodes, owner@, after@, j as int) == Ok::<Seq<ActionView>, BuildErrorView>(
                action_views(actions@),
            ),
        decreases after@.len() - j,
    {
        let ghost ms = action_views(actions@);
        match locate(actions, after.get(j).as_str()) {
            None => {
                proof {
                    assert(followed(nodes, owner@, after@, j + 1) is Err);
                    lemma_followed_fails(nodes, owner@, after@, j + 1, after@.len() as int);
                }
                return Err(BuildError::UnknownAction(after.get(j).clone()));
            },
            Some(i) => {
                actions[i].add_successor(owner.clone());
                assert(action_views(actions@) =~= put(
                    ms,
                    i as int,
                    InfoView {
                        successors: with_id(ms[i as int].info().successors, owner@),
                        ..ms[i as int].info()
                    },
                ));
            },
        }
        j += 1;
    }
    Ok(())
}

/// Tells the companion `with`, if there is one, that `owner` depends on it.
fn accompany(actions: &mut Vec<Action>, owner: ID, with: Option<ID>) -> (r: Result<
    (),
    BuildError,
>)
    ensures
        match r {
            Ok(()) => accompanied(action_views(old(actions)@), owner@, opt_text(with)) == Ok::<
                Seq<ActionView>,
                BuildErrorView,
            >(action_views(final(actions)@)),
            Err(e) => accompanied(action_views(old(actions)@), owner@, opt_text(with)) == Err::<
                Seq<ActionView>,
                BuildErrorView,
            >(e@),
        },
{
    let ghost ms = action_views(actions@);
    match with {
        None => Ok(()),
        Some(w) => match locate(actions, w.as_str()) {
            None => Err(BuildError::UnknownAction(w)),
            Some(i) => {
                actions[i].add_dependent(owner);
                assert(action_views(actions@) =~= put(
                    ms,
                    i as int,
                    InfoView {
                        dependents: with_id(ms[i as int].info().dependents, owner@),
                        ..ms[i as int].info()
                    },
                ));
                Ok(())
            },
        },
    }
}

/// Tells the predecessors and the companion of every action who names them.
fn index_all(actions: &mut Vec<Action>) -> (r: Result<(), BuildError>)
    ensures
        match r {
            Ok(()) => indexed(action_views(old(actions)@), old(actions)@.len() as int) == Ok::<
                Seq<ActionView>,
                BuildErrorView,
            >(action_views(final(actions)@)),
            Err(e) => indexed(action_views(old(actions)@), old(actions)@.len() as int) == Err::<
                Seq<ActionView>,
                BuildErrorView,
            >(e@),
        },
{
    let ghost nodes = action_views(actions@);
    let n = actions.len();
    let mut k: usize = 0;
    while k < n
        invariant
            k <= n,
            n == nodes.len(),
            n == actions.len(),
            nodes == action_views(old(actions)@),
            indexed(nodes, k as int) == Ok::<Seq<ActionView>, BuildErrorView>(
                action_views(actions@),
            ),
        decreases n - k,
    {
        let ghost ns = action_views(actions@);
        let owner = actions[k].id();
        let after = actions[k].after();
        let with = actions[k].with();
        assert(ns[k as int].info().id == owner@);
        assert(ns[k as int].info().pending() == after@);
        assert(ns[k as int].info().with == opt_text(with));
        match follow(actions, &owner, &after) {
            Err(e) => {
                proof {
                    assert(indexed(nodes, k + 1) == Err::<Seq<ActionView>, BuildErrorView>(e@));
                    lemma_indexed_fails(nodes, k + 1, n as int);
                }
                return Err(e);
            },
            Ok(()) => {},
        }
        proof {
            lemma_followed_len(ns, owner@, after@, after@.len() as int);
            assert(action_views(actions@).len() == n);
        }
        let ghost linked = action_views(actions@);
        match accompany(actions, owner, with) {
            Err(e) => {
                proof {
                    assert(indexed(nodes, k + 1) == Err::<Seq<ActionView>, BuildErrorView>(e@));
                    lemma_indexed_fails(nodes, k + 1, n as int);
                }
                return Err(e);
            },
            Ok(()) => {},
        }
        proof {
            if opt_text(with) is Some {
                lemma_first(linked, opt_text(with)->0);
            }
            assert(action_views(actions@).len() == n);
        }
        k += 1;
    }
    Ok(())
}

/// Whether `x` names an action that stands before place `j` and knows the action in place
/// `j` as a successor.
pub open spec fn heeded(nodes: Seq<ActionView>, j: int, x: Seq<char>) -> bool {
    first(nodes, x) is Some && first(nodes, x)->0 < j && nodes[first(
        nodes,
        x,
    )->0].info().successors.contains(nodes[j].info().id)
}

/// Whether the action named `s`, if there is one, waits for the action in place `i`.
pub open spec fn awaits(nodes: Seq<ActionView>, i: int, s: Seq<char>) -> bool {
    match first(nodes, s) {
        Some(j) => nodes[j].info().pending().contains(nodes[i].info().id),
        None => true,
    }
}

/// Whether the companion of the action in place `j`, if it names one, is an action that
/// knows it as a dependent, and stands before it if the action waits for nothing else.
pub open spec fn escorted(nodes: Seq<ActionView>, j: int) -> bool {
    match nodes[j].info().with {
        Some(w) => first(nodes, w) is Some && nodes[first(
            nodes,
            w,
        )->0].info().dependents.contains(nodes[j].info().id) && (nodes[j].info().after is None
            ==> first(nodes, w)->0 < j),
        None => true,
    }
}

/// Whether the action in place `j` has something to wait for: every action but the entry
/// gate has to.
pub open spec fn moored(nodes: Seq<ActionView>, j: int) -> bool {
    let info = nodes[j].info();
    info.id == "entry"@ || info.pending().len() > 0 || (info.after is None && info.with is Some)
}

/// Whether the action in place `j` is in order: what it waits for are actions before it
/// that know it as a successor; its successors wait for it; its companion is in order; and
/// it has something to wait for.
pub open spec fn runnable_at(nodes: Seq<ActionView>, j: int) -> bool {
    let info = nodes[j].info();
    &&& forall|m: int|
        0 <= m < info.pending().len() ==> heeded(nodes, j, #[trigger] info.pending()[m])
    &&& forall|m: int|
        0 <= m < info.successors.len() ==> awaits(nodes, j, #[trigger] info.successors[m])
    &&& escorted(nodes, j)
    &&& moored(nodes, j)
}

/// Whether the graph is fit to run: no two actions share a name, and every action is in
/// order. Since every action then waits only for actions before it, no circle of waiting
/// can arise.
pub open spec fn runnable(nodes: Seq<ActionView>) -> bool {
    distinct(nodes) && forall|j: int| 0 <= j < nodes.len() ==> #[trigger] runnable_at(nodes, j)
}

/// A repeated name is borne by two actions.
pub proof fn lemma_repeated_twice(nodes: Seq<ActionView>, k: int)
    requires
        0 <= k <= nodes.len(),
        repeated(nodes, k) is Some,
    ensures
        !distinct(nodes),
    decreases k,
{
    if k > 0 {
        match repeated(nodes, k - 1) {
            Some(_) => {
                lemma_repeated_twice(nodes, k - 1);
            },
            None => {
                let id = nodes[k - 1].info().id;
                assert(named_among(nodes, k - 1, id));
                let j = choose|j: int|
                    0 <= j < k - 1 && j < nodes.len() && (#[trigger] nodes[j]).info().id == id;
                assert(nodes[j].info().id == nodes[k - 1].info().id);
            },
        }
    }
}

/// Tests whether the action in place `j` is in order.
pub fn in_order(actions: &Vec<Action>, j: usize) -> (r: bool)
    requires
        j < actions.len(),
    ensures
        r == runnable_at(action_views(actions@), j as int),
{
    let ghost nodes = action_views(actions@);
    let info = actions[j].info();
    assert(info@ == nodes[j as int].info());
    let pending = actions[j].after();
    let mut m: usize = 0;
    while m < pending.len()
        invariant
            m <= pending@.len(),
            j < actions.len(),
            nodes == action_views(actions@),
            pending@ == nodes[j as int].info().pending(),
            forall|n: int| 0 <= n < m ==> heeded(nodes, j as int, #[trigger] pending@[n]),
        decreases pending@.len() - m,
    {
        let x = pending.get(m);
        let found = match locate(actions, x.as_str()) {
            Some(i) => i < j && actions[i].successors().contains(actions[j].info().id.as_str()),
            None => false,
        };
        if !found {
            assert(!heeded(nodes, j as int, pending@[m as int]));
            return false;
        }
        m += 1;
    }
    let succs = actions[j].successors();
    m = 0;
    while m < succs.len()
        invariant
            m <= succs@.len(),
            j < actions.len(),
            nodes == action_views(actions@),
            succs@ == nodes[j as int].info().successors,
            forall|n: int| 0 <= n < m ==> awaits(nodes, j as int, #[trigger] succs@[n]),
            forall|n: int|
                0 <= n < nodes[j as int].info().pending().len() ==> heeded(
                    nodes,
                    j as int,
                    #[trigger] nodes[j as int].info().pending()[n],
                ),
        decreases succs@.len() - m,
    {
        let s = succs.get(m);
        let waited = match locate(actions, s.as_str()) {
            Some(k) => match &actions[k].info().after {
                Some(ids) => ids.contains(actions[j].info().id.as_str()),
                None => false,
            },
            None => true,
        };
        if !waited {
            assert(!awaits(nodes, j as int, succs@[m as int]));
            return false;
        }
        m += 1;
    }
    let escorted = match &info.with {
        Some(w) => match locate(actions, w.as_str()) {
            Some(i) => actions[i].dependents().contains(info.id.as_str()) && (info.after.is_some()
                || i < j),
            None => false,
        },
        None => true,
    };
    let moored = crate::text::same(info.id.as_str(), "entry") || match &info.after {
        Some(ids) => !ids.is_empty(),
        None => info.with.is_some(),
    };
    escorted && moored
}

impl Block {
    /// A block of the declared actions `actions`, still to be made ready by `init`.
    pub fn new(title: String, description: String, actions: Vec<Action>) -> (r: Block)
        ensures
            r@ == (BlockView {
                id: 0,
                title: title@,
                description: description@,
                nodes: action_views(actions@),
                events: Seq::empty(),
            }),
    {
        let r = Block { id: 0, title, description, actions, events: Vec::new() };
        assert(r@.events =~= Seq::empty());
        r
    }

    /// Turns the declared actions into the graph that the block runs, and gives the block
    /// its number. What the declared actions say of successors and dependents counts for
    /// nothing: both are worked out. On an error the block stays as it was.
    pub fn init(&mut self, id: usize) -> (r: Result<(), BuildError>)
        ensures
            match r {
                Ok(()) => built(old(self)@.nodes) == Ok::<Seq<ActionView>, BuildErrorView>(
                    final(self)@.nodes,
                ) && final(self)@ == (BlockView { id, nodes: final(self)@.nodes, ..old(self)@ })
                    && distinct(final(self)@.nodes),
                Err(e) => built(old(self)@.nodes) == Err::<Seq<ActionView>, BuildErrorView>(e@)
                    && final(self)@ == old(self)@,
            },
    {
        let mut work = crate::action::clone_actions(&self.actions);
        match init_list(&mut work, 0, &None) {
            Err(e) => {
                return Err(e);
            },
            Ok(()) => {},
        }
        let mut flat = flatten(work);
        let _ = add_gates(&mut flat, Some(IdSet::new()), None);
        match unique(&flat) {
            Err(e) => {
                return Err(e);
            },
            Ok(()) => {},
        }
        let ghost walled = action_views(flat@);
        let id_list = IdSet::from_vec(&names_of(&flat));
        match link_all(&mut flat, &id_list) {
            Err(e) => {
                return Err(e);
            },
            Ok(()) => {},
        }
        proof {
            lemma_linked_all_len(walled, id_list@, walled.len() as int);
        }
        strip(&mut flat);
        match index_all(&mut flat) {
            Err(e) => {
                return Err(e);
            },
            Ok(()) => {},
        }
        proof {
            lemma_built_distinct(old(self)@.nodes);
        }
        self.actions = flat;
        self.id = id;
        Ok(())
    }

    pub fn id(&self) -> (r: usize)
        ensures
            r == self@.id,
    {
        self.id
    }

    pub fn title(&self) -> (r: String)
        ensures
            r@ == self@.title,
    {
        self.title.clone()
    }

    /// The names of the block's actions, in order.
    pub fn actions(&self) -> (r: Vec<ID>)
        ensures
            texts(r@) == names(self@.nodes),
    {
        names_of(&self.actions)
    }

    /// Tests whether the graph is fit to run: no two actions share a name, every action
    /// waits only for actions before it, the actions know who waits for them and who
    /// depends on them, and every action but the entry gate has something to wait for.
    pub fn runnable(&self) -> (r: bool)
        ensures
            r == runnable(self@.nodes),
    {
        let ghost nodes = self@.nodes;
        match unique(&self.actions) {
            Err(_) => {
                proof {
                    lemma_repeated_twice(nodes, nodes.len() as int);
                }
                return false;
            },
            Ok(()) => {
                proof {
                    lemma_repeated(nodes, nodes.len() as int);
                }
            },
        }
        let mut j: usize = 0;
        while j < self.actions.len()
            invariant
                j <= self.actions.len(),
                nodes == action_views(self.actions@),
                distinct(nodes),
                forall|n: int| 0 <= n < j ==> #[trigger] runnable_at(nodes, n),
            decreases self.actions.len() - j,
        {
            if !in_order(&self.actions, j) {
                return false;
            }
            j += 1;
        }
        true
    }

    /// The place of the action named `id`.
    pub fn position(&self, id: &str) -> (r: Option<usize>)
        ensures
            match r {
                Some(i) => first(self@.nodes, id@) == Some(i as int) && i < self.actions.len(),
                None => first(self@.nodes, id@) is None,
            },
    {
        locate(&self.actions, id)
    }

    /// The action named `id`.
    pub fn action(&self, id: &ID) -> (r: Result<&Action, BuildError>)
        ensures
            match r {
                Ok(a) => first(self@.nodes, id@) is Some && a@ == self@.nodes[first(
                    self@.nodes,
                    id@,
                )->0],
                Err(e) => first(self@.nodes, id@) is None && e@ == BuildErrorView::UnknownAction(
                    id@,
                ),
            },
    {
        match self.position(id.as_str()) {
            Some(i) => Ok(&self.actions[i]),
            None => Err(BuildError::UnknownAction(id.clone())),
        }
    }

    /// The action named `id`, to be changed in place.
    pub fn action_mut(&mut self, id: &ID) -> (r: Result<&mut Action, BuildError>)
        ensures
            match r {
                Ok(a) => first(old(self)@.nodes, id@) is Some && *a == old(self).actions@[first(
                    old(self)@.nodes,
                    id@,
                )->0] && final(self).actions@ == old(self).actions@.update(
                    first(old(self)@.nodes, id@)->0,
                    *final(a),
                ) && final(self).id == old(self).id && final(self).title == old(self).title
                    && final(self).description == old(self).description && final(self).events
                    == old(self).events,
                Err(e) => first(old(self)@.nodes, id@) is None && e@
                    == BuildErrorView::UnknownAction(id@) && *final(self) == *old(self),
            },
    {
        match self.position(id.as_str()) {
            Some(i) => Ok(&mut self.actions[i]),
            None => Err(BuildError::UnknownAction(id.clone())),
        }
    }

    /// The names of the actions that run only while `id` does; none if no action is named so.
    pub fn dependents(&self, id: &ID) -> (r: IdSet)
        ensures
            r@ == match first(self@.nodes, id@) {
                Some(i) => self@.nodes[i].info().dependents,
                None => Seq::empty(),
            },
    {
        match self.position(id.as_str()) {
            Some(i) => self.actions[i].dependents().clone(),
            None => IdSet::new(),
        }
    }

    /// The names of the actions that wait for `id`; none if no action is named so.
    pub fn successors(&self, id: &ID) -> (r: IdSet)
        ensures
            r@ == match first(self@.nodes, id@) {
                Some(i) => self@.nodes[i].info().successors,
                None => Seq::empty(),
            },
    {
        match self.position(id.as_str()) {
            Some(i) => self.actions[i].successors().clone(),
            None => IdSet::new(),
        }
    }

    /// Whether every predecessor of `id` has finished; `None` where it never had any set, or
    /// where no action is named so.
    pub fn is_ready(&self, id: &ID) -> (r: Option<bool>)
        ensures
            r == match first(self@.nodes, id@) {
                Some(i) => self@.nodes[i].info().ready(),
                None => None,
            },
    {
        match self.position(id.as_str()) {
            Some(i) => self.actions[i].is_ready(),
            None => None,
        }
    }

    pub fn is_expired(&self, id: &ID) -> (r: Option<bool>)
        ensures
            r == match first(self@.nodes, id@) {
                Some(i) => self@.nodes[i].info().expired,
                None => None,
            },
    {
        match self.position(id.as_str()) {
            Some(i) => self.actions[i].is_expired(),
            None => None,
        }
    }

    pub fn has_view(&self, id: &ID) -> (r: bool)
        ensures
            r == match first(self@.nodes, id@) {
                Some(i) => self@.nodes[i].shows(),
                None => false,
            },
    {
        match self.position(id.as_str()) {
            Some(i) => self.actions[i].has_view(),
            None => false,
        }
    }

    pub fn has_background(&self, id: &ID) -> (r: bool)
        ensures
            r == match first(self@.nodes, id@) {
                Some(i) => self@.nodes[i].info().background is Some,
                None => false,
            },
    {
        match self.position(id.as_str()) {
            Some(i) => self.actions[i].has_background(),
            None => false,
        }
    }

    pub fn captures_keystrokes(&self, id: &ID) -> (r: bool)
        ensures
            r == match first(self@.nodes, id@) {
                Some(i) => self@.nodes[i].info().monitor_kb,
                None => false,
            },
    {
        match self.position(id.as_str()) {
            Some(i) => self.actions[i].captures_keystrokes(),
            None => false,
        }
    }

    /// Lets the end of the action `id` take effect on the graph: strikes it off the
    /// predecessors of its successors, and marks its dependents as never to run, but for
    /// those among `done`. Returns the successors that are ready now, and the dependents
    /// that were marked.
    pub fn satisfy(&mut self, id: &ID, done: &IdSet) -> (r: (IdSet, IdSet))
        ensures
            final(self)@ == old(self)@.with_nodes(settled(old(self)@.nodes, id@, done@).nodes),
            r.0@ == settled(old(self)@.nodes, id@, done@).ready,
            r.1@ == settled(old(self)@.nodes, id@, done@).expired,
    {
        let ghost nodes = self@.nodes;
        let succs = self.successors(id);
        let deps = self.dependents(id);
        let mut ready = IdSet::new();
        let mut k: usize = 0;
        while k < succs.len()
            invariant
                k <= succs@.len(),
                self@ == old(self)@.with_nodes(self@.nodes),
                (self@.nodes, ready@) == released(nodes, id@, succs@, k as int),
            decreases succs@.len() - k,
        {
            let s = succs.get(k);
            let ghost ns = self@.nodes;
            match self.position(s.as_str()) {
                Some(i) => {
                    let now = self.actions[i].satisfy(id);
                    assert(self@.nodes =~= put(ns, i as int, ns[i as int].info().satisfied(id@)));
                    if now {
                        ready.insert(s.clone());
                    }
                },
                None => {},
            }
            k += 1;
        }
        let ghost n1 = self@.nodes;
        let mut expired = IdSet::new();
        k = 0;
        while k < deps.len()
            invariant
                k <= deps@.len(),
                self@ == old(self)@.with_nodes(self@.nodes),
                (self@.nodes, expired@) == lapsed(n1, deps@, done@, k as int),
            decreases deps@.len() - k,
        {
            let d = deps.get(k);
            let ghost ns = self@.nodes;
            if !done.contains(d.as_str()) {
                match self.position(d.as_str()) {
                    Some(i) => {
                        self.actions[i].expire();
                        assert(self@.nodes =~= put(
                            ns,
                            i as int,
                            InfoView { expired: Some(true), ..ns[i as int].info() },
                        ));
                        expired.insert(d.clone());
                    },
                    None => {},
                }
            }
            k += 1;
        }
        (ready, expired)
    }

    /// Records that the action `id` was brought to its end, and lets that take effect on
    /// the graph as `satisfy` does.
    pub fn wrap(&mut self, id: &ID, done: &IdSet) -> (r: (IdSet, IdSet))
        ensures
            final(self)@ == old(self)@.noted(EventKind::Wrap, id@).with_nodes(
                settled(old(self)@.nodes, id@, done@).nodes,
            ),
            r.0@ == settled(old(self)@.nodes, id@, done@).ready,
            r.1@ == settled(old(self)@.nodes, id@, done@).expired,
    {
        self.record(EventKind::Wrap, id);
        self.satisfy(id, done)
    }

    /// Records that the action `id` was passed over, and lets that take effect on the graph
    /// as `satisfy` does.
    pub fn skip(&mut self, id: &ID, done: &IdSet) -> (r: (IdSet, IdSet))
        ensures
            final(self)@ == old(self)@.noted(EventKind::Skip, id@).with_nodes(
                settled(old(self)@.nodes, id@, done@).nodes,
            ),
            r.0@ == settled(old(self)@.nodes, id@, done@).ready,
            r.1@ == settled(old(self)@.nodes, id@, done@).expired,
    {
        self.record(EventKind::Skip, id);
        self.satisfy(id, done)
    }

    /// Records that the action `id` starts, and says what has to be set going for it:
    /// nothing if no action is named so.
    pub fn execute(&mut self, id: &ID) -> (r: Vec<Job>)
        ensures
            final(self)@ == old(self)@.noted(EventKind::Start, id@),
            job_views(r@) == match first(old(self)@.nodes, id@) {
                Some(i) => old(self)@.nodes[i].jobs(),
                None => Seq::empty(),
            },
    {
        self.record(EventKind::Start, id);
        match self.position(id.as_str()) {
            Some(i) => self.actions[i].run(),
            None => {
                let r: Vec<Job> = Vec::new();
                assert(job_views(r@) =~= Seq::empty());
                r
            },
        }
    }

    /// Hands a message to the action `id`; an action that does not exist rejects it.
    pub fn update(&mut self, id: &ID, message: Message) -> (r: Reply)
        ensures
            match first(old(self)@.nodes, id@) {
                Some(i) => final(self)@ == old(self)@.with_nodes(
                    old(self)@.nodes.update(i, old(self)@.nodes[i].updated(message@).0),
                ) && r == old(self)@.nodes[i].updated(message@).1,
                None => final(self)@ == old(self)@ && r == Reply::Rejected,
            },
    {
        match self.position(id.as_str()) {
            Some(i) => {
                let r = self.actions[i].update(message);
                assert(self@.nodes =~= old(self)@.nodes.update(
                    i as int,
                    old(self)@.nodes[i as int].updated(message@).0,
                ));
                r
            },
            None => Reply::Rejected,
        }
    }

    /// What the action `id` leaves behind when it is wrapped; nothing if no action is
    /// named so.
    pub fn artifacts(&self, id: &ID) -> (r: Vec<Artifact>)
        ensures
            artifact_views(r@) == match first(self@.nodes, id@) {
                Some(i) => self@.nodes[i].leftovers(),
                None => Seq::empty(),
            },
    {
        match self.position(id.as_str()) {
            Some(i) => self.actions[i].wrap(),
            None => {
                let r: Vec<Artifact> = Vec::new();
                assert(artifact_views(r@) =~= Seq::empty());
                r
            },
        }
    }

    /// Hands the record out, to be written, and empties it.
    pub fn finish(&mut self) -> (r: Vec<Event>)
        ensures
            final(self)@ == (BlockView { events: Seq::empty(), ..old(self)@ }),
            r@ == old(self).events@,
    {
        let mut events: Vec<Event> = Vec::new();
        core::mem::swap(&mut self.events, &mut events);
        assert(event_views(self.events@) =~= Seq::empty());
        events
    }

    /// Adds an event to the record, with the present moment: the entries before it stay as
    /// they are, and the new one bears a moment that the clock gave.
    pub fn record(&mut self, kind: EventKind, id: &ID)
        ensures
            final(self)@ == old(self)@.noted(kind, id@),
            final(self).events@.len() == old(self).events@.len() + 1,
            final(self).events@.take(old(self).events@.len() as int) == old(self).events@,
            exists|moment: Seq<char>, millis: nat|
                final(self).events@.last().stamp@ == crate::util::stamp_text(moment, millis),
    {
        let event = Event { stamp: timestamp(), kind, id: id.clone() };
        self.events.push(event);
        assert(event_views(self.events@) =~= old(self)@.events.push(EventView { kind, id: id@ }));
        assert(self.events@.take(old(self).events@.len() as int) =~= old(self).events@);
    }
}

} // verus!
