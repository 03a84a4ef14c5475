use crate::action::flow::{add_gates, gated};
use crate::action::{
    action_views, clone_text, opt_ids, opt_text, Action, ActionView, Info, InfoView,
    QuestionView, ID, MAX_DEPTH,
};
use crate::error::{BuildError, BuildErrorView};
use crate::idset::{union_ids, IdSet};
use crate::text::{
    all_digits, all_id_chars, contains, decimal, decimal_text, is_digit, is_id_char, occurs,
    replace, replaced, same, scoped, scoped_name,
};
use vstd::prelude::*;

verus! {

/// The mark that stands in a template's document for the value of the parameter `key`.
pub open spec fn placeholder(key: Seq<char>) -> Seq<char> {
    "{{"@ + key + "}}"@
}

/// The document `content` with the marks of the first `k` parameters replaced by their
/// values, one parameter after the other; or the first parameter whose mark the document,
/// as it stands by then, does not hold. `source` names the document.
pub open spec fn substituted(
    content: Seq<char>,
    params: Seq<(Seq<char>, Seq<char>)>,
    k: int,
    source: Seq<char>,
) -> Result<Seq<char>, BuildErrorView>
    decreases k,
{
    if k <= 0 || k > params.len() {
        Ok(content)
    } else {
        match substituted(content, params, k - 1, source) {
            Err(e) => Err(e),
            Ok(text) => {
                let mark = placeholder(params[k - 1].0);
                if occurs(text, mark) {
                    Ok(replaced(text, mark, params[k - 1].1))
                } else {
                    Err(BuildErrorView::UnknownParameter { key: mark, source })
                }
            },
        }
    }
}

/// The document `content` with every parameter filled in; or the reason why it cannot be: a
/// parameter that the document does not mention, or a mark that is left over.
pub open spec fn filled(content: Seq<char>, params: Seq<(Seq<char>, Seq<char>)>, source: Seq<char>) -> Result<
    Seq<char>,
    BuildErrorView,
> {
    match substituted(content, params, params.len() as int, source) {
        Err(e) => Err(e),
        Ok(text) => if occurs(text, "{{"@) {
            Err(BuildErrorView::UnresolvedParameter)
        } else {
            Ok(text)
        },
    }
}

/// A failure among the first `k` parameters is the failure of them all.
pub proof fn lemma_substituted_fails(
    content: Seq<char>,
    params: Seq<(Seq<char>, Seq<char>)>,
    k: int,
    n: int,
    source: Seq<char>,
)
    requires
        0 <= k <= n <= params.len(),
        substituted(content, params, k, source) is Err,
    ensures
        substituted(content, params, n, source) == substituted(content, params, k, source),
    decreases n - k,
{
    if k < n {
        lemma_substituted_fails(content, params, k, n - 1, source);
    }
}

/// Fills the parameters of a template into its document. `source` names the document.
pub fn substitute(content: &str, params: &Vec<(String, String)>, source: &str) -> (r: Result<
    String,
    BuildError,
>)
    ensures
        match r {
            Ok(text) => filled(content@, crate::action::pair_views(params@), source@) == Ok::<
                Seq<char>,
                BuildErrorView,
            >(text@),
            Err(e) => filled(content@, crate::action::pair_views(params@), source@) == Err::<
                Seq<char>,
                BuildErrorView,
            >(e@),
        },
{
    let ghost pairs = crate::action::pair_views(params@);
    let mut text = String::from_str(content);
    let mut k: usize = 0;
    while k < params.len()
        invariant
            k <= params.len(),
            pairs == crate::action::pair_views(params@),
            substituted(content@, pairs, k as int, source@) == Ok::<Seq<char>, BuildErrorView>(
                text@,
            ),
        decreases params.len() - k,
    {
        let mut mark = String::from_str("{{");
        mark.append(params[k].0.as_str());
        mark.append("}}");
        assert(mark@ == placeholder(pairs[k as int].0));
        if !contains(text.as_str(), mark.as_str()) {
            proof {
                assert(substituted(content@, pairs, k + 1, source@) is Err);
                lemma_substituted_fails(content@, pairs, k + 1, params.len() as int, source@);
            }
            return Err(BuildError::UnknownParameter { key: mark, source: String::from_str(source) });
        }
        text = replace(text.as_str(), mark.as_str(), params[k].1.as_str());
        k += 1;
    }
    if contains(text.as_str(), "{{") {
        Err(BuildError::UnresolvedParameter)
    } else {
        Ok(text)
    }
}

/// What is wrong with a declared identifier, if anything. The empty identifier stands for
/// "none declared" and is in order.
pub open spec fn id_fault(id: Seq<char>) -> Option<BuildErrorView> {
    if id.len() == 0 {
        None
    } else if exists|i: int| 0 <= i < id.len() && !is_id_char(#[trigger] id[i]) {
        Some(BuildErrorView::IllegalId)
    } else if forall|i: int| 0 <= i < id.len() ==> is_digit(#[trigger] id[i]) {
        Some(BuildErrorView::NumericId)
    } else if id == "entry"@ || id == "exit"@ {
        Some(BuildErrorView::ReservedId)
    } else {
        None
    }
}

/// The names `ids` as seen from outside the scope `scope`.
pub open spec fn scoped_ids(scope: Seq<char>, ids: Seq<Seq<char>>) -> Seq<Seq<char>> {
    union_ids(Seq::empty(), Seq::new(ids.len(), |i: int| scoped_name(scope, ids[i])))
}

impl QuestionView {
    /// The question before anything was answered.
    pub open spec fn started(self) -> QuestionView {
        match self {
            QuestionView::MultiChoice { prompt, options, answer } => QuestionView::MultiChoice {
                prompt,
                options,
                answer: Seq::new(options.len(), |i: int| false),
            },
            QuestionView::Slider { prompt, low, high, step, answer } => QuestionView::Slider {
                prompt,
                low,
                high,
                step,
                answer: low,
            },
            other => other,
        }
    }
}

impl InfoView {
    /// The record of the action declared at `position` of its scope, after `last`: it gets
    /// the position as its name if it declares none, waits for `last` if it declares neither
    /// predecessors nor a companion, and is never to run if it is to end at once.
    pub open spec fn enrolled(self, position: nat, last: Option<Seq<char>>) -> InfoView {
        InfoView {
            id: if self.id.len() == 0 {
                decimal_text(position)
            } else {
                self.id
            },
            after: if self.after is None && self.with is None {
                Some(
                    match last {
                        Some(l) => seq![l],
                        None => Seq::empty(),
                    },
                )
            } else {
                self.after
            },
            expired: if self.timeout == Some(0u16) {
                Some(true)
            } else {
                self.expired
            },
            ..self
        }
    }

    /// The record as seen from outside the template `scope`: its name and its references
    /// carry the scope, and where it waits for nothing inside, it waits for what the
    /// template waits for.
    pub open spec fn scoped_in(self, scope: Seq<char>, outer: Option<Seq<Seq<char>>>) -> InfoView {
        InfoView {
            id: scoped_name(scope, self.id),
            after: match self.after {
                Some(ids) => Some(
                    if ids.len() == 0 {
                        match outer {
                            Some(o) => union_ids(Seq::empty(), o),
                            None => Seq::empty(),
                        }
                    } else {
                        scoped_ids(scope, ids)
                    },
                ),
                None => None,
            },
            with: match self.with {
                Some(w) => Some(scoped_name(scope, w)),
                None => None,
            },
            ..self
        }
    }
}

/// The list with every template replaced by the actions it stands for.
pub open spec fn flattened(list: Seq<ActionView>) -> Seq<ActionView>
    decreases list.len(),
{
    if list.len() == 0 {
        Seq::empty()
    } else {
        flattened(list.drop_last()) + inlined(list.last())
    }
}

/// The sub-graph that the template with the record `outer` stands for, given the actions
/// `inner` of its document, initialized and flattened: they carry the template's name as
/// their scope and stand between two gates named after the template.
pub open spec fn expanded(outer: InfoView, inner: Seq<ActionView>) -> Seq<ActionView> {
    let named = Seq::new(
        inner.len(),
        |i: int| inner[i].with_info(inner[i].info().scoped_in(outer.id, outer.after)),
    );
    let fenced = gated(named, outer.after, outer.with);
    let last = fenced.len() - 1;
    let entry = fenced[0].with_info(
        InfoView { id: scoped_name(outer.id, "entry"@), ..fenced[0].info() },
    );
    let exit = fenced[last].with_info(
        InfoView { id: scoped_name(outer.id, "exit"@), ..fenced[last].info() },
    );
    fenced.update(0, entry).update(last, exit)
}

impl ActionView {
    /// The action declared at `position` of its scope, after `last`, at nesting depth
    /// `depth`, made ready for the graph; or the reason why it cannot be.
    pub open spec fn initialized(self, position: nat, last: Option<Seq<char>>, depth: nat) -> Result<
        ActionView,
        BuildErrorView,
    >
        decreases MAX_DEPTH + 1 - depth, 0nat, 0nat,
    {
        if depth > MAX_DEPTH {
            Err(BuildErrorView::TemplateTooDeep)
        } else if id_fault(self.info().id) is Some {
            Err(id_fault(self.info().id)->0)
        } else {
            let info = self.info().enrolled(position, last);
            match self {
                ActionView::Nothing { .. } => Ok(
                    ActionView::Nothing {
                        info: InfoView {
                            timeout: if info.timeout is None {
                                Some(0u16)
                            } else {
                                info.timeout
                            },
                            ..info
                        },
                    },
                ),
                ActionView::Question { list, .. } => Ok(
                    ActionView::Question {
                        list: Seq::new(list.len(), |i: int| list[i].started()),
                        info,
                    },
                ),
                ActionView::Template { source, params, actions, .. } => {
                    match initialized_list(actions, depth + 1, actions.len(), Some(source)) {
                        Err(e) => Err(e),
                        Ok(inner) => Ok(
                            ActionView::Template {
                                source,
                                params,
                                info,
                                actions: expanded(info, flattened(inner)),
                            },
                        ),
                    }
                },
                other => Ok(other.with_info(info)),
            }
        }
    }
}

/// Whether one of the first `k` actions of `list` goes by the name `id`.
pub open spec fn named_among(list: Seq<ActionView>, k: int, id: Seq<char>) -> bool {
    exists|j: int| 0 <= j < k && j < list.len() && (#[trigger] list[j]).info().id == id
}

/// The first `k` actions of the scope `list`, each made ready for the graph in turn, or the
/// first reason why one cannot be. Each waits for the one before it unless it says otherwise,
/// and no two may share a name; `template` names the document of the scope, if it has one.
pub open spec fn initialized_list(
    list: Seq<ActionView>,
    depth: nat,
    k: nat,
    template: Option<Seq<char>>,
) -> Result<Seq<ActionView>, BuildErrorView>
    decreases MAX_DEPTH + 1 - depth, 1nat, k,
{
    if k == 0 || k > list.len() {
        Ok(Seq::empty())
    } else {
        match initialized_list(list, depth, (k - 1) as nat, template) {
            Err(e) => Err(e),
            Ok(front) => {
                let last = if front.len() == 0 {
                    None
                } else {
                    Some(front.last().info().id)
                };
                match list[k - 1].initialized(k, last, depth) {
                    Err(e) => Err(e),
                    Ok(a) => if named_among(front, front.len() as int, a.info().id) {
                        Err(BuildErrorView::DuplicateId { id: a.info().id, template })
                    } else {
                        Ok(front.push(a))
                    },
                }
            },
        }
    }
}

/// Tests a declared identifier.
pub fn check_id(id: &str) -> (r: Result<(), BuildError>)
    ensures
        match r {
            Ok(()) => id_fault(id@) is None,
            Err(e) => id_fault(id@) == Some(e@),
        },
{
    if id.unicode_len() == 0 {
        Ok(())
    } else if !all_id_chars(id) {
        Err(BuildError::IllegalId)
    } else if all_digits(id) {
        Err(BuildError::NumericId)
    } else if same(id, "entry") || same(id, "exit") {
        Err(BuildError::ReservedId)
    } else {
        Ok(())
    }
}

/// Gives the record its place in its scope.
pub fn enroll(info: &mut Info, position: usize, last: &Option<ID>)
    ensures
        final(info)@ == old(info)@.enrolled(position as nat, opt_text(*last)),
{
    if info.id.as_str().unicode_len() == 0 {
        info.id = decimal(position);
    }
    if info.after.is_none() && info.with.is_none() {
        let mut ids = IdSet::new();
        if let Some(l) = last {
            ids.insert(l.clone());
            assert(ids@ =~= seq![l@]);
        }
        info.after = Some(ids);
    }
    if let Some(t) = info.timeout {
        if t == 0 {
            info.expired = Some(true);
        }
    }
}

/// What an action contributes to a flattened list: a template the actions it stands for, any
/// other action itself.
pub open spec fn inlined(a: ActionView) -> Seq<ActionView> {
    match a {
        ActionView::Template { actions, .. } => actions,
        other => seq![other],
    }
}

fn inline(a: Action) -> (r: Vec<Action>)
    ensures
        action_views(r@) == inlined(a@),
{
    let ghost whole = a@;
    proof {
        if a is Template {
            crate::action::lemma_template_view(a);
        }
    }
    match a {
        Action::Template { actions, .. } => actions,
        other => {
            let mut r: Vec<Action> = Vec::new();
            r.push(other);
            assert(action_views(r@) =~= seq![whole]);
            r
        },
    }
}

/// Replaces every template of the list by the actions it stands for.
pub fn flatten(actions: Vec<Action>) -> (r: Vec<Action>)
    ensures
        action_views(r@) == flattened(action_views(actions@)),
{
    let ghost nodes = action_views(actions@);
    let mut out: Vec<Action> = Vec::new();
    for a in it: actions
        invariant
            it.seq() == actions@,
            nodes == action_views(actions@),
            action_views(out@) == flattened(nodes.take(it.index())),
    {
        proof {
            assert(nodes.take(it.index() + 1).drop_last() =~= nodes.take(it.index()));
            assert(nodes.take(it.index() + 1).last() == a@);
        }
        let ghost before = action_views(out@);
        let mut piece = inline(a);
        let ghost added = action_views(piece@);
        out.append(&mut piece);
        assert(action_views(out@) =~= before + added);
    }
    proof {
        assert(nodes.take(nodes.len() as int) =~= nodes);
    }
    out
}

/// The names of `ids`, each with the scope in front.
pub fn scope_ids(scope: &str, ids: &IdSet) -> (r: IdSet)
    ensures
        r@ == scoped_ids(scope@, ids@),
{
    let ghost named = Seq::new(ids@.len(), |i: int| scoped_name(scope@, ids@[i]));
    let mut r = IdSet::new();
    let mut i: usize = 0;
    while i < ids.len()
        invariant
            i <= ids@.len(),
            named == Seq::new(ids@.len(), |i: int| scoped_name(scope@, ids@[i])),
            r@ == union_ids(Seq::empty(), named.take(i as int)),
        decreases ids@.len() - i,
    {
        proof {
            assert(named.take(i + 1).drop_last() =~= named.take(i as int));
            assert(named.take(i + 1).last() == scoped_name(scope@, ids@[i as int]));
        }
        r.insert(scoped(scope, ids.get(i).as_str()));
        i += 1;
    }
    proof {
        assert(named.take(named.len() as int) =~= named);
    }
    r
}

/// Moves the record into the scope of the template `scope`, which waits for `outer`.
pub fn scope_info(info: &mut Info, scope: &str, outer: &Option<IdSet>)
    ensures
        final(info)@ == old(info)@.scoped_in(scope@, opt_ids(*outer)),
{
    info.id = scoped(scope, info.id.as_str());
    if let Some(ids) = &info.after {
        if ids.is_empty() {
            let mut fresh = IdSet::new();
            if let Some(o) = outer {
                fresh.extend(o);
            }
            info.after = Some(fresh);
        } else {
            info.after = Some(scope_ids(scope, ids));
        }
    }
    if let Some(w) = &info.with {
        info.with = Some(scoped(scope, w.as_str()));
    }
}

/// Builds the sub-graph that the template with the record `outer` stands for, from the
/// actions of its document, initialized and flattened.
pub fn expand(outer: &Info, inner: Vec<Action>) -> (r: Vec<Action>)
    ensures
        action_views(r@) == expanded(outer@, action_views(inner@)),
{
    let ghost nodes = action_views(inner@);
    let mut list = inner;
    let n = list.len();
    let mut i: usize = 0;
    while i < n
        invariant
            i <= n,
            n == list.len(),
            n == nodes.len(),
            forall|j: int|
                0 <= j < i ==> (#[trigger] list@[j])@ == nodes[j].with_info(
                    nodes[j].info().scoped_in(outer@.id, outer@.after),
                ),
            forall|j: int| i <= j < n ==> (#[trigger] list@[j])@ == nodes[j],
        decreases n - i,
    {
        let info = list[i].info_mut();
        scope_info(info, outer.id.as_str(), &outer.after);
        i += 1;
    }
    let ghost named = action_views(list@);
    assert(named =~= Seq::new(
        nodes.len(),
        |i: int| nodes[i].with_info(nodes[i].info().scoped_in(outer@.id, outer@.after)),
    ));
    let after = match &outer.after {
        Some(a) => Some(a.clone()),
        None => None,
    };
    let _ = add_gates(&mut list, after, clone_text(&outer.with));
    let ghost fenced = action_views(list@);
    assert(fenced.len() == named.len() + 2);
    let last = list.len() - 1;
    list[0].set_id(&scoped(outer.id.as_str(), "entry"));
    list[last].set_id(&scoped(outer.id.as_str(), "exit"));
    assert(action_views(list@) =~= expanded(outer@, nodes));
    list
}

/// Makes the actions of one scope ready for the graph, in their order. Each waits for the
/// one before it unless it says otherwise; no two may share a name. `template` names the
/// document of the scope, if it has one. On an error the actions stay as they were.
pub fn init_list(actions: &mut Vec<Action>, depth: u16, template: &Option<String>) -> (r: Result<
    (),
    BuildError,
>)
    ensures
        match r {
            Ok(()) => initialized_list(
                action_views(old(actions)@),
                depth as nat,
                old(actions)@.len(),
                opt_text(*template),
            ) == Ok::<Seq<ActionView>, BuildErrorView>(action_views(final(actions)@)),
            Err(e) => initialized_list(
                action_views(old(actions)@),
                depth as nat,
                old(actions)@.len(),
                opt_text(*template),
            ) == Err::<Seq<ActionView>, BuildErrorView>(e@) && action_views(final(actions)@)
                == action_views(old(actions)@),
        },
    decreases MAX_DEPTH + 1 - depth, 3nat,
{
    let mut work = crate::action::clone_actions(actions);
    match fill(&mut work, depth, template) {
        Ok(()) => {
            *actions = work;
            Ok(())
        },
        Err(e) => Err(e),
    }
}

#[verifier::loop_isolation(false)]
#[verifier::rlimit(60)]
fn fill(actions: &mut Vec<Action>, depth: u16, template: &Option<String>) -> (r: Result<
    (),
    BuildError,
>)
    ensures
        match r {
            Ok(()) => initialized_list(
                action_views(old(actions)@),
                depth as nat,
                old(actions)@.len(),
                opt_text(*template),
            ) == Ok::<Seq<ActionView>, BuildErrorView>(action_views(final(actions)@)),
            Err(e) => initialized_list(
                action_views(old(actions)@),
                depth as nat,
                old(actions)@.len(),
                opt_text(*template),
            ) == Err::<Seq<ActionView>, BuildErrorView>(e@),
        },
    decreases MAX_DEPTH + 1 - depth, 2nat,
{
    let ghost nodes = action_views(actions@);
    let n = actions.len();
    let mut last: Option<ID> = None;
    let mut i: usize = 0;
    assert(action_views(actions@).take(0) =~= Seq::empty());
    while i < n
        invariant
            i <= n,
            n == actions.len(),
            n == nodes.len(),
            initialized_list(nodes, depth as nat, i as nat, opt_text(*template)) == Ok::<
                Seq<ActionView>,
                BuildErrorView,
            >(action_views(actions@).take(i as int)),
            forall|j: int| i <= j < n ==> (#[trigger] actions@[j])@ == nodes[j],
            opt_text(last) == if i == 0 {
                None
            } else {
                Some(actions@[i - 1]@.info().id)
            },
        decreases n - i,
    {
        let ghost front = action_views(actions@).take(i as int);
        let ghost before = actions@;
        assert(front.len() == i);
        assert(i > 0 ==> front.last() == before[i - 1]@);
        match actions[i].init(i + 1, &last, depth) {
            Err(e) => {
                proof {
                    assert(initialized_list(nodes, depth as nat, (i + 1) as nat, opt_text(*template))
                        == Err::<Seq<ActionView>, BuildErrorView>(e@));
                    lemma_initialized_list_fails(
                        nodes,
                        depth as nat,
                        (i + 1) as nat,
                        opt_text(*template),
                    );
                }
                return Err(e);
            },
            Ok(()) => {},
        }
        assert(action_views(actions@).take(i as int) =~= front);
        let id = actions[i].id();
        let mut j: usize = 0;
        while j < i
            invariant
                j <= i,
                i < n,
                n == actions.len(),
                id@ == actions@[i as int]@.info().id,
                !named_among(action_views(actions@).take(i as int), j as int, id@),
            decreases i - j,
        {
            if actions[j].is(id.as_str()) {
                proof {
                    assert(front[j as int].info().id == id@);
                    assert(named_among(front, front.len() as int, id@));
                    assert(initialized_list(nodes, depth as nat, (i + 1) as nat, opt_text(*template))
                        == Err::<Seq<ActionView>, BuildErrorView>(
                        BuildErrorView::DuplicateId { id: id@, template: opt_text(*template) },
                    ));
                    lemma_initialized_list_fails(
                        nodes,
                        depth as nat,
                        (i + 1) as nat,
                        opt_text(*template),
                    );
                }
                return Err(BuildError::DuplicateId { id, template: clone_text(template) });
            }
            j += 1;
        }
        proof {
            assert(action_views(actions@).take(i + 1) =~= front.push(actions@[i as int]@));
            assert(!named_among(front, front.len() as int, id@));
            assert(initialized_list(nodes, depth as nat, (i + 1) as nat, opt_text(*template))
                == Ok::<Seq<ActionView>, BuildErrorView>(front.push(actions@[i as int]@)));
        }
        last = Some(id);
        i += 1;
    }
    proof {
        assert(action_views(actions@).take(n as int) =~= action_views(actions@));
    }
    Ok(())
}

/// A failure among the first `k` actions of a scope is the failure of the scope.
pub proof fn lemma_initialized_list_fails(
    list: Seq<ActionView>,
    depth: nat,
    k: nat,
    template: Option<Seq<char>>,
)
    requires
        k <= list.len(),
        initialized_list(list, depth, k, template) is Err,
    ensures
        initialized_list(list, depth, list.len(), template) == initialized_list(
            list,
            depth,
            k,
            template,
        ),
    decreases list.len() - k,
{
    if k < list.len() {
        assert(initialized_list(list, depth, k + 1, template) == initialized_list(
            list,
            depth,
            k,
            template,
        ));
        lemma_initialized_list_fails(list, depth, k + 1, template);
    }
}

} // verus!
