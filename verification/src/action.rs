use crate::comm::{Bits, Message, MessageView, Value, ValueView};
use crate::error::{BuildError, BuildErrorView};
use crate::idset::{texts, with_id, IdSet};
use crate::text::{scoped, scoped_name};
use vstd::prelude::*;

pub mod default;
pub mod expand;
pub mod flow;
pub mod serialize;

verus! {

/// Identifier of an action.
pub type ID = String;

/// Deepest level of template nesting that expansion accepts.
pub const MAX_DEPTH: u16 = 3;

/// The text of a string that may be absent.
pub open spec fn opt_text(t: Option<String>) -> Option<Seq<char>> {
    match t {
        Some(s) => Some(s@),
        None => None,
    }
}

/// The members of a set that may be absent.
pub open spec fn opt_ids(t: Option<IdSet>) -> Option<Seq<Seq<char>>> {
    match t {
        Some(s) => Some(s@),
        None => None,
    }
}

/// A key that went down while an action watched the keyboard, and when.
#[derive(Debug)]
pub struct Keystroke {
    pub stamp: String,
    pub key: String,
}

impl Keystroke {
    /// The line that stands for the keystroke in the written record: moment and key, two
    /// blanks between them.
    pub open spec fn line(&self) -> Seq<char> {
        self.stamp@ + "  "@ + self.key@
    }

    /// Writes the keystroke as a line of the record.
    pub fn to_line(&self) -> (r: String)
        ensures
            r@ == self.line(),
    {
        let mut r = self.stamp.clone();
        r.append("  ");
        r.append(self.key.as_str());
        r
    }
}

impl Clone for Keystroke {
    fn clone(&self) -> (r: Keystroke)
        ensures
            r.stamp@ == self.stamp@,
            r.key@ == self.key@,
    {
        Keystroke { stamp: self.stamp.clone(), key: self.key.clone() }
    }
}

/// The keys of a list of keystrokes, without their moments.
pub open spec fn keys(list: Seq<Keystroke>) -> Seq<Seq<char>> {
    Seq::new(list.len(), |i: int| list[i].key@)
}

/// The lines that stand for a list of keystrokes in the written record.
pub open spec fn key_lines(list: Seq<Keystroke>) -> Seq<Seq<char>> {
    Seq::new(list.len(), |i: int| list[i].line())
}

/// A copy of a list of keystrokes.
pub fn clone_keystrokes(v: &Vec<Keystroke>) -> (r: Vec<Keystroke>)
    ensures
        keys(r@) == keys(v@),
        key_lines(r@) == key_lines(v@),
{
    let mut r: Vec<Keystroke> = Vec::new();
    let mut i: usize = 0;
    while i < v.len()
        invariant
            i <= v.len(),
            r@.len() == i,
            forall|j: int|
                0 <= j < i ==> (#[trigger] r@[j]).key@ == v@[j].key@ && r@[j].stamp@
                    == v@[j].stamp@,
        decreases v.len() - i,
    {
        r.push(v[i].clone());
        i += 1;
    }
    assert(keys(r@) =~= keys(v@));
    assert(key_lines(r@) =~= key_lines(v@));
    r
}

/// What every kind of action carries: its name, its place in the graph and its hints.
#[derive(Debug)]
pub struct Info {
    pub id: ID,
    /// The companion: this action runs only while the companion does.
    pub with: Option<ID>,
    /// The predecessors that have not finished yet.
    pub after: Option<IdSet>,
    pub monitor_kb: bool,
    pub keystrokes: Vec<Keystroke>,
    pub background: Option<String>,
    /// Milliseconds after which the action ends by itself.
    pub timeout: Option<u16>,
    /// The actions that name this one as their companion.
    pub dependents: IdSet,
    /// The actions that name this one as a predecessor.
    pub successors: IdSet,
    pub expired: Option<bool>,
}

pub struct InfoView {
    pub id: Seq<char>,
    pub with: Option<Seq<char>>,
    pub after: Option<Seq<Seq<char>>>,
    pub monitor_kb: bool,
    pub keystrokes: Seq<Seq<char>>,
    pub background: Option<Seq<char>>,
    pub timeout: Option<u16>,
    pub dependents: Seq<Seq<char>>,
    pub successors: Seq<Seq<char>>,
    pub expired: Option<bool>,
}

impl View for Info {
    type V = InfoView;

    open spec fn view(&self) -> InfoView {
        InfoView {
            id: self.id@,
            with: opt_text(self.with),
            after: opt_ids(self.after),
            monitor_kb: self.monitor_kb,
            keystrokes: keys(self.keystrokes@),
            background: opt_text(self.background),
            timeout: self.timeout,
            dependents: self.dependents@,
            successors: self.successors@,
            expired: self.expired,
        }
    }
}

/// One entry of a questionnaire, with the answer given so far.
#[derive(Debug)]
#[allow(inconsistent_fields)]
pub enum Question {
    SingleChoice { prompt: String, options: Vec<String>, answer: Option<usize> },
    MultiChoice { prompt: String, options: Vec<String>, answer: Vec<bool> },
    ShortAnswer { prompt: String, answer: String },
    Slider { prompt: String, low: Bits, high: Bits, step: Bits, answer: Bits },
}

#[allow(inconsistent_fields)]
pub enum QuestionView {
    SingleChoice { prompt: Seq<char>, options: Seq<Seq<char>>, answer: Option<usize> },
    MultiChoice { prompt: Seq<char>, options: Seq<Seq<char>>, answer: Seq<bool> },
    ShortAnswer { prompt: Seq<char>, answer: Seq<char> },
    Slider { prompt: Seq<char>, low: Bits, high: Bits, step: Bits, answer: Bits },
}

impl View for Question {
    type V = QuestionView;

    open spec fn view(&self) -> QuestionView {
        match self {
            Question::SingleChoice { prompt, options, answer } => QuestionView::SingleChoice {
                prompt: prompt@,
                options: texts(options@),
                answer: *answer,
            },
            Question::MultiChoice { prompt, options, answer } => QuestionView::MultiChoice {
                prompt: prompt@,
                options: texts(options@),
                answer: answer@,
            },
            Question::ShortAnswer { prompt, answer } => QuestionView::ShortAnswer {
                prompt: prompt@,
                answer: answer@,
            },
            Question::Slider { prompt, low, high, step, answer } => QuestionView::Slider {
                prompt: prompt@,
                low: *low,
                high: *high,
                step: *step,
                answer: *answer,
            },
        }
    }
}

/// The views of a list of questions.
pub open spec fn question_views(list: Seq<Question>) -> Seq<QuestionView> {
    Seq::new(list.len(), |i: int| list[i]@)
}

/// The views of a list of text pairs.
pub open spec fn pair_views(list: Seq<(String, String)>) -> Seq<(Seq<char>, Seq<char>)> {
    Seq::new(list.len(), |i: int| (list[i].0@, list[i].1@))
}

/// One schedulable unit: what to present, and the record that places it in the graph.
#[derive(Debug)]
pub enum Action {
    Nothing { info: Info },
    Instruction { prompt: String, timer: u16, info: Info },
    Selection { prompt: String, options: Vec<String>, info: Info, choice: Option<usize> },
    Audio { source: String, info: Info },
    Image { source: String, info: Info },
    Question { list: Vec<Question>, info: Info },
    /// Stands for the actions of a nested document; `actions` holds that document, after its
    /// parameters were filled in, until expansion replaces it by the finished sub-graph.
    Template { source: String, params: Vec<(String, String)>, info: Info, actions: Vec<Action> },
}

pub enum ActionView {
    Nothing { info: InfoView },
    Instruction { prompt: Seq<char>, timer: u16, info: InfoView },
    Selection { prompt: Seq<char>, options: Seq<Seq<char>>, info: InfoView, choice: Option<usize> },
    Audio { source: Seq<char>, info: InfoView },
    Image { source: Seq<char>, info: InfoView },
    Question { list: Seq<QuestionView>, info: InfoView },
    Template {
        source: Seq<char>,
        params: Seq<(Seq<char>, Seq<char>)>,
        info: InfoView,
        actions: Seq<ActionView>,
    },
}

impl View for Action {
    type V = ActionView;

    open spec fn view(&self) -> ActionView
        decreases self,
    {
        match self {
            Action::Nothing { info } => ActionView::Nothing { info: info@ },
            Action::Instruction { prompt, timer, info } => ActionView::Instruction {
                prompt: prompt@,
                timer: *timer,
                info: info@,
            },
            Action::Selection { prompt, options, info, choice } => ActionView::Selection {
                prompt: prompt@,
                options: texts(options@),
                info: info@,
                choice: *choice,
            },
            Action::Audio { source, info } => ActionView::Audio { source: source@, info: info@ },
            Action::Image { source, info } => ActionView::Image { source: source@, info: info@ },
            Action::Question { list, info } => ActionView::Question {
                list: question_views(list@),
                info: info@,
            },
            Action::Template { source, params, info, actions } => ActionView::Template {
                source: source@,
                params: pair_views(params@),
                info: info@,
                actions: Seq::new(
                    actions@.len(),
                    |i: int|
                        if 0 <= i < actions@.len() {
                            actions@[i]@
                        } else {
                            arbitrary()
                        },
                ),
            },
        }
    }
}

/// The views of a list of actions.
pub open spec fn action_views(list: Seq<Action>) -> Seq<ActionView> {
    Seq::new(list.len(), |i: int| list[i]@)
}

/// The view of a template holds the views of its actions.
pub proof fn lemma_template_view(a: Action)
    requires
        a is Template,
    ensures
        a@ is Template,
        a@->Template_actions == action_views(a->Template_actions@),
{
    reveal_with_fuel(<Action as View>::view, 2);
    assert(a@->Template_actions =~= action_views(a->Template_actions@));
}

/// A failure among the first `k` references is the failure of them all.
pub proof fn lemma_resolved_all_fails(after: Seq<Seq<char>>, ids: Seq<Seq<char>>, k: int)
    requires
        0 <= k <= after.len(),
        resolved_all(after.take(k), ids) is Err,
    ensures
        resolved_all(after, ids) == resolved_all(after.take(k), ids),
    decreases after.len(),
{
    if k < after.len() {
        assert(after.drop_last().take(k) =~= after.take(k));
        lemma_resolved_all_fails(after.drop_last(), ids, k);
    } else {
        assert(after.take(k) =~= after);
    }
}

/// A copy of a list of strings.
pub fn clone_texts(v: &Vec<String>) -> (r: Vec<String>)
    ensures
        texts(r@) == texts(v@),
{
    let mut r: Vec<String> = Vec::new();
    let mut i: usize = 0;
    while i < v.len()
        invariant
            i <= v.len(),
            r@.len() == i,
            forall|j: int| 0 <= j < i ==> r@[j]@ == v@[j]@,
        decreases v.len() - i,
    {
        r.push(v[i].clone());
        i += 1;
    }
    assert(texts(r@) =~= texts(v@));
    r
}

/// A copy of a text that may be absent.
pub fn clone_text(t: &Option<String>) -> (r: Option<String>)
    ensures
        opt_text(r) == opt_text(*t),
{
    match t {
        Some(s) => Some(s.clone()),
        None => None,
    }
}

impl Info {
    /// The record of an action named `id` that declares nothing else. The empty name
    /// stands for "none declared".
    pub fn named(id: &str) -> (r: Info)
        ensures
            r@ == (InfoView {
                id: id@,
                with: None,
                after: None,
                monitor_kb: false,
                keystrokes: Seq::empty(),
                background: None,
                timeout: None,
                dependents: Seq::empty(),
                successors: Seq::empty(),
                expired: None,
            }),
    {
        let r = Info {
            id: String::from_str(id),
            with: None,
            after: None,
            monitor_kb: false,
            keystrokes: Vec::new(),
            background: None,
            timeout: None,
            dependents: IdSet::new(),
            successors: IdSet::new(),
            expired: None,
        };
        assert(r@.keystrokes =~= Seq::empty());
        r
    }
}

impl Clone for Info {
    fn clone(&self) -> (r: Info)
        ensures
            r@ == self@,
    {
        Info {
            id: self.id.clone(),
            with: clone_text(&self.with),
            after: match &self.after {
                Some(a) => Some(a.clone()),
                None => None,
            },
            monitor_kb: self.monitor_kb,
            keystrokes: clone_keystrokes(&self.keystrokes),
            background: clone_text(&self.background),
            timeout: self.timeout,
            dependents: self.dependents.clone(),
            successors: self.successors.clone(),
            expired: self.expired,
        }
    }
}

impl Clone for Question {
    fn clone(&self) -> (r: Question)
        ensures
            r@ == self@,
    {
        match self {
            Question::SingleChoice { prompt, options, answer } => Question::SingleChoice {
                prompt: prompt.clone(),
                options: clone_texts(options),
                answer: *answer,
            },
            Question::MultiChoice { prompt, options, answer } => {
                let mut marks: Vec<bool> = Vec::new();
                let mut i: usize = 0;
                while i < answer.len()
                    invariant
                        i <= answer.len(),
                        marks@ == answer@.take(i as int),
                    decreases answer.len() - i,
                {
                    marks.push(answer[i]);
                    assert(answer@.take(i + 1) =~= answer@.take(i as int).push(answer@[i as int]));
                    i += 1;
                }
                assert(answer@.take(answer@.len() as int) =~= answer@);
                Question::MultiChoice {
                    prompt: prompt.clone(),
                    options: clone_texts(options),
                    answer: marks,
                }
            },
            Question::ShortAnswer { prompt, answer } => Question::ShortAnswer {
                prompt: prompt.clone(),
                answer: answer.clone(),
            },
            Question::Slider { prompt, low, high, step, answer } => Question::Slider {
                prompt: prompt.clone(),
                low: *low,
                high: *high,
                step: *step,
                answer: *answer,
            },
        }
    }
}

/// A copy of a questionnaire.
pub fn clone_questions(v: &Vec<Question>) -> (r: Vec<Question>)
    ensures
        question_views(r@) == question_views(v@),
{
    let mut r: Vec<Question> = Vec::new();
    let mut i: usize = 0;
    while i < v.len()
        invariant
            i <= v.len(),
            r@.len() == i,
            forall|j: int| 0 <= j < i ==> r@[j]@ == v@[j]@,
        decreases v.len() - i,
    {
        r.push(v[i].clone());
        i += 1;
    }
    assert(question_views(r@) =~= question_views(v@));
    r
}

/// A copy of a list of text pairs.
pub fn clone_pairs(v: &Vec<(String, String)>) -> (r: Vec<(String, String)>)
    ensures
        pair_views(r@) == pair_views(v@),
{
    let mut r: Vec<(String, String)> = Vec::new();
    let mut i: usize = 0;
    while i < v.len()
        invariant
            i <= v.len(),
            r@.len() == i,
            forall|j: int| 0 <= j < i ==> r@[j].0@ == v@[j].0@ && r@[j].1@ == v@[j].1@,
        decreases v.len() - i,
    {
        r.push((v[i].0.clone(), v[i].1.clone()));
        i += 1;
    }
    assert(pair_views(r@) =~= pair_views(v@));
    r
}

impl Clone for Action {
    fn clone(&self) -> (r: Action)
        ensures
            r@ == self@,
        decreases self,
    {
        match self {
            Action::Nothing { info } => Action::Nothing { info: info.clone() },
            Action::Instruction { prompt, timer, info } => Action::Instruction {
                prompt: prompt.clone(),
                timer: *timer,
                info: info.clone(),
            },
            Action::Selection { prompt, options, info, choice } => Action::Selection {
                prompt: prompt.clone(),
                options: clone_texts(options),
                info: info.clone(),
                choice: *choice,
            },
            Action::Audio { source, info } => Action::Audio {
                source: source.clone(),
                info: info.clone(),
            },
            Action::Image { source, info } => Action::Image {
                source: source.clone(),
                info: info.clone(),
            },
            Action::Question { list, info } => Action::Question {
                list: clone_questions(list),
                info: info.clone(),
            },
            Action::Template { source, params, info, actions } => {
                let mut inner: Vec<Action> = Vec::new();
                let mut i: usize = 0;
                while i < actions.len()
                    invariant
                        i <= actions.len(),
                        inner@.len() == i,
                        forall|j: int| 0 <= j < i ==> inner@[j]@ == actions@[j]@,
                        self is Template,
                        self->Template_actions == *actions,
                    decreases actions.len() - i,
                {
                    proof {
                        vstd::std_specs::vec::axiom_vec_index_decreases(*actions, i as int);
                    }
                    inner.push(actions[i].clone());
                    i += 1;
                }
                let r = Action::Template {
                    source: source.clone(),
                    params: clone_pairs(params),
                    info: info.clone(),
                    actions: inner,
                };
                assert(r@->Template_actions =~= self@->Template_actions);
                r
            },
        }
    }
}

/// A copy of a list of actions.
pub fn clone_actions(v: &Vec<Action>) -> (r: Vec<Action>)
    ensures
        action_views(r@) == action_views(v@),
{
    let mut r: Vec<Action> = Vec::new();
    let mut i: usize = 0;
    while i < v.len()
        invariant
            i <= v.len(),
            r@.len() == i,
            forall|j: int| 0 <= j < i ==> r@[j]@ == v@[j]@,
        decreases v.len() - i,
    {
        r.push(v[i].clone());
        i += 1;
    }
    assert(action_views(r@) =~= action_views(v@));
    r
}

/// Where a reference to `id` leads among the names `ids`: to the action of that name, else to
/// the exit gate of the template of that name.
pub open spec fn resolved(id: Seq<char>, ids: Seq<Seq<char>>) -> Option<Seq<char>> {
    if ids.contains(id) {
        Some(id)
    } else if ids.contains(scoped_name(id, "exit"@)) {
        Some(scoped_name(id, "exit"@))
    } else {
        None
    }
}

/// The predecessors `after`, each reference resolved among `ids`; the first that leads
/// nowhere is the error.
pub open spec fn resolved_all(after: Seq<Seq<char>>, ids: Seq<Seq<char>>) -> Result<
    Seq<Seq<char>>,
    Seq<char>,
>
    decreases after.len(),
{
    if after.len() == 0 {
        Ok(Seq::empty())
    } else {
        match resolved_all(after.drop_last(), ids) {
            Err(e) => Err(e),
            Ok(front) => match resolved(after.last(), ids) {
                Some(r) => Ok(with_id(front, r)),
                None => Err(after.last()),
            },
        }
    }
}

impl InfoView {
    /// The record with its references resolved among the names `ids` of a finished graph, or
    /// the reason why they cannot be. A companion that names a template becomes the
    /// template's exit gate, and its entry gate joins the predecessors.
    pub open spec fn linked(self, ids: Seq<Seq<char>>) -> Result<InfoView, BuildErrorView> {
        if self.after is Some && self.after->0.contains(self.id) {
            Err(BuildErrorView::SelfSuccessor(self.id))
        } else if self.with == Some(self.id) {
            Err(BuildErrorView::SelfDependent(self.id))
        } else {
            match self.after {
                Some(a) => match resolved_all(a, ids) {
                    Err(id) => Err(BuildErrorView::InvalidReference(id)),
                    Ok(after) => Ok(InfoView { after: Some(after), ..self }.beside(ids)),
                },
                None => Ok(self.beside(ids)),
            }
        }
    }

    /// The record with its companion resolved among the names `ids`.
    pub open spec fn beside(self, ids: Seq<Seq<char>>) -> InfoView {
        match self.with {
            Some(w) => if ids.contains(w) {
                self
            } else {
                InfoView {
                    after: Some(with_id(self.pending(), scoped_name(w, "entry"@))),
                    with: Some(scoped_name(w, "exit"@)),
                    ..self
                }
            },
            None => self,
        }
    }

    /// Whether every predecessor has finished; `None` where no predecessors were ever set.
    pub open spec fn ready(self) -> Option<bool> {
        match self.after {
            Some(ids) => Some(ids.len() == 0),
            None => None,
        }
    }

    /// The record once the predecessor `id` has finished.
    pub open spec fn satisfied(self, id: Seq<char>) -> InfoView {
        InfoView {
            after: match self.after {
                Some(ids) => Some(crate::idset::without_id(ids, id)),
                None => None,
            },
            ..self
        }
    }

    /// The predecessors still awaited, none where none were ever set.
    pub open spec fn pending(self) -> Seq<Seq<char>> {
        match self.after {
            Some(ids) => ids,
            None => Seq::empty(),
        }
    }
}

impl ActionView {
    /// The record that the action carries, whatever its kind.
    pub open spec fn info(self) -> InfoView {
        match self {
            ActionView::Nothing { info } => info,
            ActionView::Instruction { info, .. } => info,
            ActionView::Selection { info, .. } => info,
            ActionView::Audio { info, .. } => info,
            ActionView::Image { info, .. } => info,
            ActionView::Question { info, .. } => info,
            ActionView::Template { info, .. } => info,
        }
    }

    /// Whether an action of this kind shows something in the foreground.
    pub open spec fn shows(self) -> bool {
        self is Instruction || self is Selection || self is Image || self is Question
    }

    /// The same action with another record.
    pub open spec fn with_info(self, info: InfoView) -> ActionView {
        match self {
            ActionView::Nothing { .. } => ActionView::Nothing { info },
            ActionView::Instruction { prompt, timer, .. } => ActionView::Instruction {
                prompt,
                timer,
                info,
            },
            ActionView::Selection { prompt, options, choice, .. } => ActionView::Selection {
                prompt,
                options,
                info,
                choice,
            },
            ActionView::Audio { source, .. } => ActionView::Audio { source, info },
            ActionView::Image { source, .. } => ActionView::Image { source, info },
            ActionView::Question { list, .. } => ActionView::Question { list, info },
            ActionView::Template { source, params, actions, .. } => ActionView::Template {
                source,
                params,
                info,
                actions,
            },
        }
    }
}

/// What has to be set going when an action starts.
#[derive(Debug)]
pub enum Job {
    /// End the action after so many milliseconds, whatever else it does.
    Timeout(u16),
    /// Count so many milliseconds down, then end the action; stop counting when it is wrapped.
    Countdown(u16),
    /// Play the sound of this resource to its end, then end the action.
    Play(String),
}

pub enum JobView {
    Timeout(u16),
    Countdown(u16),
    Play(Seq<char>),
}

impl View for Job {
    type V = JobView;

    open spec fn view(&self) -> JobView {
        match self {
            Job::Timeout(t) => JobView::Timeout(*t),
            Job::Countdown(t) => JobView::Countdown(*t),
            Job::Play(s) => JobView::Play(s@),
        }
    }
}

/// The views of a list of jobs.
pub open spec fn job_views(list: Seq<Job>) -> Seq<JobView> {
    Seq::new(list.len(), |i: int| list[i]@)
}

/// What an action leaves behind when it is wrapped, to be written out.
#[derive(Debug)]
pub enum Artifact {
    /// The keys that went down, in their order.
    Keystrokes(Vec<Keystroke>),
    /// The option chosen, counted from one.
    Choice(Option<usize>),
    /// The questionnaire with its answers.
    Responses(Vec<Question>),
}

pub enum ArtifactView {
    Keystrokes(Seq<Seq<char>>),
    Choice(Option<usize>),
    Responses(Seq<QuestionView>),
}

impl View for Artifact {
    type V = ArtifactView;

    open spec fn view(&self) -> ArtifactView {
        match self {
            Artifact::Keystrokes(strokes) => ArtifactView::Keystrokes(keys(strokes@)),
            Artifact::Choice(c) => ArtifactView::Choice(*c),
            Artifact::Responses(list) => ArtifactView::Responses(question_views(list@)),
        }
    }
}

impl Artifact {
    /// The ending of the name of the file that holds the artifact.
    pub fn suffix(&self) -> (r: &'static str)
        ensures
            r@ == match self {
                Artifact::Keystrokes(_) => ".keypress"@,
                Artifact::Choice(_) => ".choice"@,
                Artifact::Responses(_) => ".response"@,
            },
    {
        match self {
            Artifact::Keystrokes(_) => ".keypress",
            Artifact::Choice(_) => ".choice",
            Artifact::Responses(_) => ".response",
        }
    }
}

/// The views of a list of artifacts.
pub open spec fn artifact_views(list: Seq<Artifact>) -> Seq<ArtifactView> {
    Seq::new(list.len(), |i: int| list[i]@)
}

/// What an action answers to a message.
#[derive(Debug, Clone, Copy, PartialEq, Eq, Structural)]
pub enum Reply {
    /// The message was taken; nothing follows.
    Done,
    /// The message is for the job that the action set going.
    Forward,
    /// The message ended the action.
    Complete,
    /// The message is none that an action of this kind takes.
    Rejected,
}

impl QuestionView {
    /// The question with the answer `value`, if the value is one that the question takes.
    pub open spec fn answered(self, value: ValueView) -> Option<QuestionView> {
        match (self, value) {
            (QuestionView::SingleChoice { prompt, options, answer }, ValueView::Integer(i)) => if 0
                <= i < options.len() {
                Some(QuestionView::SingleChoice { prompt, options, answer: Some(i as usize) })
            } else {
                None
            },
            (QuestionView::MultiChoice { prompt, options, answer }, ValueView::Integer(i)) => if 0
                <= i < answer.len() {
                Some(
                    QuestionView::MultiChoice {
                        prompt,
                        options,
                        answer: answer.update(i as int, !answer[i as int]),
                    },
                )
            } else {
                None
            },
            (QuestionView::ShortAnswer { prompt, answer }, ValueView::String(s)) => Some(
                QuestionView::ShortAnswer { prompt, answer: s },
            ),
            (QuestionView::Slider { prompt, low, high, step, answer }, ValueView::Float(f)) => Some(
                QuestionView::Slider { prompt, low, high, step, answer: f },
            ),
            _ => None,
        }
    }
}

impl ActionView {
    /// What has to be set going when the action starts.
    pub open spec fn jobs(self) -> Seq<JobView> {
        let first = match self.info().timeout {
            Some(t) => seq![JobView::Timeout(t)],
            None => Seq::empty(),
        };
        match self {
            ActionView::Instruction { timer, .. } => if timer > 0 {
                first.push(JobView::Countdown(timer))
            } else {
                first
            },
            ActionView::Audio { source, .. } => first.push(JobView::Play(source)),
            _ => first,
        }
    }

    /// What the action leaves behind when it is wrapped.
    pub open spec fn leftovers(self) -> Seq<ArtifactView> {
        let first = if self.info().monitor_kb {
            seq![ArtifactView::Keystrokes(self.info().keystrokes)]
        } else {
            Seq::empty()
        };
        match self {
            ActionView::Selection { choice, .. } => first.push(ArtifactView::Choice(choice)),
            ActionView::Question { list, .. } => first.push(ArtifactView::Responses(list)),
            _ => first,
        }
    }

    /// The action after the message, and its answer.
    pub open spec fn updated(self, message: MessageView) -> (ActionView, Reply) {
        match message {
            MessageView::KeyPress(key) => (
                self.with_info(
                    InfoView { keystrokes: self.info().keystrokes.push(key), ..self.info() },
                ),
                Reply::Done,
            ),
            _ => match self {
                ActionView::Audio { .. } => if message is QueryResponse {
                    (self, Reply::Forward)
                } else {
                    (self, Reply::Rejected)
                },
                ActionView::Selection { prompt, options, info, choice } => match message {
                    MessageView::UIEvent(code, ValueView::Integer(i)) => if code == 1 && i >= 0 {
                        (
                            ActionView::Selection { prompt, options, info, choice: Some(i as usize) },
                            Reply::Complete,
                        )
                    } else {
                        (self, Reply::Rejected)
                    },
                    _ => (self, Reply::Rejected),
                },
                ActionView::Question { list, info } => match message {
                    MessageView::UIEvent(code, value) => if 1 <= code <= list.len()
                        && list[code - 1].answered(value) is Some {
                        (
                            ActionView::Question {
                                list: list.update(code - 1, list[code - 1].answered(value)->0),
                                info,
                            },
                            Reply::Done,
                        )
                    } else {
                        (self, Reply::Rejected)
                    },
                    _ => (self, Reply::Rejected),
                },
                _ => (self, Reply::Rejected),
            },
        }
    }
}

impl Question {
    /// Takes the answer `value`; says whether it is one that the question takes. A value
    /// that is not leaves the question as it was.
    pub fn update(&mut self, value: Value) -> (r: bool)
        ensures
            r == old(self)@.answered(value@) is Some,
            final(self)@ == if r {
                old(self)@.answered(value@)->0
            } else {
                old(self)@
            },
    {
        match self {
            Question::SingleChoice { options, answer, .. } => match value {
                Value::Integer(i) => {
                    if i >= 0 && (i as usize) < options.len() {
                        *answer = Some(i as usize);
                        true
                    } else {
                        false
                    }
                },
                _ => false,
            },
            Question::MultiChoice { answer, .. } => match value {
                Value::Integer(i) => {
                    if i >= 0 && (i as usize) < answer.len() {
                        let mark = !answer[i as usize];
                        answer.set(i as usize, mark);
                        true
                    } else {
                        false
                    }
                },
                _ => false,
            },
            Question::ShortAnswer { answer, .. } => match value {
                Value::String(s) => {
                    *answer = s;
                    true
                },
                _ => false,
            },
            Question::Slider { answer, .. } => match value {
                Value::Float(f) => {
                    *answer = f;
                    true
                },
                _ => false,
            },
        }
    }

    /// Clears the answer.
    pub fn init(&mut self)
        ensures
            final(self)@ == old(self)@.started(),
    {
        match self {
            Question::MultiChoice { options, answer, .. } => {
                let mut marks: Vec<bool> = Vec::new();
                let mut i: usize = 0;
                while i < options.len()
                    invariant
                        i <= options.len(),
                        marks@.len() == i,
                        forall|j: int| 0 <= j < i ==> !marks@[j],
                    decreases options.len() - i,
                {
                    marks.push(false);
                    i += 1;
                }
                assert(marks@ =~= Seq::new(texts(options@).len(), |i: int| false));
                *answer = marks;
            },
            Question::Slider { answer, low, .. } => {
                *answer = *low;
            },
            _ => {},
        }
    }
}

impl Action {
    /// Makes the action, declared at `position` of its scope after `last_action` and at
    /// nesting depth `depth`, ready for the graph. A template must hold the actions of its
    /// document; they are replaced by the sub-graph that the template stands for. On an
    /// error the action stays as it was.
    pub fn init(&mut self, position: usize, last_action: &Option<ID>, depth: u16) -> (r: Result<
        (),
        BuildError,
    >)
        ensures
            match r {
                Ok(()) => old(self)@.initialized(
                    position as nat,
                    opt_text(*last_action),
                    depth as nat,
                ) == Ok::<ActionView, BuildErrorView>(final(self)@),
                Err(e) => old(self)@.initialized(
                    position as nat,
                    opt_text(*last_action),
                    depth as nat,
                ) == Err::<ActionView, BuildErrorView>(e@) && final(self)@ == old(self)@,
            },
        decreases MAX_DEPTH + 1 - depth, 1nat,
    {
        let mut work = self.clone();
        match work.prepare(position, last_action, depth) {
            Ok(()) => {
                *self = work;
                Ok(())
            },
            Err(e) => Err(e),
        }
    }

    #[verifier::loop_isolation(false)]
    fn prepare(&mut self, position: usize, last_action: &Option<ID>, depth: u16) -> (r: Result<
        (),
        BuildError,
    >)
        ensures
            match r {
                Ok(()) => old(self)@.initialized(
                    position as nat,
                    opt_text(*last_action),
                    depth as nat,
                ) == Ok::<ActionView, BuildErrorView>(final(self)@),
                Err(e) => old(self)@.initialized(
                    position as nat,
                    opt_text(*last_action),
                    depth as nat,
                ) == Err::<ActionView, BuildErrorView>(e@),
            },
        decreases MAX_DEPTH + 1 - depth, 0nat,
    {
        if depth > MAX_DEPTH {
            return Err(BuildError::TemplateTooDeep);
        }
        match crate::action::expand::check_id(self.info().id.as_str()) {
            Err(e) => {
                return Err(e);
            },
            Ok(()) => {},
        }
        let ghost before = self@;
        crate::action::expand::enroll(self.info_mut(), position, last_action);
        let ghost info = before.info().enrolled(position as nat, opt_text(*last_action));
        assert(self@ == before.with_info(info));
        proof {
            if *self is Template {
                lemma_template_view(*self);
            }
        }
        match self {
            Action::Nothing { info } => {
                if info.timeout.is_none() {
                    info.timeout = Some(0);
                }
            },
            Action::Question { list, .. } => {
                let ghost asked = question_views(list@);
                let n = list.len();
                let mut i: usize = 0;
                while i < n
                    invariant
                        i <= n,
                        n == list.len(),
                        n == asked.len(),
                        forall|j: int| 0 <= j < i ==> (#[trigger] list@[j])@ == asked[j].started(),
                        forall|j: int| i <= j < n ==> (#[trigger] list@[j])@ == asked[j],
                    decreases n - i,
                {
                    list[i].init();
                    i += 1;
                }
                assert(question_views(list@) =~= Seq::new(
                    asked.len(),
                    |i: int| asked[i].started(),
                ));
            },
            Action::Template { source, info, actions, .. } => {
                let template = Some(source.clone());
                match crate::action::expand::init_list(actions, depth + 1, &template) {
                    Err(e) => {
                        return Err(e);
                    },
                    Ok(()) => {},
                }
                let mut inner: Vec<Action> = Vec::new();
                core::mem::swap(actions, &mut inner);
                let flat = crate::action::expand::flatten(inner);
                *actions = crate::action::expand::expand(info, flat);
            },
            _ => {},
        }
        proof {
            if *self is Template {
                lemma_template_view(*self);
            }
        }
        Ok(())
    }

    pub fn info(&self) -> (r: &Info)
        ensures
            r@ == self@.info(),
            *r == *self.spec_info(),
    {
        match self {
            Action::Nothing { info } => info,
            Action::Instruction { info, .. } => info,
            Action::Selection { info, .. } => info,
            Action::Audio { info, .. } => info,
            Action::Image { info, .. } => info,
            Action::Question { info, .. } => info,
            Action::Template { info, .. } => info,
        }
    }

    pub fn info_mut(&mut self) -> (r: &mut Info)
        ensures
            *r == *old(self).spec_info(),
            *final(self).spec_info() == *final(r),
            final(self)@ == old(self)@.with_info(final(r)@),
    {
        match self {
            Action::Nothing { info } => info,
            Action::Instruction { info, .. } => info,
            Action::Selection { info, .. } => info,
            Action::Audio { info, .. } => info,
            Action::Image { info, .. } => info,
            Action::Question { info, .. } => info,
            Action::Template { info, .. } => info,
        }
    }

    pub fn id(&self) -> (r: ID)
        ensures
            r@ == self@.info().id,
    {
        self.info().id.clone()
    }

    pub fn set_id(&mut self, id: &ID)
        ensures
            final(self)@ == old(self)@.with_info(InfoView { id: id@, ..old(self)@.info() }),
    {
        let info = self.info_mut();
        info.id = id.clone();
    }

    /// Whether the action goes by the name `id`.
    pub fn is(&self, id: &str) -> (r: bool)
        ensures
            r == (self@.info().id == id@),
    {
        crate::text::same(self.info().id.as_str(), id)
    }

    /// The companion, if one is named.
    pub fn with(&self) -> (r: Option<ID>)
        ensures
            opt_text(r) == self@.info().with,
    {
        clone_text(&self.info().with)
    }

    /// The predecessors still awaited.
    pub fn after(&self) -> (r: IdSet)
        ensures
            r@ == self@.info().pending(),
    {
        match &self.info().after {
            Some(ids) => ids.clone(),
            None => IdSet::new(),
        }
    }

    pub fn dependents(&self) -> (r: &IdSet)
        ensures
            r@ == self@.info().dependents,
    {
        &self.info().dependents
    }

    pub fn add_dependent(&mut self, id: ID)
        ensures
            final(self)@ == old(self)@.with_info(
                InfoView {
                    dependents: crate::idset::with_id(old(self)@.info().dependents, id@),
                    ..old(self)@.info()
                },
            ),
    {
        let info = self.info_mut();
        info.dependents.insert(id);
    }

    /// Marks the action as never to run.
    pub fn expire(&mut self)
        ensures
            final(self)@ == old(self)@.with_info(
                InfoView { expired: Some(true), ..old(self)@.info() },
            ),
    {
        let info = self.info_mut();
        info.expired = Some(true);
    }

    pub fn successors(&self) -> (r: &IdSet)
        ensures
            r@ == self@.info().successors,
    {
        &self.info().successors
    }

    pub fn add_successor(&mut self, id: ID)
        ensures
            final(self)@ == old(self)@.with_info(
                InfoView {
                    successors: crate::idset::with_id(old(self)@.info().successors, id@),
                    ..old(self)@.info()
                },
            ),
    {
        let info = self.info_mut();
        info.successors.insert(id);
    }

    /// Strikes the finished predecessor `id` off; says whether the action is ready now.
    pub fn satisfy(&mut self, id: &ID) -> (r: bool)
        ensures
            final(self)@ == old(self)@.with_info(old(self)@.info().satisfied(id@)),
            r == (final(self)@.info().ready() == Some(true)),
    {
        let info = self.info_mut();
        match &mut info.after {
            Some(ids) => {
                ids.remove(id.as_str());
                ids.is_empty()
            },
            None => false,
        }
    }

    /// Resolves the action's references among the names `id_list` of the finished graph. On
    /// an error the action stays as it was.
    #[verifier::loop_isolation(false)]
    pub fn verify(&mut self, id_list: &IdSet) -> (r: Result<(), BuildError>)
        ensures
            match r {
                Ok(()) => old(self)@.info().linked(id_list@) == Ok::<InfoView, BuildErrorView>(
                    final(self)@.info(),
                ) && final(self)@ == old(self)@.with_info(final(self)@.info()),
                Err(e) => old(self)@.info().linked(id_list@) == Err::<InfoView, BuildErrorView>(e@)
                    && final(self)@ == old(self)@,
            },
    {
        let info = self.info();
        if let Some(ids) = &info.after {
            if ids.contains(info.id.as_str()) {
                return Err(BuildError::SelfSuccessor(info.id.clone()));
            }
        }
        if let Some(w) = &info.with {
            if crate::text::same(w.as_str(), info.id.as_str()) {
                return Err(BuildError::SelfDependent(info.id.clone()));
            }
        }
        let mut after: Option<IdSet> = None;
        if let Some(ids) = &info.after {
            let mut linked = IdSet::new();
            let mut i: usize = 0;
            while i < ids.len()
                invariant
                    i <= ids@.len(),
                    resolved_all(ids@.take(i as int), id_list@) == Ok::<Seq<Seq<char>>, Seq<char>>(
                        linked@,
                    ),
                decreases ids@.len() - i,
            {
                proof {
                    assert(ids@.take(i + 1).drop_last() =~= ids@.take(i as int));
                    assert(ids@.take(i + 1).last() == ids@[i as int]);
                    if i + 1 == ids@.len() {
                        assert(ids@.take(i + 1) =~= ids@);
                    }
                }
                let id = ids.get(i);
                if id_list.contains(id.as_str()) {
                    linked.insert(id.clone());
                } else {
                    let gate = scoped(id.as_str(), "exit");
                    if id_list.contains(gate.as_str()) {
                        linked.insert(gate);
                    } else {
                        proof {
                            assert(resolved(ids@[i as int], id_list@) is None);
                            assert(resolved_all(ids@.take(i + 1), id_list@) == Err::<
                                Seq<Seq<char>>,
                                Seq<char>,
                            >(ids@[i as int]));
                            lemma_resolved_all_fails(ids@, id_list@, i + 1);
                        }
                        return Err(BuildError::InvalidReference(id.clone()));
                    }
                }
                i += 1;
            }
            proof {
                assert(ids@.take(ids@.len() as int) =~= ids@);
            }
            after = Some(linked);
        }
        let mut with: Option<ID> = clone_text(&info.with);
        if let Some(w) = &info.with {
            if !id_list.contains(w.as_str()) {
                let mut ids = match after {
                    Some(ids) => ids,
                    None => IdSet::new(),
                };
                ids.insert(scoped(w.as_str(), "entry"));
                after = Some(ids);
                with = Some(scoped(w.as_str(), "exit"));
            }
        }
        let info = self.info_mut();
        info.after = after;
        info.with = with;
        Ok(())
    }

    /// Whether every predecessor has finished; `None` where no predecessors were ever set.
    pub fn is_ready(&self) -> (r: Option<bool>)
        ensures
            r == self@.info().ready(),
    {
        match &self.info().after {
            Some(ids) => Some(ids.is_empty()),
            None => None,
        }
    }

    pub fn is_expired(&self) -> (r: Option<bool>)
        ensures
            r == self@.info().expired,
    {
        self.info().expired
    }

    /// Whether the action shows something in the foreground while it runs.
    pub fn has_view(&self) -> (r: bool)
        ensures
            r == self@.shows(),
    {
        match self {
            Action::Nothing { .. } => false,
            Action::Audio { .. } => false,
            Action::Instruction { .. } => true,
            Action::Selection { .. } => true,
            Action::Image { .. } => true,
            Action::Question { .. } => true,
            Action::Template { .. } => false,
        }
    }

    pub fn has_background(&self) -> (r: bool)
        ensures
            r == self@.info().background is Some,
    {
        self.info().background.is_some()
    }

    pub fn captures_keystrokes(&self) -> (r: bool)
        ensures
            r == self@.info().monitor_kb,
    {
        self.info().monitor_kb
    }

    /// What has to be set going when the action starts: its timeout if it has one, and
    /// what its kind asks for.
    pub fn run(&self) -> (r: Vec<Job>)
        ensures
            job_views(r@) == self@.jobs(),
    {
        let mut r: Vec<Job> = Vec::new();
        if let Some(t) = self.info().timeout {
            r.push(Job::Timeout(t));
        }
        match self {
            Action::Instruction { timer, .. } => {
                if *timer > 0 {
                    r.push(Job::Countdown(*timer));
                }
            },
            Action::Audio { source, .. } => {
                r.push(Job::Play(source.clone()));
            },
            _ => {},
        }
        assert(job_views(r@) =~= self@.jobs());
        r
    }

    /// Takes a message that was sent to the action while it runs. A key that went down is
    /// written down with a moment that the clock gave; the keys written down before stay as
    /// they are.
    pub fn update(&mut self, message: Message) -> (r: Reply)
        ensures
            (final(self)@, r) == old(self)@.updated(message@),
            message is KeyPress ==> final(self).spec_info().keystrokes@.drop_last() == old(
                self,
            ).spec_info().keystrokes@ && exists|moment: Seq<char>, millis: nat|
                final(self).spec_info().keystrokes@.last().stamp@ == crate::util::stamp_text(
                    moment,
                    millis,
                ),
            !(message is KeyPress) ==> final(self).spec_info().keystrokes@ == old(
                self,
            ).spec_info().keystrokes@,
    {
        if let Message::KeyPress(key) = message {
            let info = self.info_mut();
            let stroke = Keystroke { stamp: crate::util::timestamp(), key };
            info.keystrokes.push(stroke);
            assert(keys(info.keystrokes@) =~= keys(old(self).spec_info().keystrokes@).push(key@));
            assert(info.keystrokes@.drop_last() =~= old(self).spec_info().keystrokes@);
            return Reply::Done;
        }
        match self {
            Action::Audio { .. } => match message {
                Message::QueryResponse(..) => Reply::Forward,
                _ => Reply::Rejected,
            },
            Action::Selection { choice, .. } => match message {
                Message::UIEvent(code, Value::Integer(i)) => {
                    if code == 1 && i >= 0 {
                        *choice = Some(i as usize);
                        Reply::Complete
                    } else {
                        Reply::Rejected
                    }
                },
                _ => Reply::Rejected,
            },
            Action::Question { list, .. } => match message {
                Message::UIEvent(code, value) => {
                    if code >= 1 && (code as usize) <= list.len() {
                        let ghost asked = question_views(list@);
                        let taken = list[(code - 1) as usize].update(value);
                        if taken {
                            assert(question_views(list@) =~= asked.update(
                                code - 1,
                                asked[code - 1].answered(value@)->0,
                            ));
                            Reply::Done
                        } else {
                            assert(question_views(list@) =~= asked);
                            Reply::Rejected
                        }
                    } else {
                        Reply::Rejected
                    }
                },
                _ => Reply::Rejected,
            },
            _ => Reply::Rejected,
        }
    }

    /// What the action leaves behind when it is wrapped: the keys that went down if it
    /// watched the keyboard, each with the moment that was recorded for it, then the choice
    /// made or the answers given.
    pub fn wrap(&self) -> (r: Vec<Artifact>)
        ensures
            artifact_views(r@) == self@.leftovers(),
            self@.info().monitor_kb ==> r@.len() > 0 && r@[0] is Keystrokes && key_lines(
                r@[0]->Keystrokes_0@,
            ) == key_lines(self.spec_info().keystrokes@),
    {
        let mut r: Vec<Artifact> = Vec::new();
        let info = self.info();
        if info.monitor_kb {
            r.push(Artifact::Keystrokes(clone_keystrokes(&info.keystrokes)));
        }
        match self {
            Action::Selection { choice, .. } => {
                r.push(Artifact::Choice(*choice));
            },
            Action::Question { list, .. } => {
                r.push(Artifact::Responses(clone_questions(list)));
            },
            _ => {},
        }
        assert(artifact_views(r@) =~= self@.leftovers());
        r
    }

    /// The record itself, where a contract has to speak of more than its view.
    pub open spec fn spec_info(&self) -> &Info {
        match self {
            Action::Nothing { info } => info,
            Action::Instruction { info, .. } => info,
            Action::Selection { info, .. } => info,
            Action::Audio { info, .. } => info,
            Action::Image { info, .. } => info,
            Action::Question { info, .. } => info,
            Action::Template { info, .. } => info,
        }
    }
}

} // verus!
