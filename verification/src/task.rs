use crate::block::{Block, BlockView};
use crate::comm::{Code, Message, MessageView, Value, ValueView};
use crate::config::Config;
use crate::dispatch::{command_views, Command, CommandView, Dispatcher, DispatcherView};
use crate::error::{BuildError, BuildErrorView};
use crate::util::timestamp;
use vstd::prelude::*;

verus! {

/// Where a task stands between its start and the run of a block.
#[derive(Debug, Clone, Copy, PartialEq, Eq, Structural)]
pub enum State {
    /// The instructions are shown.
    Startup,
    /// The configuration is shown; `config` is what has been set so far.
    Configure { config: Config },
    /// The blocks are offered.
    Selection,
    /// A block is about to start, in `wait_for` milliseconds.
    Starting { wait_for: u16 },
    /// A block runs, or has just ended.
    Started,
}

/// What happens to a block as a whole.
#[derive(Debug, Clone, Copy, PartialEq, Eq, Structural)]
pub enum Turn {
    Start,
    Complete,
    Interrupt,
}

/// One line of a task's record: what happened to which block, and when.
#[derive(Debug)]
pub struct Entry {
    pub stamp: String,
    pub turn: Turn,
    pub block: usize,
}

impl Entry {
    /// The word that stands for the turn in the written record.
    pub open spec fn word(turn: Turn) -> Seq<char> {
        match turn {
            Turn::Start => "START"@,
            Turn::Complete => "COMPLETE"@,
            Turn::Interrupt => "INTERRUPT"@,
        }
    }

    /// The line of the written record: moment, turn and block, two blanks between them.
    pub open spec fn line(&self) -> Seq<char> {
        self.stamp@ + "  "@ + Entry::word(self.turn) + "  "@ + crate::text::decimal_text(
            self.block as nat,
        )
    }

    /// Writes the entry as a line of the record.
    pub fn to_line(&self) -> (r: String)
        ensures
            r@ == self.line(),
    {
        let mut r = self.stamp.clone();
        r.append("  ");
        match self.turn {
            Turn::Start => r.append("START"),
            Turn::Complete => r.append("COMPLETE"),
            Turn::Interrupt => r.append("INTERRUPT"),
        }
        r.append("  ");
        r.append(crate::text::decimal(self.block).as_str());
        r
    }
}

/// The turns of a record and their blocks, without their moments.
pub open spec fn turns(list: Seq<Entry>) -> Seq<(Turn, usize)> {
    Seq::new(list.len(), |i: int| (list[i].turn, list[i].block))
}

/// What a task asks of those around it.
#[derive(Debug)]
pub enum Effect {
    /// Write the task and its configuration out.
    Save,
    /// Write the record of the task out.
    Record,
    /// Open the audio output afresh.
    Prepare,
    /// After a tenth of a second, hand in the event numbered `code` with the number `left`.
    Later { code: Code, left: i32 },
    /// Carry out a command of the dispatcher.
    Issue(Command),
    /// The message is none that the task takes as it stands.
    Rejected,
}

pub enum EffectView {
    Save,
    Record,
    Prepare,
    Later { code: Code, left: i32 },
    Issue(CommandView),
    Rejected,
}

impl View for Effect {
    type V = EffectView;

    open spec fn view(&self) -> EffectView {
        match self {
            Effect::Save => EffectView::Save,
            Effect::Record => EffectView::Record,
            Effect::Prepare => EffectView::Prepare,
            Effect::Later { code, left } => EffectView::Later { code: *code, left: *left },
            Effect::Issue(c) => EffectView::Issue(c@),
            Effect::Rejected => EffectView::Rejected,
        }
    }
}

/// The views of a list of effects.
pub open spec fn effect_views(list: Seq<Effect>) -> Seq<EffectView> {
    Seq::new(list.len(), |i: int| list[i]@)
}

/// The commands `commands`, each as an effect.
pub open spec fn issued(commands: Seq<CommandView>) -> Seq<EffectView> {
    Seq::new(commands.len(), |i: int| EffectView::Issue(commands[i]))
}

/// A task: its blocks, what is configured, and where it stands.
#[derive(Debug)]
pub struct Task {
    pub title: String,
    pub version: String,
    pub description: String,
    pub configuration: Config,
    pub blocks: Vec<Block>,
    /// Which blocks have been run to their end.
    pub progress: Vec<bool>,
    pub dispatcher: Option<Dispatcher>,
    pub state: State,
    pub events: Vec<Entry>,
    /// The number of the block that runs.
    pub active_block: Option<usize>,
}

pub struct TaskView {
    pub title: Seq<char>,
    pub version: Seq<char>,
    pub description: Seq<char>,
    pub configuration: Config,
    pub blocks: Seq<BlockView>,
    pub progress: Seq<bool>,
    pub dispatcher: Option<DispatcherView>,
    pub state: State,
    pub events: Seq<(Turn, usize)>,
    pub active_block: Option<usize>,
}

/// The views of a list of blocks.
pub open spec fn block_views(list: Seq<Block>) -> Seq<BlockView> {
    Seq::new(list.len(), |i: int| list[i]@)
}

/// The state of a dispatcher that may be absent.
pub open spec fn opt_dispatcher(d: Option<Dispatcher>) -> Option<DispatcherView> {
    match d {
        Some(d) => Some(d.model()),
        None => None,
    }
}

impl TaskView {
    /// Whether a block is loaded.
    pub open spec fn running(self) -> bool {
        self.dispatcher is Some && self.dispatcher->0.block is Some
    }

    /// The task with one more entry in its record.
    pub open spec fn noted(self, turn: Turn, block: usize) -> TaskView {
        TaskView { events: self.events.push((turn, block)), ..self }
    }

    /// The task after the message was handed to its dispatcher, and what the dispatcher
    /// asks for; a task without a dispatcher rejects the message.
    pub open spec fn relayed(self, message: MessageView) -> (TaskView, Seq<EffectView>) {
        match self.dispatcher {
            Some(d) => (
                TaskView { dispatcher: Some(d.handled(message).0), ..self },
                issued(d.handled(message).1),
            ),
            None => (self, seq![EffectView::Rejected]),
        }
    }

    /// Whether the block numbered `block` can be started: it exists, there is a dispatcher,
    /// and no block is loaded.
    pub open spec fn startable(self, block: usize) -> bool {
        1 <= block <= self.blocks.len() && self.dispatcher is Some && !self.running()
    }

    /// The task after the block numbered `block` was started.
    pub open spec fn executed(self, block: usize) -> (TaskView, Seq<EffectView>) {
        if self.startable(block) {
            let loaded = DispatcherView::loaded(self.blocks[block - 1]);
            (
                TaskView {
                    active_block: Some(block),
                    dispatcher: Some(loaded.0),
                    ..self.noted(Turn::Start, block)
                },
                seq![EffectView::Prepare, EffectView::Record] + issued(loaded.1),
            )
        } else {
            (self, seq![EffectView::Rejected])
        }
    }

    /// The task after an event of the user interface.
    pub open spec fn pressed(self, code: Code, value: ValueView) -> (TaskView, Seq<EffectView>) {
        match self.state {
            State::Startup => if code == 1 {
                (
                    TaskView { state: State::Configure { config: self.configuration }, ..self },
                    Seq::empty(),
                )
            } else if code == 2 {
                (TaskView { state: State::Selection, ..self }, seq![EffectView::Save])
            } else {
                (self, Seq::empty())
            },
            State::Configure { config } => if code == 1 {
                (TaskView { state: State::Startup, ..self }, Seq::empty())
            } else if code == 2 {
                (
                    TaskView { state: State::Configure { config: self.configuration }, ..self },
                    Seq::empty(),
                )
            } else if code == 3 {
                (
                    TaskView { configuration: config, state: State::Selection, ..self },
                    seq![EffectView::Save],
                )
            } else {
                match Config::choice(code, value) {
                    Some(audio) => (
                        TaskView {
                            state: State::Configure { config: Config { audio, ..config } },
                            ..self
                        },
                        Seq::empty(),
                    ),
                    None => (self, seq![EffectView::Rejected]),
                }
            },
            State::Selection => if value == ValueView::Null {
                (
                    TaskView { state: State::Starting { wait_for: 3000 }, ..self },
                    seq![EffectView::Later { code, left: 2900 }],
                )
            } else {
                (self, Seq::empty())
            },
            State::Starting { wait_for } => match value {
                ValueView::Integer(t) => if t == 0 {
                    TaskView { state: State::Started, ..self }.executed(code as usize)
                } else if 0 < t <= u16::MAX {
                    (
                        TaskView { state: State::Starting { wait_for: t as u16 }, ..self },
                        seq![EffectView::Later { code, left: (t - 100) as i32 }],
                    )
                } else {
                    (self, seq![EffectView::Rejected])
                },
                _ => (self, Seq::empty()),
            },
            State::Started => if self.running() {
                self.relayed(MessageView::UIEvent(code, value))
            } else {
                (self, Seq::empty())
            },
        }
    }

    /// The task after an interrupt: the configuration is left, the countdown to a block is
    /// called off, a running block is stopped.
    pub open spec fn interrupted(self) -> (TaskView, Seq<EffectView>) {
        match self.state {
            State::Startup => (self, Seq::empty()),
            State::Selection => (self, Seq::empty()),
            State::Configure { .. } => (TaskView { state: State::Startup, ..self }, Seq::empty()),
            State::Starting { .. } => (TaskView { state: State::Selection, ..self }, Seq::empty()),
            State::Started => match self.active_block {
                Some(block) => {
                    let noted = TaskView {
                        active_block: None,
                        state: State::Selection,
                        ..self.noted(Turn::Interrupt, block)
                    };
                    (
                        noted.relayed(MessageView::Interrupt).0,
                        seq![EffectView::Record] + noted.relayed(MessageView::Interrupt).1,
                    )
                },
                None => (self, Seq::empty()),
            },
        }
    }

    /// The task after its block has ended: the block counts as done and is unloaded.
    pub open spec fn ended(self) -> (TaskView, Seq<EffectView>) {
        let noted = match self.active_block {
            Some(block) => TaskView { active_block: None, ..self.noted(Turn::Complete, block) },
            None => self,
        };
        let first = if self.active_block is Some {
            seq![EffectView::Record]
        } else {
            Seq::empty()
        };
        let marked = if self.running() && 1 <= self.dispatcher->0.block->0.id
            <= self.progress.len() {
            self.progress.update(self.dispatcher->0.block->0.id - 1, true)
        } else {
            self.progress
        };
        let next = TaskView { state: State::Selection, progress: marked, ..noted };
        (next.relayed(MessageView::BlockComplete).0, first + next.relayed(
            MessageView::BlockComplete,
        ).1)
    }

    /// The task after the message was dealt with, and what it asks for.
    pub open spec fn handled(self, message: MessageView) -> (TaskView, Seq<EffectView>) {
        match message {
            MessageView::SetComms => if self.dispatcher is Some {
                (self, seq![EffectView::Rejected])
            } else {
                (TaskView { dispatcher: Some(DispatcherView::idle()), ..self }, Seq::empty())
            },
            MessageView::Query(_, _) => (self, Seq::empty()),
            MessageView::UIEvent(code, value) => self.pressed(code, value),
            MessageView::Code(_, _, _) => self.relayed(message),
            MessageView::Value(_, _, _, _) => self.relayed(message),
            MessageView::KeyPress(_) => self.relayed(message),
            MessageView::ActionComplete(_) => self.relayed(message),
            MessageView::ActionFailed(_) => self.relayed(message),
            MessageView::Interrupt => self.interrupted(),
            MessageView::BlockComplete => self.ended(),
            _ => (self, seq![EffectView::Rejected]),
        }
    }
}

fn issue(commands: Vec<Command>, out: &mut Vec<Effect>)
    ensures
        effect_views(final(out)@) == effect_views(old(out)@) + issued(command_views(commands@)),
{
    let ghost before = effect_views(out@);
    let ghost all = command_views(commands@);
    for c in it: commands
        invariant
            it.seq() == commands@,
            all == command_views(commands@),
            effect_views(out@) == before + issued(all.take(it.index())),
    {
        let ghost so_far = effect_views(out@);
        out.push(Effect::Issue(c));
        assert(effect_views(out@) =~= so_far.push(EffectView::Issue(c@)));
        assert(issued(all.take(it.index() + 1)) =~= issued(all.take(it.index())).push(
            EffectView::Issue(c@),
        ));
        assert(effect_views(out@) =~= before + issued(all.take(it.index() + 1)));
    }
    assert(all.take(all.len() as int) =~= all);
}

impl Task {
    /// The task as contracts speak of it.
    pub open spec fn model(&self) -> TaskView {
        TaskView {
            title: self.title@,
            version: self.version@,
            description: self.description@,
            configuration: self.configuration,
            blocks: block_views(self.blocks@),
            progress: self.progress@,
            dispatcher: opt_dispatcher(self.dispatcher),
            state: self.state,
            events: turns(self.events@),
            active_block: self.active_block,
        }
    }

    /// Whether the task has been given its dispatcher.
    pub fn has_dispatcher(&self) -> (r: bool)
        ensures
            r == self.model().dispatcher is Some,
    {
        self.dispatcher.is_some()
    }

    /// Whether a block is loaded.
    pub fn is_active(&self) -> (r: bool)
        ensures
            r == self.model().running(),
    {
        match &self.dispatcher {
            Some(d) => d.is_active(),
            None => false,
        }
    }

    /// The seconds left until the block starts, counted up to whole seconds, while the task
    /// counts down to one.
    pub fn countdown(&self) -> (r: Option<u32>)
        ensures
            r == match self.state {
                State::Starting { wait_for } => Some(((wait_for + 999) / 1000) as u32),
                _ => None,
            },
    {
        match self.state {
            State::Starting { wait_for } => {
                let ms: u32 = wait_for as u32;
                Some((ms + 999) / 1000)
            },
            _ => None,
        }
    }

    /// The line that names the task, its version and the system `os` it runs on.
    pub fn title(&self, os: &str) -> (r: String)
        ensures
            r@ == self.title@ + " | v"@ + self.version@ + " | rust-"@ + os@,
    {
        let mut r = self.title.clone();
        r.append(" | v");
        r.append(self.version.as_str());
        r.append(" | rust-");
        r.append(os);
        r
    }

    fn note(&mut self, turn: Turn, block: usize)
        ensures
            final(self).model() == old(self).model().noted(turn, block),
    {
        self.events.push(Entry { stamp: timestamp(), turn, block });
        assert(turns(self.events@) =~= turns(old(self).events@).push((turn, block)));
    }

    fn relay(&mut self, message: Message, out: &mut Vec<Effect>)
        ensures
            final(self).model() == old(self).model().relayed(message@).0,
            effect_views(final(out)@) == effect_views(old(out)@) + old(self).model().relayed(
                message@,
            ).1,
    {
        match &mut self.dispatcher {
            Some(d) => {
                let commands = d.update(message);
                issue(commands, out);
            },
            None => {
                let ghost before = effect_views(out@);
                out.push(Effect::Rejected);
                assert(effect_views(out@) =~= before + seq![EffectView::Rejected]);
            },
        }
    }

    /// Starts the block numbered `block`, counted from one: loads a copy of it into the
    /// dispatcher. Where there is no such block or no dispatcher, or a block is loaded, the
    /// task stays as it is and rejects.
    pub fn execute(&mut self, block: usize) -> (r: Vec<Effect>)
        ensures
            (final(self).model(), effect_views(r@)) == old(self).model().executed(block),
    {
        let mut out: Vec<Effect> = Vec::new();
        if block == 0 || block > self.blocks.len() || self.dispatcher.is_none() || self.is_active() {
            out.push(Effect::Rejected);
            assert(effect_views(out@) =~= seq![EffectView::Rejected]);
            return out;
        }
        let copy = self.blocks[block - 1].clone();
        self.active_block = Some(block);
        self.note(Turn::Start, block);
        out.push(Effect::Prepare);
        out.push(Effect::Record);
        assert(effect_views(out@) =~= seq![EffectView::Prepare, EffectView::Record]);
        match &mut self.dispatcher {
            Some(d) => {
                let commands = d.init(copy);
                issue(commands, &mut out);
            },
            None => {},
        }
        out
    }

    fn press(&mut self, code: Code, value: Value, out: &mut Vec<Effect>)
        requires
            old(out)@.len() == 0,
        ensures
            (final(self).model(), effect_views(final(out)@)) == old(self).model().pressed(
                code,
                value@,
            ),
    {
        match self.state {
            State::Startup => {
                if code == 1 {
                    self.state = State::Configure { config: self.configuration };
                } else if code == 2 {
                    self.state = State::Selection;
                    out.push(Effect::Save);
                }
            },
            State::Configure { config } => {
                if code == 1 {
                    self.state = State::Startup;
                } else if code == 2 {
                    self.state = State::Configure { config: self.configuration };
                } else if code == 3 {
                    self.configuration = config;
                    self.state = State::Selection;
                    out.push(Effect::Save);
                } else {
                    let mut edited = config;
                    if edited.update(code, value) {
                        self.state = State::Configure { config: edited };
                    } else {
                        out.push(Effect::Rejected);
                    }
                }
            },
            State::Selection => {
                if let Value::Null = value {
                    self.state = State::Starting { wait_for: 3000 };
                    out.push(Effect::Later { code, left: 2900 });
                }
            },
            State::Starting { wait_for } => {
                if let Value::Integer(t) = value {
                    if t == 0 {
                        self.state = State::Started;
                        let mut effects = self.execute(code as usize);
                        out.append(&mut effects);
                        assert(effect_views(out@) =~= old(self).model().pressed(code, value@).1);
                        return ;
                    } else if 0 < t && t <= 65535 {
                        self.state = State::Starting { wait_for: t as u16 };
                        out.push(Effect::Later { code, left: t - 100 });
                    } else {
                        out.push(Effect::Rejected);
                    }
                }
            },
            State::Started => {
                if self.is_active() {
                    self.relay(Message::UIEvent(code, value), out);
                    assert(effect_views(out@) =~= old(self).model().pressed(code, value@).1);
                    return ;
                }
            },
        }
        assert(effect_views(out@) =~= old(self).model().pressed(code, value@).1);
    }

    /// Deals with a message, and says what has to be done for it.
    pub fn update(&mut self, message: Message) -> (r: Vec<Effect>)
        ensures
            (final(self).model(), effect_views(r@)) == old(self).model().handled(message@),
    {
        let mut out: Vec<Effect> = Vec::new();
        assert(effect_views(out@) =~= Seq::empty());
        match message {
            Message::SetComms => {
                if self.dispatcher.is_some() {
                    out.push(Effect::Rejected);
                } else {
                    self.dispatcher = Some(Dispatcher::new());
                }
            },
            Message::Query(_, _) => {},
            Message::UIEvent(code, value) => {
                self.press(code, value, &mut out);
                return out;
            },
            Message::Code(..) | Message::Value(..) | Message::KeyPress(..) | Message::ActionComplete(
                ..,
            ) | Message::ActionFailed(..) => {
                self.relay(message, &mut out);
                assert(effect_views(out@) =~= old(self).model().handled(message@).1);
                return out;
            },
            Message::Interrupt => match self.state {
                State::Startup => {},
                State::Selection => {},
                State::Configure { .. } => {
                    self.state = State::Startup;
                },
                State::Starting { .. } => {
                    self.state = State::Selection;
                },
                State::Started => {
                    if let Some(block) = self.active_block {
                        self.active_block = None;
                        self.note(Turn::Interrupt, block);
                        self.state = State::Selection;
                        out.push(Effect::Record);
                        self.relay(message, &mut out);
                        assert(effect_views(out@) =~= old(self).model().handled(message@).1);
                        return out;
                    }
                },
            },
            Message::BlockComplete => {
                if let Some(block) = self.active_block {
                    self.active_block = None;
                    self.note(Turn::Complete, block);
                    out.push(Effect::Record);
                }
                self.state = State::Selection;
                let done = match &self.dispatcher {
                    Some(d) => d.block_id(),
                    None => None,
                };
                if let Some(id) = done {
                    if 1 <= id && id <= self.progress.len() {
                        self.progress.set(id - 1, true);
                    }
                }
                self.relay(message, &mut out);
                assert(effect_views(out@) =~= old(self).model().handled(message@).1);
                return out;
            },
            _ => {
                out.push(Effect::Rejected);
            },
        }
        assert(effect_views(out@) =~= old(self).model().handled(message@).1);
        out
    }

    /// Makes every block ready to run, numbered from one in their order, and counts none
    /// of them as done. On an error the task stays as it was.
    pub fn init(&mut self) -> (r: Result<(), BuildError>)
        ensures
            r is Err ==> final(self).model() == old(self).model(),
            r is Ok ==> final(self).progress@ == Seq::new(old(self).blocks@.len(), |i: int| false)
                && final(self).blocks@.len() == old(self).blocks@.len() && forall|i: int|
                0 <= i < old(self).blocks@.len() ==> crate::block::built(
                    (#[trigger] old(self).blocks@[i])@.nodes,
                ) == Ok::<Seq<crate::action::ActionView>, BuildErrorView>(
                    final(self).blocks@[i]@.nodes,
                ) && final(self).blocks@[i]@.id == i + 1,
            r is Ok ==> final(self).model() == (TaskView {
                blocks: final(self).model().blocks,
                progress: final(self).model().progress,
                ..old(self).model()
            }) && forall|i: int|
                0 <= i < old(self).blocks@.len() ==> (#[trigger] final(self).blocks@[i])@ == (
                BlockView {
                    id: (i + 1) as usize,
                    nodes: final(self).blocks@[i]@.nodes,
                    ..old(self).blocks@[i]@
                }),
            r is Err ==> exists|i: int|
                0 <= i < old(self).blocks@.len() && crate::block::built(
                    (#[trigger] old(self).blocks@[i])@.nodes,
                ) == Err::<Seq<crate::action::ActionView>, BuildErrorView>(r->Err_0@)
                    && forall|j: int|
                    0 <= j < i ==> crate::block::built((#[trigger] old(self).blocks@[j])@.nodes)
                        is Ok,
    {
        let n = self.blocks.len();
        let mut i: usize = 0;
        let mut blocks: Vec<Block> = Vec::new();
        while i < n
            invariant
                i <= n,
                n == self.blocks@.len(),
                blocks@.len() == i,
                forall|j: int| 0 <= j < i ==> (#[trigger] blocks@[j])@ == self.blocks@[j]@,
            decreases n - i,
        {
            blocks.push(self.blocks[i].clone());
            i += 1;
        }
        core::mem::swap(&mut self.blocks, &mut blocks);
        i = 0;
        while i < n
            invariant
                i <= n,
                n == self.blocks@.len(),
                n == old(self).blocks@.len(),
                blocks@ == old(self).blocks@,
                forall|j: int|
                    0 <= j < i ==> crate::block::built((#[trigger] old(self).blocks@[j])@.nodes)
                        == Ok::<Seq<crate::action::ActionView>, BuildErrorView>(
                        self.blocks@[j]@.nodes,
                    ) && self.blocks@[j]@.id == j + 1 && self.blocks@[j]@ == (BlockView {
                        id: (j + 1) as usize,
                        nodes: self.blocks@[j]@.nodes,
                        ..old(self).blocks@[j]@
                    }),
                forall|j: int| i <= j < n ==> (#[trigger] self.blocks@[j])@ == old(self).blocks@[j]@,
                self.title == old(self).title,
                self.progress == old(self).progress,
                self.version == old(self).version,
                self.description == old(self).description,
                self.configuration == old(self).configuration,
                self.dispatcher == old(self).dispatcher,
                self.state == old(self).state,
                self.events == old(self).events,
                self.active_block == old(self).active_block,
            decreases n - i,
        {
            match self.blocks[i].init(i + 1) {
                Err(e) => {
                    self.blocks = blocks;
                    assert(block_views(self.blocks@) =~= block_views(old(self).blocks@));
                    return Err(e);
                },
                Ok(()) => {},
            }
            i += 1;
        }
        let mut progress: Vec<bool> = Vec::new();
        i = 0;
        while i < n
            invariant
                i <= n,
                progress@.len() == i,
                forall|j: int| 0 <= j < i ==> !progress@[j],
            decreases n - i,
        {
            progress.push(false);
            i += 1;
        }
        assert(progress@ =~= Seq::new(old(self).blocks@.len(), |i: int| false));
        self.progress = progress;
        Ok(())
    }
}

} // verus!
