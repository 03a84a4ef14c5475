use crate::action::{
    artifact_views, job_views, opt_text, Artifact, ArtifactView, Job, JobView, Reply, ID,
};
use crate::block::{
    event_views, first, names, settled, Block, BlockView, Event, EventKind, EventView,
};
use crate::comm::{Message, MessageView};
use crate::idset::{lemma_without_id, union_ids, with_id, without_id, IdSet};
use vstd::prelude::*;

verus! {

/// What the dispatcher asks of those around it.
#[derive(Debug)]
pub enum Command {
    /// The action has started: set its jobs going.
    Run { id: ID, jobs: Vec<Job> },
    /// The action was brought to its end: stop its job and write out what it leaves behind.
    Wrap { id: ID, artifacts: Vec<Artifact> },
    /// The action was passed over.
    Skip { id: ID },
    /// Hand the message on to the job of the action.
    Forward { id: ID, message: Message },
    /// The action has ended by itself: report that it is complete.
    Complete { id: ID },
    /// The block is over: write out its record.
    Flush { events: Vec<Event> },
    /// Every action of the block has ended.
    BlockComplete,
    /// Nothing runs, and what is left waits for what will never end.
    Deadlock,
    /// The message is none that the dispatcher or the action takes.
    Rejected,
}

pub enum CommandView {
    Run { id: Seq<char>, jobs: Seq<JobView> },
    Wrap { id: Seq<char>, artifacts: Seq<ArtifactView> },
    Skip { id: Seq<char> },
    Forward { id: Seq<char>, message: MessageView },
    Complete { id: Seq<char> },
    Flush { events: Seq<EventView> },
    BlockComplete,
    Deadlock,
    Rejected,
}

impl View for Command {
    type V = CommandView;

    open spec fn view(&self) -> CommandView {
        match self {
            Command::Run { id, jobs } => CommandView::Run { id: id@, jobs: job_views(jobs@) },
            Command::Wrap { id, artifacts } => CommandView::Wrap {
                id: id@,
                artifacts: artifact_views(artifacts@),
            },
            Command::Skip { id } => CommandView::Skip { id: id@ },
            Command::Forward { id, message } => CommandView::Forward { id: id@, message: message@ },
            Command::Complete { id } => CommandView::Complete { id: id@ },
            Command::Flush { events } => CommandView::Flush { events: event_views(events@) },
            Command::BlockComplete => CommandView::BlockComplete,
            Command::Deadlock => CommandView::Deadlock,
            Command::Rejected => CommandView::Rejected,
        }
    }
}

/// The views of a list of commands.
pub open spec fn command_views(list: Seq<Command>) -> Seq<CommandView> {
    Seq::new(list.len(), |i: int| list[i]@)
}

/// What is to be shown.
#[derive(Debug)]
pub enum Scene {
    /// The action that holds the foreground.
    Foreground(ID),
    /// The backdrop of the action that holds the background.
    Background(ID),
    Blank,
}

pub enum SceneView {
    Foreground(Seq<char>),
    Background(Seq<char>),
    Blank,
}

impl View for Scene {
    type V = SceneView;

    open spec fn view(&self) -> SceneView {
        match self {
            Scene::Foreground(id) => SceneView::Foreground(id@),
            Scene::Background(id) => SceneView::Background(id@),
            Scene::Blank => SceneView::Blank,
        }
    }
}

/// The engine that runs one block at a time: it starts the actions that are ready, lets
/// the end of an action take effect on the rest, and says when the block is over.
#[derive(Debug)]
pub struct Dispatcher {
    pub block: Option<Block>,
    /// The actions that have not started.
    pub queue: IdSet,
    /// The actions that have started and not ended.
    pub active: IdSet,
    /// The actions that have ended or were passed over.
    pub complete: IdSet,
    pub foreground: Option<ID>,
    pub background: Option<ID>,
    pub monitor_kb: Option<ID>,
}

pub struct DispatcherView {
    pub block: Option<BlockView>,
    pub queue: Seq<Seq<char>>,
    pub active: Seq<Seq<char>>,
    pub complete: Seq<Seq<char>>,
    pub foreground: Option<Seq<char>>,
    pub background: Option<Seq<char>>,
    pub monitor_kb: Option<Seq<char>>,
}

/// The view of a block that may be absent.
pub open spec fn opt_block(b: Option<Block>) -> Option<BlockView> {
    match b {
        Some(b) => Some(b@),
        None => None,
    }
}

impl Dispatcher {
    /// The state of the dispatcher as contracts speak of it.
    pub open spec fn model(&self) -> DispatcherView {
        DispatcherView {
            block: opt_block(self.block),
            queue: self.queue@,
            active: self.active@,
            complete: self.complete@,
            foreground: opt_text(self.foreground),
            background: opt_text(self.background),
            monitor_kb: opt_text(self.monitor_kb),
        }
    }
}

/// A dispatcher in the middle of a pass over its block.
pub struct Pass {
    pub block: BlockView,
    pub queue: Seq<Seq<char>>,
    pub active: Seq<Seq<char>>,
    pub complete: Seq<Seq<char>>,
    pub foreground: Option<Seq<char>>,
    pub background: Option<Seq<char>>,
    pub monitor_kb: Option<Seq<char>>,
    /// The actions to look at in the next wave.
    pub wave: Seq<Seq<char>>,
    /// The actions found ready, to be started once the ended ones are dealt with.
    pub ready: Seq<Seq<char>>,
    /// The commands issued so far.
    pub out: Seq<CommandView>,
}

impl BlockView {
    /// The action named `id`, if there is one.
    pub open spec fn node(self, id: Seq<char>) -> Option<crate::action::ActionView> {
        match first(self.nodes, id) {
            Some(i) => Some(self.nodes[i]),
            None => None,
        }
    }

    /// Whether the action named `id` may start beside its companion: it does unless it
    /// still waits for a predecessor.
    pub open spec fn eager(self, id: Seq<char>) -> bool {
        match self.node(id) {
            Some(n) => n.info().ready() != Some(false),
            None => true,
        }
    }

    /// Whether the action named `id` is marked as never to run.
    pub open spec fn lapsed(self, id: Seq<char>) -> bool {
        match self.node(id) {
            Some(n) => n.info().expired == Some(true),
            None => false,
        }
    }
}

/// `wave` and those of the first `k` of `deps` that may start beside their companion.
pub open spec fn joined(block: BlockView, deps: Seq<Seq<char>>, k: int, wave: Seq<Seq<char>>) -> Seq<
    Seq<char>,
>
    decreases k,
{
    if k <= 0 {
        wave
    } else {
        let front = joined(block, deps, k - 1, wave);
        if block.eager(deps[k - 1]) {
            with_id(front, deps[k - 1])
        } else {
            front
        }
    }
}

impl DispatcherView {
    /// The pass that begins in this state, over the block `block`.
    pub open spec fn begin(self, block: BlockView) -> Pass {
        Pass {
            block,
            queue: self.queue,
            active: self.active,
            complete: self.complete,
            foreground: self.foreground,
            background: self.background,
            monitor_kb: self.monitor_kb,
            wave: Seq::empty(),
            ready: Seq::empty(),
            out: Seq::empty(),
        }
    }

    /// The state in which nothing is loaded.
    pub open spec fn idle() -> DispatcherView {
        DispatcherView {
            block: None,
            queue: Seq::empty(),
            active: Seq::empty(),
            complete: Seq::empty(),
            foreground: None,
            background: None,
            monitor_kb: None,
        }
    }
}

impl Pass {
    /// The state of the dispatcher when the pass is over.
    pub open spec fn state(self) -> DispatcherView {
        DispatcherView {
            block: Some(self.block),
            queue: self.queue,
            active: self.active,
            complete: self.complete,
            foreground: self.foreground,
            background: self.background,
            monitor_kb: self.monitor_kb,
        }
    }

    /// The pass after the action `id` has started: it claims the foreground, the
    /// background and the keyboard if it uses them, and the dependents of it that wait for
    /// nothing join the next wave.
    pub open spec fn started(self, id: Seq<char>) -> Pass {
        let node = self.block.node(id);
        let deps = match node {
            Some(n) => n.info().dependents,
            None => Seq::empty(),
        };
        Pass {
            foreground: if node is Some && node->0.shows() {
                Some(id)
            } else {
                self.foreground
            },
            background: if node is Some && node->0.info().background is Some {
                Some(id)
            } else {
                self.background
            },
            monitor_kb: if node is Some && node->0.info().monitor_kb {
                Some(id)
            } else {
                self.monitor_kb
            },
            wave: joined(self.block, deps, deps.len() as int, self.wave),
            queue: without_id(self.queue, id),
            block: self.block.noted(EventKind::Start, id),
            active: with_id(self.active, id),
            out: self.out.push(
                CommandView::Run {
                    id,
                    jobs: match node {
                        Some(n) => n.jobs(),
                        None => Seq::empty(),
                    },
                },
            ),
            ..self
        }
    }

    /// The pass after the action `id` was passed over: its successors that wait for nothing
    /// any more and its dependents, now marked, join the next wave.
    pub open spec fn skipped(self, id: Seq<char>) -> Pass {
        let complete = with_id(self.complete, id);
        let end = settled(self.block.nodes, id, complete);
        Pass {
            queue: without_id(self.queue, id),
            complete,
            block: self.block.noted(EventKind::Skip, id).with_nodes(end.nodes),
            wave: union_ids(union_ids(self.wave, end.ready), end.expired),
            out: self.out.push(CommandView::Skip { id }),
            ..self
        }
    }

    /// The pass after a look at the action `id`: one that has not started is started, or
    /// passed over if it is marked as never to run; any other is left alone.
    pub open spec fn moved(self, id: Seq<char>) -> Pass {
        if !self.queue.contains(id) {
            self
        } else if self.block.lapsed(id) {
            self.skipped(id)
        } else {
            self.started(id)
        }
    }

    /// The pass after a look at the first `k` actions of `wave`, in their order. The actions
    /// of a wave count as ready at the same time; that they are looked at in the order in
    /// which they joined the wave is how this dispatcher goes about it, and nothing should
    /// be made to rest on it.
    pub open spec fn swept(self, wave: Seq<Seq<char>>, k: int) -> Pass
        decreases k,
    {
        if k <= 0 {
            self
        } else {
            self.swept(wave, k - 1).moved(wave[k - 1])
        }
    }

    /// The pass after `wave` and the waves that follow from it, at most `fuel` of them.
    pub open spec fn advanced(self, wave: Seq<Seq<char>>, fuel: nat) -> Pass
        decreases fuel,
    {
        if wave.len() == 0 || fuel == 0 {
            self
        } else {
            let next = Pass { wave: Seq::empty(), ..self }.swept(wave, wave.len() as int);
            next.advanced(next.wave, (fuel - 1) as nat)
        }
    }

    /// The pass after the action `id` was brought to its end, if it was running: its
    /// successors that wait for nothing any more are noted as ready, and its dependents, now
    /// marked, join the next wave.
    pub open spec fn wrapped(self, id: Seq<char>) -> Pass {
        if !self.active.contains(id) {
            self
        } else {
            let complete = with_id(self.complete, id);
            let end = settled(self.block.nodes, id, complete);
            Pass {
                active: without_id(self.active, id),
                complete,
                block: self.block.noted(EventKind::Wrap, id).with_nodes(end.nodes),
                ready: union_ids(self.ready, end.ready),
                wave: union_ids(self.wave, end.expired),
                out: self.out.push(
                    CommandView::Wrap {
                        id,
                        artifacts: match self.block.node(id) {
                            Some(n) => n.leftovers(),
                            None => Seq::empty(),
                        },
                    },
                ),
                ..self
            }
        }
    }

    /// The pass after the first `k` actions of `wave` were brought to their end, in their
    /// order.
    pub open spec fn closed(self, wave: Seq<Seq<char>>, k: int) -> Pass
        decreases k,
    {
        if k <= 0 {
            self
        } else {
            self.closed(wave, k - 1).wrapped(wave[k - 1])
        }
    }

    /// The pass after `wave` and the waves that follow from it were brought to their end, at
    /// most `fuel` of them.
    pub open spec fn cascaded(self, wave: Seq<Seq<char>>, fuel: nat) -> Pass
        decreases fuel,
    {
        if wave.len() == 0 || fuel == 0 {
            self
        } else {
            let next = Pass { wave: Seq::empty(), ..self }.closed(wave, wave.len() as int);
            next.cascaded(next.wave, (fuel - 1) as nat)
        }
    }

    /// The pass after the foreground, the background and the keyboard were taken from
    /// actions that have ended.
    pub open spec fn cleared(self) -> Pass {
        Pass {
            foreground: match self.foreground {
                Some(id) => if self.complete.contains(id) {
                    None
                } else {
                    self.foreground
                },
                None => None,
            },
            background: match self.background {
                Some(id) => if self.complete.contains(id) {
                    None
                } else {
                    self.background
                },
                None => None,
            },
            monitor_kb: match self.monitor_kb {
                Some(id) => if self.complete.contains(id) {
                    None
                } else {
                    self.monitor_kb
                },
                None => None,
            },
            ..self
        }
    }

    /// The pass at its end: where nothing runs any more, it says that the block is over if
    /// nothing is left to start, and that there is a deadlock if something is.
    pub open spec fn concluded(self) -> Pass {
        if self.active.len() > 0 {
            self
        } else if self.queue.len() == 0 {
            Pass { out: self.out.push(CommandView::BlockComplete), ..self }
        } else {
            Pass { out: self.out.push(CommandView::Deadlock), ..self }
        }
    }

    /// The whole pass that starts the actions of `ready` and whatever follows from them.
    pub open spec fn run(self, ready: Seq<Seq<char>>) -> Pass {
        Pass { wave: Seq::empty(), ..self }.advanced(
            ready,
            (self.queue.len() + 1) as nat,
        ).concluded()
    }

    /// The whole pass that follows the end of the action `id`.
    pub open spec fn finished(self, id: Seq<char>) -> Pass {
        let ended = self.cascaded(seq![id], (self.active.len() + 1) as nat).cleared();
        ended.run(ended.ready)
    }

    /// The pass after the first `k` of the running actions `active` were brought to their
    /// end without more ado: what follows from their end for others is not followed up.
    pub open spec fn halting(self, active: Seq<Seq<char>>, k: int) -> Pass
        decreases k,
    {
        if k <= 0 {
            self
        } else {
            let p = self.halting(active, k - 1);
            let id = active[k - 1];
            Pass {
                block: p.block.noted(EventKind::Wrap, id).with_nodes(
                    settled(p.block.nodes, id, p.complete).nodes,
                ),
                out: p.out.push(
                    CommandView::Wrap {
                        id,
                        artifacts: match p.block.node(id) {
                            Some(n) => n.leftovers(),
                            None => Seq::empty(),
                        },
                    },
                ),
                ..p
            }
        }
    }

    /// The pass that brings every running action to its end and hands out the record.
    pub open spec fn halted(self) -> Pass {
        let p = self.halting(self.active, self.active.len() as int);
        Pass {
            block: BlockView { events: Seq::empty(), ..p.block },
            out: p.out.push(CommandView::Flush { events: p.block.events }),
            ..p
        }
    }
}

/// The commands that carry the answer of the action `id` to a message.
pub open spec fn answer(reply: Reply, id: Seq<char>, message: MessageView) -> Seq<CommandView> {
    match reply {
        Reply::Done => Seq::empty(),
        Reply::Forward => seq![CommandView::Forward { id, message }],
        Reply::Complete => seq![CommandView::Complete { id }],
        Reply::Rejected => seq![CommandView::Rejected],
    }
}

impl DispatcherView {
    /// The state after the actions of `ready` and whatever follows from them were started,
    /// and the commands issued; nothing happens where no block is loaded.
    pub open spec fn advance(self, ready: Seq<Seq<char>>) -> (DispatcherView, Seq<CommandView>) {
        match self.block {
            None => (self, Seq::empty()),
            Some(b) => {
                let p = self.begin(b).run(ready);
                (p.state(), p.out)
            },
        }
    }

    /// The state after the block `block` was loaded and its entry gate opened.
    pub open spec fn loaded(block: BlockView) -> (DispatcherView, Seq<CommandView>) {
        let fresh = DispatcherView {
            queue: union_ids(Seq::empty(), names(block.nodes)),
            ..DispatcherView::idle()
        };
        let p = fresh.begin(block).run(seq!["entry"@]);
        (p.state(), p.out)
    }

    /// The state after the running action `id` has ended by itself; nothing happens where no
    /// block is loaded or the action has ended before.
    pub open spec fn completed(self, id: Seq<char>) -> (DispatcherView, Seq<CommandView>) {
        match self.block {
            None => (self, Seq::empty()),
            Some(b) => if self.complete.contains(id) {
                (self, Seq::empty())
            } else {
                let p = self.begin(b).finished(id);
                (p.state(), p.out)
            },
        }
    }

    /// The state after the job of the running action `id` broke down: that is noted in the
    /// record, and the action is over as if it had ended by itself. Nothing happens where no
    /// block is loaded or the action does not run.
    pub open spec fn failed(self, id: Seq<char>) -> (DispatcherView, Seq<CommandView>) {
        match self.block {
            None => (self, Seq::empty()),
            Some(b) => if self.active.contains(id) {
                DispatcherView { block: Some(b.noted(EventKind::Fail, id)), ..self }.completed(id)
            } else {
                (self, Seq::empty())
            },
        }
    }

    /// The state after every running action was brought to its end and the record handed
    /// out; nothing happens where no block is loaded.
    pub open spec fn stopped(self) -> (DispatcherView, Seq<CommandView>) {
        match self.block {
            None => (self, Seq::empty()),
            Some(b) => {
                let p = self.begin(b).halted();
                (p.state(), p.out)
            },
        }
    }

    /// The state after the message was handed to the action `id`.
    pub open spec fn relayed(self, id: Seq<char>, message: MessageView) -> (
        DispatcherView,
        Seq<CommandView>,
    ) {
        match self.block {
            None => (self, Seq::empty()),
            Some(b) => match first(b.nodes, id) {
                None => (self, seq![CommandView::Rejected]),
                Some(i) => (
                    DispatcherView {
                        block: Some(b.with_nodes(b.nodes.update(i, b.nodes[i].updated(message).0))),
                        ..self
                    },
                    answer(b.nodes[i].updated(message).1, id, message),
                ),
            },
        }
    }

    /// The state after the message was dealt with. Messages that name an action go to that
    /// action; a key goes to the action that holds the keyboard, else to the one that holds
    /// the foreground; an event of the user interface goes to the one that holds the
    /// foreground; the end of an action, by itself or by a breakdown of its job, takes effect
    /// on the graph; an interrupt or the end of the block stops what runs and unloads the
    /// block. Without a block nothing happens.
    pub open spec fn handled(self, message: MessageView) -> (DispatcherView, Seq<CommandView>) {
        if self.block is None {
            (self, Seq::empty())
        } else {
            match message {
                MessageView::Code(_, id, _) => self.relayed(id, message),
                MessageView::Value(_, id, _, _) => self.relayed(id, message),
                MessageView::QueryResponse(id, _) => self.relayed(id, message),
                MessageView::KeyPress(_) => match self.monitor_kb {
                    Some(id) => self.relayed(id, message),
                    None => match self.foreground {
                        Some(id) => self.relayed(id, message),
                        None => (self, Seq::empty()),
                    },
                },
                MessageView::UIEvent(_, _) => match self.foreground {
                    Some(id) => self.relayed(id, message),
                    None => (self, Seq::empty()),
                },
                MessageView::ActionComplete(id) => self.completed(id),
                MessageView::ActionFailed(id) => self.failed(id),
                MessageView::Interrupt => (DispatcherView::idle(), self.stopped().1),
                MessageView::BlockComplete => (DispatcherView::idle(), self.stopped().1),
                _ => (self, seq![CommandView::Rejected]),
            }
        }
    }

    /// What is to be shown: the action that holds the foreground, else the backdrop of the
    /// one that holds the background.
    pub open spec fn scene(self) -> SceneView {
        match self.foreground {
            Some(id) => SceneView::Foreground(id),
            None => match self.background {
                Some(id) => SceneView::Background(id),
                None => SceneView::Blank,
            },
        }
    }
}

/// A sweep never adds to the queue, and adds to the next wave only where it takes an
/// action off the queue.
pub proof fn lemma_swept_shrinks(p: Pass, wave: Seq<Seq<char>>, k: int)
    ensures
        p.swept(wave, k).queue.len() <= p.queue.len(),
        p.swept(wave, k).queue.len() < p.queue.len() || p.swept(wave, k).wave == p.wave,
    decreases k,
{
    if k > 0 {
        lemma_swept_shrinks(p, wave, k - 1);
        let q = p.swept(wave, k - 1);
        lemma_without_id(q.queue, wave[k - 1]);
    }
}

/// A round of endings never adds to the running actions, and adds to the next wave only
/// where it ends one.
pub proof fn lemma_closed_shrinks(p: Pass, wave: Seq<Seq<char>>, k: int)
    ensures
        p.closed(wave, k).active.len() <= p.active.len(),
        p.closed(wave, k).active.len() < p.active.len() || p.closed(wave, k).wave == p.wave,
    decreases k,
{
    if k > 0 {
        lemma_closed_shrinks(p, wave, k - 1);
        let q = p.closed(wave, k - 1);
        lemma_without_id(q.active, wave[k - 1]);
    }
}

/// What is noted for the next wave before a wave begins plays no part in it.
pub proof fn lemma_advanced_fresh(p: Pass, wave: Seq<Seq<char>>, fuel: nat)
    requires
        wave.len() == 0 ==> p.wave.len() == 0,
        wave.len() > 0 ==> fuel > 0,
    ensures
        p.advanced(wave, fuel) == (Pass { wave: Seq::empty(), ..p }).advanced(wave, fuel),
{
    let q = Pass { wave: Seq::empty(), ..p };
    if wave.len() == 0 {
        assert(p.wave =~= Seq::empty());
        assert(q == p);
    } else {
        assert(Pass { wave: Seq::empty(), ..q } == q);
    }
}

/// What is noted for the next wave before a round of endings begins plays no part in it.
pub proof fn lemma_cascaded_fresh(p: Pass, wave: Seq<Seq<char>>, fuel: nat)
    requires
        wave.len() == 0 ==> p.wave.len() == 0,
        wave.len() > 0 ==> fuel > 0,
    ensures
        p.cascaded(wave, fuel) == (Pass { wave: Seq::empty(), ..p }).cascaded(wave, fuel),
{
    let q = Pass { wave: Seq::empty(), ..p };
    if wave.len() == 0 {
        assert(p.wave =~= Seq::empty());
        assert(q == p);
    } else {
        assert(Pass { wave: Seq::empty(), ..q } == q);
    }
}

/// The dispatcher at work on its block.
struct Work {
    block: Block,
    queue: IdSet,
    active: IdSet,
    complete: IdSet,
    foreground: Option<ID>,
    background: Option<ID>,
    monitor_kb: Option<ID>,
    wave: IdSet,
    ready: IdSet,
    out: Vec<Command>,
}

impl View for Work {
    type V = Pass;

    closed spec fn view(&self) -> Pass {
        Pass {
            block: self.block@,
            queue: self.queue@,
            active: self.active@,
            complete: self.complete@,
            foreground: opt_text(self.foreground),
            background: opt_text(self.background),
            monitor_kb: opt_text(self.monitor_kb),
            wave: self.wave@,
            ready: self.ready@,
            out: command_views(self.out@),
        }
    }
}

impl Work {
    fn issue(&mut self, command: Command)
        ensures
            final(self)@ == (Pass { out: old(self)@.out.push(command@), ..old(self)@ }),
    {
        self.out.push(command);
        assert(command_views(self.out@) =~= old(self)@.out.push(command@));
    }

    fn start(&mut self, id: &ID)
        ensures
            final(self)@ == old(self)@.started(id@),
    {
        if self.block.has_view(id) {
            self.foreground = Some(id.clone());
        }
        if self.block.has_background(id) {
            self.background = Some(id.clone());
        }
        if self.block.captures_keystrokes(id) {
            self.monitor_kb = Some(id.clone());
        }
        let deps = self.block.dependents(id);
        let mut wave = IdSet::new();
        core::mem::swap(&mut self.wave, &mut wave);
        let mut k: usize = 0;
        while k < deps.len()
            invariant
                k <= deps@.len(),
                wave@ == joined(self.block@, deps@, k as int, old(self)@.wave),
            decreases deps@.len() - k,
        {
            let d = deps.get(k);
            match self.block.is_ready(d) {
                Some(false) => {},
                _ => {
                    wave.insert(d.clone());
                },
            }
            k += 1;
        }
        self.wave = wave;
        self.queue.remove(id.as_str());
        let jobs = self.block.execute(id);
        self.active.insert(id.clone());
        self.issue(Command::Run { id: id.clone(), jobs });
    }

    fn skip(&mut self, id: &ID)
        ensures
            final(self)@ == old(self)@.skipped(id@),
    {
        self.queue.remove(id.as_str());
        self.complete.insert(id.clone());
        let (ready, expired) = self.block.skip(id, &self.complete);
        self.wave.extend(&ready);
        self.wave.extend(&expired);
        self.issue(Command::Skip { id: id.clone() });
    }

    fn look(&mut self, id: &ID)
        ensures
            final(self)@ == old(self)@.moved(id@),
    {
        if self.queue.contains(id.as_str()) {
            match self.block.is_expired(id) {
                Some(true) => self.skip(id),
                _ => self.start(id),
            }
        }
    }

    fn sweep(&mut self, wave: &IdSet)
        ensures
            final(self)@ == old(self)@.swept(wave@, wave@.len() as int),
    {
        let mut k: usize = 0;
        while k < wave.len()
            invariant
                k <= wave@.len(),
                self@ == old(self)@.swept(wave@, k as int),
            decreases wave@.len() - k,
        {
            self.look(wave.get(k));
            k += 1;
        }
    }

    fn advance(&mut self, ready: IdSet)
        ensures
            final(self)@ == (Pass { wave: Seq::empty(), ..old(self)@ }).advanced(
                ready@,
                (old(self)@.queue.len() + 1) as nat,
            ),
    {
        self.wave = IdSet::new();
        let ghost start = self@;
        let ghost mut fuel: nat = (self@.queue.len() + 1) as nat;
        let mut wave = ready;
        while !wave.is_empty()
            invariant
                self@.wave.len() == 0,
                wave@.len() > 0 ==> fuel > self@.queue.len(),
                start.advanced(ready@, (start.queue.len() + 1) as nat) == self@.advanced(
                    wave@,
                    fuel,
                ),
            decreases fuel,
        {
            let ghost before = self@;
            assert(before.wave =~= Seq::empty());
            assert(before == Pass { wave: Seq::empty(), ..before });
            self.sweep(&wave);
            let ghost next = self@;
            proof {
                lemma_swept_shrinks(before, wave@, wave@.len() as int);
                assert(before.advanced(wave@, fuel) == next.advanced(next.wave, (fuel - 1) as nat));
                lemma_advanced_fresh(next, next.wave, (fuel - 1) as nat);
                fuel = (fuel - 1) as nat;
            }
            wave = IdSet::new();
            core::mem::swap(&mut self.wave, &mut wave);
        }
    }

    fn wrap(&mut self, id: &ID)
        ensures
            final(self)@ == old(self)@.wrapped(id@),
    {
        if self.active.contains(id.as_str()) {
            self.active.remove(id.as_str());
            self.complete.insert(id.clone());
            let artifacts = self.block.artifacts(id);
            let (ready, expired) = self.block.wrap(id, &self.complete);
            self.ready.extend(&ready);
            self.wave.extend(&expired);
            self.issue(Command::Wrap { id: id.clone(), artifacts });
        }
    }

    fn close(&mut self, wave: &IdSet)
        ensures
            final(self)@ == old(self)@.closed(wave@, wave@.len() as int),
    {
        let mut k: usize = 0;
        while k < wave.len()
            invariant
                k <= wave@.len(),
                self@ == old(self)@.closed(wave@, k as int),
            decreases wave@.len() - k,
        {
            self.wrap(wave.get(k));
            k += 1;
        }
    }

    fn cascade(&mut self, first: IdSet)
        requires
            old(self)@.wave.len() == 0,
        ensures
            final(self)@ == old(self)@.cascaded(first@, (old(self)@.active.len() + 1) as nat),
    {
        let ghost start = self@;
        let ghost mut fuel: nat = (self@.active.len() + 1) as nat;
        let mut wave = first;
        while !wave.is_empty()
            invariant
                self@.wave.len() == 0,
                wave@.len() > 0 ==> fuel > self@.active.len(),
                start.cascaded(first@, (start.active.len() + 1) as nat) == self@.cascaded(
                    wave@,
                    fuel,
                ),
            decreases fuel,
        {
            let ghost before = self@;
            assert(before.wave =~= Seq::empty());
            assert(before == Pass { wave: Seq::empty(), ..before });
            self.close(&wave);
            let ghost next = self@;
            proof {
                lemma_closed_shrinks(before, wave@, wave@.len() as int);
                assert(before.cascaded(wave@, fuel) == next.cascaded(next.wave, (fuel - 1) as nat));
                lemma_cascaded_fresh(next, next.wave, (fuel - 1) as nat);
                fuel = (fuel - 1) as nat;
            }
            wave = IdSet::new();
            core::mem::swap(&mut self.wave, &mut wave);
        }
    }

    fn halt(&mut self)
        ensures
            final(self)@ == old(self)@.halted(),
    {
        let active = self.active.clone();
        let mut k: usize = 0;
        while k < active.len()
            invariant
                k <= active@.len(),
                active@ == old(self)@.active,
                self@ == old(self)@.halting(active@, k as int),
            decreases active@.len() - k,
        {
            let id = active.get(k);
            let artifacts = self.block.artifacts(id);
            let _ = self.block.wrap(id, &self.complete);
            self.issue(Command::Wrap { id: id.clone(), artifacts });
            k += 1;
        }
        let events = self.block.finish();
        self.issue(Command::Flush { events });
    }

    fn clear(&mut self)
        ensures
            final(self)@ == old(self)@.cleared(),
    {
        let gone = match &self.foreground {
            Some(id) => self.complete.contains(id.as_str()),
            None => false,
        };
        if gone {
            self.foreground = None;
        }
        let gone = match &self.background {
            Some(id) => self.complete.contains(id.as_str()),
            None => false,
        };
        if gone {
            self.background = None;
        }
        let gone = match &self.monitor_kb {
            Some(id) => self.complete.contains(id.as_str()),
            None => false,
        };
        if gone {
            self.monitor_kb = None;
        }
    }

    fn conclude(&mut self)
        ensures
            final(self)@ == old(self)@.concluded(),
    {
        if self.active.is_empty() {
            if self.queue.is_empty() {
                self.issue(Command::BlockComplete);
            } else {
                self.issue(Command::Deadlock);
            }
        }
    }
}

impl Dispatcher {
    /// A dispatcher with no block loaded.
    pub fn new() -> (r: Dispatcher)
        ensures
            r.model() == DispatcherView::idle(),
    {
        Dispatcher {
            block: None,
            queue: IdSet::new(),
            active: IdSet::new(),
            complete: IdSet::new(),
            foreground: None,
            background: None,
            monitor_kb: None,
        }
    }

    /// The number of the block that is loaded.
    pub fn block_id(&self) -> (r: Option<usize>)
        ensures
            r == match self.model().block {
                Some(b) => Some(b.id),
                None => None,
            },
    {
        match &self.block {
            Some(b) => Some(b.id()),
            None => None,
        }
    }

    /// Whether a block is loaded.
    pub fn is_active(&self) -> (r: bool)
        ensures
            r == self.model().block is Some,
    {
        self.block.is_some()
    }

    fn open(&mut self) -> (r: Option<Work>)
        ensures
            match r {
                Some(w) => old(self).model().block is Some && w@ == old(self).model().begin(
                    old(self).model().block->0,
                ),
                None => old(self).model().block is None && final(self).model() == old(self).model(),
            },
    {
        match self.block.take() {
            None => None,
            Some(block) => {
                let mut taken = Dispatcher::new();
                core::mem::swap(self, &mut taken);
                let Dispatcher {
                    block: _,
                    queue,
                    active,
                    complete,
                    foreground,
                    background,
                    monitor_kb,
                } = taken;
                let out: Vec<Command> = Vec::new();
                let w = Work {
                    block,
                    queue,
                    active,
                    complete,
                    foreground,
                    background,
                    monitor_kb,
                    wave: IdSet::new(),
                    ready: IdSet::new(),
                    out,
                };
                assert(w@.out =~= Seq::empty());
                Some(w)
            },
        }
    }

    fn close(&mut self, work: Work) -> (r: Vec<Command>)
        ensures
            final(self).model() == work@.state(),
            command_views(r@) == work@.out,
    {
        let Work {
            block,
            queue,
            active,
            complete,
            foreground,
            background,
            monitor_kb,
            wave: _,
            ready: _,
            out,
        } = work;
        self.block = Some(block);
        self.queue = queue;
        self.active = active;
        self.complete = complete;
        self.foreground = foreground;
        self.background = background;
        self.monitor_kb = monitor_kb;
        out
    }

    /// Loads the block, queues all its actions and opens its entry gate.
    pub fn init(&mut self, block: Block) -> (r: Vec<Command>)
        ensures
            (final(self).model(), command_views(r@)) == DispatcherView::loaded(block@),
    {
        let queue = IdSet::from_vec(&block.actions());
        let out: Vec<Command> = Vec::new();
        let mut work = Work {
            block,
            queue,
            active: IdSet::new(),
            complete: IdSet::new(),
            foreground: None,
            background: None,
            monitor_kb: None,
            wave: IdSet::new(),
            ready: IdSet::new(),
            out,
        };
        assert(work@.out =~= Seq::empty());
        work.advance(IdSet::single(String::from_str("entry")));
        work.conclude();
        self.close(work)
    }

    /// Starts the actions of `ready` that have not started, passing over those that are
    /// marked as never to run, then those that become ready by that, and so on; says at
    /// the end whether the block is over.
    pub fn next(&mut self, ready: IdSet) -> (r: Vec<Command>)
        ensures
            (final(self).model(), command_views(r@)) == old(self).model().advance(ready@),
    {
        match self.open() {
            None => {
                let r: Vec<Command> = Vec::new();
                assert(command_views(r@) =~= Seq::empty());
                r
            },
            Some(mut work) => {
                work.advance(ready);
                work.conclude();
                self.close(work)
            },
        }
    }

    /// Takes note that the running action `id` has ended: brings it to its end, and with it
    /// the running actions that depend on it, then starts what has become ready.
    pub fn complete(&mut self, id: ID) -> (r: Vec<Command>)
        ensures
            (final(self).model(), command_views(r@)) == old(self).model().completed(id@),
    {
        if self.block.is_none() || self.complete.contains(id.as_str()) {
            let r: Vec<Command> = Vec::new();
            assert(command_views(r@) =~= Seq::empty());
            return r;
        }
        match self.open() {
            None => {
                let r: Vec<Command> = Vec::new();
                assert(command_views(r@) =~= Seq::empty());
                r
            },
            Some(mut work) => {
                work.cascade(IdSet::single(id));
                work.clear();
                let ready = work.ready.clone();
                work.advance(ready);
                work.conclude();
                self.close(work)
            },
        }
    }

    /// Takes note that the job of the running action `id` broke down: the record says so,
    /// and the action is over as if it had ended by itself, so that the block goes on.
    pub fn fail(&mut self, id: ID) -> (r: Vec<Command>)
        ensures
            (final(self).model(), command_views(r@)) == old(self).model().failed(id@),
    {
        if !self.active.contains(id.as_str()) {
            let r: Vec<Command> = Vec::new();
            assert(command_views(r@) =~= Seq::empty());
            return r;
        }
        match &mut self.block {
            None => {
                let r: Vec<Command> = Vec::new();
                assert(command_views(r@) =~= Seq::empty());
                return r;
            },
            Some(block) => {
                block.record(EventKind::Fail, &id);
            },
        }
        self.complete(id)
    }

    /// Brings every running action to its end without following up what that means for
    /// the others, and hands out the record of the block.
    pub fn wrap_unfinished(&mut self) -> (r: Vec<Command>)
        ensures
            (final(self).model(), command_views(r@)) == old(self).model().stopped(),
    {
        match self.open() {
            None => {
                let r: Vec<Command> = Vec::new();
                assert(command_views(r@) =~= Seq::empty());
                r
            },
            Some(mut work) => {
                work.halt();
                self.close(work)
            },
        }
    }

    fn relay(&mut self, id: &ID, message: Message) -> (r: Vec<Command>)
        ensures
            (final(self).model(), command_views(r@)) == old(self).model().relayed(id@, message@),
    {
        let mut r: Vec<Command> = Vec::new();
        let copy = message.clone();
        match &mut self.block {
            None => {},
            Some(block) => {
                match block.update(id, message) {
                    Reply::Done => {},
                    Reply::Forward => {
                        r.push(Command::Forward { id: id.clone(), message: copy });
                    },
                    Reply::Complete => {
                        r.push(Command::Complete { id: id.clone() });
                    },
                    Reply::Rejected => {
                        r.push(Command::Rejected);
                    },
                }
            },
        }
        assert(command_views(r@) =~= old(self).model().relayed(id@, message@).1);
        r
    }

    /// Deals with a message.
    pub fn update(&mut self, message: Message) -> (r: Vec<Command>)
        ensures
            (final(self).model(), command_views(r@)) == old(self).model().handled(message@),
    {
        if self.block.is_none() {
            let r: Vec<Command> = Vec::new();
            assert(command_views(r@) =~= Seq::empty());
            return r;
        }
        let target: Option<ID> = match &message {
            Message::Code(_, id, _) => Some(id.clone()),
            Message::Value(_, id, _, _) => Some(id.clone()),
            Message::QueryResponse(id, _) => Some(id.clone()),
            Message::KeyPress(_) => match &self.monitor_kb {
                Some(id) => Some(id.clone()),
                None => crate::action::clone_text(&self.foreground),
            },
            Message::UIEvent(_, _) => crate::action::clone_text(&self.foreground),
            _ => None,
        };
        match message {
            Message::Code(..) | Message::Value(..) | Message::QueryResponse(..) | Message::KeyPress(
                ..,
            ) | Message::UIEvent(..) => match target {
                Some(id) => self.relay(&id, message),
                None => {
                    let r: Vec<Command> = Vec::new();
                    assert(command_views(r@) =~= Seq::empty());
                    r
                },
            },
            Message::ActionComplete(id) => self.complete(id),
            Message::ActionFailed(id) => self.fail(id),
            Message::Interrupt | Message::BlockComplete => {
                let r = self.wrap_unfinished();
                *self = Dispatcher::new();
                r
            },
            _ => {
                let mut r: Vec<Command> = Vec::new();
                r.push(Command::Rejected);
                assert(command_views(r@) =~= seq![CommandView::Rejected]);
                r
            },
        }
    }

    /// What is to be shown.
    pub fn view(&self) -> (r: Scene)
        ensures
            r@ == self.model().scene(),
    {
        match &self.foreground {
            Some(id) => Scene::Foreground(id.clone()),
            None => match &self.background {
                Some(id) => Scene::Background(id.clone()),
                None => Scene::Blank,
            },
        }
    }

    /// The title of the block that is loaded, or nothing.
    pub fn active_title(&self) -> (r: String)
        ensures
            r@ == match self.model().block {
                Some(b) => b.title,
                None => Seq::empty(),
            },
    {
        match &self.block {
            Some(b) => b.title(),
            None => String::new(),
        }
    }
}

} // verus!
