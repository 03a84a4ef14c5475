use neurotask::action::{Action, Artifact, Info, Job};
use neurotask::block::{Block, EventKind};
use neurotask::dispatch::{Command, Dispatcher, Scene};
use neurotask::idset::IdSet;

fn instruction(id: &str) -> Action {
    Action::Instruction { prompt: "Read this".to_string(), timer: 0, info: Info::named(id) }
}

fn ids(set: &IdSet) -> Vec<String> {
    set.to_vec()
}

fn sorted(mut v: Vec<String>) -> Vec<String> {
    v.sort();
    v
}

fn names(list: &[&str]) -> Vec<String> {
    list.iter().map(|s| s.to_string()).collect()
}

fn brief(commands: &[Command]) -> Vec<String> {
    commands
        .iter()
        .map(|c| match c {
            Command::Run { id, .. } => format!("run {}", id),
            Command::Wrap { id, .. } => format!("wrap {}", id),
            Command::Skip { id } => format!("skip {}", id),
            Command::Forward { id, .. } => format!("forward {}", id),
            Command::Complete { id } => format!("complete {}", id),
            Command::Flush { events } => format!("flush {}", events.len()),
            Command::BlockComplete => "block complete".to_string(),
            Command::Deadlock => "deadlock".to_string(),
            Command::Rejected => "rejected".to_string(),
        })
        .collect()
}

fn chain() -> Block {
    let mut block = Block::new(
        "Chain".to_string(),
        String::new(),
        vec![instruction(""), instruction(""), instruction("")],
    );
    block.init(1).expect("a chain of three is a valid block");
    assert!(block.runnable());
    block
}

#[test]
fn linear_chain_gets_default_names_and_predecessors() {
    let block = chain();
    assert_eq!(block.actions(), names(&["entry", "1", "2", "3", "exit"]));
    let after = |id: &str| sorted(ids(&block.action(&id.to_string()).unwrap().after()));
    assert_eq!(after("entry"), names(&[]));
    assert_eq!(after("1"), names(&["entry"]));
    assert_eq!(after("2"), names(&["1", "entry"]));
    assert_eq!(after("3"), names(&["2", "entry"]));
    assert_eq!(after("exit"), names(&["3"]));
    assert_eq!(sorted(ids(&block.successors(&"entry".to_string()))), names(&["1", "2", "3"]));
    assert_eq!(ids(&block.successors(&"3".to_string())), names(&["exit"]));
}

#[test]
fn linear_chain_ends_with_one_terminal_signal() {
    let mut dispatcher = Dispatcher::new();
    let first = dispatcher.init(chain());
    assert_eq!(brief(&first), names(&["skip entry", "run 1"]));
    assert!(matches!(dispatcher.view(), Scene::Foreground(id) if id == "1"));
    let second = dispatcher.complete("1".to_string());
    assert_eq!(brief(&second), names(&["wrap 1", "run 2"]));
    let third = dispatcher.complete("2".to_string());
    assert_eq!(brief(&third), names(&["wrap 2", "run 3"]));
    let last = dispatcher.complete("3".to_string());
    assert_eq!(brief(&last), names(&["wrap 3", "skip exit", "block complete"]));
    assert!(dispatcher.queue.is_empty());
    assert!(dispatcher.active.is_empty());
    let again = dispatcher.complete("3".to_string());
    assert!(again.is_empty());
    let mut all: Vec<String> = Vec::new();
    for commands in [&first, &second, &third, &last, &again] {
        all.extend(brief(commands));
    }
    assert_eq!(all.iter().filter(|c| c.as_str() == "block complete").count(), 1);
    assert_eq!(all.iter().filter(|c| c.as_str() == "deadlock").count(), 0);
}

#[test]
fn template_is_inlined_between_its_own_gates() {
    let template = Action::Template {
        source: "pair.yml".to_string(),
        params: vec![],
        info: Info::named("T"),
        actions: vec![instruction(""), instruction("")],
    };
    let mut x_info = Info::named("X");
    x_info.after = Some(IdSet::single("T".to_string()));
    let x = Action::Instruction { prompt: "X".to_string(), timer: 0, info: x_info };
    let mut block = Block::new("Nested".to_string(), String::new(), vec![template, x]);
    block.init(1).unwrap();
    assert_eq!(
        block.actions(),
        names(&["entry", "T~entry", "T~1", "T~2", "T~exit", "X", "exit"])
    );
    let after = |id: &str| sorted(ids(&block.action(&id.to_string()).unwrap().after()));
    assert_eq!(after("X"), names(&["T~exit", "entry"]));
    assert!(!after("X").contains(&"T".to_string()));
    assert_eq!(after("T~1"), names(&["entry"]));
    assert_eq!(after("T~2"), names(&["T~1", "entry"]));
    assert_eq!(after("T~entry"), names(&["entry"]));
    assert_eq!(after("T~exit"), names(&["T~2", "entry"]));
    assert_eq!(after("exit"), names(&["T~entry", "T~exit", "X"]));
    assert_eq!(block.is_expired(&"T~entry".to_string()), Some(true));
    assert_eq!(block.is_expired(&"T~exit".to_string()), Some(true));
    assert!(block.runnable());

    let mut dispatcher = Dispatcher::new();
    let first = dispatcher.init(block);
    assert_eq!(brief(&first), names(&["skip entry", "skip T~entry", "run T~1"]));
    assert_eq!(brief(&dispatcher.complete("T~1".to_string())), names(&["wrap T~1", "run T~2"]));
    assert_eq!(
        brief(&dispatcher.complete("T~2".to_string())),
        names(&["wrap T~2", "skip T~exit", "run X"])
    );
    assert_eq!(
        brief(&dispatcher.complete("X".to_string())),
        names(&["wrap X", "skip exit", "block complete"])
    );
}

#[test]
fn companion_starts_beside_its_trigger_and_expires_with_it() {
    let a = Action::Instruction { prompt: "A".to_string(), timer: 0, info: Info::named("A") };
    let mut info = Info::named("B");
    info.with = Some("A".to_string());
    let b = Action::Audio { source: "b.wav".to_string(), info };
    let mut block = Block::new("Pair".to_string(), String::new(), vec![a, b]);
    block.init(1).unwrap();
    assert_eq!(ids(&block.dependents(&"A".to_string())), names(&["B"]));
    assert_eq!(block.is_ready(&"B".to_string()), None);
    assert!(block.runnable());

    let mut dispatcher = Dispatcher::new();
    let first = dispatcher.init(block);
    assert_eq!(brief(&first), names(&["skip entry", "run A", "run B"]));
    match &first[2] {
        Command::Run { jobs, .. } => {
            assert!(matches!(&jobs[..], [Job::Play(source)] if source == "b.wav"))
        }
        other => panic!("{:?}", other),
    }
    let second = dispatcher.complete("A".to_string());
    assert_eq!(brief(&second), names(&["wrap A", "wrap B", "skip exit", "block complete"]));
    let block = dispatcher.block.as_ref().unwrap();
    assert_eq!(block.is_expired(&"B".to_string()), Some(true));
    let kinds: Vec<(EventKind, String)> =
        block.events.iter().map(|e| (e.kind, e.id.clone())).collect();
    assert_eq!(
        kinds,
        vec![
            (EventKind::Skip, "entry".to_string()),
            (EventKind::Start, "A".to_string()),
            (EventKind::Start, "B".to_string()),
            (EventKind::Wrap, "A".to_string()),
            (EventKind::Wrap, "B".to_string()),
            (EventKind::Skip, "exit".to_string()),
        ]
    );
}

#[test]
fn companion_that_ended_first_is_left_alone() {
    let a = Action::Instruction { prompt: "A".to_string(), timer: 0, info: Info::named("A") };
    let mut info = Info::named("B");
    info.with = Some("A".to_string());
    let b = Action::Selection {
        prompt: "B".to_string(),
        options: names(&["x", "y"]),
        info,
        choice: None,
    };
    let mut block = Block::new("Pair".to_string(), String::new(), vec![a, b]);
    block.init(1).unwrap();
    let mut dispatcher = Dispatcher::new();
    dispatcher.init(block);
    let first = dispatcher.complete("B".to_string());
    assert_eq!(brief(&first), names(&["wrap B"]));
    match &first[0] {
        Command::Wrap { artifacts, .. } => {
            assert!(matches!(&artifacts[..], [Artifact::Choice(None)]))
        }
        other => panic!("{:?}", other),
    }
    let second = dispatcher.complete("A".to_string());
    assert_eq!(brief(&second), names(&["wrap A", "skip exit", "block complete"]));
    let block = dispatcher.block.as_ref().unwrap();
    assert_eq!(block.is_expired(&"B".to_string()), None);
}
