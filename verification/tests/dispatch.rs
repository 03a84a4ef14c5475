use neurotask::action::{Action, Artifact, Info, Job, Question, Reply};
use neurotask::block::{Block, EventKind};
use neurotask::comm::{Message, Value};
use neurotask::dispatch::{Command, Dispatcher, Scene};
use neurotask::idset::IdSet;

fn set(ids: &[&str]) -> IdSet {
    IdSet::from_vec(&ids.iter().map(|s| s.to_string()).collect())
}

fn names(list: &[&str]) -> Vec<String> {
    list.iter().map(|s| s.to_string()).collect()
}

fn note(id: &str, after: Option<&[&str]>) -> Action {
    let mut info = Info::named(id);
    info.after = after.map(set);
    Action::Instruction { prompt: id.to_string(), timer: 0, info }
}

fn brief(commands: &[Command]) -> Vec<String> {
    commands
        .iter()
        .map(|c| match c {
            Command::Run { id, .. } => format!("run {}", id),
            Command::Wrap { id, .. } => format!("wrap {}", id),
            Command::Skip { id } => format!("skip {}", id),
            Command::Forward { id, .. } => format!("forward {}", id),
            Command::Complete { id } => format!("complete {}", id),
            Command::Flush { events } => format!("flush {}", events.len()),
            Command::BlockComplete => "block complete".to_string(),
            Command::Deadlock => "deadlock".to_string(),
            Command::Rejected => "rejected".to_string(),
        })
        .collect()
}

fn load(actions: Vec<Action>) -> (Dispatcher, Vec<Command>) {
    let mut block = Block::new("Title".to_string(), String::new(), actions);
    block.init(3).unwrap();
    let mut dispatcher = Dispatcher::new();
    let commands = dispatcher.init(block);
    (dispatcher, commands)
}

#[test]
fn idle_dispatcher_does_nothing() {
    let mut dispatcher = Dispatcher::new();
    assert!(!dispatcher.is_active());
    assert_eq!(dispatcher.block_id(), None);
    assert_eq!(dispatcher.active_title(), "");
    assert!(matches!(dispatcher.view(), Scene::Blank));
    assert!(dispatcher.complete("a".to_string()).is_empty());
    assert!(dispatcher.next(set(&["a"])).is_empty());
    assert!(dispatcher.update(Message::Interrupt).is_empty());
    assert!(dispatcher.update(Message::ActionComplete("a".to_string())).is_empty());
    assert!(dispatcher.wrap_unfinished().is_empty());
}

#[test]
fn loaded_dispatcher_knows_its_block() {
    let (dispatcher, _) = load(vec![note("a", None)]);
    assert!(dispatcher.is_active());
    assert_eq!(dispatcher.block_id(), Some(3));
    assert_eq!(dispatcher.active_title(), "Title");
    assert_eq!(dispatcher.queue.to_vec(), names(&["exit"]));
    assert_eq!(dispatcher.active.to_vec(), names(&["a"]));
    assert_eq!(dispatcher.complete.to_vec(), names(&["entry"]));
}

#[test]
fn fork_and_join_wait_for_every_predecessor() {
    let (mut dispatcher, first) = load(vec![
        note("a", None),
        note("b", Some(&["a"])),
        note("c", Some(&["a"])),
        note("d", Some(&["b", "c"])),
    ]);
    assert_eq!(brief(&first), names(&["skip entry", "run a"]));
    assert_eq!(
        brief(&dispatcher.complete("a".to_string())),
        names(&["wrap a", "run b", "run c"])
    );
    assert_eq!(brief(&dispatcher.complete("c".to_string())), names(&["wrap c"]));
    assert_eq!(
        dispatcher.block.as_ref().unwrap().is_ready(&"d".to_string()),
        Some(false)
    );
    assert_eq!(brief(&dispatcher.complete("c".to_string())), names(&[] as &[&str]));
    assert_eq!(brief(&dispatcher.complete("b".to_string())), names(&["wrap b", "run d"]));
    assert_eq!(
        brief(&dispatcher.complete("d".to_string())),
        names(&["wrap d", "skip exit", "block complete"])
    );
}

#[test]
fn action_is_never_started_twice() {
    let mut info = Info::named("b");
    info.with = Some("a".to_string());
    info.after = Some(IdSet::new());
    let b = Action::Audio { source: "b.wav".to_string(), info };
    let (mut dispatcher, first) = load(vec![note("a", Some(&["b"])), b]);
    assert_eq!(brief(&first), names(&["skip entry", "run b"]));
    let second = dispatcher.complete("b".to_string());
    assert_eq!(brief(&second), names(&["wrap b", "run a"]));
    let again = dispatcher.next(set(&["a", "b", "entry"]));
    assert!(again.is_empty());
    let starts = dispatcher
        .block
        .as_ref()
        .unwrap()
        .events
        .iter()
        .filter(|e| e.kind == EventKind::Start && e.id == "b")
        .count();
    assert_eq!(starts, 1);
}

#[test]
fn skipped_trigger_takes_its_dependents_along() {
    let mut gone = Info::named("gone");
    gone.timeout = Some(0);
    let gone = Action::Image { source: "g.png".to_string(), info: gone };
    let mut led = Info::named("led");
    led.with = Some("gone".to_string());
    let led = Action::Audio { source: "l.wav".to_string(), info: led };
    let (dispatcher, first) = load(vec![gone, led, note("next", Some(&["led"]))]);
    assert_eq!(
        brief(&first),
        names(&["skip entry", "skip gone", "skip led", "run next"])
    );
    assert_eq!(dispatcher.complete.to_vec(), names(&["entry", "gone", "led"]));
}

#[test]
fn circle_of_waiting_ends_in_a_deadlock() {
    let (dispatcher, first) = load(vec![note("a", Some(&["b"])), note("b", Some(&["a"]))]);
    assert_eq!(brief(&first), names(&["skip entry", "deadlock"]));
    assert!(dispatcher.active.is_empty());
    assert_eq!(dispatcher.queue.to_vec(), names(&["a", "b", "exit"]));
}

#[test]
fn empty_block_ends_in_a_deadlock() {
    let (_, first) = load(vec![]);
    assert_eq!(brief(&first), names(&["skip entry", "deadlock"]));
}

#[test]
fn trackers_follow_the_running_actions() {
    let mut info = Info::named("a");
    info.background = Some("back.png".to_string());
    info.monitor_kb = true;
    let a = Action::Audio { source: "a.wav".to_string(), info };
    let (mut dispatcher, _) = load(vec![a, note("b", None)]);
    assert_eq!(dispatcher.foreground, None);
    assert_eq!(dispatcher.background, Some("a".to_string()));
    assert_eq!(dispatcher.monitor_kb, Some("a".to_string()));
    assert!(matches!(dispatcher.view(), Scene::Background(id) if id == "a"));
    assert!(dispatcher.update(Message::KeyPress("Space".to_string())).is_empty());
    let wrapped = dispatcher.complete("a".to_string());
    assert_eq!(brief(&wrapped), names(&["wrap a", "run b"]));
    match &wrapped[0] {
        Command::Wrap { artifacts, .. } => match &artifacts[..] {
            [Artifact::Keystrokes(strokes)] => {
                assert_eq!(strokes.len(), 1);
                assert_eq!(strokes[0].key, "Space");
                assert!(strokes[0].to_line().ends_with("-UTC  Space"));
            }
            other => panic!("{:?}", other),
        },
        other => panic!("{:?}", other),
    }
    assert_eq!(dispatcher.background, None);
    assert_eq!(dispatcher.monitor_kb, None);
    assert_eq!(dispatcher.foreground, Some("b".to_string()));
    assert!(matches!(dispatcher.view(), Scene::Foreground(id) if id == "b"));
}

#[test]
fn messages_reach_the_action_they_are_for() {
    let choose = Action::Selection {
        prompt: "pick".to_string(),
        options: names(&["x", "y"]),
        info: Info::named("pick"),
        choice: None,
    };
    let (mut dispatcher, _) = load(vec![choose]);
    let rejected = dispatcher.update(Message::UIEvent(2, Value::Integer(1)));
    assert!(matches!(&rejected[..], [Command::Rejected]));
    let rejected = dispatcher.update(Message::UIEvent(1, Value::Bool(true)));
    assert!(matches!(&rejected[..], [Command::Rejected]));
    let done = dispatcher.update(Message::UIEvent(1, Value::Integer(2)));
    assert!(matches!(&done[..], [Command::Complete { id }] if id == "pick"));
    let wrapped = dispatcher.update(Message::ActionComplete("pick".to_string()));
    assert_eq!(brief(&wrapped), names(&["wrap pick", "skip exit", "block complete"]));
    match &wrapped[0] {
        Command::Wrap { artifacts, .. } => {
            assert!(matches!(&artifacts[..], [Artifact::Choice(Some(2))]))
        }
        other => panic!("{:?}", other),
    }
    let unknown = dispatcher.update(Message::Code("x".to_string(), "nobody".to_string(), 1));
    assert!(matches!(&unknown[..], [Command::Rejected]));
    let odd = dispatcher.update(Message::Wrap);
    assert!(matches!(&odd[..], [Command::Rejected]));
    let over = dispatcher.update(Message::BlockComplete);
    assert_eq!(brief(&over), names(&["flush 4"]));
    assert!(!dispatcher.is_active());
    assert!(dispatcher.queue.is_empty() && dispatcher.complete.is_empty());
}

#[test]
fn audio_hands_query_answers_on_to_its_job() {
    let audio = Action::Audio { source: "a.wav".to_string(), info: Info::named("a") };
    let (mut dispatcher, first) = load(vec![audio]);
    match &first[1] {
        Command::Run { id, jobs } => {
            assert_eq!(id, "a");
            assert!(matches!(&jobs[..], [Job::Play(s)] if s == "a.wav"));
        }
        other => panic!("{:?}", other),
    }
    let answer = Message::QueryResponse("a".to_string(), "ok".to_string());
    match &dispatcher.update(answer)[..] {
        [Command::Forward { id, message: Message::QueryResponse(to, text) }] => {
            assert_eq!(id, "a");
            assert_eq!(to, "a");
            assert_eq!(text, "ok");
        }
        other => panic!("{:?}", other),
    }
    let value = Message::Value("x".to_string(), "a".to_string(), 1, Value::Null);
    assert!(matches!(&dispatcher.update(value)[..], [Command::Rejected]));
}

#[test]
fn interrupt_stops_what_runs_and_unloads_the_block() {
    let mut info = Info::named("b");
    info.with = Some("a".to_string());
    let b = Action::Audio { source: "b.wav".to_string(), info };
    let (mut dispatcher, _) = load(vec![note("a", None), b, note("c", None)]);
    let stopped = dispatcher.update(Message::Interrupt);
    assert_eq!(brief(&stopped), names(&["wrap a", "wrap b", "flush 5"]));
    match &stopped[2] {
        Command::Flush { events } => {
            let lines: Vec<String> = events.iter().map(|e| e.to_line()).collect();
            assert!(lines[0].ends_with("-UTC  SKIP  entry"));
            assert!(lines[1].ends_with("-UTC  START  a"));
            assert!(lines[4].ends_with("-UTC  WRAP  b"));
            assert_eq!(lines[1], format!("{}  START  a", events[1].stamp));
        }
        other => panic!("{:?}", other),
    }
    assert!(!dispatcher.is_active());
    assert!(dispatcher.active.is_empty());
    assert_eq!(dispatcher.foreground, None);
    assert!(dispatcher.update(Message::ActionComplete("a".to_string())).is_empty());
}

#[test]
fn instruction_with_a_timer_counts_down() {
    let mut info = Info::named("read");
    info.timeout = Some(500);
    let timed = Action::Instruction { prompt: "p".to_string(), timer: 3000, info };
    assert!(matches!(&timed.run()[..], [Job::Timeout(500), Job::Countdown(3000)]));
    assert!(timed.has_view());
    assert!(!timed.has_background());
    assert!(!timed.captures_keystrokes());
    let plain = note("n", None);
    assert!(plain.run().is_empty());
    assert!(!Action::Nothing { info: Info::named("x") }.has_view());
}

#[test]
fn questionnaire_takes_answers_by_number() {
    let list = vec![
        Question::SingleChoice { prompt: "one".to_string(), options: names(&["a", "b"]), answer: None },
        Question::MultiChoice {
            prompt: "many".to_string(),
            options: names(&["a", "b"]),
            answer: vec![false, false],
        },
        Question::ShortAnswer { prompt: "say".to_string(), answer: String::new() },
        Question::Slider { prompt: "how".to_string(), low: 0, high: 10, step: 1, answer: 0 },
    ];
    let mut action = Action::Question { list, info: Info::named("q") };
    assert_eq!(action.update(Message::UIEvent(1, Value::Integer(1))), Reply::Done);
    assert_eq!(action.update(Message::UIEvent(1, Value::Integer(2))), Reply::Rejected);
    assert_eq!(action.update(Message::UIEvent(2, Value::Integer(1))), Reply::Done);
    assert_eq!(action.update(Message::UIEvent(2, Value::Integer(1))), Reply::Done);
    assert_eq!(action.update(Message::UIEvent(2, Value::Integer(0))), Reply::Done);
    assert_eq!(action.update(Message::UIEvent(2, Value::Integer(-1))), Reply::Rejected);
    assert_eq!(action.update(Message::UIEvent(3, Value::String("hi".to_string()))), Reply::Done);
    assert_eq!(action.update(Message::UIEvent(4, Value::Float(7))), Reply::Done);
    assert_eq!(action.update(Message::UIEvent(4, Value::Integer(7))), Reply::Rejected);
    assert_eq!(action.update(Message::UIEvent(0, Value::Integer(0))), Reply::Rejected);
    assert_eq!(action.update(Message::UIEvent(5, Value::Integer(0))), Reply::Rejected);
    assert_eq!(action.update(Message::Interrupt), Reply::Rejected);
    match &action.wrap()[..] {
        [Artifact::Responses(list)] => {
            assert!(matches!(&list[0], Question::SingleChoice { answer: Some(1), .. }));
            assert!(matches!(&list[1], Question::MultiChoice { answer, .. } if answer == &vec![true, false]));
            assert!(matches!(&list[2], Question::ShortAnswer { answer, .. } if answer == "hi"));
            assert!(matches!(&list[3], Question::Slider { answer: 7, .. }));
        }
        other => panic!("{:?}", other),
    }
    assert_eq!(action.wrap()[0].suffix(), ".response");
}

#[test]
fn satisfy_strikes_a_predecessor_off_once() {
    let mut action = note("d", Some(&["b", "c"]));
    assert_eq!(action.is_ready(), Some(false));
    assert!(!action.satisfy(&"b".to_string()));
    assert!(!action.satisfy(&"b".to_string()));
    assert_eq!(action.after().to_vec(), names(&["c"]));
    assert!(action.satisfy(&"c".to_string()));
    assert_eq!(action.is_ready(), Some(true));
    let mut lone = Action::Audio { source: "s".to_string(), info: Info::named("l") };
    assert!(!lone.satisfy(&"b".to_string()));
    assert_eq!(lone.is_ready(), None);
    lone.expire();
    assert_eq!(lone.is_expired(), Some(true));
    lone.set_id(&"m".to_string());
    assert!(lone.is("m"));
    lone.add_successor("s".to_string());
    lone.add_dependent("d".to_string());
    assert_eq!(lone.successors().to_vec(), names(&["s"]));
    assert_eq!(lone.dependents().to_vec(), names(&["d"]));
    assert_eq!(lone.clone().id(), "m");
}

#[test]
fn broken_job_ends_its_action_and_the_block_goes_on() {
    let audio = Action::Audio { source: "a.wav".to_string(), info: Info::named("a") };
    let (mut dispatcher, _) = load(vec![audio, note("b", None)]);
    assert!(dispatcher.update(Message::ActionFailed("b".to_string())).is_empty());
    let failed = dispatcher.update(Message::ActionFailed("a".to_string()));
    assert_eq!(brief(&failed), names(&["wrap a", "run b"]));
    let kinds: Vec<(EventKind, String)> = dispatcher
        .block
        .as_ref()
        .unwrap()
        .events
        .iter()
        .map(|e| (e.kind, e.id.clone()))
        .collect();
    assert_eq!(
        kinds[2..],
        [
            (EventKind::Fail, "a".to_string()),
            (EventKind::Wrap, "a".to_string()),
            (EventKind::Start, "b".to_string()),
        ]
    );
    assert!(dispatcher.block.as_ref().unwrap().events[2].to_line().ends_with("-UTC  FAIL  a"));
    assert!(dispatcher.fail("a".to_string()).is_empty());
    assert_eq!(
        brief(&dispatcher.fail("b".to_string())),
        names(&["wrap b", "skip exit", "block complete"])
    );
}
