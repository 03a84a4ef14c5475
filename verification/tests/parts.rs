use neurotask::comm::Value;
use neurotask::action::serialize::{multi_choice, single_choice};
use neurotask::config::{AudioConfig, Config};
use neurotask::global::{
    alignment, alignment_of, base_size, blank, fits, parse_number, parse_window_size, size_of,
    split_measures, Alignment,
};
use neurotask::task::{Effect, State, Task};
use neurotask::action::{Action, Info};
use neurotask::block::Block;
use neurotask::comm::Message;
use neurotask::logger::{Reaction, Response};
use neurotask::question::{
    listed, marked_options, MultiChoice, SingleChoice, StdAnswer, StdQuestion,
};
use neurotask::style::Button;
use neurotask::trisyllabic::TrisyllabicBlock;
use neurotask::util::{block_at, output_at, session_name, session_stamp, stamp, timestamp};

fn names(list: &[&str]) -> Vec<String> {
    list.iter().map(|s| s.to_string()).collect()
}

#[test]
fn defaults_are_as_documented() {
    assert_eq!(neurotask::global::default::window_size(), (900, 780));
    assert_eq!(neurotask::global::default::min_window_size(), (600, 600));
    assert!(neurotask::global::default::resizable());
    assert_eq!(neurotask::global::default::text_alignment(), "Center");
    assert_eq!(neurotask::gui::default::window_size(), (900, 780));
    assert!(neurotask::gui::default::resizable());
    assert_eq!(neurotask::gui::default::text_alignment(), "Center");
    assert_eq!(neurotask::window::default::size(), (900, 780));
}

#[test]
fn audio_setting_goes_by_its_name() {
    assert_eq!(AudioConfig::default(), AudioConfig::MonoAndTrigger);
    assert_eq!(AudioConfig::parse("Stereo"), Some(AudioConfig::Stereo));
    assert_eq!(AudioConfig::parse("MonoAndTrigger"), Some(AudioConfig::MonoAndTrigger));
    assert_eq!(AudioConfig::parse("stereo"), None);
    assert_eq!(AudioConfig::Stereo.name(), "Stereo");
    assert_eq!(AudioConfig::MonoAndTrigger.name(), "MonoAndTrigger");
}

#[test]
fn configuration_takes_the_events_of_its_screen() {
    let mut config = Config::default();
    assert!(config.use_trigger());
    assert!(!config.is_static());
    assert!(config.update(4, Value::Integer(2)));
    assert!(!config.use_trigger());
    assert!(!config.update(4, Value::Integer(3)));
    assert!(!config.update(5, Value::Integer(1)));
    assert!(!config.update(4, Value::Null));
    assert_eq!(config.audio, AudioConfig::Stereo);
    assert!(config.update(4, Value::Integer(1)));
    assert!(config.use_trigger());
    config.audio = AudioConfig::Stereo;
    config.reset();
    assert_eq!(config.audio, AudioConfig::MonoAndTrigger);
}

#[test]
fn buttons_differ_in_border_and_text() {
    assert!(Button::Todo.outlined() && Button::Inactive.outlined());
    assert!(!Button::Primary.outlined() && !Button::Done.outlined());
    assert!(Button::Done.dark_text() && Button::Active.dark_text());
    assert!(!Button::Secondary.dark_text() && !Button::Destructive.dark_text());
}

#[test]
fn single_choice_answers_with_the_chosen_option() {
    let mut q = SingleChoice::new("Q1", "Which?", &[1, 22, 333]);
    assert_eq!(q.options(), names(&["1", "22", "333"]));
    assert_eq!(q.id(), "Q1");
    assert_eq!(q.description(), "Which?");
    assert_eq!(q.response(), "[]");
    assert!(!q.update(StdAnswer::MultiChoice(vec![true])));
    assert!(q.update(StdAnswer::SingleChoice(Some(1))));
    assert_eq!(q.response(), "\"22\"");
    assert!(q.update(StdAnswer::SingleChoice(Some(9))));
    assert_eq!(q.response(), "[]");
    let summary = q.summary();
    assert_eq!(summary.id, "Q1");
    assert_eq!(summary.selection, "[]");
    assert_eq!(summary.options.len(), 3);
}

#[test]
fn multi_choice_answers_with_the_marked_options() {
    let mut q = MultiChoice::new("Q2", "Which?", &["Salary", "Lim\"ited", "Governor"]);
    assert_eq!(q.selected, vec![false, false, false]);
    assert_eq!(q.response(), "[]");
    assert!(!q.update(StdAnswer::SingleChoice(None)));
    assert!(q.update(StdAnswer::MultiChoice(vec![true, true])));
    assert_eq!(q.response(), "[\"Salary\", \"Lim\\\"ited\"]");
    assert_eq!(q.summary().selection, "[\"Salary\", \"Lim\\\"ited\"]");
    assert_eq!(
        marked_options(&names(&["a", "b", "c"]), &vec![false, true, true, true]),
        names(&["b", "c"])
    );
    assert_eq!(listed(&names(&["x"])), "[x]");
    assert_eq!(listed(&names(&["x", "y", "z"])), "[x, y, z]");
}

#[test]
fn standard_questions_behave_as_their_kind() {
    let mut one = StdQuestion::single_choice("Q", "Pick", &["a", "b"]);
    let mut many = StdQuestion::multi_choice("Q", "Pick", &["a", "b"]);
    assert_eq!(one.id(), "Q");
    assert_eq!(many.description(), "Pick");
    assert_eq!(one.options(), names(&["a", "b"]));
    assert!(one.update(StdAnswer::SingleChoice(Some(0))));
    assert!(!one.update(StdAnswer::MultiChoice(vec![])));
    assert!(many.update(StdAnswer::MultiChoice(vec![false, true])));
    assert!(!many.update(StdAnswer::SingleChoice(None)));
    assert_eq!(one.response(), "\"a\"");
    assert_eq!(many.response(), "[\"b\"]");
    assert_eq!(one.summary().selection, "\"a\"");
    assert_eq!(many.summary().options, names(&["a", "b"]));
}

#[test]
fn trisyllabic_blocks_are_three() {
    let block = TrisyllabicBlock { id: "2".to_string() };
    assert_eq!(block.id(), Some("2".to_string()));
    assert_eq!(block.title(), Some("2nd Block".to_string()));
    assert_eq!(
        block.description(),
        "Press the button every time you hear the word OBJECTIVE."
    );
    let stray = TrisyllabicBlock { id: "4".to_string() };
    assert_eq!(stray.id(), None);
    assert_eq!(stray.title(), None);
    assert_eq!(TrisyllabicBlock::audio_src("3"), Some("block3.wav".to_string()));
    assert_eq!(TrisyllabicBlock::audio_src("0"), None);
    assert!(TrisyllabicBlock::questionnaire("x").is_none());
    let asked = TrisyllabicBlock::questionnaire("1").unwrap();
    assert_eq!(asked.len(), 2);
    assert_eq!(asked[0].id(), "Q1");
    assert_eq!(asked[1].id(), "Q1");
    assert_eq!(asked[0].options(), names(&["Salary", "Limited", "Governor"]));
    assert!(matches!(asked[0], StdQuestion::SingleChoice(_)));
    assert!(matches!(asked[1], StdQuestion::MultiChoice(_)));
    let third = TrisyllabicBlock::questionnaire("3").unwrap();
    assert_eq!(third[1].options(), names(&["Pacific", "Traveler", "Reception"]));
    assert_eq!(TrisyllabicBlock { id: "1".to_string() }.title(), Some("1st Block".to_string()));
    assert_eq!(TrisyllabicBlock { id: "3".to_string() }.title(), Some("3rd Block".to_string()));
}

#[test]
fn moments_are_written_with_their_milliseconds() {
    assert_eq!(stamp("2024-01-02-03-04-05", 7), "2024-01-02-03-04-05-07-UTC");
    assert_eq!(stamp("2024-01-02-03-04-05", 42), "2024-01-02-03-04-05-42-UTC");
    assert_eq!(stamp("m", 999), "m-999-UTC");
    assert_eq!(output_at("a", "s"), "action-a-s");
    assert_eq!(block_at(12, "s"), "block-12-s");
    let now = timestamp();
    assert!(now.ends_with("-UTC"));
    let parts: Vec<&str> = now.split('-').collect();
    assert_eq!(parts.len(), 8);
    assert_eq!(parts[0].len(), 4);
    assert!(parts[..7].iter().all(|p| p.chars().all(|c| c.is_ascii_digit())));
    assert_eq!(session_name("2024-01-02 03-04-05.678"), "2024-01-02 03-04-05.678 UTC");
    let session = session_stamp();
    assert!(session.ends_with(" UTC"));
    assert_eq!(&session[4..5], "-");
    assert_eq!(&session[10..11], " ");
    assert_eq!(&session[19..20], ".");
    assert_eq!(session.len(), "2024-01-02 03-04-05.678 UTC".len());
}

#[test]
fn reactions_and_responses_carry_the_moment() {
    let reaction = Reaction::new("1".to_string(), "Space".to_string());
    assert_eq!(reaction.block, "1");
    assert_eq!(reaction.key_code, "Space");
    assert!(reaction.time.ends_with(" UTC"));
    let entry = StdQuestion::single_choice("Q", "Pick", &["a"]).summary();
    let response = Response::new("2".to_string(), entry);
    assert_eq!(response.block, "2");
    assert_eq!(response.entry.id, "Q");
    assert!(response.time.ends_with(" UTC"));
}

#[test]
fn window_sizes_are_read_from_text() {
    assert_eq!(parse_window_size("1024 x 768"), Some((1024, 768)));
    assert_eq!(parse_window_size("1024x768"), Some((1024, 768)));
    assert_eq!(parse_window_size(" \t+900 x\u{a0}780\n"), Some((900, 780)));
    assert_eq!(parse_window_size("0x0"), Some((0, 0)));
    assert_eq!(parse_window_size("4294967295 x 1"), Some((4294967295, 1)));
    assert_eq!(parse_window_size("4294967296 x 1"), None);
    assert_eq!(parse_window_size("99999999999999999999999 x 1"), None);
    assert_eq!(parse_window_size("1024 768"), None);
    assert_eq!(parse_window_size("1024 x"), None);
    assert_eq!(parse_window_size("x 768"), None);
    assert_eq!(parse_window_size("10 24 x 768"), None);
    assert_eq!(parse_window_size("-1 x 768"), None);
    assert_eq!(parse_window_size("+ x 768"), None);
    assert_eq!(parse_window_size("1 x 2 x 3"), None);
    assert_eq!(parse_window_size("0.8 x 0.8"), None);
    assert_eq!(parse_window_size(""), None);
    assert!(blank(' ') && blank('\u{3000}') && !blank('x'));
}

#[test]
fn measures_fit_their_window() {
    assert!(fits(1, 1));
    assert!(fits(780, 900));
    assert!(!fits(0, 900));
    assert!(!fits(901, 900));
}

#[test]
fn alignments_and_sizes_go_by_their_names() {
    assert_eq!(alignment("center"), Some(Alignment::Center));
    assert_eq!(alignment("Left"), Some(Alignment::Start));
    assert_eq!(alignment("START"), Some(Alignment::Start));
    assert_eq!(alignment("end"), Some(Alignment::End));
    assert_eq!(alignment("right"), Some(Alignment::End));
    assert_eq!(alignment("middle"), None);
    assert_eq!(alignment_of("center"), None);
    assert_eq!(alignment_of("CENTER"), Some(Alignment::Center));
    assert_eq!(base_size("tiny"), Some(16));
    assert_eq!(base_size("Small"), Some(20));
    assert_eq!(base_size("NORMAL"), Some(24));
    assert_eq!(base_size("large"), Some(28));
    assert_eq!(base_size("xlarge"), Some(32));
    assert_eq!(base_size("xxlarge"), Some(36));
    assert_eq!(base_size("huge"), None);
    assert_eq!(size_of("tiny"), None);
}

#[test]
fn answers_are_written_by_their_options() {
    let options = names(&["a", "b", "c"]);
    assert_eq!(single_choice(&options, &Some(1)), "b");
    assert_eq!(single_choice(&options, &None), "~");
    assert_eq!(single_choice(&options, &Some(3)), "~");
    assert_eq!(multi_choice(&options, &vec![true, false, true]), names(&["a", "c"]));
    assert_eq!(multi_choice(&options, &vec![]), names(&[]));
}

fn small_task() -> Task {
    let note = |id: &str| Action::Instruction {
        prompt: "p".to_string(),
        timer: 0,
        info: Info::named(id),
    };
    let mut task = Task {
        title: "Listening".to_string(),
        version: "1.4".to_string(),
        description: String::new(),
        configuration: Config::default(),
        blocks: vec![
            Block::new("One".to_string(), String::new(), vec![note("a")]),
            Block::new("Two".to_string(), String::new(), vec![note("b")]),
        ],
        progress: vec![],
        dispatcher: None,
        state: State::Startup,
        events: vec![],
        active_block: None,
    };
    task.init().unwrap();
    task
}

#[test]
fn task_goes_from_startup_to_a_running_block_and_back() {
    let mut task = small_task();
    assert_eq!(task.progress, vec![false, false]);
    assert_eq!(task.blocks[1].id(), 2);
    assert_eq!(task.title("linux"), "Listening | v1.4 | rust-linux");
    assert!(!task.has_dispatcher());
    assert!(matches!(&task.update(Message::KeyPress("A".to_string()))[..], [Effect::Rejected]));
    assert!(task.update(Message::SetComms).is_empty());
    assert!(task.has_dispatcher() && !task.is_active());
    assert!(matches!(&task.update(Message::SetComms)[..], [Effect::Rejected]));

    assert!(task.update(Message::UIEvent(1, Value::Null)).is_empty());
    assert!(matches!(task.state, State::Configure { .. }));
    assert!(task.update(Message::UIEvent(4, Value::Integer(2))).is_empty());
    assert!(matches!(&task.update(Message::UIEvent(4, Value::Integer(5)))[..], [Effect::Rejected]));
    assert!(task.update(Message::UIEvent(2, Value::Null)).is_empty());
    assert_eq!(task.state, State::Configure { config: Config::default() });
    assert!(task.update(Message::UIEvent(4, Value::Integer(2))).is_empty());
    assert!(matches!(&task.update(Message::UIEvent(3, Value::Null))[..], [Effect::Save]));
    assert_eq!(task.configuration.audio, AudioConfig::Stereo);
    assert_eq!(task.state, State::Selection);

    let later = task.update(Message::UIEvent(2, Value::Null));
    assert!(matches!(&later[..], [Effect::Later { code: 2, left: 2900 }]));
    assert_eq!(task.countdown(), Some(3));
    let later = task.update(Message::UIEvent(2, Value::Integer(1000)));
    assert!(matches!(&later[..], [Effect::Later { code: 2, left: 900 }]));
    assert_eq!(task.countdown(), Some(1));
    assert_eq!(task.state, State::Starting { wait_for: 1000 });
    assert!(task.update(Message::Interrupt).is_empty());
    assert_eq!(task.state, State::Selection);
    assert_eq!(task.countdown(), None);

    task.update(Message::UIEvent(2, Value::Null));
    let started = task.update(Message::UIEvent(2, Value::Integer(0)));
    assert!(matches!(&started[0], Effect::Prepare));
    assert!(matches!(&started[1], Effect::Record));
    assert_eq!(started.len(), 4);
    assert_eq!(task.state, State::Started);
    assert_eq!(task.active_block, Some(2));
    assert!(task.is_active());
    assert!(task.events[0].to_line().ends_with("-UTC  START  2"));
    assert!(matches!(&task.execute(1)[..], [Effect::Rejected]));

    let done = task.update(Message::ActionComplete("b".to_string()));
    assert_eq!(done.len(), 3);
    let ended = task.update(Message::BlockComplete);
    assert!(matches!(&ended[0], Effect::Record));
    assert_eq!(ended.len(), 2);
    assert_eq!(task.progress, vec![false, true]);
    assert_eq!(task.state, State::Selection);
    assert_eq!(task.active_block, None);
    assert!(!task.is_active());
    assert!(task.events[1].to_line().ends_with("-UTC  COMPLETE  2"));

    assert!(matches!(&task.execute(0)[..], [Effect::Rejected]));
    assert!(matches!(&task.execute(3)[..], [Effect::Rejected]));
    let again = task.execute(1);
    assert_eq!(again.len(), 4);
    task.state = State::Started;
    let stopped = task.update(Message::Interrupt);
    assert!(matches!(&stopped[0], Effect::Record));
    assert_eq!(stopped.len(), 3);
    assert_eq!(task.progress, vec![false, true]);
    assert!(task.events[3].to_line().ends_with("-UTC  INTERRUPT  1"));
    assert!(matches!(&task.update(Message::Null)[..], [Effect::Rejected]));
    assert!(task.update(Message::Query("a".to_string(), "k".to_string())).is_empty());
}

#[test]
fn task_starts_from_the_instructions_without_configuring() {
    let mut task = small_task();
    assert!(task.update(Message::UIEvent(7, Value::Null)).is_empty());
    assert_eq!(task.state, State::Startup);
    assert!(matches!(&task.update(Message::UIEvent(2, Value::Null))[..], [Effect::Save]));
    assert_eq!(task.state, State::Selection);
    assert!(task.update(Message::UIEvent(1, Value::Integer(3))).is_empty());
    assert_eq!(task.state, State::Selection);
    task.update(Message::UIEvent(1, Value::Null));
    assert!(matches!(
        &task.update(Message::UIEvent(1, Value::Integer(-5)))[..],
        [Effect::Rejected]
    ));
    assert_eq!(task.state, State::Starting { wait_for: 3000 });
    assert!(matches!(
        &task.update(Message::UIEvent(1, Value::Integer(0)))[..],
        [Effect::Rejected]
    ));
    assert_eq!(task.state, State::Started);
    assert!(!task.is_active());
}

#[test]
fn measures_are_split_at_the_first_cross() {
    assert_eq!(
        split_measures(" 0.8 x 600 "),
        Some(("0.8".to_string(), "600".to_string()))
    );
    assert_eq!(split_measures("x"), Some((String::new(), String::new())));
    assert_eq!(split_measures("axb x c"), Some(("a".to_string(), "b x c".to_string())));
    assert_eq!(split_measures("0.8"), None);
    assert_eq!(parse_number("600"), Some(600));
    assert_eq!(parse_number("+7"), Some(7));
    assert_eq!(parse_number("0.8"), None);
    assert_eq!(parse_number(""), None);
    assert_eq!(parse_number("007"), Some(7));
}
