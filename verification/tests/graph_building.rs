use neurotask::action::expand::{check_id, substitute};
use neurotask::action::flow::add_gates;
use neurotask::action::{Action, Info, Question, MAX_DEPTH};
use neurotask::block::Block;
use neurotask::error::BuildError;
use neurotask::idset::IdSet;

fn note(id: &str) -> Action {
    Action::Instruction { prompt: "p".to_string(), timer: 0, info: Info::named(id) }
}

fn waiting(id: &str, after: &[&str]) -> Action {
    let mut info = Info::named(id);
    info.after = Some(set(after));
    Action::Instruction { prompt: "p".to_string(), timer: 0, info }
}

fn set(ids: &[&str]) -> IdSet {
    IdSet::from_vec(&ids.iter().map(|s| s.to_string()).collect())
}

fn sorted(set: &IdSet) -> Vec<String> {
    let mut v = set.to_vec();
    v.sort();
    v
}

fn names(list: &[&str]) -> Vec<String> {
    list.iter().map(|s| s.to_string()).collect()
}

fn build(actions: Vec<Action>) -> Result<Block, BuildError> {
    let mut block = Block::new("b".to_string(), String::new(), actions);
    block.init(7)?;
    Ok(block)
}

fn nested(depth: u16) -> Action {
    let inner = if depth == 0 { vec![note("")] } else { vec![nested(depth - 1)] };
    Action::Template {
        source: format!("level{}.yml", depth),
        params: vec![],
        info: Info::named("t"),
        actions: inner,
    }
}

#[test]
fn block_takes_its_number() {
    let block = build(vec![note("a")]).unwrap();
    assert_eq!(block.id(), 7);
    assert_eq!(block.title(), "b");
}

#[test]
fn identifiers_are_checked() {
    assert!(check_id("").is_ok());
    assert!(check_id("a-b_9").is_ok());
    assert!(matches!(check_id("a b"), Err(BuildError::IllegalId)));
    assert!(matches!(check_id("a~b"), Err(BuildError::IllegalId)));
    assert!(matches!(check_id("007"), Err(BuildError::NumericId)));
    assert!(matches!(check_id("entry"), Err(BuildError::ReservedId)));
    assert!(matches!(check_id("exit"), Err(BuildError::ReservedId)));
    assert!(check_id("exit1").is_ok());
}

#[test]
fn bad_identifier_fails_the_block() {
    assert!(matches!(build(vec![note("no good")]), Err(BuildError::IllegalId)));
    assert!(matches!(build(vec![note("12")]), Err(BuildError::NumericId)));
    assert!(matches!(build(vec![note("entry")]), Err(BuildError::ReservedId)));
}

#[test]
fn duplicate_identifier_fails_the_block() {
    match build(vec![note("a"), note("b"), note("a")]) {
        Err(BuildError::DuplicateId { id, template }) => {
            assert_eq!(id, "a");
            assert_eq!(template, None);
        }
        other => panic!("{:?}", other.map(|b| b.actions())),
    }
}

#[test]
fn duplicate_identifier_fails_the_template() {
    let template = Action::Template {
        source: "twice.yml".to_string(),
        params: vec![],
        info: Info::named("t"),
        actions: vec![note("x"), note("x")],
    };
    match build(vec![template]) {
        Err(e @ BuildError::DuplicateId { .. }) => {
            assert_eq!(
                e.message(),
                "Action ID `x` used more than once in template: twice.yml"
            );
        }
        other => panic!("{:?}", other.map(|b| b.actions())),
    }
}

#[test]
fn undeclared_name_is_the_position_in_the_scope() {
    let mut second = Info::named("");
    second.after = Some(IdSet::new());
    let clash = vec![
        note("a"),
        Action::Instruction { prompt: "p".to_string(), timer: 0, info: second },
        note("b"),
    ];
    let block = build(clash).unwrap();
    assert_eq!(block.actions(), names(&["entry", "a", "2", "b", "exit"]));
}

#[test]
fn templates_nest_to_the_limit_and_no_deeper() {
    assert_eq!(MAX_DEPTH, 3);
    assert!(build(vec![nested(2)]).is_ok());
    match build(vec![nested(3)]) {
        Err(e @ BuildError::TemplateTooDeep) => {
            assert_eq!(e.message(), "Maximum allowed template depth reached: 3.");
        }
        other => panic!("{:?}", other.map(|b| b.actions())),
    }
}

#[test]
fn nested_templates_carry_every_scope_in_their_names() {
    let block = build(vec![nested(1)]).unwrap();
    assert_eq!(
        block.actions(),
        names(&["entry", "t~entry", "t~t~entry", "t~t~1", "t~t~exit", "t~exit", "exit"])
    );
    let inner = block.action(&"t~t~1".to_string()).unwrap();
    assert_eq!(sorted(&inner.after()), names(&["entry", "t~entry"]));
}

#[test]
fn self_reference_fails_the_block() {
    match build(vec![waiting("a", &["a"])]) {
        Err(e @ BuildError::SelfSuccessor(_)) => {
            assert_eq!(e.message(), "Action cannot be a successor of itself: a");
        }
        other => panic!("{:?}", other.map(|b| b.actions())),
    }
    let mut info = Info::named("b");
    info.with = Some("b".to_string());
    let alone = Action::Audio { source: "s.wav".to_string(), info };
    match build(vec![alone]) {
        Err(e @ BuildError::SelfDependent(_)) => {
            assert_eq!(e.message(), "Action cannot be a dependent of itself: b");
        }
        other => panic!("{:?}", other.map(|b| b.actions())),
    }
}

#[test]
fn dangling_predecessor_fails_the_block() {
    match build(vec![waiting("a", &["nowhere"])]) {
        Err(e @ BuildError::InvalidReference(_)) => {
            assert_eq!(e.message(), "Invalid action ID: nowhere");
        }
        other => panic!("{:?}", other.map(|b| b.actions())),
    }
}

#[test]
fn dangling_companion_fails_the_block() {
    let mut info = Info::named("a");
    info.with = Some("ghost".to_string());
    let a = Action::Audio { source: "s.wav".to_string(), info };
    match build(vec![a]) {
        Err(e @ BuildError::UnknownAction(_)) => {
            assert_eq!(e.message(), "Invalid reference to action: ghost~entry");
        }
        other => panic!("{:?}", other.map(|b| b.actions())),
    }
}

#[test]
fn unknown_action_is_reported_by_name() {
    let block = build(vec![note("a")]).unwrap();
    match block.action(&"b".to_string()) {
        Err(BuildError::UnknownAction(id)) => assert_eq!(id, "b"),
        other => panic!("{:?}", other.map(|a| a.id())),
    }
    assert_eq!(block.position("a"), Some(1));
    let mut changed = build(vec![note("a")]).unwrap();
    changed.action_mut(&"a".to_string()).unwrap().expire();
    assert_eq!(changed.is_expired(&"a".to_string()), Some(true));
    assert!(matches!(
        changed.action_mut(&"z".to_string()),
        Err(BuildError::UnknownAction(id)) if id == "z"
    ));
    assert_eq!(block.position("b"), None);
    assert!(block.dependents(&"b".to_string()).is_empty());
    assert_eq!(block.is_ready(&"b".to_string()), None);
    assert!(!block.has_view(&"b".to_string()));
}

#[test]
fn companion_of_a_template_runs_beside_its_entry() {
    let template = Action::Template {
        source: "pair.yml".to_string(),
        params: vec![],
        info: Info::named("T"),
        actions: vec![note("")],
    };
    let mut info = Info::named("music");
    info.with = Some("T".to_string());
    let music = Action::Audio { source: "m.wav".to_string(), info };
    let block = build(vec![template, music]).unwrap();
    let music = block.action(&"music".to_string()).unwrap();
    assert_eq!(music.with(), Some("T~exit".to_string()));
    assert_eq!(sorted(&music.after()), names(&["T~entry"]));
    assert_eq!(block.dependents(&"T~exit".to_string()).to_vec(), names(&["music"]));
    assert_eq!(sorted(&block.successors(&"T~entry".to_string())), names(&["exit", "music"]));
}

#[test]
fn template_passes_its_predecessors_and_companion_inside() {
    let mut info = Info::named("T");
    info.with = Some("a".to_string());
    info.after = Some(set(&["a"]));
    let template = Action::Template {
        source: "pair.yml".to_string(),
        params: vec![],
        info,
        actions: vec![note("x"), note("y")],
    };
    let block = build(vec![note("a"), template]).unwrap();
    let get = |id: &str| block.action(&id.to_string()).unwrap();
    assert_eq!(sorted(&get("T~entry").after()), names(&["a", "entry"]));
    assert_eq!(get("T~entry").with(), Some("a".to_string()));
    assert_eq!(get("T~exit").with(), Some("a".to_string()));
    assert_eq!(sorted(&get("T~x").after()), names(&["a", "entry"]));
    assert_eq!(get("T~x").with(), Some("a".to_string()));
    assert_eq!(sorted(&get("T~y").after()), names(&["T~x", "entry"]));
    assert_eq!(sorted(&get("T~exit").after()), names(&["T~y", "entry"]));
}

#[test]
fn gates_enclose_a_scope() {
    let mut lone = Info::named("c");
    lone.with = Some("b".to_string());
    let mut actions = vec![
        waiting("a", &[]),
        waiting("b", &["a"]),
        Action::Audio { source: "s.wav".to_string(), info: lone },
        waiting("d", &["a"]),
    ];
    let outer = set(&["p", "q"]);
    add_gates(&mut actions, Some(outer), Some("k".to_string())).unwrap();
    assert_eq!(actions.len(), 6);
    let entry = &actions[0];
    assert!(matches!(entry, Action::Nothing { .. }));
    assert_eq!(entry.id(), "entry");
    assert_eq!(sorted(&entry.after()), names(&["p", "q"]));
    assert_eq!(entry.with(), Some("k".to_string()));
    assert_eq!(entry.is_expired(), Some(true));
    assert_eq!(entry.info().timeout, Some(0));
    let exit = &actions[5];
    assert_eq!(exit.id(), "exit");
    assert_eq!(exit.after().to_vec(), names(&["b", "c", "d"]));
    assert_eq!(exit.with(), Some("k".to_string()));
    assert_eq!(exit.is_expired(), Some(true));
    assert_eq!(sorted(&actions[1].after()), names(&["entry"]));
    assert_eq!(sorted(&actions[2].after()), names(&["a", "entry"]));
    assert_eq!(actions[3].is_ready(), None);
    assert_eq!(actions[1].with(), Some("k".to_string()));
    assert_eq!(actions[3].with(), Some("b".to_string()));
}

#[test]
fn parameters_are_filled_in() {
    let params = vec![
        ("word".to_string(), "salary".to_string()),
        ("n".to_string(), "3".to_string()),
    ];
    let filled = substitute("say {{word}} {{n}} times: {{word}}", &params, "say.yml").unwrap();
    assert_eq!(filled, "say salary 3 times: salary");
    assert_eq!(substitute("plain", &vec![], "plain.yml").unwrap(), "plain");
}

#[test]
fn parameter_without_a_mark_is_refused() {
    let params = vec![("word".to_string(), "salary".to_string())];
    match substitute("nothing here", &params, "say.yml") {
        Err(e @ BuildError::UnknownParameter { .. }) => assert_eq!(
            e.message(),
            "Invalid template parameter \"{{word}}\" specified for template file: \"say.yml\""
        ),
        other => panic!("{:?}", other),
    }
}

#[test]
fn mark_without_a_parameter_is_refused() {
    let params = vec![("word".to_string(), "salary".to_string())];
    match substitute("{{word}} and {{other}}", &params, "say.yml") {
        Err(e @ BuildError::UnresolvedParameter) => assert_eq!(
            e.message(),
            "All parameters in a template should have specified values"
        ),
        other => panic!("{:?}", other),
    }
}

#[test]
fn zero_timeout_marks_an_action_as_never_to_run() {
    let mut info = Info::named("flash");
    info.timeout = Some(0);
    let flash = Action::Image { source: "f.png".to_string(), info };
    let pause = Action::Nothing { info: Info::named("pause") };
    let block = build(vec![flash, pause]).unwrap();
    assert_eq!(block.is_expired(&"flash".to_string()), Some(true));
    let pause = block.action(&"pause".to_string()).unwrap();
    assert_eq!(pause.is_expired(), None);
    assert_eq!(pause.info().timeout, Some(0));
}

#[test]
fn questionnaire_starts_unanswered() {
    let list = vec![
        Question::MultiChoice {
            prompt: "which".to_string(),
            options: names(&["a", "b", "c"]),
            answer: vec![true],
        },
        Question::Slider { prompt: "how".to_string(), low: 5, high: 9, step: 1, answer: 7 },
        Question::SingleChoice {
            prompt: "one".to_string(),
            options: names(&["a"]),
            answer: Some(0),
        },
    ];
    let mut action = Action::Question { list, info: Info::named("q") };
    action.init(1, &None, 0).unwrap();
    match &action {
        Action::Question { list, .. } => {
            assert!(matches!(&list[0], Question::MultiChoice { answer, .. } if answer == &vec![false; 3]));
            assert!(matches!(&list[1], Question::Slider { answer: 5, .. }));
            assert!(matches!(&list[2], Question::SingleChoice { answer: Some(0), .. }));
        }
        other => panic!("{:?}", other),
    }
    assert!(action.after().is_empty());
    assert_eq!(action.is_ready(), Some(true));
}

#[test]
fn every_error_has_its_sentence() {
    assert_eq!(
        BuildError::IllegalId.message(),
        "Only alphanumeric (a-z|A-Z|0-9), '-', and '_' are allowed in actions IDs."
    );
    assert_eq!(BuildError::NumericId.message(), "Custom action ID cannot be digits only.");
    assert_eq!(BuildError::ReservedId.message(), "`entry` and `exit` are reserved action IDs.");
    assert_eq!(
        BuildError::DuplicateId { id: "a".to_string(), template: None }.message(),
        "Action ID `a` used more than once; IDs should be unique"
    );
}

#[test]
fn graphs_that_wait_backwards_are_fit_to_run() {
    let fork = build(vec![
        note("a"),
        waiting("b", &["a"]),
        waiting("c", &["a"]),
        waiting("d", &["b", "c"]),
    ])
    .unwrap();
    assert!(fork.runnable());
    let mut info = Info::named("music");
    info.with = Some("T".to_string());
    let template = Action::Template {
        source: "pair.yml".to_string(),
        params: vec![],
        info: Info::named("T"),
        actions: vec![nested(0), note("")],
    };
    let music = Action::Audio { source: "m.wav".to_string(), info };
    assert!(build(vec![template, music]).unwrap().runnable());
}

#[test]
fn graphs_that_wait_forwards_or_for_nothing_are_not() {
    let circle = build(vec![waiting("a", &["b"]), waiting("b", &["a"])]).unwrap();
    assert!(!circle.runnable());
    let forward = build(vec![waiting("a", &["b"]), waiting("b", &[])]).unwrap();
    assert!(!forward.runnable());
    let empty = build(vec![]).unwrap();
    assert!(!empty.runnable());
    let mut led = Info::named("led");
    led.with = Some("late".to_string());
    let early = Action::Audio { source: "l.wav".to_string(), info: led };
    let late = build(vec![early, note("late")]).unwrap();
    assert!(!late.runnable());
    let mut twice = build(vec![note("a")]).unwrap();
    twice.actions.push(note("a"));
    assert!(!twice.runnable());
    let mut loose = build(vec![note("a"), note("b")]).unwrap();
    loose.actions[1].add_successor("entry".to_string());
    assert!(!loose.runnable());
}

#[test]
fn failed_build_leaves_everything_as_it_was() {
    let mut block = Block::new(
        "b".to_string(),
        String::new(),
        vec![note("a"), waiting("b", &["nowhere"])],
    );
    assert!(block.init(4).is_err());
    assert_eq!(block.id(), 0);
    assert_eq!(block.actions(), names(&["a", "b"]));
    assert_eq!(block.action(&"a".to_string()).unwrap().is_ready(), None);
    let mut template = Action::Template {
        source: "t.yml".to_string(),
        params: vec![],
        info: Info::named("t"),
        actions: vec![note("x"), note("bad id")],
    };
    assert!(template.init(1, &None, 0).is_err());
    match &template {
        Action::Template { actions, info, .. } => {
            assert_eq!(actions.len(), 2);
            assert_eq!(actions[0].id(), "x");
            assert_eq!(actions[0].is_ready(), None);
            assert!(info.after.is_none());
        }
        other => panic!("{:?}", other),
    }
}
