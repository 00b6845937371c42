use std::cell::RefCell;
use tensile::console::{Colored, Command, Console, Hue, Style};
use tensile::outcome::{panic_error, payload_kind, Payload, PayloadKind};
use tensile::printer::{Action, Event, Printer};
use tensile::report::execute_test_runner;
use tensile::session::executor_console_runner;
use tensile::starter::DummyExecutor;
use tensile::stats::Stats;
use tensile::text::{append_decimal, join};
use tensile::{
    group, Color, ColorChoice, Launcher, Options, RunTest, Starter, Test, TestProgress, TestReport,
    Testable,
};

fn sample() -> Test<bool> {
    group(
        "group",
        vec![
            group("inner1", vec![tensile::test("test1", true)]),
            tensile::test("middle test", false),
            group("inner2", vec![]),
        ],
    )
}

fn decide(_executor: Option<&DummyExecutor>, value: bool) -> Result<(), String> {
    value.test()
}

fn names(run: &RunTest<Result<(), String>>) -> Vec<String> {
    match run {
        RunTest::Test { name, .. } => vec![name.clone()],
        RunTest::Group { name, tests } => {
            let mut all = vec![name.clone()];
            for test in tests {
                all.extend(names(test));
            }
            all
        }
    }
}

fn kept_by(filter: &str) -> (Option<Vec<String>>, i32) {
    let options = Options::new().filter(filter);
    let mut starter = Starter::new(&options);
    let run = sample().run_all(&mut starter, &mut Launcher::new(decide));
    (run.map(|run| names(&run)), starter.filtered_tests)
}

fn strings(words: &[&str]) -> Vec<String> {
    words.iter().map(|word| word.to_string()).collect()
}

#[test]
fn constructors_keep_what_they_are_given() {
    match tensile::test(String::from("a"), 7) {
        Test::Test { name, test } => {
            assert_eq!(name, "a");
            assert_eq!(test, 7);
        }
        Test::Group { .. } => panic!("a test was asked for"),
    }
    match group("b", vec![tensile::test("a", 7)]) {
        Test::Group { name, tests } => {
            assert_eq!(name, "b");
            assert_eq!(tests.len(), 1);
        }
        Test::Test { .. } => panic!("a group was asked for"),
    }
}

#[test]
fn tests_are_counted() {
    assert_eq!(sample().leaf_count(), Some(2));
    assert_eq!(group("empty", Vec::<Test<bool>>::new()).leaf_count(), Some(0));
}

#[test]
fn empty_filter_keeps_every_test_and_no_empty_group() {
    assert_eq!(
        kept_by(""),
        (Some(strings(&["group", "inner1", "test1", "middle test"])), 0)
    );
}

#[test]
fn filter_keeps_matching_tests() {
    assert_eq!(kept_by("middle"), (Some(strings(&["group", "middle test"])), 1));
}

#[test]
fn filter_matches_the_whole_path() {
    assert_eq!(
        kept_by("/group/inner1/test1"),
        (Some(strings(&["group", "inner1", "test1"])), 1)
    );
    assert_eq!(
        kept_by("p/i"),
        (Some(strings(&["group", "inner1", "test1"])), 1)
    );
}

#[test]
fn filter_that_matches_a_group_keeps_all_of_it() {
    assert_eq!(
        kept_by("/group"),
        (Some(strings(&["group", "inner1", "test1", "middle test"])), 0)
    );
}

#[test]
fn filter_may_leave_nothing() {
    assert_eq!(kept_by("absent"), (None, 2));
}

#[test]
fn filter_finds_other_scripts() {
    let options = Options::new().filter("ß/é");
    let mut starter = Starter::new(&options);
    let suite = group("große ß", vec![tensile::test("élan", true), tensile::test("elan", true)]);
    let run = suite.run_all(&mut starter, &mut Launcher::new(decide));
    assert_eq!(run.map(|run| names(&run)), Some(strings(&["große ß", "élan"])));
    assert_eq!(starter.filtered_tests, 1);
}

#[test]
fn tests_are_started_on_the_executor() {
    let options = Options::new();
    let mut starter = Starter::with_executor(&options, Some(5));
    let start = |executor: Option<&i32>, value: i32| executor.map(|executor| executor + value);
    match tensile::test("a", 2).run_all(&mut starter, &mut Launcher::new(start)) {
        Some(RunTest::Test { name, test }) => {
            assert_eq!(name, "a");
            assert_eq!(test, Some(7));
        }
        _ => panic!("the test was to be kept"),
    }
    assert_eq!(starter.executor, Some(5));
}

fn numbered() -> Test<i32> {
    group(
        "all",
        vec![
            tensile::test("even 0", 0),
            tensile::test("odd 1", 1),
            group("inner", vec![tensile::test("odd 3", 3), tensile::test("even 4", 4)]),
            group("left out", vec![tensile::test("odd 5", 5)]),
            tensile::test("even 6", 6),
        ],
    )
}

#[test]
fn only_kept_tests_are_started_from_left_to_right() {
    let started = RefCell::new(Vec::new());
    let start = |executor: Option<&char>, value: i32| {
        started.borrow_mut().push((executor.copied(), value));
    };
    let options = Options::new().filter("even");
    let mut starter = Starter::with_executor(&options, Some('e'));
    assert!(numbered().run_all(&mut starter, &mut Launcher::new(start)).is_some());
    assert_eq!(*started.borrow(), vec![(Some('e'), 0), (Some('e'), 4), (Some('e'), 6)]);
    assert_eq!(starter.filtered_tests, 3);
}

#[test]
fn every_test_is_started_once_without_a_filter() {
    let started = RefCell::new(Vec::new());
    let start = |_executor: Option<&DummyExecutor>, value: i32| started.borrow_mut().push(value);
    let options = Options::new();
    execute_test_runner(numbered(), &options, None::<DummyExecutor>, &mut Launcher::new(start));
    assert_eq!(*started.borrow(), vec![0, 1, 3, 4, 5, 6]);
}

#[test]
fn no_test_is_started_where_the_filter_leaves_nothing() {
    let started = RefCell::new(Vec::new());
    let start = |_executor: Option<&DummyExecutor>, value: i32| started.borrow_mut().push(value);
    let options = Options::new().filter("absent");
    let mut launcher = Launcher::new(start);
    let session =
        executor_console_runner(numbered(), &options, None::<DummyExecutor>, &mut launcher);
    assert_eq!(*started.borrow(), Vec::<i32>::new());
    assert_eq!(session.execution.filtered_tests, 6);
}

#[test]
fn path_grows_by_a_slash_and_a_name() {
    assert_eq!(join("", "a"), "/a");
    assert_eq!(join("/a", "b"), "/a/b");
}

#[test]
fn values_decide_tests() {
    assert_eq!(true.test(), Ok(()));
    assert_eq!(false.test(), Err("false".to_string()));
    assert_eq!(().test(), Ok(()));
    assert_eq!(Err::<(), i32>(3).test(), Err(3));
    assert_eq!(Ok::<(), i32>(()).test(), Ok(()));
}

#[test]
fn payloads_are_tried_in_order() {
    assert_eq!(payload_kind(true, true, true), PayloadKind::Error);
    assert_eq!(payload_kind(false, true, true), PayloadKind::Text);
    assert_eq!(payload_kind(false, false, true), PayloadKind::Literal);
    assert_eq!(payload_kind(false, false, false), PayloadKind::Unknown);
}

#[test]
fn payloads_become_errors() {
    assert_eq!(panic_error(Payload::Error("a".to_string())), Some("a".to_string()));
    assert_eq!(panic_error::<String>(Payload::Text("b".to_string())), Some("b".to_string()));
    assert_eq!(panic_error::<String>(Payload::Literal("c")), Some("c".to_string()));
    assert_eq!(panic_error::<String>(Payload::Unknown), None);
}

#[test]
fn counts_add_up() {
    let mut stats = Stats::default();
    stats.add_assign(Stats { failed_tests: 2, successful_tests: 3 });
    let total = stats + Stats { failed_tests: 1, successful_tests: 4 };
    assert_eq!(total, Stats { failed_tests: 3, successful_tests: 7 });
    assert_eq!(Stats::of(&Ok::<(), ()>(())), Stats { failed_tests: 0, successful_tests: 1 });
    assert_eq!(Stats::of(&Err::<(), ()>(())), Stats { failed_tests: 1, successful_tests: 0 });
}

#[test]
fn run_counts_outcomes() {
    let options = Options::new();
    let run = sample().run_all(&mut Starter::new(&options), &mut Launcher::new(decide)).unwrap();
    let (reports, stats) = run.print();
    assert_eq!(reports.len(), 6);
    assert_eq!(stats, Stats { failed_tests: 1, successful_tests: 1 });
}

#[test]
fn machine_waits_and_reports_in_turn() {
    let suite = RunTest::Group {
        name: "g".to_string(),
        tests: vec![RunTest::Test { name: "a".to_string(), test: 1 }],
    };
    let mut printer = Printer::new(suite);
    match printer.step(Event::<String, ()>::Continue) {
        Action::Send(report) => assert_eq!(report, TestProgress::GroupStart("g".to_string())),
        _ => panic!("the group starts first"),
    }
    match printer.step(Event::<String, ()>::Continue) {
        Action::Await(test) => assert_eq!(test, 1),
        _ => panic!("the test comes next"),
    }
    match printer.step(Event::<String, ()>::Finished(Err("no".to_string()))) {
        Action::Send(report) => {
            assert_eq!(report, TestProgress::Test("a".to_string(), Err("no".to_string())))
        }
        _ => panic!("the outcome is reported"),
    }
    match printer.step(Event::<String, ()>::Continue) {
        Action::Send(report) => assert_eq!(report, TestProgress::GroupEnd),
        _ => panic!("the group ends"),
    }
    match printer.step(Event::<String, ()>::Continue) {
        Action::Done(stats) => {
            assert_eq!(stats, Stats { failed_tests: 1, successful_tests: 0 })
        }
        _ => panic!("the run is over"),
    }
}

#[test]
fn rejected_report_breaks_the_run_off() {
    let mut printer = Printer::new(RunTest::Group { name: "g".to_string(), tests: vec![] });
    assert!(matches!(
        printer.step(Event::<(), i32>::Continue),
        Action::<(), (), i32, Stats>::Send(TestProgress::GroupStart(_))
    ));
    assert!(matches!(printer.step(Event::<(), i32>::Rejected(9)), Action::Fail(9)));
}

#[test]
fn idle_run_is_done_at_once() {
    let mut printer = Printer::<()>::idle();
    match printer.step(Event::<(), ()>::Continue) {
        Action::Done(stats) => assert_eq!(stats, Stats::default()),
        _ => panic!("there is nothing to do"),
    }
}

fn report_on(filter: &str) -> TestReport {
    let options = Options::new().filter(filter);
    let mut execution =
        execute_test_runner(sample(), &options, None::<DummyExecutor>, &mut Launcher::new(decide));
    let mut event: Event<String, ()> = Event::Continue;
    loop {
        event = match execution.step(event) {
            Action::Await(outcome) => Event::Finished(outcome),
            Action::Send(_) => Event::Continue,
            Action::Done(report) => return report,
            Action::Fail(()) => panic!("no report is rejected"),
        };
    }
}

#[test]
fn every_test_is_in_the_report() {
    assert_eq!(
        report_on(""),
        TestReport { failed_tests: 1, successful_tests: 1, filtered_tests: 0 }
    );
    assert_eq!(
        report_on("test1"),
        TestReport { failed_tests: 0, successful_tests: 1, filtered_tests: 1 }
    );
    assert_eq!(
        report_on("absent"),
        TestReport { failed_tests: 0, successful_tests: 0, filtered_tests: 2 }
    );
}

#[test]
fn verdict_depends_on_failures_and_on_the_filter() {
    assert_eq!(report_on("test1").verdict(), Ok(()));
    assert_eq!(report_on("").verdict(), Err("One or more tests failed"));
    assert_eq!(report_on("absent").verdict(), Err("One or more tests failed"));
    let nothing = TestReport { failed_tests: 0, successful_tests: 0, filtered_tests: 0 };
    assert_eq!(nothing.verdict(), Ok(()));
}

fn write(text: &str) -> Command {
    Command::Write(text.to_string())
}

fn hued(hue: Hue) -> Style {
    Style { fg: Some(hue), bold: false }
}

#[test]
fn summary_of_a_success() {
    let report = TestReport { failed_tests: 0, successful_tests: 12, filtered_tests: 305 };
    assert_eq!(
        report.summary(),
        vec![
            write("test result: "),
            Command::SetColor(hued(Hue::Green)),
            write("ok"),
            Command::Reset,
            write(". 12 passed; 0 failed; 305 filtered\n"),
        ]
    );
}

#[test]
fn summary_of_a_failure() {
    let report = TestReport { failed_tests: 1, successful_tests: 0, filtered_tests: 0 };
    assert_eq!(
        report.summary(),
        vec![
            write("test result: "),
            Command::SetColor(hued(Hue::Red)),
            write("FAILED"),
            Command::Reset,
            write(". 0 passed; 1 failed; 0 filtered\n"),
        ]
    );
}

#[test]
fn numbers_are_decimal() {
    for n in [0, 7, 10, 99, 100, 1234567890, i32::MAX, -1, -40, i32::MIN] {
        let mut text = String::from("n");
        append_decimal(&mut text, n);
        assert_eq!(text, format!("n{}", n));
    }
}

#[test]
fn console_indents_groups() {
    let mut console = Console::new();
    let start = console.render(TestProgress::GroupStart("g".to_string()));
    assert_eq!(
        start,
        vec![Colored { color: Some(Style { fg: None, bold: true }), msg: "g\n".to_string() }]
    );
    let inner = console.render(TestProgress::GroupStart("h".to_string()));
    assert_eq!(inner[0].msg, "\th\n");
    let passed = console.render(TestProgress::Test("a".to_string(), Ok(())));
    assert_eq!(
        passed,
        vec![
            Colored { color: None, msg: "\t\ta ... ".to_string() },
            Colored { color: Some(hued(Hue::Green)), msg: "ok".to_string() },
            Colored { color: None, msg: "\n".to_string() },
        ]
    );
    let end = console.render(TestProgress::GroupEnd);
    assert_eq!(end, vec![Colored { color: None, msg: "\n".to_string() }]);
    let failed = console.render(TestProgress::Test("b".to_string(), Err("why".to_string())));
    assert_eq!(
        failed,
        vec![
            Colored { color: None, msg: "\tb ... ".to_string() },
            Colored { color: Some(hued(Hue::Red)), msg: "FAILED".to_string() },
            Colored { color: None, msg: "\nwhy".to_string() },
        ]
    );
}

#[test]
fn indentation_comes_back() {
    let options = Options::new();
    let run = sample().run_all(&mut Starter::new(&options), &mut Launcher::new(decide)).unwrap();
    let mut console = Console::new();
    for report in run.print().0 {
        console.render(report);
    }
    assert_eq!(console.indent, "");
    console.render(TestProgress::GroupEnd);
    assert_eq!(console.indent, "");
}

#[test]
fn messages_become_commands() {
    let plain = Colored::from("text".to_string());
    assert_eq!(plain.commands(), vec![Command::Reset, write("text")]);
    let red = Colored { color: Some(hued(Hue::Red)), msg: "text".to_string() };
    assert_eq!(red.commands(), vec![Command::SetColor(hued(Hue::Red)), write("text")]);
}

#[test]
fn styles_become_terminal_settings() {
    assert_eq!(
        hued(Hue::Green).color_spec(),
        termcolor::ColorSpec::new().set_fg(Some(termcolor::Color::Green)).clone()
    );
    assert_eq!(
        hued(Hue::Red).color_spec(),
        termcolor::ColorSpec::new().set_fg(Some(termcolor::Color::Red)).clone()
    );
    assert_eq!(
        Style { fg: None, bold: true }.color_spec(),
        termcolor::ColorSpec::new().set_bold(true).clone()
    );
}

#[test]
fn words_name_colourings() {
    assert_eq!(Color::from_str("auto"), Ok(Color(ColorChoice::Auto)));
    assert_eq!(Color::from_str("always"), Ok(Color(ColorChoice::Always)));
    assert_eq!(Color::from_str("always-ansi"), Ok(Color(ColorChoice::AlwaysAnsi)));
    assert_eq!(Color::from_str("never"), Ok(Color(ColorChoice::Never)));
    assert_eq!(
        Color::from_str("Auto"),
        Err("Expected on of auto, always, always-ansi, never")
    );
}

#[test]
fn options_are_built() {
    let options = Options::new();
    assert_eq!(options.filter, "");
    assert_eq!(options.color, Color(ColorChoice::Auto));
    let options = options.filter("a").color(ColorChoice::Never).filter("b");
    assert_eq!(options.filter, "b");
    assert_eq!(options.color, Color(ColorChoice::Never));
}
