use tensile::console::{write_all, Colored, Command, Hue, Style};
use tensile::printer::Event;
use tensile::session::{executor_console_runner, ConsoleAction};
use tensile::starter::DummyExecutor;
use tensile::{group, Launcher, Options, RunTest, Starter, Test, Testable};

fn decide(_executor: Option<&DummyExecutor>, value: bool) -> Result<(), String> {
    value.test()
}

fn same(_executor: Option<&DummyExecutor>, value: bool) -> bool {
    value
}

fn sample() -> Test<bool> {
    group(
        "outer",
        vec![
            tensile::test("good", true),
            group("inner", vec![tensile::test("bad", false)]),
        ],
    )
}

fn write(text: &str) -> Command {
    Command::Write(text.to_string())
}

fn hued(hue: Hue) -> Command {
    Command::SetColor(Style { fg: Some(hue), bold: false })
}

fn strong() -> Command {
    Command::SetColor(Style { fg: None, bold: true })
}

fn driven<T>(
    suite: Test<T>,
    options: Options,
) -> (Vec<Command>, Vec<Command>, Result<(), &'static str>)
where
    T: Testable<Error = String>,
{
    let start = |_executor: Option<&DummyExecutor>, test: T| test.test();
    let mut launcher = Launcher::new(start);
    let mut session =
        executor_console_runner(suite, &options, None::<DummyExecutor>, &mut launcher);
    let mut output = vec![];
    let mut event: Event<String, ()> = Event::Continue;
    loop {
        event = match session.step(event) {
            ConsoleAction::Await(outcome) => Event::Finished(outcome),
            ConsoleAction::Perform(commands) => {
                output.extend(commands);
                Event::Continue
            }
            ConsoleAction::Finish(summary, verdict) => {
                assert_eq!(session.console.indent, "");
                return (output, summary, verdict);
            }
            ConsoleAction::Fail(()) => panic!("everything can be written"),
        };
    }
}

fn shown(filter: &str) -> (Vec<Command>, Vec<Command>, Result<(), &'static str>) {
    driven(sample(), Options::new().filter(filter))
}

#[test]
fn dog_food() {
    let suite = group(
        "group1",
        vec![tensile::test("test1", ().test()), tensile::test("test2", false.test())],
    );
    let (output, summary, verdict) = driven(suite, Options::new());
    assert_eq!(
        output,
        vec![
            strong(),
            write("group1\n"),
            Command::Reset,
            write("\ttest1 ... "),
            hued(Hue::Green),
            write("ok"),
            Command::Reset,
            write("\n"),
            Command::Reset,
            write("\ttest2 ... "),
            hued(Hue::Red),
            write("FAILED"),
            Command::Reset,
            write("\nfalse"),
            Command::Reset,
            write("\n"),
        ]
    );
    assert_eq!(
        summary,
        vec![
            write("test result: "),
            hued(Hue::Red),
            write("FAILED"),
            Command::Reset,
            write(". 1 passed; 1 failed; 0 filtered\n"),
        ]
    );
    assert_eq!(verdict.unwrap_err(), "One or more tests failed");
}

#[test]
fn session_shows_a_whole_suite() {
    let (output, summary, verdict) = shown("");
    assert_eq!(
        output,
        vec![
            strong(),
            write("outer\n"),
            Command::Reset,
            write("\tgood ... "),
            hued(Hue::Green),
            write("ok"),
            Command::Reset,
            write("\n"),
            strong(),
            write("\tinner\n"),
            Command::Reset,
            write("\t\tbad ... "),
            hued(Hue::Red),
            write("FAILED"),
            Command::Reset,
            write("\nfalse"),
            Command::Reset,
            write("\n"),
            Command::Reset,
            write("\n"),
        ]
    );
    assert_eq!(summary[4], write(". 1 passed; 1 failed; 0 filtered\n"));
    assert_eq!(summary[2], write("FAILED"));
    assert_eq!(verdict, Err("One or more tests failed"));
}

#[test]
fn session_shows_what_the_filter_keeps() {
    let (output, summary, verdict) = shown("good");
    assert_eq!(
        output,
        vec![
            strong(),
            write("outer\n"),
            Command::Reset,
            write("\tgood ... "),
            hued(Hue::Green),
            write("ok"),
            Command::Reset,
            write("\n"),
            Command::Reset,
            write("\n"),
        ]
    );
    assert_eq!(summary[2], write("ok"));
    assert_eq!(summary[4], write(". 1 passed; 0 failed; 1 filtered\n"));
    assert_eq!(verdict, Ok(()));
}

#[test]
fn session_of_nothing_fails_if_something_was_left_out() {
    let (output, summary, verdict) = shown("absent");
    assert_eq!(output, vec![]);
    assert_eq!(summary[2], write("ok"));
    assert_eq!(summary[4], write(". 0 passed; 0 failed; 2 filtered\n"));
    assert_eq!(verdict, Err("One or more tests failed"));
}

#[test]
fn session_is_broken_off_where_nothing_can_be_written() {
    let options = Options::new();
    let mut launcher = Launcher::new(decide);
    let mut session =
        executor_console_runner(sample(), &options, None::<DummyExecutor>, &mut launcher);
    assert!(matches!(
        session.step(Event::<String, i32>::Continue),
        ConsoleAction::Perform(_)
    ));
    assert!(matches!(session.step(Event::<String, i32>::Rejected(4)), ConsoleAction::Fail(4)));
}

#[test]
fn messages_are_written_in_order() {
    let commands = write_all(vec![
        Colored::from("a".to_string()),
        Colored { color: Some(Style { fg: None, bold: true }), msg: "b".to_string() },
    ]);
    assert_eq!(commands, vec![Command::Reset, write("a"), strong(), write("b")]);
}

fn kept(suite: Test<bool>, filter: &str) -> (Option<RunTest<bool>>, i32) {
    let options = Options::new().filter(filter);
    let mut starter = Starter::new(&options);
    let run = suite.run_all(&mut starter, &mut Launcher::new(same));
    (run, starter.filtered_tests)
}

fn as_suite(run: RunTest<bool>) -> Test<bool> {
    match run {
        RunTest::Test { name, test } => Test::Test { name, test },
        RunTest::Group { name, tests } => Test::Group {
            name,
            tests: tests.into_iter().map(as_suite).collect(),
        },
    }
}

fn outline(run: &RunTest<bool>) -> String {
    match run {
        RunTest::Test { name, .. } => name.clone(),
        RunTest::Group { name, tests } => {
            let inner: Vec<String> = tests.iter().map(outline).collect();
            format!("{}({})", name, inner.join(" "))
        }
    }
}

#[test]
fn selecting_again_changes_nothing() {
    let (once, filtered) = kept(sample(), "bad");
    assert_eq!(filtered, 1);
    let once = once.unwrap();
    let shape = outline(&once);
    assert_eq!(shape, "outer(inner(bad))");
    let (twice, filtered) = kept(as_suite(once), "bad");
    assert_eq!(filtered, 0);
    assert_eq!(outline(&twice.unwrap()), shape);
}

#[test]
fn shorter_filter_keeps_more() {
    let (_, narrow) = kept(sample(), "er/bad");
    let (_, wide) = kept(sample(), "er/");
    assert_eq!(narrow, 1);
    assert_eq!(wide, 0);
}
