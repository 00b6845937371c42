use tensile::outcome::{panic_error, payload_kind, Payload, PayloadKind};
use tensile::starter::DummyExecutor;
use tensile::{group, Color, ColorChoice, Launcher, Options, Starter, Test, TestProgress, Testable};

fn options_test<T>(test: Test<T>, options: Options) -> Vec<TestProgress<T::Error>>
where
    T: Testable,
{
    let start = |_executor: Option<&DummyExecutor>, test: T| test.test();
    match test.run_all(&mut Starter::new(&options), &mut Launcher::new(start)) {
        Some(running_test) => running_test.print().0,
        None => vec![],
    }
}

fn test_test<T>(test: Test<T>) -> Vec<TestProgress<T::Error>>
where
    T: Testable,
{
    options_test(test, Options::default())
}

#[test]
fn simple() {
    let progress = test_test(tensile::test("1", true));
    assert_eq!(progress, vec![TestProgress::Test("1".to_string(), Ok(()))]);
}

#[test]
fn grouped_tests() {
    let progress = test_test(group(
        "group",
        vec![tensile::test("1", true), tensile::test("2", false)],
    ));
    assert_eq!(
        progress,
        vec![
            TestProgress::GroupStart("group".into()),
            TestProgress::Test("1".into(), Ok(())),
            TestProgress::Test("2".into(), Err("false".to_string())),
            TestProgress::GroupEnd,
        ]
    );
}

#[test]
fn nested_groups() {
    let progress = test_test(group(
        "group",
        vec![tensile::test("1", true), group("inner", vec![])],
    ));
    assert_eq!(
        progress,
        vec![
            TestProgress::GroupStart("group".into()),
            TestProgress::Test("1".into(), Ok(())),
            TestProgress::GroupEnd,
        ]
    );
}

#[test]
fn mixed_test_and_groups() {
    let progress = test_test(group(
        "group",
        vec![
            group("inner1", vec![tensile::test("test1", true)]),
            tensile::test("middle test", true),
            group("inner2", vec![tensile::test("test2", false)]),
        ],
    ));
    assert_eq!(
        progress,
        vec![
            TestProgress::GroupStart("group".into()),
            TestProgress::GroupStart("inner1".into()),
            TestProgress::Test("test1".into(), Ok(())),
            TestProgress::GroupEnd,
            TestProgress::Test("middle test".to_string(), Ok(())),
            TestProgress::GroupStart("inner2".into()),
            TestProgress::Test("test2".into(), Err("false".into())),
            TestProgress::GroupEnd,
            TestProgress::GroupEnd,
        ]
    );
}

/// The outcome of a test that panicked with this message.
fn panicked(message: &'static str) -> Result<(), String> {
    let payload = match payload_kind(false, false, true) {
        PayloadKind::Literal => Payload::Literal(message),
        _ => Payload::Unknown,
    };
    Err(panic_error(payload).unwrap())
}

#[test]
fn handle_panic() {
    let progress = test_test(group(
        "group",
        vec![
            tensile::test("test1", panicked("fail")),
            tensile::test("test2", true.test()),
        ],
    ));
    assert_eq!(
        progress,
        vec![
            TestProgress::GroupStart("group".into()),
            TestProgress::Test("test1".into(), Err("fail".into())),
            TestProgress::Test("test2".into(), Ok(())),
            TestProgress::GroupEnd,
        ]
    );
}

#[test]
fn filter() {
    let progress = options_test(
        group(
            "group",
            vec![
                group("inner1", vec![tensile::test("test1", true)]),
                tensile::test("middle test", true),
                group("inner2", vec![]),
            ],
        ),
        Options {
            filter: "test1".into(),
            color: Color(ColorChoice::Never),
        },
    );
    assert_eq!(
        progress,
        vec![
            TestProgress::GroupStart("group".into()),
            TestProgress::GroupStart("inner1".into()),
            TestProgress::Test("test1".into(), Ok(())),
            TestProgress::GroupEnd,
            TestProgress::GroupEnd,
        ]
    );
}
