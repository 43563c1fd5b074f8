use michi::sink::Sink;
use michi::{Closure, Cmd, Item, OnError, Status, Step, Strategy, Timing};

fn timing(exit: i32) -> Timing {
    Timing {
        wall_ns: 1_000_000_000,
        user_ns: Some(1_000_000_000),
        sys_ns: Some(0),
        max_rss_kb: Some(1024),
        exit,
    }
}

/// Two commands, the second having gone however `outcome` says.
fn step(on_error: OnError, outcome: Status) -> Step<()> {
    let mut step = Step::serial(vec![Cmd::new("/a"), Cmd::new("/b")]).on_error(on_error);
    let cmds = step.cmds_mut().unwrap();
    cmds[0].status = Status::Finished(timing(0));
    cmds[1].status = outcome;
    step
}

#[test]
fn nothing_failed_so_nothing_reaches_anywhere() {
    for on_error in [OnError::Continue, OnError::Skip, OnError::Abort] {
        let step = step(on_error, Status::Finished(timing(0)));
        assert!(!step.skips(), "{on_error:?} skipped a clean step");
        assert!(step.aborts().is_none(), "{on_error:?} aborted a clean step");
    }
}

#[test]
fn continue_lets_a_failure_pass() {
    let step = step(OnError::Continue, Status::Finished(timing(1)));
    assert!(!step.skips());
    assert!(step.aborts().is_none());
}

#[test]
fn skip_stops_the_step_and_stops_there() {
    let step = step(OnError::Skip, Status::Finished(timing(1)));
    assert!(step.skips());
    assert!(step.aborts().is_none());
}

#[test]
fn abort_stops_the_step_and_names_what_did_it() {
    let step = step(OnError::Abort, Status::Finished(timing(1)));
    assert!(step.skips());
    let why = step.aborts().expect("a failing command should abort");
    assert!(why.starts_with("b failed: "), "{why}");
}

#[test]
fn a_command_that_never_ran_is_not_a_failure() {
    for outcome in [Status::NotRun, Status::Skipped] {
        let step = step(OnError::Abort, outcome);
        assert!(!step.skips());
        assert!(step.aborts().is_none());
    }
}

#[test]
fn every_way_of_failing_counts() {
    for outcome in [
        Status::Failed("could not spawn".into()),
        Status::TimedOut(timing(143)),
        Status::Finished(timing(1)),
    ] {
        let step = step(OnError::Abort, outcome);
        assert!(step.skips());
        assert!(step.aborts().is_some());
    }
}

#[test]
fn a_batch_always_has_a_worker() {
    // zero jobs would mean no workers at all, which hangs rather than
    // finishing empty
    assert_eq!(Step::<()>::batched(0, vec![Cmd::new("/a")]).width(), 1);
    assert_eq!(Step::<()>::batched(4, vec![Cmd::new("/a")]).width(), 4);
    assert_eq!(Step::<()>::serial(vec![Cmd::new("/a")]).width(), 1);
}

#[test]
fn the_first_failure_is_the_one_described() {
    let mut step: Step<()> = Step::serial(vec![Cmd::new("/a"), Cmd::new("/b"), Cmd::new("/c")]);
    let cmds = step.cmds_mut().unwrap();
    cmds[1].status = Status::Finished(timing(2));
    cmds[2].status = Status::Finished(timing(3));
    assert_eq!(
        step.failed().unwrap(),
        "b failed: /b > /dev/null 2> /dev/null"
    );
}

#[test]
fn a_closure_that_failed_says_why() {
    let mut step = Step::from_closures(vec![Closure::new("c", ()), Closure::new("d", ())]);
    step.closures_mut().unwrap()[1].status = Status::Failed("no room".into());
    assert_eq!(step.aborts().unwrap(), "d failed: no room");
    step.closures_mut().unwrap()[0].status = Status::TimedOut(timing(0));
    assert_eq!(step.aborts().unwrap(), "c failed");
}

#[test]
fn a_step_is_called_by_its_number_and_its_name() {
    let mut step: Step<()> = Step::serial(Vec::new());
    assert_eq!(step.label(), "");
    step.index = Some(3);
    assert_eq!(step.label(), "[3]");
    let step = step.name("setup");
    assert_eq!(step.label(), "[3](setup)");
    assert_eq!(Step::<()>::serial(Vec::new()).name("n").label(), "n");
}

#[test]
fn a_step_holds_commands_or_closures() {
    let step: Step<()> = Step::from(Cmd::new("/a"));
    assert_eq!(step.cmds().len(), 1);
    assert_eq!(step.closures().len(), 0);
    assert_eq!(step.strategy(), Some(Strategy::Serial));
    assert_eq!(step.items().len(), 1);
    assert!(matches!(step.items()[0], Item::Cmd(_)));
    assert_eq!(step.wall_ns(), None);

    let mut step = Step::from(Closure::new("c", 7).field("k", 1).tag("t"));
    assert_eq!(step.cmds().len(), 0);
    assert_eq!(step.closures().len(), 1);
    assert_eq!(step.strategy(), None);
    assert_eq!(step.width(), 1);
    assert!(step.cmds_mut().is_none());
    let item = step.items()[0];
    assert_eq!(item.label(), "c");
    assert_eq!(item.line(), None);
    assert_eq!(item.cpus(), None);
    assert_eq!(item.exit(), None);
    assert_eq!(item.cores(), 0);
    assert_eq!(item.fields().get("k"), Some("1"));
    assert!(item.tags().contains("t"));
    assert_eq!(step.closures()[0].f, Some(7));
}

#[test]
fn what_a_step_asks_for_reaches_commands_alone() {
    let step: Step<()> = Step::serial(vec![Cmd::new("/a")])
        .cores(2)
        .pool(4)
        .memory(michi::Memory::Bound);
    assert_eq!(step.pool, Some(4));
    match step.items {
        michi::step::Items::Cmds { cores, memory, .. } => {
            assert_eq!(cores, Some(2));
            assert_eq!(memory, Some(michi::Memory::Bound));
        }
        michi::step::Items::Closures(_) => unreachable!(),
    }
    let step = Step::from_closures(vec![Closure::new("c", ())]).cores(2);
    assert_eq!(step.closures().len(), 1);
    assert_eq!(OnError::default(), OnError::Abort);
}

struct Quiet;

impl Sink<()> for Quiet {}

#[test]
fn a_sink_does_nothing_unless_told_to() {
    let step: Step<()> = Step::from(Cmd::new("/a"));
    let cmd = Cmd::new("/a");
    let mut sink = Quiet;
    assert!(sink.start(&[]).is_ok());
    assert!(sink.step_start(&step).is_ok());
    assert!(sink.item_start(&step, 0, Item::Cmd(&cmd)).is_ok());
    assert!(sink.item_done(&step, 0, Item::Cmd(&cmd)).is_ok());
    assert!(sink.step_done(&step).is_ok());
    assert!(Sink::<()>::abandoned(&mut sink, "why").is_ok());
    assert!(Sink::<()>::finish(&mut sink).is_ok());
}
