use michi::progress::plain;
use michi::progress::state::{CLEAR, HIDE_CURSOR, SHOW_CURSOR, UP};
use michi::{Closure, Cmd, Item, Marks, Progress, Status, Step, Stream, Timing, When};

fn finished() -> Status {
    Status::Finished(Timing {
        wall_ns: 1_500_000_000,
        user_ns: Some(2_000_000_000),
        sys_ns: Some(250_000_000),
        max_rss_kb: Some(2048),
        exit: 0,
    })
}

fn exited(exit: i32) -> Timing {
    Timing {
        wall_ns: 1_500_000_000,
        user_ns: None,
        sys_ns: None,
        max_rss_kb: None,
        exit,
    }
}

fn line(nodes: &[usize], note: Option<&str>) -> String {
    Progress::new().state.line("cmd", &finished(), nodes, note)
}

#[test]
fn one_node_leaves_the_line_as_it_was() {
    assert!(!line(&[], None).contains("node"));
}

#[test]
fn a_placed_command_names_its_node() {
    assert!(line(&[1], None).contains("  node 1"));
}

#[test]
fn a_dropped_preference_says_why_beside_the_node() {
    let text = line(&[1], Some("node 1 not in Mems_allowed"));
    assert!(
        text.contains("node 1 (no memory preference: node 1 not in Mems_allowed)"),
        "{text}"
    );
}

#[test]
fn a_line_says_what_an_item_cost_and_how_it_went() {
    let mut progress = Progress::new();
    let name = format!("{:<32}", "cmd");
    let say = |progress: &Progress, status: Status| progress.state.line("cmd", &status, &[], None);

    assert_eq!(
        say(&progress, finished()),
        format!("  ✓ {name}     1.50s   2.00MiB")
    );
    assert_eq!(
        say(&progress, Status::Finished(exited(3))),
        format!("  ✗ {name}     1.50s         -  exit 3")
    );
    assert_eq!(
        say(&progress, Status::TimedOut(exited(143))),
        format!("  ! {name}     1.50s         -  timed out")
    );
    assert_eq!(say(&progress, Status::Skipped), format!("  · {name} skipped"));
    assert_eq!(say(&progress, Status::NotRun), format!("  · {name} -"));
    assert_eq!(
        say(&progress, Status::Failed("gone".into())),
        format!("  ✗ {name} gone")
    );

    progress.state.marks = Marks::Off;
    assert_eq!(
        say(&progress, finished()),
        format!("  {name}     1.50s   2.00MiB  ok")
    );

    progress.state.marks = Marks::Ascii;
    progress.state.color = true;
    assert_eq!(
        say(&progress, Status::Skipped),
        format!("  \x1b[2m-\x1b[0m \x1b[2m{name}\x1b[0m skipped")
    );
}

#[test]
fn the_verdict_stays_last_on_a_line() {
    let said = Progress::new()
        .state
        .line("cmd", &Status::Finished(exited(1)), &[0, 1], None);
    assert!(said.ends_with("  node 0-1  exit 1"), "{said}");
}

#[test]
fn marks_come_in_two_alphabets_or_none() {
    let statuses = [
        finished(),
        Status::Finished(exited(1)),
        Status::TimedOut(exited(0)),
        Status::Skipped,
    ];
    let signs = |marks: Marks| -> Vec<Option<&str>> {
        statuses.iter().map(|s| marks.of(s).map(|m| m.0)).collect()
    };
    assert_eq!(signs(Marks::Unicode), [Some("✓"), Some("✗"), Some("!"), Some("·")]);
    assert_eq!(signs(Marks::Ascii), [Some("+"), Some("x"), Some("!"), Some("-")]);
    assert_eq!(signs(Marks::Off), [None; 4]);
    let colors: Vec<&str> = statuses
        .iter()
        .map(|s| Marks::Ascii.of(s).unwrap().1)
        .collect();
    assert_eq!(colors, ["32", "31", "33", "2"]);
}

#[test]
fn the_spinner_comes_round_again() {
    assert_eq!(Marks::Unicode.spinner(0), "⠋");
    assert_eq!(Marks::Unicode.spinner(9), "⠏");
    assert_eq!(Marks::Unicode.spinner(10), "⠋");
    let bars: Vec<&str> = (0..5).map(|i| Marks::Ascii.spinner(i)).collect();
    assert_eq!(bars, ["|", "/", "-", "\\", "|"]);
    assert_eq!(Marks::Off.spinner(6), "-");
}

#[test]
fn a_long_name_is_cut_to_fit() {
    let long = "é".repeat(40);
    assert_eq!(Marks::Unicode.cut(&long), "é".repeat(31) + "…");
    assert_eq!(Marks::Ascii.cut(&long), "é".repeat(29) + "...");
    let fits = "x".repeat(32);
    assert_eq!(Marks::Ascii.cut(&fits), fits);
}

#[test]
fn when_is_settled_by_the_terminal_only_when_asked() {
    assert!(When::Auto.yes(true) && !When::Auto.yes(false));
    assert!(When::Always.yes(false));
    assert!(!When::Never.yes(true));
    assert_eq!(When::default(), When::Auto);
    assert_eq!(Stream::default(), Stream::Stdout);
    assert_eq!(Marks::default(), Marks::Unicode);
}

const S: u64 = 1_000_000_000;

/// A batch of two commands that go by the same name.
fn twins() -> Step<()> {
    let mut step = Step::batched(2, vec![Cmd::new("/bin/x"), Cmd::new("/bin/x")]).name("burn");
    step.index = Some(1);
    step
}

#[test]
fn a_log_is_one_plain_line_per_result() {
    let mut progress = Progress::new().color(When::Never).rewrite(When::Never);
    let mut step = twins();
    assert_eq!(
        progress.start(std::slice::from_ref(&step), true, false, 0),
        "1 steps, 2 to run\n"
    );
    assert_eq!(progress.step_start(0), "");
    assert_eq!(progress.item_start(0, step.items()[0], 0), "");
    step.cmds_mut().unwrap()[0].status = finished();
    step.cmds_mut().unwrap()[1].status = Status::Skipped;
    let name = format!("{:<32}", "x");
    assert_eq!(
        progress.item_done(&step, 0, step.items()[0], false, S),
        format!("[1](burn)\n  ✓ {name}     1.50s   2.00MiB\n")
    );
    assert_eq!(
        progress.item_done(&step, 1, step.items()[1], true, S),
        format!("  · {name} skipped\n")
    );
    assert_eq!(progress.step_done(S), "");
    assert_eq!(progress.abandoned("no room", S), "  giving up: no room\n");
    assert_eq!(
        progress.finish(61 * S),
        "1 ok, 0 failed, 1 skipped in 1m01.0s\n"
    );
    assert_eq!(progress.tick(62 * S), None);
}

#[test]
fn color_is_off_whenever_the_environment_says_so() {
    let steps: [Step<()>; 0] = [];
    let mut progress = Progress::new().color(When::Always).rewrite(When::Never);
    progress.start(&steps, true, true, 0);
    assert!(!progress.state.color);
    let mut progress = Progress::new().color(When::Always).rewrite(When::Never);
    assert_eq!(
        progress.start(&steps, false, false, 0),
        "\x1b[2m0 steps, 0 to run\x1b[0m\n"
    );
}

#[test]
fn the_live_block_is_erased_by_as_many_rows_as_it_took() {
    let mut progress = Progress::new()
        .marks(Marks::Ascii)
        .color(When::Never)
        .rewrite(When::Always)
        .stream(Stream::Stderr);
    let mut step = twins();
    let first = format!("| [1](burn)  0/2  0.0s  · 0/2 total  0.0s");
    assert_eq!(
        progress.start(std::slice::from_ref(&step), false, false, 0),
        format!("{HIDE_CURSOR}{CLEAR}1 steps, 2 to run\n{first}")
    );
    assert_eq!(progress.state.stream, Stream::Stderr);
    assert_eq!(progress.state.drawn, 1);
    assert_eq!(progress.step_start(0), format!("{CLEAR}{first}"));
    let one = |s: u64| format!("   | {:<32}  {s}.0s", "x");
    assert_eq!(
        progress.item_start(0, step.items()[0], 0),
        format!("{CLEAR}{first}\n{}", one(0))
    );
    assert_eq!(
        progress.item_start(1, step.items()[1], S),
        format!(
            "{CLEAR}{UP}| [1](burn)  0/2  1.0s  · 0/2 total  1.0s\n{}\n{}",
            one(1),
            one(0)
        )
    );
    assert_eq!(progress.state.drawn, 3);

    // the one at position 1 is done, and the other is still there
    step.cmds_mut().unwrap()[1].status = Status::Finished(exited(1));
    let said = progress.item_done(&step, 1, step.items()[1], true, 2 * S);
    assert!(said.starts_with(&format!("{CLEAR}{UP}{UP}[1](burn)\n")), "{said:?}");
    assert_eq!(progress.state.running.len(), 1);
    assert_eq!(progress.state.running[0].at, 0);
    assert_eq!(progress.state.drawn, 2);
    assert_eq!((progress.state.ok, progress.state.failed), (0, 1));

    let ticked = progress.tick(3 * S).unwrap();
    assert!(ticked.starts_with(&format!("{CLEAR}{UP}/ [1](burn)  1/2  3.0s")), "{ticked:?}");

    assert_eq!(
        progress.finish(4 * S),
        format!("{CLEAR}{UP}{SHOW_CURSOR}{CLEAR}0 ok, 1 failed, 0 skipped in 4.0s\n")
    );
    assert_eq!(progress.state.drawn, 0);
}

#[test]
fn a_failure_names_the_stderr_it_left() {
    let mut progress = Progress::new().color(When::Always).rewrite(When::Never);
    let mut step: Step<()> = Step::serial(vec![Cmd::new("/x").stderr_to("/log/x.err")]);
    step.cmds_mut().unwrap()[0].status = Status::Finished(exited(1));
    progress.start(std::slice::from_ref(&step), false, false, 0);
    progress.step_start(0);
    let left = progress.item_done(&step, 0, step.items()[0], true, 0);
    assert!(left.ends_with("\x1b[2m      /log/x.err\x1b[0m\n"), "{left:?}");
    progress.step_start(0);
    let gone = progress.item_done(&step, 0, step.items()[0], false, 0);
    assert!(!gone.contains("x.err"), "{gone:?}");
}

#[test]
fn a_wide_batch_is_summed_up_past_eight() {
    let mut progress = Progress::new().color(When::Never).rewrite(When::Always);
    let step = Step::from_closures((0..11).map(|i| Closure::new(format!("c{i}"), ())).collect());
    progress.start(std::slice::from_ref(&step), false, false, 0);
    progress.step_start(0);
    for (at, item) in step.items().into_iter().enumerate() {
        progress.item_start(at, item, 0);
    }
    let lines = progress.state.live(0);
    assert_eq!(lines.len(), 10);
    assert_eq!(lines[9], "   ... and 3 more");
    progress.stop();
    assert!(progress.state.live(0).is_empty());
}

#[test]
fn wiping_twice_is_harmless() {
    let mut progress = Progress::new();
    assert_eq!(progress.state.wipe(), "");
    progress.state.rewrite = true;
    progress.state.drawn = 2;
    assert_eq!(progress.state.wipe(), format!("{CLEAR}{UP}{SHOW_CURSOR}"));
    assert_eq!(progress.state.wipe(), format!("{CLEAR}{SHOW_CURSOR}"));
}

#[test]
fn a_clock_that_runs_backwards_reads_zero() {
    let mut progress = Progress::new().color(When::Never).rewrite(When::Never);
    let steps: [Step<()>; 0] = [];
    progress.start(&steps, false, false, 5 * S);
    assert_eq!(progress.finish(S), "0 ok, 0 failed, 0 skipped in 0.0s\n");
    let cmd = Cmd::new("/x");
    let item: Item<'_, ()> = Item::Cmd(&cmd);
    assert_eq!(item.label(), "x");
}

#[test]
fn the_environment_turns_color_off_in_two_ways() {
    assert!(!plain(false, None));
    assert!(!plain(false, Some("xterm")));
    assert!(plain(true, Some("xterm")));
    assert!(plain(false, Some("dumb")));
}
