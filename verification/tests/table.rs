use michi::cmd::{Cmd, Output};
use michi::sorted::Names;
use michi::status::Policy;
use michi::table::columns::{Columns, Pool};
use michi::table::cost::{cpu_pct, listed, status_word, step_cost, Spent};
use michi::table::layout::{Cell, Floor, Header, Side};
use michi::{Closure, Headers, Item, Mode, OnError, Status, Step, Table, Timing};

/// Fixed numbers so a rendered table is the same every time: 2.25s of CPU
/// over 1.5s of wall is 150%, and 2048 KiB is 2.00MiB.
fn timing(exit: i32) -> Timing {
    Timing {
        wall_ns: 1_500_000_000,
        user_ns: Some(2_000_000_000),
        sys_ns: Some(250_000_000),
        max_rss_kb: Some(2048),
        exit,
    }
}

fn cmd(program: &str, name: &str) -> Cmd {
    Cmd::new(program)
        .name(name)
        .stdout(Output::Inherit)
        .stderr(Output::Inherit)
}

fn finish(step: &mut Step<()>, index: usize) {
    step.index = Some(index);
    step.elapsed_ns = Some(1_500_000_000);
    for cmd in step.cmds_mut().into_iter().flatten() {
        cmd.status = Status::Finished(timing(0));
    }
    for closure in step.closures_mut().into_iter().flatten() {
        // a closure only ever has a wall clock behind it
        closure.status = Status::Finished(Timing {
            user_ns: None,
            sys_ns: None,
            max_rss_kb: None,
            ..timing(0)
        });
    }
}

/// A step of one that collapses, then a batch of two carrying a field.
fn steps() -> Vec<Step<()>> {
    let mut setup = Step::serial(vec![cmd("/mkdir", "mkdir")]).name("setup");
    finish(&mut setup, 1);

    let mut burn = Step::batched(
        2,
        vec![
            cmd("/a", "a").field("job", 1),
            cmd("/b", "b").field("job", 2),
        ],
    )
    .name("burn");
    finish(&mut burn, 2);

    vec![setup, burn]
}

/// What is in the file once `table` has said whether its text belongs there.
fn put(file: &mut String, table: &Table, flush: bool) {
    if flush {
        *file = table.text.clone();
    }
}

/// Drive the table the way a pipeline would, and give back what it wrote.
fn write(name: &str, mode: Mode, steps: &[Step<()>]) -> String {
    let mut file = String::new();

    let mut table = Table::new(name).mode(mode);
    let flush = table.start(steps);
    put(&mut file, &table, flush);
    for step in steps {
        let flush = table.step_done(step);
        put(&mut file, &table, flush);
    }
    let flush = table.finish();
    put(&mut file, &table, flush);

    file
}

/// How wide each column is ruled under a header padded to `floor`. The last is
/// ruled as wide as its label, and the first has the marker in it.
fn ruled(columns: &Columns, floor: &Floor) -> Vec<usize> {
    let text = columns.render(&[], Header::Show, floor);
    let rule = text.lines().nth(1).unwrap().replacen("# ", "--", 1);
    rule.split(' ').map(|dashes| dashes.len()).collect()
}

fn header_lines(text: &str) -> usize {
    text.lines().filter(|l| l.starts_with("# step")).count()
}

#[test]
fn a_block_lays_out_under_its_header() {
    let expected = "\
# step     cmd   job wall(s) user(s) sys(s) cpu(%) max_rss exit status argv
# -------- ----- --- ------- ------- ------ ------ ------- ---- ------ ----
[1](setup) mkdir -   1.50    2.00    0.25   150%   2.00MiB 0    ok     /mkdir
[2](burn)  -     -   1.50    4.00    0.50   300%   2.00MiB -    -      -
        || a     1   1.50    2.00    0.25   150%   2.00MiB 0    ok     /a
        || b     2   1.50    2.00    0.25   150%   2.00MiB 0    ok     /b
";
    assert_eq!(write("golden", Mode::default(), &steps()), expected);
}

#[test]
fn a_step_that_never_ran_has_no_numbers_to_report() {
    let mut step = Step::serial(vec![cmd("/a", "a"), cmd("/b", "b")]).name("s");
    step.index = Some(1);

    let text = write("never-ran", Mode::default(), &[step]);
    let step_row = text.lines().nth(2).unwrap();

    assert!(step_row.starts_with("[1](s)"), "{step_row}");
    assert!(
        !step_row.contains('%'),
        "no command finished, so there is no cpu figure: {step_row}"
    );
}

#[test]
fn blocks_with_one_header_writes_it_before_anything_runs() {
    let mut file = String::new();

    let mut table = Table::new("early").mode(Mode::default());
    let flush = table.start(&steps());
    put(&mut file, &table, flush);

    let text = file;
    assert_eq!(header_lines(&text), 1);
    assert_eq!(text.lines().count(), 2, "header and separator, no rows yet");
}

#[test]
fn one_header_or_one_per_step() {
    let steps = steps();
    assert_eq!(
        header_lines(&write("one-header", Mode::default(), &steps)),
        1
    );

    let text = write(
        "each-header",
        Mode::Blocks {
            headers: Headers::Each,
        },
        &steps,
    );
    assert_eq!(header_lines(&text), steps.len());
}

#[test]
fn whole_holds_everything_back_until_the_run_is_over() {
    let mut file = String::new();
    let steps = steps();

    let mut table = Table::new("whole").mode(Mode::Whole);
    let flush = table.start(&steps);
    put(&mut file, &table, flush);
    for step in &steps {
        let flush = table.step_done(step);
        put(&mut file, &table, flush);
    }
    assert_eq!(
        file, "",
        "nothing should reach the file before finish"
    );

    let flush = table.finish();
    put(&mut file, &table, flush);
    let text = file;
    assert_eq!(header_lines(&text), 1);
    assert_eq!(text.lines().count(), 6);
}

#[test]
fn ragged_gives_each_block_only_the_columns_its_own_commands_use() {
    let text = write("ragged", Mode::Ragged, &steps());
    let heads: Vec<&str> = text.lines().filter(|l| l.starts_with("# step")).collect();

    assert_eq!(heads.len(), 2, "ragged blocks each need their own header");
    assert!(
        !heads[0].contains("job"),
        "setup has no fields: {}",
        heads[0]
    );
    assert!(heads[1].contains("job"), "burn does: {}", heads[1]);
}

/// One command pinned to cpus 4 and 6, and placed on node 1 when `numa`.
fn placed(numa: bool) -> Step<()> {
    let mut step = Step::serial(vec![cmd("/x", "pinned").cores(2)]).name("s");
    for cmd in step.cmds_mut().into_iter().flatten() {
        cmd.numa = numa;
        cmd.cpus = vec![4, 6];
        cmd.nodes = if numa { vec![1] } else { Vec::new() };
        cmd.policy = if numa {
            Policy::Preferred(1)
        } else {
            Policy::Default
        };
    }
    finish(&mut step, 1);
    step
}

#[test]
fn a_node_column_says_where_a_command_landed() {
    let text = write("node-on", Mode::default(), &[placed(true)]);
    let lines: Vec<&str> = text.lines().collect();

    let at = lines[0].find("node").expect("a node heading");
    assert!(lines[2][at..].starts_with('1'), "{}", lines[2]);
    assert!(
        lines[0][at..].starts_with("node policy   cpus"),
        "node, then policy, then cpus: {}",
        lines[0]
    );
    assert!(lines[2][at..].contains(" prefer:1 "), "{}", lines[2]);
}

#[test]
fn a_pooled_step_names_its_pool_once_and_its_commands_say_pool() {
    let mut step = Step::serial(vec![cmd("/x", "a"), cmd("/y", "b")]).name("s");
    step.pooled = true;
    step.pool_cpus = vec![4, 6];
    for cmd in step.cmds_mut().into_iter().flatten() {
        cmd.pooled = true;
        cmd.cpus = vec![4, 6];
    }
    finish(&mut step, 1);
    let text = write("pooled", Mode::default(), &[step]);
    let lines: Vec<&str> = text.lines().collect();

    let at = lines[0].find("cpus").expect("a cpus heading");
    assert!(lines[2][at..].starts_with("4,6"), "{}", lines[2]);
    assert!(lines[3][at..].starts_with("pool"), "{}", lines[3]);
    assert!(lines[4][at..].starts_with("pool"), "{}", lines[4]);
}

#[test]
fn a_closure_alone_in_a_pooled_step_shows_the_pool() {
    let mut step = Step::from_closures(vec![Closure::new("c", ())]).name("s");
    step.pooled = true;
    step.pool_cpus = vec![4, 6];
    let text = write("pooled-closure", Mode::default(), &[step]);
    let lines: Vec<&str> = text.lines().collect();

    let at = lines[0].find("cpus").expect("a cpus heading");
    assert!(lines[2][at..].starts_with("4,6"), "{}", lines[2]);
}

#[test]
fn a_dropped_preference_says_why_in_the_policy_column() {
    let mut step = placed(true);
    for cmd in step.cmds_mut().into_iter().flatten() {
        cmd.policy = Policy::Dropped("node 1 not in Mems_allowed".into());
    }
    let text = write("node-dropped", Mode::default(), &[step]);

    assert!(
        text.contains("default (node 1 not in Mems_allowed)"),
        "{text}"
    );
}

#[test]
fn one_node_gets_no_node_column_at_all() {
    let text = write("node-off", Mode::default(), &[placed(false)]);

    assert!(!text.contains("node"), "a column of nothing but 0: {text}");
    assert!(
        text.contains("cpus"),
        "the cpus column still stands: {text}"
    );
}

#[test]
fn columns_are_sorted_and_asked_for_only_once() {
    let step: Step<()> = Step::serial(vec![
        cmd("/a", "a").field("zed", 1).field("alpha", 2).tag("slow"),
        cmd("/b", "b").field("alpha", 3).tag("slow").tag("first"),
    ]);
    let columns = Columns::of(&[step]);

    let names = |of: &Names| -> Vec<String> { (0..of.len()).map(|i| of.at(i).to_string()).collect() };
    assert_eq!(names(&columns.keys), ["alpha", "zed"]);
    assert_eq!(names(&columns.tags), ["first", "slow"]);
}

#[test]
fn a_tag_reads_as_present_or_absent_rather_than_as_a_value() {
    let mut step = Step::serial(vec![cmd("/a", "a").tag("setup"), cmd("/b", "b")]).name("s");
    finish(&mut step, 1);

    let text = write("tags", Mode::default(), &[step]);
    let lines: Vec<&str> = text.lines().collect();
    let at = lines[0].find("setup").unwrap();

    assert_eq!(&lines[3][at..at + 1], "x");
    assert_eq!(&lines[4][at..at + 1], "-");
}

#[test]
fn status_and_exit_answer_different_questions() {
    // a command that could not start reads "fail" with no
    // exit code beside it, which separates it from one that
    // started and failed
    assert_eq!(status_word(&Status::NotRun), "-");
    assert_eq!(status_word(&Status::Skipped), "skip");
    assert_eq!(status_word(&Status::Failed("x".into())), "fail");
    assert_eq!(status_word(&Status::TimedOut(timing(143))), "time");
    assert_eq!(status_word(&Status::Finished(timing(0))), "ok");
    assert_eq!(status_word(&Status::Finished(timing(1))), "fail");
}

#[test]
fn a_skipped_step_still_gets_a_row() {
    let mut step = Step::serial(vec![cmd("/a", "a")])
        .name("never")
        .on_error(OnError::Continue);
    step.index = Some(1);
    step.cmds_mut().unwrap()[0].status = Status::Skipped;

    let text = write("skipped", Mode::default(), &[step]);
    let row = text.lines().nth(2).unwrap();

    assert!(row.starts_with("[1](never) a"), "{row}");
    assert!(row.contains("skip"), "{row}");
}

#[test]
fn a_step_of_one_closure_collapses_and_shares_its_columns_with_commands() {
    let mut setup = Step::serial(vec![cmd("/mkdir", "mkdir").field("job", 1)]).name("setup");
    finish(&mut setup, 1);

    // `shard` is the closure's alone, so the column can only come from it;
    // `job` is shared, so the two have to agree about where it sits
    let mut check = Step::from_closures(vec![Closure::new("verify", ())
        .field("job", 2)
        .field("shard", 7)])
    .name("check");
    finish(&mut check, 2);

    // the closure row has a wall clock and a status, and `-`
    // in every column a closure has no figure for
    let expected = "\
# step     cmd    job shard wall(s) user(s) sys(s) cpu(%) max_rss exit status argv
# -------- ------ --- ----- ------- ------- ------ ------ ------- ---- ------ ----
[1](setup) mkdir  1   -     1.50    2.00    0.25   150%   2.00MiB 0    ok     /mkdir
[2](check) verify 2   7     1.50    -       -      -      -       -    ok     -
";

    assert_eq!(
        write("closure-collapse", Mode::default(), &[setup, check]),
        expected
    );
}

#[test]
fn a_step_of_two_closures_gets_a_line_of_its_own() {
    let mut step = Step::from_closures(vec![
        Closure::new("first", ()),
        Closure::new("second", ()),
    ])
    .name("check");
    finish(&mut step, 1);

    let text = write("closure-block", Mode::default(), &[step]);
    let rows: Vec<&str> = text.lines().skip(2).collect();

    assert_eq!(rows.len(), 3, "a step row and two closures: {rows:?}");
    assert!(rows[0].starts_with("[1](check)"), "{}", rows[0]);
    // serial, so the same marker a serial command step gets
    assert!(rows[1].trim_start().starts_with("| first"), "{}", rows[1]);
    assert!(rows[2].trim_start().starts_with("| second"), "{}", rows[2]);

    // the step's own row has a wall clock but no cpu to add up
    let step_row = rows[0];
    assert!(step_row.contains("1.50"), "{step_row}");
}

#[test]
fn cpu_pct_truncates_rather_than_rounding() {
    // gnu time divides two integers, so 199.9% reads 199%, not 200%
    assert_eq!(cpu_pct(1_999_000_000, Some(1_000_000_000)).as_deref(), Some("199%"));
    assert_eq!(cpu_pct(999_900_000, Some(1_000_000_000)).as_deref(), Some("99%"));
    assert_eq!(cpu_pct(4_000_000_000, Some(1_000_000_000)).as_deref(), Some("400%"));
}

#[test]
fn cpu_pct_needs_a_clock_to_divide_by() {
    assert_eq!(cpu_pct(1_000_000_000, None), None);
    assert_eq!(cpu_pct(1_000_000_000, Some(0)), None);
}

#[test]
fn cpu_pct_divides_whole_numbers() {
    // a double of 0.29 over 1 comes out just under 29%
    assert_eq!(cpu_pct(290_000_000, Some(1_000_000_000)).as_deref(), Some("29%"));
    assert_eq!(cpu_pct(0, Some(1)).as_deref(), Some("0%"));
    assert_eq!(cpu_pct(1, Some(3)).as_deref(), Some("33%"));
}

#[test]
fn a_list_cell_is_missing_for_an_empty_list() {
    assert_eq!(listed(&[]).text, None);
    assert_eq!(listed(&[0, 1, 2]).text.as_deref(), Some("0-2"));
}

#[test]
fn a_step_of_a_command_and_no_figure_has_no_total() {
    let mut step: Step<()> = Step::serial(vec![cmd("/a", "a"), cmd("/b", "b")]);
    finish(&mut step, 1);
    let cost = step_cost(&step);
    let ns = |spent: Option<Spent>| spent.map(|s| s.ns);
    assert_eq!(ns(cost.user), Some(4_000_000_000));
    assert_eq!(ns(cost.sys), Some(500_000_000));
    assert_eq!(cost.max_rss_kb, Some(2048));

    step.cmds_mut().unwrap()[0].status = Status::Finished(Timing {
        user_ns: None,
        max_rss_kb: Some(4096),
        ..timing(0)
    });
    let cost = step_cost(&step);
    assert_eq!(ns(cost.user), None);
    assert_eq!(ns(cost.sys), Some(500_000_000));
    assert_eq!(cost.max_rss_kb, Some(4096));

    let none: Step<()> = Step::serial(vec![cmd("/a", "a")]);
    let cost = step_cost(&none);
    assert!(cost.user.is_none() && cost.sys.is_none());
    assert_eq!(cost.max_rss_kb, None);
}

#[test]
fn every_row_has_a_cell_for_every_column() {
    let steps = vec![placed(true), placed(false)];
    let columns = Columns::of(&steps);
    assert!(columns.cpus && columns.nodes);
    assert_eq!(columns.cpus_width, 3);
    let width = columns.schema().len() + 1;
    for step in &steps {
        for row in columns.block(step) {
            assert_eq!(row.len(), width);
        }
    }
    let item = &steps[0].cmds()[0];
    let row = columns.row(Cell::missing(), Item::<()>::Cmd(item), Pool::Own);
    assert_eq!(row.len(), width);
    assert_eq!(row[1].text.as_deref(), Some("pinned"));
    assert_eq!(row[width - 1].text.as_deref(), Some("/x"));
    assert_eq!(row[width - 2].text.as_deref(), Some("4,6"));
    let row = columns.row(Cell::missing(), Item::<()>::Cmd(item), Pool::Shared);
    assert_eq!(row[width - 2].text.as_deref(), Some("pool"));
    let row = columns.row(Cell::missing(), Item::<()>::Cmd(item), Pool::Named(&[7], &[2]));
    assert_eq!(row[width - 2].text.as_deref(), Some("7"));
    assert_eq!(row[width - 4].text.as_deref(), Some("2"));
}

#[test]
fn an_empty_step_is_its_own_line() {
    let step: Step<()> = Step::serial(Vec::new()).name("idle");
    let columns = Columns::of_one(&step);
    assert!(!columns.cpus && !columns.nodes);
    let rows = columns.block(&step);
    assert_eq!(rows.len(), 1);
    assert_eq!(rows[0][0].text.as_deref(), Some("idle"));
    assert_eq!(rows[0][1].text, None);
}

#[test]
fn a_batch_is_marked_against_the_right() {
    let steps = steps();
    let rows = Columns::of(&steps).block(&steps[1]);
    assert_eq!(rows.len(), 3);
    assert_eq!(rows[1][0].text.as_deref(), Some("||"));
    assert_eq!(rows[1][0].side, Side::Right);
    assert_eq!(rows[0][0].side, Side::Left);
}

#[test]
fn the_floor_is_as_wide_as_what_is_under_it() {
    let steps = steps();
    let columns = Columns::of(&steps);
    let floor = columns.measure(&steps);
    // "[1](setup)" is wider than "# step", and "mkdir" than "cmd"
    assert_eq!(ruled(&columns, &floor), [10, 5, 3, 7, 7, 6, 6, 7, 4, 6, 4]);
    let bare = Columns::none();
    let none: [Step<()>; 0] = [];
    assert_eq!(ruled(&bare, &bare.measure(&none)), [6, 3, 7, 7, 6, 6, 7, 4, 6, 4]);
}

#[test]
fn a_floor_for_other_columns_is_ignored() {
    let steps = steps();
    let columns = Columns::of(&steps);
    let rows = columns.block(&steps[1]);
    let bare = Columns::none();
    let none: [Step<()>; 0] = [];
    let floor = bare.measure(&none);
    let table = Table::new("x");
    assert_eq!(
        columns.render(&rows, Header::Show, &floor),
        columns.render(&rows, Header::Show, &table.floor)
    );
    assert_ne!(
        columns.render(&rows, Header::Show, &columns.measure(&steps)),
        columns.render(&rows, Header::Show, &table.floor)
    );
}

#[test]
fn an_unnamed_unnumbered_step_reads_as_missing() {
    let step: Step<()> = Step::serial(vec![cmd("/a", "a")]);
    let text = write("unnamed", Mode::Ragged, &[step]);
    assert!(text.lines().nth(2).unwrap().starts_with("-      a "), "{text}");
}

#[test]
fn what_is_laid_out_goes_at_the_end() {
    let mut table = Table::new("x");
    assert_eq!(table.mode, Mode::default());
    table.take("a\n");
    table.take("b\n");
    assert_eq!(table.text, "a\nb\n");
    assert!(!table.finish());
    assert_eq!(table.text, "a\nb\n");
}

#[test]
fn columns_do_not_depend_on_the_order_fields_turn_up_in() {
    let labels = |steps: &[Step<()>]| -> Vec<String> {
        Columns::of(steps).schema().into_iter().map(|h| h.label).collect()
    };
    let a = Step::serial(vec![cmd("/a", "a").field("x", 1).tag("t"), cmd("/b", "b").field("y", 2)]);
    let b = Step::serial(vec![cmd("/b", "b").field("y", 2), cmd("/a", "a").tag("t").field("x", 1)]);
    assert_eq!(labels(&[a]), labels(&[b]));
}

#[test]
fn blocks_that_fit_line_up_under_one_header() {
    let text = write("lined-up", Mode::default(), &steps());
    let lines: Vec<&str> = text.lines().collect();
    let at = lines[0].find("argv").unwrap();
    assert!(lines[2][at..].starts_with("/mkdir"), "{text}");
    assert!(lines[4][at..].starts_with("/a"), "{text}");
}

#[test]
fn a_short_row_is_missing_its_rest_and_a_long_one_is_cut() {
    let columns = Columns::none();
    let width = columns.schema().len() + 1;
    let table = Table::new("x");
    let row = |n: usize| -> Vec<Cell> {
        (0..n)
            .map(|i| match i {
                0 => Cell::of("first".to_string()),
                _ => Cell::missing(),
            })
            .collect()
    };
    let full = columns.render(&[row(width)], Header::Hide, &table.floor);
    assert_eq!(columns.render(&[row(1)], Header::Hide, &table.floor), full);
    assert_eq!(columns.render(&[row(width + 3)], Header::Hide, &table.floor), full);
}

#[test]
fn a_step_adds_its_times_up_the_way_doubles_do() {
    let mut step: Step<()> = Step::serial(vec![cmd("/a", "a"), cmd("/b", "b")]);
    finish(&mut step, 1);
    for (cmd, ns) in step.cmds_mut().unwrap().iter_mut().zip([2_600_000_000, 75_000_000]) {
        cmd.status = Status::Finished(Timing {
            user_ns: Some(ns),
            ..timing(0)
        });
    }
    let columns = Columns::of_one(&step);
    let rows = columns.block(&step);
    assert_eq!(rows[0][3].text.as_deref(), Some("2.68"));
    assert_eq!(rows[1][3].text.as_deref(), Some("2.60"));
    assert_eq!(rows[2][3].text.as_deref(), Some("0.07"));
}

#[test]
fn a_whole_table_is_every_row_under_one_header_padded_alike() {
    let expected = "\
# step     cmd   job wall(s) user(s) sys(s) cpu(%) max_rss exit status argv
# -------- ----- --- ------- ------- ------ ------ ------- ---- ------ ----
[2](burn)  -     -   1.50    4.00    0.50   300%   2.00MiB -    -      -
        || a     1   1.50    2.00    0.25   150%   2.00MiB 0    ok     /a
        || b     2   1.50    2.00    0.25   150%   2.00MiB 0    ok     /b
[1](setup) mkdir -   1.50    2.00    0.25   150%   2.00MiB 0    ok     /mkdir
";
    let steps = steps();
    let mut table = Table::new("whole").mode(Mode::Whole);
    assert!(table.start(&steps));
    // in the order they were done, not the order they were declared
    assert!(!table.step_done(&steps[1]));
    assert!(!table.step_done(&steps[0]));
    assert_eq!(table.text, "");
    assert!(table.finish());
    assert_eq!(table.text, expected);
}

#[test]
fn the_end_of_a_run_leaves_blocks_as_they_were() {
    let steps = steps();
    for mode in [
        Mode::default(),
        Mode::Blocks { headers: Headers::Each },
        Mode::Ragged,
    ] {
        let mut table = Table::new("blocks").mode(mode);
        assert!(table.start(&steps));
        assert!(table.step_done(&steps[0]));
        let before = table.text.clone();
        assert!(!table.finish());
        assert_eq!(table.text, before);
    }
}

#[test]
fn no_floor_leaves_a_block_at_its_own_widths() {
    let steps = steps();
    let columns = Columns::of(&steps);
    let rows = columns.block(&steps[1]);
    let own = Floor::of(&columns.schema(), "argv", &rows);
    assert_eq!(
        columns.render(&rows, Header::Show, &Floor::none()),
        columns.render(&rows, Header::Show, &own)
    );
}
