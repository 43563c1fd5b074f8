use michi::cmd::redirect;
use michi::path::name_of;
use michi::shell::quote;
use michi::status::{Policy, Status};
use michi::{Cmd, Item, Memory, Output, Value};
use std::path::Path;
use std::time::Duration;

#[test]
fn quote_leaves_alone_what_a_shell_would_read_the_same_way() {
    for plain in [
        "nail",
        "--allow-overwrite",
        "/home/jack/tools/bin/nail",
        "12.0",
        "a_b-c.d/e=f:g+h,i@j%k^l",
    ] {
        assert_eq!(quote(plain), plain);
    }
}

#[test]
fn quote_wraps_anything_a_shell_would_read_differently() {
    assert_eq!(quote(""), "''");
    assert_eq!(quote("two words"), "'two words'");
    assert_eq!(quote("a*b"), "'a*b'");
    assert_eq!(quote("$HOME"), "'$HOME'");
    assert_eq!(quote("a\nb"), "'a\nb'");
    assert_eq!(quote("a;rm -rf /"), "'a;rm -rf /'");
    assert_eq!(quote("~/x"), "'~/x'");
    assert_eq!(quote("café"), "'café'");
}

#[test]
fn quote_closes_and_reopens_around_a_single_quote() {
    // 'it'\''s' is the only way to get a literal quote inside single quotes
    assert_eq!(quote("it's"), r"'it'\''s'");
    assert_eq!(quote("'"), r"''\'''");
}

#[test]
fn positionals_come_last_however_they_were_added() {
    // several tools read a trailing option as another
    // input file
    let cmd = Cmd::new("/bin/mmseqs")
        .sub("search")
        .path("query.fa")
        .arg("-s", "7.5")
        .path("target.fa")
        .flag("--quiet");

    assert_eq!(
        cmd.args(),
        ["search", "-s", "7.5", "--quiet", "query.fa", "target.fa"]
    );
}

#[test]
fn options_keep_the_order_they_were_given_in() {
    let cmd = Cmd::new("/x").arg("-a", 1).flag("-b").arg("-c", 3);
    assert_eq!(cmd.args(), ["-a", "1", "-b", "-c", "3"]);
}

#[test]
fn subcommands_nest_in_front() {
    let cmd = Cmd::new("/x").sub("outer").sub("inner").flag("-q");
    assert_eq!(cmd.args(), ["outer", "inner", "-q"]);
}

#[test]
fn options_before_the_first_sub_stay_in_front_of_it() {
    let cmd = Cmd::new("/git")
        .arg("-C", "dir")
        .sub("commit")
        .arg("-m", "msg");
    assert_eq!(cmd.args(), ["-C", "dir", "commit", "-m", "msg"]);
}

#[test]
fn every_level_keeps_its_own_options_and_positionals() {
    let cmd = Cmd::new("/docker")
        .sub("run")
        .flag("-it")
        .path("img")
        .sub("cmd")
        .flag("--opt")
        .path("in");

    assert_eq!(cmd.args(), ["run", "-it", "img", "cmd", "--opt", "in"]);
}

#[test]
fn a_positional_on_the_program_level_comes_before_the_first_sub() {
    let cmd = Cmd::new("/x").path("a").sub("s").path("b");
    assert_eq!(cmd.args(), ["a", "s", "b"]);
}

#[test]
fn pinning_stays_out_of_the_argv() {
    let mut cmd = Cmd::new("/bin/nail").sub("search");
    cmd.cpus = vec![0, 2];
    assert_eq!(cmd.args(), ["search"]);
    assert_eq!(cmd.line(), "/bin/nail search > /dev/null 2> /dev/null");
}

#[test]
fn a_line_carries_its_environment_in_front() {
    let line = Cmd::new("/usr/bin/wc")
        .env("LC_ALL", "C")
        .flag("-l")
        .stdout(Output::Inherit)
        .stderr(Output::Inherit)
        .line();

    assert_eq!(line, "LC_ALL=C /usr/bin/wc -l");
}

#[test]
fn a_working_directory_becomes_a_subshell_with_the_redirects_outside_it() {
    let line = Cmd::new("/usr/bin/wc")
        .flag("-l")
        .path("data.txt")
        .dir("/tmp/work")
        .stdout_to("out.txt")
        .stderr(Output::Inherit)
        .line();

    assert_eq!(line, "(cd /tmp/work && /usr/bin/wc -l data.txt) > out.txt");
}

#[test]
fn a_line_says_where_each_stream_went() {
    let base = || Cmd::new("/x").stderr(Output::Inherit);

    assert_eq!(base().line(), "/x > /dev/null");
    assert_eq!(base().stdout(Output::Inherit).line(), "/x");
    assert_eq!(base().stdout_to("o").line(), "/x > o");
    assert_eq!(base().stdout(Output::Append("o".into())).line(), "/x >> o");
    assert_eq!(
        base().stdout(Output::OnFailure("o".into())).line(),
        "/x > o"
    );
    assert_eq!(
        Cmd::new("/x").stderr_to("e").line(),
        "/x > /dev/null 2> e",
        "stdout comes before stderr"
    );
}

#[test]
fn a_label_falls_back_to_the_program_with_the_path_dropped() {
    assert_eq!(Cmd::new("/home/jack/tools/bin/nail").label(), "nail");
    assert_eq!(Cmd::new("mkdir").label(), "mkdir");
    assert_eq!(Cmd::new("/x").name("prep").label(), "prep");
}

#[test]
fn an_option_value_is_whatever_displays() {
    let name = String::from("s");
    let cmd = Cmd::new("/x")
        .arg("a", &name)
        .arg("b", 'c')
        .arg("d", true)
        .arg("e", false)
        .arg("f", 255u8)
        .arg("g", u64::MAX)
        .arg("h", i64::MIN)
        .arg("i", -7i8)
        .arg("j", 0usize)
        .arg("k", 40000u16)
        .arg("l", 4000000000u32)
        .arg("m", -40000isize)
        .arg("n", -300i16)
        .arg("o", name.clone());
    assert_eq!(
        cmd.args(),
        [
            "a",
            "s",
            "b",
            "c",
            "d",
            "true",
            "e",
            "false",
            "f",
            "255",
            "g",
            "18446744073709551615",
            "h",
            "-9223372036854775808",
            "i",
            "-7",
            "j",
            "0",
            "k",
            "40000",
            "l",
            "4000000000",
            "m",
            "-40000",
            "n",
            "-300",
            "o",
            "s"
        ]
    );
    assert_eq!("two words".render(), "two words");
}

#[test]
fn an_option_after_a_positional_still_comes_out_in_front_of_it() {
    let one = Cmd::new("/x").path("p").arg("-a", 1);
    let other = Cmd::new("/x").arg("-a", 1).path("p");
    assert_eq!(one.args(), other.args());
    assert_eq!(one.args(), ["-a", "1", "p"]);
}

#[test]
fn a_quoted_word_is_the_same_word_to_a_shell() {
    // undone by hand: strip the quotes and the escapes between them
    for word in ["", "it's", "''", "a b", "\\", "a'b'c", "(", "2>", "é"] {
        let quoted = quote(word);
        let mut out = String::new();
        let mut inside = false;
        let mut chars = quoted.chars();
        while let Some(c) = chars.next() {
            match c {
                '\'' => inside = !inside,
                '\\' if !inside => out.push(chars.next().unwrap()),
                c => {
                    assert!(inside || c.is_ascii_alphanumeric(), "{quoted}");
                    out.push(c);
                }
            }
        }
        assert!(!inside);
        assert_eq!(out, word);
    }
}

#[test]
fn a_line_quotes_whatever_a_shell_would_take_apart() {
    let line = Cmd::new("/opt/my tool")
        .env("B", "two words")
        .env("A", 1)
        .env("B", "it's")
        .path("x;y")
        .dir("/a b")
        .stdout(Output::Append("o u t".into()))
        .stderr(Output::Null)
        .line();
    assert_eq!(
        line,
        r"(cd '/a b' && A=1 B='it'\''s' '/opt/my tool' 'x;y') >> 'o u t' 2> /dev/null"
    );
}

#[test]
fn a_redirect_is_left_out_only_when_inherited() {
    assert_eq!(redirect(&Output::Inherit, "2"), None);
    assert_eq!(redirect(&Output::Null, "2").unwrap(), "2> /dev/null");
    assert_eq!(redirect(&Output::File("f".into()), "").unwrap(), "> f");
    assert_eq!(redirect(&Output::Append("f".into()), "2").unwrap(), "2>> f");
    assert_eq!(Output::default(), Output::Null);
}

#[test]
fn a_path_ends_in_the_name_the_standard_library_finds() {
    for path in [
        "", "/", ".", "..", "./", "a", "a/", "a/.", "a/./.", "a/..", "/a/b", "/a//b//", "a/b/.",
        "../a", "./a", "a..", ".a", "...", "a/.../", "/..", "//", "a b/c d", "é/ß",
    ] {
        let found = Path::new(path)
            .file_name()
            .map(|name| name.to_string_lossy().into_owned());
        assert_eq!(name_of(path), found, "{path:?}");
    }
    assert_eq!(Cmd::new("..").label(), "..");
}

#[test]
fn a_builder_sets_what_it_names_and_nothing_else() {
    let cmd = Cmd::new("/x")
        .cores(3)
        .memory(Memory::Bound)
        .timeout(Duration::from_secs(5))
        .field("k", 1)
        .field("k", 2)
        .tag("t")
        .tag("t")
        .stderr_to("e");
    assert_eq!(cmd.cores, Some(3));
    assert_eq!(cmd.memory, Some(Memory::Bound));
    assert_eq!(cmd.timeout, Some(Duration::from_secs(5)));
    assert_eq!(cmd.fields().get("k"), Some("2"));
    assert_eq!(cmd.fields().get("j"), None);
    assert_eq!(cmd.fields().len(), 1);
    assert_eq!(cmd.tags().len(), 1);
    assert!(cmd.tags().contains("t"));
    assert_eq!(cmd.stderr_path(), Some("e"));
    assert_eq!(cmd.stdout, Output::Null);
    assert_eq!(*cmd.status(), Status::NotRun);
    assert_eq!(Cmd::new("/x").stderr_path(), None);
    assert_eq!(Memory::default(), Memory::Preferred);
}

#[test]
fn an_item_reports_what_its_command_holds() {
    let mut cmd = Cmd::new("/bin/x").cores(2).stderr_to("e");
    cmd.cpus = vec![0, 1];
    cmd.numa = true;
    cmd.pooled = true;
    let item: Item<'_, ()> = Item::Cmd(&cmd);
    assert_eq!(item.label(), "x");
    assert_eq!(item.cores(), 2);
    assert_eq!(item.cpus(), Some(&[0, 1][..]));
    assert_eq!(item.nodes(), Some(&[][..]));
    assert_eq!(item.policy(), None, "never placed on a node");
    assert_eq!(item.exit(), None);
    assert_eq!(item.stderr_path(), Some("e"));
    assert!(item.numa() && item.pooled());

    cmd.nodes = vec![0, 1];
    for (policy, said, note) in [
        (Policy::Default, Some("default"), None),
        (Policy::Preferred(1), Some("prefer:1"), None),
        (Policy::Bound(vec![0, 1]), Some("bind:0-1"), None),
        (Policy::Dropped("why".into()), Some("default"), Some("why")),
        (Policy::Refused("why".into()), None, None),
    ] {
        cmd.policy = policy;
        let item: Item<'_, ()> = Item::Cmd(&cmd);
        assert_eq!(item.policy().as_deref(), said);
        assert_eq!(item.policy_note(), note);
    }
}

#[test]
fn what_a_command_is_tagged_with_stays_in_order_whatever_it_was_given_in() {
    let cmd = Cmd::new("/x").tag("slow").field("b", 1).tag("first").field("a", 2).tag("slow");
    assert_eq!(cmd.tags().len(), 2);
    assert_eq!((cmd.tags().at(0), cmd.tags().at(1)), ("first", "slow"));
    assert_eq!((cmd.fields().key(0), cmd.fields().key(1)), ("a", "b"));
}
