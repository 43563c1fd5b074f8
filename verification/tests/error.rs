use michi::error::{chain, Cause};
use michi::{Error, Within};

fn cause(words: &str, under: Option<Cause>) -> Cause {
    Cause {
        words: words.to_string(),
        source: under.map(Box::new),
    }
}

#[test]
fn a_sink_error_is_its_own_words_and_its_own_source() {
    let inner = cause("disk full", None);
    let error = Error::Sink(cause("table", Some(inner)));
    assert_eq!(error.to_string(), "table");
    assert_eq!(chain(&error), "table: disk full");
}

#[test]
fn every_error_says_what_it_is_about() {
    let error = Error::Cores {
        step: "[1](s)".into(),
        cmd: "c".into(),
        want: 9,
        room: 8,
        within: Within::Machine,
    };
    assert_eq!(
        error.to_string(),
        "[1](s).c wants 9 cores, and the machine has 8"
    );
    assert!(error.source().is_none());

    let error = Error::Pool {
        step: Some("[2]".into()),
        size: 5,
        room: 4,
        within: Within::Pipeline,
    };
    assert_eq!(
        error.to_string(),
        "[2] pools 5 cores, and the pipeline's pool has 4"
    );

    let error = Error::Pool {
        step: None,
        size: 0,
        room: 4,
        within: Within::Step,
    };
    assert_eq!(
        error.to_string(),
        "the pipeline's pool wants 0 cores, and its step's pool has 4"
    );

    let error = Error::Step {
        step: "[1]".into(),
        why: "b failed".into(),
    };
    assert_eq!(chain(&error), "b failed");
}

#[test]
fn a_file_error_is_told_down_to_its_source() {
    let error = Error::Io {
        path: "/x/y".into(),
        source: cause("no such", Some(cause("deeper", Some(cause("deepest", None))))),
    };
    assert_eq!(error.to_string(), "cannot write /x/y");
    assert_eq!(error.source().unwrap().words, "no such");
    assert_eq!(chain(&error), "cannot write /x/y: no such: deeper: deepest");
}
