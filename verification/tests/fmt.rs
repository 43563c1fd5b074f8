use michi::double::Seconds;
use michi::fmt::{bytes, seconds, span};
use michi::label::label;
use michi::order::{ascend, holds};
use michi::sorted::{Fields, Names};
use michi::text::{is_blank, pad_left, pad_right, parse_usize, sorts_before};

#[test]
fn bytes_picks_a_unit_at_each_boundary() {
    assert_eq!(bytes(0), "0.00KiB");
    assert_eq!(bytes(1023), "1023KiB");
    assert_eq!(bytes(1024), "1.00MiB");
    assert_eq!(bytes(1024 * 1024 - 1), "1024MiB");
    assert_eq!(bytes(1024 * 1024), "1.00GiB");
}

#[test]
fn bytes_keeps_three_figures_across_the_precision_switches() {
    // under 10 gets two decimals, 10 to 100 gets one, 100 and over gets none
    assert_eq!(bytes(9 * 1024), "9.00MiB");
    assert_eq!(bytes(10 * 1024), "10.0MiB");
    assert_eq!(bytes(99 * 1024), "99.0MiB");
    assert_eq!(bytes(100 * 1024), "100MiB");
}

#[test]
fn bytes_rounds_up_into_an_extra_figure_just_below_a_switch() {
    // 99.98MiB is under the cutoff, so it takes the
    // one-decimal branch and rounds to a four-figure
    // "100.0MiB", a character wider than "100MiB"
    assert_eq!(bytes(99 * 1024 + 1013), "100.0MiB");
}

/// The same size by way of a double.
fn float_bytes(kib: i64) -> String {
    let (value, unit) = match kib as f64 {
        v if v < 1024.0 => (v, "KiB"),
        v if v < 1024.0 * 1024.0 => (v / 1024.0, "MiB"),
        v => (v / (1024.0 * 1024.0), "GiB"),
    };
    if value >= 100.0 {
        format!("{value:.0}{unit}")
    } else if value >= 10.0 {
        format!("{value:.1}{unit}")
    } else {
        format!("{value:.2}{unit}")
    }
}

#[test]
fn bytes_come_out_as_a_double_would_write_them() {
    let mut kib: i64 = 1;
    for _ in 0..20000 {
        assert_eq!(bytes(kib), float_bytes(kib), "{kib}");
        assert_eq!(bytes(-kib), float_bytes(-kib), "-{kib}");
        kib = kib.wrapping_mul(6364136223846793005).wrapping_add(1442695040888963407);
        kib = (kib >> (kib & 63)).saturating_abs();
    }
    for kib in [i64::MAX, i64::MIN, -1, -5, 1, 5, 15, 1536, 2621440] {
        assert_eq!(bytes(kib), float_bytes(kib), "{kib}");
    }
}

#[test]
fn seconds_come_out_as_a_double_would_write_them() {
    let mut ns: u64 = 1;
    for _ in 0..20000 {
        let s = ns as f64 / 1e9;
        assert_eq!(seconds(ns), format!("{s:.2}"), "{ns}");
        ns = ns.wrapping_mul(6364136223846793005).wrapping_add(1442695040888963407);
        ns = ns >> 11 >> (ns & 31);
    }
    assert_eq!(seconds(0), "0.00");
    assert_eq!(seconds(1_500_000_000), "1.50");
    assert_eq!(seconds(125_000_000), "0.12");
    assert_eq!(seconds(375_000_000), "0.38");
}

/// The ticks of a double, added up and written.
fn added(times: &[u64]) -> String {
    let mut sum = Seconds::zero();
    for ns in times {
        sum = sum.plus(&Seconds::of(*ns));
    }
    sum.write()
}

#[test]
fn times_add_up_the_way_doubles_do() {
    assert_eq!(added(&[]), "0.00");
    assert_eq!(added(&[0, 0]), "0.00");
    // 2.6 + 0.075 is a little over 2.675 as doubles, where 2.675
    // itself is a little under
    assert_eq!(added(&[2_600_000_000, 75_000_000]), "2.68");
    assert_eq!(added(&[2_675_000_000]), "2.67");

    let mut ns: u64 = 1;
    let mut times = Vec::new();
    let mut sum = 0.0;
    for _ in 0..3000 {
        times.push(ns);
        sum += ns as f64 / 1e9;
        assert_eq!(added(&times), format!("{sum:.2}"), "{times:?}");
        if times.len() == 20 {
            times.clear();
            sum = 0.0;
        }
        ns = ns.wrapping_mul(6364136223846793005).wrapping_add(1442695040888963407);
        ns = ns >> 11 >> (ns & 31);
    }
}

#[test]
fn a_time_too_small_to_tell_is_lost_in_a_sum() {
    let big = 1u64 << 52;
    let total = |n: usize| {
        let mut sum = Seconds::of(big);
        for _ in 0..n {
            sum = sum.plus(&Seconds::of(1));
        }
        sum
    };
    let mut sum = big as f64 / 1e9;
    for _ in 0..1000 {
        sum += 1e-9;
    }
    assert_eq!(total(1000).write(), format!("{sum:.2}"));
    let mut huge = Seconds::of(u64::MAX);
    for _ in 0..100_000 {
        huge = huge.plus(&Seconds::of(u64::MAX));
    }
    let small = huge.plus(&Seconds::of(1));
    assert_eq!(small, huge);
    let mut float = u64::MAX as f64 / 1e9;
    for _ in 0..100_000 {
        float += u64::MAX as f64 / 1e9;
    }
    assert_eq!(huge.write(), format!("{float:.2}"));
}

#[test]
fn a_span_turns_to_minutes_past_one() {
    assert_eq!(span(0), "0.0s");
    assert_eq!(span(12_345_000_000), "12.3s");
    assert_eq!(span(59_990_000_000), "60.0s");
    assert_eq!(span(60_000_000_000), "1m00.0s");
    assert_eq!(span(245_200_000_000), "4m05.2s");
    assert_eq!(span(3_725_000_000_000), "62m05.0s");
}

#[test]
fn a_span_comes_out_as_a_duration_would_write_it() {
    for ns in [1u64, 49_999_999, 50_000_000, 61_250_000_000, 119_960_000_000, 1 << 50] {
        let s = std::time::Duration::from_nanos(ns).as_secs_f64();
        let said = if s < 60.0 {
            format!("{s:.1}s")
        } else {
            let mins = (s / 60.0).floor();
            format!("{}m{:04.1}s", mins as u64, s - mins * 60.0)
        };
        assert_eq!(span(ns), said, "{ns}");
    }
}

#[test]
fn a_label_is_a_number_and_maybe_a_name() {
    assert_eq!(label(1, Some("setup")), "[1](setup)");
    assert_eq!(label(12, None), "[12]");
}

#[test]
fn numbers_settle_in_order_once_each() {
    assert_eq!(ascend(&[4, 0, 2, 2]), [0, 2, 4]);
    assert!(holds(&[1, 2], 2));
    assert!(!holds(&[1, 2], 3));
}

#[test]
fn names_keep_in_order_once_each() {
    let mut names = Names::new();
    for name in ["b", "a", "", "ab", "b", "é", "Z"] {
        names.insert(name.to_string());
    }
    let kept: Vec<&str> = (0..names.len()).map(|i| names.at(i)).collect();
    assert_eq!(kept, ["", "Z", "a", "ab", "b", "é"]);
    assert!(names.contains("ab"));
    assert!(!names.contains("c"));
    assert_eq!(names.at(1), "Z");
}

#[test]
fn fields_keep_the_last_value_given() {
    let mut fields = Fields::new();
    for (key, value) in [("b", "1"), ("a", "2"), ("b", "3")] {
        fields.insert(key.to_string(), value.to_string());
    }
    assert_eq!(fields.len(), 2);
    assert_eq!((fields.key(0), fields.value(0)), ("a", "2"));
    assert_eq!((fields.key(1), fields.value(1)), ("b", "3"));
    assert_eq!(fields.get("c"), None);
}

#[test]
fn text_sorts_the_way_the_standard_library_sorts_it() {
    let words = ["", "a", "aa", "ab", "b", "Z", "é", "zz", "\u{10ffff}", "\u{e000}"];
    for a in words {
        for b in words {
            assert_eq!(sorts_before(a, b), a < b, "{a:?} {b:?}");
        }
    }
}

#[test]
fn white_space_is_what_the_standard_library_says_it_is() {
    for c in '\0'..=char::MAX {
        assert_eq!(is_blank(c), c.is_whitespace(), "{c:?}");
    }
}

#[test]
fn numbers_read_the_way_the_standard_library_reads_them() {
    for text in ["", "0", "+0", "-0", "1 ", "18446744073709551615", "18446744073709551616", "+", "a"]
    {
        let chars: Vec<char> = text.chars().collect();
        assert_eq!(parse_usize(&chars), text.parse::<usize>().ok(), "{text:?}");
    }
}

#[test]
fn padding_counts_characters() {
    assert_eq!(pad_right("é", 3), format!("{:<3}", "é"));
    assert_eq!(pad_right("abcd", 3), "abcd");
    assert_eq!(pad_left("é", ' ', 3), format!("{:>3}", "é"));
    assert_eq!(pad_left("7", '0', 4), "0007");
}
