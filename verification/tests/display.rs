use bob::progress::{strip_ansi_len, Progress};

#[test]
fn progress_on_a_terminal() {
    let mut p = Progress::new(2, 1, true);
    assert_eq!(
        p.start("serde"),
        "\r  \x1b[2m[1/3]\x1b[0m \x1b[33mBuilding\x1b[0m serde"
    );
    assert_eq!(p.last_line_len, "  [1/3] Building serde".len());
    assert_eq!(
        p.start("syn"),
        "\r  \x1b[2m[1/3]\x1b[0m \x1b[33mBuilding\x1b[0m syn \x1b[2m(2 active)\x1b[0m"
    );
    let width = "  [1/3] Building syn (2 active)".len();
    assert_eq!(p.last_line_len, width);
    assert_eq!(
        p.finish("serde", "1.5"),
        format!(
            "\r{}\r  \x1b[1;32mBuilt\x1b[0m serde (1.5s)\n\r  \x1b[2m[2/3]\x1b[0m \x1b[33mBuilding\x1b[0m syn",
            " ".repeat(width)
        )
    );
    let s = p.fail("syn", "out\n", "");
    assert!(s.contains("  \x1b[1;31mFAILED\x1b[0m syn\n    \x1b[2m│\x1b[0m out\n"), "{}", s);
    assert!(s.ends_with("\r  \x1b[2m[3/3]\x1b[0m waiting..."), "{}", s);
    assert!(p.active.is_empty());
}

#[test]
fn progress_elsewhere() {
    let mut p = Progress::new(1, 0, false);
    assert_eq!(p.start("a"), "");
    assert_eq!(p.late_cached(), "");
    assert_eq!(p.finish("a", "0.1"), "  \x1b[1;32mBuilt\x1b[0m a (0.1s)\n");
    assert_eq!(
        p.summary(1, 2, 0, "3.0"),
        "\n\x1b[1m  \x1b[32m1 built\x1b[0m\x1b[1m, 2 cached in 3.0s\x1b[0m\n"
    );
    assert_eq!(
        p.summary(1, 2, 3, "3.0"),
        "\n\x1b[1m  \x1b[32m1 built\x1b[0m\x1b[1m, 2 cached, \x1b[1;31m3 failed\x1b[0m\x1b[1m in 3.0s\x1b[0m\n"
    );
}

#[test]
fn failures_show_ten_lines() {
    let mut p = Progress::new(1, 0, false);
    let err: String = (0..12).map(|i| format!("e{}\n", i)).collect();
    let s = p.fail("a", "out", &err);
    assert_eq!(s.matches('│').count(), 10);
    assert!(!s.contains(" e1\n") && s.contains(" e2\n") && s.contains(" e11\n"));
    assert!(!s.contains("out"));
}

#[test]
fn escapes_show_nothing() {
    assert_eq!(strip_ansi_len("\x1b[1;32mab\x1b[0mc│"), 4);
    assert_eq!(strip_ansi_len(""), 0);
    assert_eq!(strip_ansi_len("\x1b[1"), 0);
}
