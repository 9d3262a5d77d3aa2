use section_testing::{
    enable_sections_start, enable_sections_step, enter_section, failure_report, failure_sections,
    is_running, report_line, DropHandler, Runner, Section,
};

const FILE: &str = "src/main.rs";

/// Runs `body` once per pass until no path is left, as a top-level test does,
/// and returns the labels of the sections that ran on each pass.
fn explore<F: FnMut(&mut Runner) -> bool>(r: &mut Runner, mut body: F) -> Vec<Vec<String>> {
    let mut passes = Vec::new();
    let top = enable_sections_start(r);
    assert!(top);
    while enable_sections_step(r) {
        let active: Vec<String> = failure_sections(r).into_iter().map(|s| s.name).collect();
        passes.push(active);
        let ok = body(r);
        let report = DropHandler { is_top_level: true, was_success: ok }.finish(r);
        if !ok {
            panic!("{}", report);
        }
        assert!(report.is_empty());
    }
    passes
}

fn labels(v: &[&[&str]]) -> Vec<Vec<String>> {
    v.iter().map(|p| p.iter().map(|s| s.to_string()).collect()).collect()
}

/// The example body: two outer sections, each reaching the same two inner ones.
fn example_body(r: &mut Runner, fail_on_pop: bool) -> bool {
    let mut v: Vec<i32> = vec![];
    fn check_123(r: &mut Runner, v: &mut Vec<i32>, fail_on_pop: bool) -> bool {
        if *v != vec![1, 2, 3] {
            return false;
        }
        if enter_section(r, "reverse", FILE, 20) {
            v.reverse();
            if *v != vec![3, 2, 1] {
                return false;
            }
        }
        if enter_section(r, "pop+remove+insert+push", FILE, 25) {
            let three = v.pop().unwrap();
            let one = v.remove(0);
            v.insert(0, three);
            if !fail_on_pop {
                v.push(one);
            }
            if *v != vec![3, 2, 1] {
                return false;
            }
        }
        true
    }
    if enter_section(r, "push", FILE, 34) {
        v.push(1);
        v.push(2);
        v.push(3);
        if !check_123(r, &mut v, fail_on_pop) {
            return false;
        }
    }
    if enter_section(r, "insert", FILE, 41) {
        v.insert(0, 3);
        v.insert(0, 1);
        v.insert(1, 2);
        if !check_123(r, &mut v, fail_on_pop) {
            return false;
        }
    }
    true
}

#[test]
fn example_test() {
    let mut r = Runner::new();
    let passes = explore(&mut r, |r| example_body(r, false));
    assert_eq!(
        passes,
        labels(&[
            &[],
            &["push"],
            &["insert"],
            &["push", "reverse"],
            &["push", "pop+remove+insert+push"],
            &["insert", "reverse"],
            &["insert", "pop+remove+insert+push"],
        ])
    );
    assert!(!is_running(&r));
}

#[test]
fn nested_example_visits_each_combination_once() {
    let mut r = Runner::new();
    let passes = explore(&mut r, |r| example_body(r, false));
    let with_sections: Vec<&Vec<String>> = passes.iter().filter(|p| !p.is_empty()).collect();
    assert_eq!(with_sections.len(), 6);
    for (i, a) in with_sections.iter().enumerate() {
        for b in &with_sections[i + 1..] {
            assert_ne!(a, b);
        }
    }
    let leaves = passes.iter().filter(|p| p.len() == 2).count();
    assert_eq!(leaves, 4);
}

#[test]
fn failure_reports_active_sections_in_rank_order() {
    let mut r = Runner::new();
    assert!(enable_sections_start(&mut r));
    let mut report = String::new();
    while enable_sections_step(&mut r) {
        let ok = example_body(&mut r, true);
        report = DropHandler { is_top_level: true, was_success: ok }.finish(&mut r);
        if !ok {
            break;
        }
    }
    assert_eq!(
        report,
        "---- the failure was inside these sections ----\n  0) \"push\" at src/main.rs:34\n  1) \"pop+remove+insert+push\" at src/main.rs:25\n"
    );
    assert!(!report.contains("insert\""));
    assert!(!report.contains("reverse"));
    assert!(!is_running(&r));
}

#[test]
fn failure_with_no_active_section_reports_nothing() {
    let mut r = Runner::new();
    assert!(enable_sections_start(&mut r));
    assert!(enable_sections_step(&mut r));
    assert!(!enter_section(&mut r, "a", FILE, 1));
    let report = DropHandler { is_top_level: true, was_success: false }.finish(&mut r);
    assert_eq!(report, "");
    // A failed pass queues nothing.
    assert!(!enable_sections_step(&mut r));
}

#[test]
fn independent_sections_run_one_at_a_time() {
    let mut r = Runner::new();
    let passes = explore(&mut r, |r| {
        enter_section(r, "a", FILE, 1);
        enter_section(r, "b", FILE, 2);
        enter_section(r, "c", FILE, 3);
        true
    });
    assert_eq!(passes, labels(&[&[], &["a"], &["b"], &["c"]]));
}

#[test]
fn two_by_two_nesting_gives_four_leaves() {
    let mut r = Runner::new();
    let passes = explore(&mut r, |r| {
        if enter_section(r, "x", FILE, 1) {
            enter_section(r, "x1", FILE, 2);
            enter_section(r, "x2", FILE, 3);
        }
        if enter_section(r, "y", FILE, 4) {
            enter_section(r, "y1", FILE, 5);
            enter_section(r, "y2", FILE, 6);
        }
        true
    });
    assert_eq!(
        passes,
        labels(&[
            &[],
            &["x"],
            &["y"],
            &["x", "x1"],
            &["x", "x2"],
            &["y", "y1"],
            &["y", "y2"],
        ])
    );
    assert_eq!(passes.iter().filter(|p| p.len() == 2).count(), 4);
}

#[test]
fn deeper_nesting_reaches_every_chain() {
    let mut r = Runner::new();
    let passes = explore(&mut r, |r| {
        if enter_section(r, "a", FILE, 1) {
            if enter_section(r, "b", FILE, 2) {
                enter_section(r, "c", FILE, 3);
            }
        }
        true
    });
    assert_eq!(passes, labels(&[&[], &["a"], &["a", "b"], &["a", "b", "c"]]));
}

#[test]
fn rerunning_gives_the_same_sequence() {
    let mut r = Runner::new();
    let first = explore(&mut r, |r| example_body(r, false));
    let second = explore(&mut r, |r| example_body(r, false));
    assert_eq!(first, second);
    let mut other = Runner::new();
    let third = explore(&mut other, |r| example_body(r, false));
    assert_eq!(first, third);
}

#[test]
fn replaying_a_path_gives_the_same_answers() {
    let mut r = Runner::new();
    assert!(enable_sections_start(&mut r));
    assert!(enable_sections_step(&mut r));
    enter_section(&mut r, "a", FILE, 1);
    enter_section(&mut r, "b", FILE, 2);
    DropHandler { is_top_level: true, was_success: true }.finish(&mut r);
    assert!(enable_sections_step(&mut r));
    for _ in 0..3 {
        assert!(enter_section(&mut r, "a", FILE, 1));
        assert!(!enter_section(&mut r, "b", FILE, 2));
    }
}

#[test]
fn same_section_twice_in_one_pass_is_found_once() {
    let mut r = Runner::new();
    let passes = explore(&mut r, |r| {
        enter_section(r, "a", FILE, 7);
        enter_section(r, "a", FILE, 7);
        true
    });
    assert_eq!(passes, labels(&[&[], &["a"]]));
}

#[test]
fn same_label_at_another_line_is_another_section() {
    let mut r = Runner::new();
    let passes = explore(&mut r, |r| {
        enter_section(r, "a", FILE, 7);
        enter_section(r, "a", FILE, 8);
        enter_section(r, "a", "src/other.rs", 7);
        true
    });
    assert_eq!(passes.len(), 4);
    let mut r = Runner::new();
    assert!(enable_sections_start(&mut r));
    let mut lines = Vec::new();
    while enable_sections_step(&mut r) {
        lines.push(failure_sections(&r).iter().map(|s| (s.file.clone(), s.line)).collect::<Vec<_>>());
        enter_section(&mut r, "a", FILE, 7);
        enter_section(&mut r, "a", FILE, 8);
        DropHandler { is_top_level: true, was_success: true }.finish(&mut r);
    }
    assert_eq!(lines, vec![vec![], vec![(FILE.to_string(), 7)], vec![(FILE.to_string(), 8)]]);
}

#[test]
fn start_is_refused_inside_a_pass() {
    let mut r = Runner::new();
    assert!(!is_running(&r));
    assert!(enable_sections_start(&mut r));
    assert!(!is_running(&r));
    assert!(enable_sections_step(&mut r));
    assert!(is_running(&r));
    assert!(!enable_sections_start(&mut r));
    assert!(is_running(&r));
    // A nested pass that ends changes nothing.
    let report = DropHandler { is_top_level: false, was_success: false }.finish(&mut r);
    assert_eq!(report, "");
    assert!(is_running(&r));
    DropHandler { is_top_level: true, was_success: true }.finish(&mut r);
    assert!(!is_running(&r));
    assert!(!enable_sections_step(&mut r));
}

#[test]
fn start_resets_a_finished_runner() {
    let mut r = Runner::new();
    explore(&mut r, |r| {
        enter_section(r, "a", FILE, 1);
        true
    });
    assert!(!enable_sections_step(&mut r));
    assert!(enable_sections_start(&mut r));
    assert!(enable_sections_step(&mut r));
    assert!(!enter_section(&mut r, "a", FILE, 1));
}

#[test]
fn nested_body_shares_the_pass_of_its_caller() {
    let mut r = Runner::new();
    let passes = explore(&mut r, |r| {
        // A section-bearing helper called inside the body: its start is
        // refused and it runs once within the current pass.
        let top = enable_sections_start(r);
        assert!(!top);
        enter_section(r, "inner", FILE, 10);
        DropHandler { is_top_level: top, was_success: true }.finish(r);
        enter_section(r, "outer", FILE, 11);
        true
    });
    assert_eq!(passes, labels(&[&[], &["inner"], &["outer"]]));
}

#[test]
fn report_line_pads_the_index() {
    assert_eq!(report_line(0, "\"push\"", "src/main.rs", 34), "  0) \"push\" at src/main.rs:34\n");
    assert_eq!(report_line(42, "\"x\"", "a.rs", 0), " 42) \"x\" at a.rs:0\n");
    assert_eq!(report_line(1234, "\"x\"", "a.rs", 4294967295), "1234) \"x\" at a.rs:4294967295\n");
}

#[test]
fn failure_report_quotes_and_escapes_labels() {
    let secs = vec![
        Section::new("say \"hi\"", "f.rs", 3),
        Section::new("tab\there", "g.rs", 12),
    ];
    assert_eq!(
        failure_report(&secs),
        "---- the failure was inside these sections ----\n  0) \"say \\\"hi\\\"\" at f.rs:3\n  1) \"tab\\there\" at g.rs:12\n"
    );
    assert_eq!(failure_report(&vec![]), "");
}
