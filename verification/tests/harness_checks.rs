//! Judging observed program runs against test plans.

use csplit_core::harness::{run_test, TestPlan};

fn plan(cmd: &str, args: &[&str], stdin: &str, out: &str, err: &str, code: i32) -> TestPlan {
    TestPlan {
        cmd: cmd.to_string(),
        args: args.iter().map(|s| s.to_string()).collect(),
        stdin_data: stdin.to_string(),
        expected_out: out.to_string(),
        expected_err: err.to_string(),
        expected_exit_code: code,
    }
}

/// The plan passes against exactly the output it expects, and fails
/// against anything perturbed.
fn check(p: &TestPlan) {
    let out = p.expected_out.clone();
    let err = p.expected_err.clone();
    assert!(run_test(p, &out, &err, p.expected_exit_code));
    let mut wrong_out = p.expected_out.clone();
    wrong_out.push('?');
    assert!(!run_test(p, &wrong_out, &err, p.expected_exit_code));
    let mut wrong_err = p.expected_err.clone();
    wrong_err.push('?');
    assert!(!run_test(p, &out, &wrong_err, p.expected_exit_code));
    assert!(!run_test(p, &out, &err, p.expected_exit_code + 1));
}

#[test]
fn test_expand_basic() {
    let p = plan("expand", &[], "a\tb\tc\n", "a       b       c\n", "", 0);
    check(&p);
}

#[test]
fn test_head_basic() {
    let p = plan("head", &[], "a\nb\nc\nd\n", "a\nb\nc\nd\n", "", 0);
    check(&p);
    let p2 = plan(
        "head",
        &[],
        "1\n2\n3\n4\n5\n6\n7\n8\n9\n0\na\n",
        "1\n2\n3\n4\n5\n6\n7\n8\n9\n0\n",
        "",
        0,
    );
    check(&p2);
}

#[test]
fn test_wc_empty() {
    let p = plan("wc", &["-l"], "", "0\n", "", 0);
    check(&p);
}

#[test]
fn test_wc_one() {
    let p = plan("wc", &["-l"], "0\n", "1\n", "", 0);
    check(&p);
}

#[test]
fn test_wc_two() {
    let by_chars = plan("wc", &["-c"], "x y\n", "4\n", "", 0);
    check(&by_chars);
    let by_lines = plan("wc", &["-l"], "x y\n", "1\n", "", 0);
    check(&by_lines);
    let by_words = plan("wc", &["-w"], "x y\n", "2\n", "", 0);
    check(&by_words);
}

#[test]
fn test_nl_justification() {
    let left = plan("nl", &["-n", "ln"], "a\n", "1     \ta\n", "", 0);
    check(&left);
    let right = plan("nl", &["-n", "rn"], "b\n", "     1\tb\n", "", 0);
    check(&right);
    let zeros = plan("nl", &["-n", "rz"], "c\n", "000001\tc\n", "", 0);
    check(&zeros);
}

#[test]
fn test_nl_newlines_at_end() {
    let p = plan("nl", &[], "a\n\n", "     1\ta\n       \n", "", 0);
    check(&p);
}

#[test]
fn test_nl_starting_number() {
    let p = plan("nl", &["-v", "2"], "a\n", "     2\ta\n", "", 0);
    check(&p);
}

#[test]
fn test_nl_number_increment() {
    let input = "\\:\\:\\:\nheader\n\\:\\:\nbody\n\\:\nfooter";
    let per_page = plan(
        "nl",
        &[],
        input,
        "\n     1\theader\n\n     1\tbody\n\n     1\tfooter\n",
        "",
        0,
    );
    check(&per_page);
    let through = plan(
        "nl",
        &["-p"],
        input,
        "\n     1\theader\n\n     2\tbody\n\n     3\tfooter\n",
        "",
        0,
    );
    check(&through);
    let by_two = plan(
        "nl",
        &["-p", "-i2"],
        input,
        "\n     1\theader\n\n     3\tbody\n\n     5\tfooter\n",
        "",
        0,
    );
    check(&by_two);
}

#[test]
fn test_nl_delimiter() {
    let colon = plan(
        "nl",
        &["-d", "?:"],
        "?:?:?:\nheader\n?:?:\nbody\n?:\nfooter",
        "\n     1\theader\n\n     1\tbody\n\n     1\tfooter\n",
        "",
        0,
    );
    check(&colon);
    let bang = plan(
        "nl",
        &["-d", "?!"],
        "?!?!?!\nheader\n?!?!\nbody\n?!\nfooter",
        "\n     1\theader\n\n     1\tbody\n\n     1\tfooter\n",
        "",
        0,
    );
    check(&bang);
}

#[test]
fn test_nl_regex() {
    let p = plan(
        "nl",
        &["-b", "pp.*ng"],
        "something\nanything\neverything\ncat\ndog",
        "     1\tsomething\n     2\tanything\n     3\teverything\n       cat\n       dog\n",
        "",
        0,
    );
    check(&p);
}
