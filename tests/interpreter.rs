use dicescript::eval::evaluate;
use dicescript::{roll, Output, Roller, Script, Value, Vars};

fn line(s: &str) -> Output {
    Output::Line(s.to_string())
}

fn run(text: &str) -> Vec<Output> {
    let mut script = Script::from_text_seeded(text, 7);
    script.run()
}

fn eval_text(expr: &str, seed: u64) -> Option<Value> {
    let chars: Vec<char> = expr.chars().collect();
    let mut roller = Roller::seeded(seed);
    evaluate(&chars, &Vars::new(), &mut roller)
}

#[test]
fn roll_stays_in_range() {
    let mut roller = Roller::seeded(1);
    for _ in 0..500 {
        let r = roller.roll("3d6+2");
        assert!((5..=20).contains(&r));
        let r = roller.roll("2d10 + 4");
        assert!((6..=24).contains(&r));
    }
}

#[test]
fn roll_count_defaults_to_one() {
    let mut roller = Roller::seeded(2);
    for _ in 0..200 {
        let a = roller.roll("d20");
        let b = roller.roll("1d20");
        assert!((1..=20).contains(&a));
        assert!((1..=20).contains(&b));
    }
}

#[test]
fn roll_malformed_gives_zero() {
    let mut roller = Roller::seeded(3);
    assert_eq!(roller.roll("abc"), 0);
    assert_eq!(roller.roll("d0"), 0);
    assert_eq!(roller.roll("2d"), 0);
    assert_eq!(roller.roll(""), 0);
    assert_eq!(roll("hello"), 0);
}

#[test]
fn roll_zero_count_is_the_bonus() {
    let mut roller = Roller::seeded(4);
    assert_eq!(roller.roll("0d6+3"), 3);
}

#[test]
fn roll_with_fresh_roller() {
    for _ in 0..100 {
        let r = roll("4d4");
        assert!((4..=16).contains(&r));
    }
}

#[test]
fn two_d6_covers_full_range() {
    let mut roller = Roller::seeded(5);
    let mut seen = [false; 13];
    for _ in 0..3000 {
        let r = roller.roll("2d6");
        assert!((2..=12).contains(&r));
        seen[r as usize] = true;
    }
    for total in 2..=12 {
        assert!(seen[total], "total {} never rolled", total);
    }
}

#[test]
fn separate_dice_tokens_draw_separately() {
    let mut roller = Roller::seeded(6);
    let chars: Vec<char> = "d6+d6".chars().collect();
    let vars = Vars::new();
    let mut odd = false;
    for _ in 0..500 {
        match evaluate(&chars, &vars, &mut roller) {
            Some(Value::Int(n)) => {
                assert!((2..=12).contains(&n));
                if n % 2 == 1 {
                    odd = true;
                }
            }
            other => panic!("unexpected {:?}", other),
        }
    }
    assert!(odd);
}

#[test]
fn assignment_then_reference() {
    assert_eq!(run("x = 5\nprint(x)"), vec![line("5")]);
}

#[test]
fn conditional_true_runs_body() {
    let out = run("x = 1\nif x == 1 then\nprint(\"yes\")\n<reserved>\nprint(\"after\")");
    assert_eq!(out, vec![line("yes"), line("after")]);
}

#[test]
fn conditional_false_skips_body() {
    let out = run("x = 0\nif x == 1 then\nprint(\"yes\")\n<reserved>\nprint(\"after\")");
    assert_eq!(out, vec![line("after")]);
}

#[test]
fn string_equality_and_ordering() {
    let out = run(
        "color = \"red\"\nif color == \"red\" then\nprint(\"same\")\n-\nif color < \"red\" then\nprint(\"less\")\n-\nprint(\"end\")",
    );
    assert_eq!(
        out,
        vec![
            line("same"),
            Output::StringOperator("<".to_string()),
            line("end")
        ]
    );
}

#[test]
fn type_mismatch_is_false() {
    let out = run("a = 1\nb = \"x\"\nif a == b then\nprint(\"eq\")\n-\nprint(\"done\")");
    assert_eq!(
        out,
        vec![Output::TypeMismatch("a == b".to_string()), line("done")]
    );
}

#[test]
fn precedence_of_arithmetic() {
    assert_eq!(eval_text("2+3*4", 1), Some(Value::Int(14)));
    assert_eq!(eval_text("(2+3)*4", 1), Some(Value::Int(20)));
    assert_eq!(eval_text("10-4-3", 1), Some(Value::Int(3)));
    assert_eq!(eval_text("-3*-2", 1), Some(Value::Int(6)));
}

#[test]
fn division_truncates_and_rejects_zero() {
    assert_eq!(eval_text("7/2", 1), Some(Value::Int(3)));
    assert_eq!(eval_text("-7/2", 1), Some(Value::Int(-3)));
    assert_eq!(eval_text("1/0", 1), None);
}

#[test]
fn overflow_fails() {
    assert_eq!(eval_text("2147483647+1", 1), None);
    assert_eq!(eval_text("2147483647", 1), Some(Value::Int(2147483647)));
}

#[test]
fn quoted_literal_is_text() {
    assert_eq!(eval_text("\"a b\"", 1), Some(Value::Str("a b".to_string())));
}

#[test]
fn malformed_expression_reports_and_continues() {
    let out = run("x = 1 +\nprint(x)\nprint(\"next\")");
    assert_eq!(
        out,
        vec![
            Output::EvalFailed("1 +".to_string()),
            line("0"),
            line("next")
        ]
    );
}

#[test]
fn print_joins_arguments_and_trims_end() {
    assert_eq!(run("print(\"a\", 1+1, \"b \")"), vec![line("a2b")]);
    assert_eq!(run("n = -12\nprint(n)"), vec![line("-12")]);
}

#[test]
fn blank_and_comment_lines_are_dropped() {
    let out = run("\n// a comment\n   \n  x = 3  \nprint(x*2)\n");
    assert_eq!(out, vec![line("6")]);
}

#[test]
fn variables_can_change_type() {
    let mut script = Script::from_text_seeded("v = 1\nv = \"s\"", 1);
    let out = script.run();
    assert!(out.is_empty());
    assert_eq!(script.get("v"), Some(&Value::Str("s".to_string())));
    assert_eq!(script.get("w"), None);
}

#[test]
fn dice_in_script_stay_in_range() {
    let mut script = Script::from_text_seeded("r = 2d6+1\nbig = r * 10", 9);
    script.run();
    match script.get("r") {
        Some(Value::Int(r)) => assert!((3..=13).contains(r)),
        other => panic!("unexpected {:?}", other),
    }
}

#[test]
fn truthiness_without_operator() {
    let out = run("s = \"\"\nif s then\nprint(\"t\")\n-\nif 3 then\nprint(\"three\")\n-");
    assert_eq!(out, vec![line("three")]);
}

#[test]
fn unknown_lines_are_ignored() {
    assert_eq!(run("hello world\nprint(1)"), vec![line("1")]);
}

#[test]
fn if_on_last_line_without_body() {
    assert_eq!(run("if 1 then"), Vec::<Output>::new());
}

#[test]
fn unicode_whitespace_is_trimmed() {
    assert_eq!(run("\u{A0}print(1)\u{3000}"), vec![line("1")]);
    assert_eq!(run("\u{C}\n\u{B}\nprint(2)"), vec![line("2")]);
    assert_eq!(run("print(\"a\u{2003}\")"), vec![line("a")]);
}

#[test]
fn true_conditional_on_last_line_runs_nothing_more() {
    assert_eq!(run("print(0)\nif 1 then"), vec![line("0")]);
}
