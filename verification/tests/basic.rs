use scicomp::basic::{Action, BasicInterpreter, PrintPart, Relation};

fn loaded(text: &str) -> BasicInterpreter {
    let mut b = BasicInterpreter::new();
    b.load_program(text);
    b
}

fn parts(p: &[PrintPart]) -> Vec<(bool, String)> {
    p.iter()
        .map(|x| match x {
            PrintPart::Text(t) => (false, t.clone()),
            PrintPart::Name(n) => (true, n.clone()),
        })
        .collect()
}

#[test]
fn program_lines_are_sorted_and_stored() {
    let b = loaded("\n20 PRINT \"B\"\n10 LET X = 5\n  30 END  \nnot numbered\n10 REM replaced\n");
    assert_eq!(b.line_numbers, vec![10, 10, 20, 30]);
    assert_eq!(b.program.get(&10).unwrap(), "REM replaced");
    assert_eq!(b.program.get(&20).unwrap(), "PRINT \"B\"");
    assert_eq!(b.program.get(&30).unwrap(), "END");
    assert_eq!(b.program.len(), 3);
}

#[test]
fn start_and_fetch_follow_the_line_numbers() {
    let mut b = loaded("10 REM A\n20 END\n");
    b.start();
    assert_eq!(b.current_line, 10);
    assert_eq!(b.fetch().unwrap(), "REM A");
    assert!(matches!(b.execute_line("REM A"), Action::Continue));
    assert_eq!(b.current_line, 20);
    assert_eq!(b.fetch().unwrap(), "END");
    assert!(matches!(b.execute_line("END"), Action::Continue));
    assert!(!b.running);
    assert!(b.fetch().is_none());
}

#[test]
fn a_jump_to_a_missing_line_stops_the_program() {
    let mut b = loaded("10 GOTO 15\n20 END\n");
    b.start();
    let line = b.fetch().unwrap();
    b.execute_line(&line);
    assert_eq!(b.current_line, 15);
    assert!(b.running);
    assert!(b.fetch().is_none());
    assert!(!b.running);
}

#[test]
fn print_splits_text_and_names() {
    let mut b = loaded("10 PRINT\n20 END\n");
    b.start();
    match b.execute_line("PRINT \"Fuel (gal):\"; F") {
        Action::Print(p) => assert_eq!(parts(&p), vec![(false, "Fuel (gal):".to_string()), (true, "F".to_string())]),
        _ => panic!("not a print"),
    }
    assert_eq!(b.current_line, 20);
    match b.execute_line("PRINT \"crashed at\"; V ; \"m/sec.\"") {
        Action::Print(p) => assert_eq!(
            parts(&p),
            vec![(false, "crashed at".to_string()), (true, "V".to_string()), (false, "m/sec.".to_string())]
        ),
        _ => panic!("not a print"),
    }
    match b.execute_line("PRINT") {
        Action::Print(p) => assert!(p.is_empty()),
        _ => panic!("not a print"),
    }
    match b.execute_line("PRINT \"open") {
        Action::Print(p) => assert_eq!(parts(&p), vec![(false, "open".to_string())]),
        _ => panic!("not a print"),
    }
}

#[test]
fn assignments_with_and_without_let() {
    let mut b = loaded("10 REM\n20 REM\n30 REM\n");
    b.start();
    match b.execute_line("LET V = V + G - U * 0.2  // physics") {
        Action::Assign { name, expr, at_least_zero } => {
            assert_eq!(name, "V");
            assert_eq!(expr, "V + G - U * 0.2  // physics");
            assert!(!at_least_zero);
        }
        _ => panic!("not an assignment"),
    }
    assert_eq!(b.current_line, 20);
    match b.execute_line("H=H-V") {
        Action::Assign { name, expr, at_least_zero } => {
            assert_eq!(name, "H");
            assert_eq!(expr, "H-V");
            assert!(at_least_zero);
        }
        _ => panic!("not an assignment"),
    }
    assert_eq!(b.current_line, 30);
    assert!(matches!(b.execute_line("LET nothing"), Action::Continue));
    assert!(!b.running);
}

#[test]
fn gosub_and_return() {
    let mut b = loaded("10 GOSUB 40\n20 END\n40 RETURN\n");
    b.start();
    b.execute_line("GOSUB 40");
    assert_eq!(b.current_line, 40);
    assert_eq!(b.return_stack, vec![20]);
    b.execute_line("RETURN");
    assert_eq!(b.current_line, 20);
    assert!(b.return_stack.is_empty());
    assert!(b.running);
    b.execute_line("RETURN");
    assert!(!b.running);
}

#[test]
fn gosub_from_the_last_line_returns_to_the_end() {
    let mut b = loaded("10 REM\n40 GOSUB 10\n");
    b.start();
    b.current_line = 40;
    b.execute_line("GOSUB 10");
    assert_eq!(b.return_stack, vec![0]);
    b.execute_line("RETURN");
    assert!(!b.running);
    assert_eq!(b.current_line, 10);
}

#[test]
fn if_statements() {
    let mut b = loaded("330 REM\n340 REM\n390 REM\n");
    b.start();
    match b.execute_line("IF U < 0 THEN 390") {
        Action::Test { comparison: Some(c), target } => {
            assert_eq!(c.op, Relation::Lt);
            assert_eq!(c.left, "U");
            assert_eq!(c.right, "0");
            assert_eq!(target, 390);
        }
        _ => panic!("not a test"),
    }
    assert_eq!(b.current_line, 330);
    b.branch(true, 390);
    assert_eq!(b.current_line, 390);
    b.current_line = 330;
    b.branch(false, 390);
    assert_eq!(b.current_line, 340);
    assert!(matches!(b.execute_line("IF U < 0 THEN 390      // a comment after the line"), Action::Continue));
    assert_eq!(b.current_line, 390);
    b.current_line = 340;
    assert!(matches!(b.execute_line("IF U > F THEN LET U = F"), Action::Continue));
    assert_eq!(b.current_line, 390);
    assert!(matches!(b.execute_line("IF no then here"), Action::Continue));
    assert!(!b.running);
}

#[test]
fn conditions_split_on_the_first_operator_that_applies() {
    let mut b = loaded("10 REM\n");
    b.start();
    let cases = [
        ("IF A <> B THEN 10", Some((Relation::Ne, "A", "B"))),
        ("IF A+1 <= 2*B THEN 10", Some((Relation::Le, "A+1", "2*B"))),
        ("IF A >= B THEN 10", Some((Relation::Ge, "A", "B"))),
        ("IF A > B THEN 10", Some((Relation::Gt, "A", "B"))),
        ("IF A = 1 THEN 10", Some((Relation::Eq, "A", "1"))),
        ("IF A=<B THEN 10", Some((Relation::Eq, "A", "<B"))),
        ("IF =A THEN 10", None),
        ("IF A THEN 10", None),
        ("IF é=<1 THEN 10", Some((Relation::Lt, "é=", "1"))),
    ];
    for (line, expected) in cases {
        match b.execute_line(line) {
            Action::Test { comparison, target } => {
                assert_eq!(target, 10);
                let got = comparison.map(|c| (c.op, c.left, c.right));
                let want = expected.map(|(op, l, r)| (op, l.to_string(), r.to_string()));
                assert_eq!(got, want, "{}", line);
            }
            _ => panic!("not a test: {}", line),
        }
    }
}

#[test]
fn input_prompts_and_names() {
    let mut b = loaded("10 REM\n20 REM\n30 REM\n");
    b.start();
    match b.execute_line("INPUT U") {
        Action::Input { prompt, name, capped_by_fuel } => {
            assert!(prompt.is_none());
            assert_eq!(name, "U");
            assert!(capped_by_fuel);
        }
        _ => panic!("not an input"),
    }
    match b.execute_line("INPUT \"Age\"; A") {
        Action::Input { prompt, name, capped_by_fuel } => {
            assert_eq!(prompt.unwrap(), "Age");
            assert_eq!(name, " A");
            assert!(!capped_by_fuel);
        }
        _ => panic!("not an input"),
    }
    match b.execute_line("INPUT \"open A") {
        Action::Input { prompt, name, .. } => {
            assert!(prompt.is_none());
            assert_eq!(name, "\"open A");
        }
        _ => panic!("not an input"),
    }
    assert!(!b.running);
}
