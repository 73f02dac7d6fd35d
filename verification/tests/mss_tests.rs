use engine::ast::{Expr, Statement};
use engine::interp::{Host, Interpreter, Numeric};
use engine::parser::parse_program;
use engine::semantics::ArithOp;
use engine::shell::{run_command, Pipeline};
use engine::vfs::Vfs;

/// A host whose commands run on an in-memory file system and whose
/// arithmetic is that of `f64`.
struct TestHost {
    vfs: Vfs,
    cancel_after: Option<usize>,
    checks: usize,
    slept: Vec<u64>,
}

impl TestHost {
    fn new() -> TestHost {
        TestHost { vfs: Vfs::new(), cancel_after: None, checks: 0, slept: Vec::new() }
    }
}

impl Host for TestHost {
    fn run_command(&mut self, cmd_line: String) -> Result<String, String> {
        let mut p = Pipeline::new(&cmd_line);
        while let Some(args) = p.next_command() {
            let out = run_command(&mut self.vfs, &args).unwrap_or_default();
            p.feed(out);
        }
        Ok(p.output())
    }

    fn http_get(&mut self, url: String) -> Result<String, String> {
        Err(format!("offline: {}", url))
    }

    fn read_file(&mut self, path: String) -> Result<String, String> {
        match self.vfs.read_file(&path) {
            Some(b) => Ok(String::from_utf8_lossy(&b).into_owned()),
            None => Err(format!("no such file: {}", path)),
        }
    }

    fn write_file(&mut self, path: String, content: String) -> Result<String, String> {
        self.vfs.write_file_mem(&path, content.into_bytes());
        Ok(String::new())
    }

    fn sleep(&mut self, ms: u64) {
        self.slept.push(ms);
    }

    fn cancelled(&mut self) -> bool {
        self.checks += 1;
        match self.cancel_after {
            Some(n) => self.checks > n,
            None => false,
        }
    }

    fn clear_cancel(&mut self) {}

    fn arith(&mut self, op: ArithOp, left: String, right: String) -> Numeric {
        match (left.parse::<f64>(), right.parse::<f64>()) {
            (Ok(l), Ok(r)) => match op {
                ArithOp::Add => Numeric::Value((l + r).to_string()),
                ArithOp::Sub => Numeric::Value((l - r).to_string()),
                ArithOp::Mul => Numeric::Value((l * r).to_string()),
                ArithOp::Div => {
                    if r == 0.0 {
                        Numeric::DivisionByZero
                    } else {
                        Numeric::Value((l / r).to_string())
                    }
                }
            },
            _ => Numeric::NotNumbers,
        }
    }
}

fn run_mss(code: &str) -> String {
    let mut interp = Interpreter::new(TestHost::new());
    interp.run(code)
}

#[test]
fn test_mss_expr() {
    assert_eq!(run_mss("$a = \"foo\"\n$b = \"bar\"\nif $a == $a { print(\"yes\") }"), "yes");
    assert_eq!(run_mss("$a = \"1\"\n$b = \"2\"\n$c = $a + $b\nif $c == \"3\" { print(\"yes\") }"), "yes");
    assert_eq!(run_mss("$a = \"hello\"\n$b = \"world\"\n$c = $a + \" \" + $b\nif $c == \"hello world\" { print(\"yes\") }"), "yes");
}

#[test]
fn test_mss_builtins() {
    assert_eq!(run_mss("print(\"hello\", \"world\")"), "hello world");
    assert_eq!(run_mss("len(\"abc\")"), "3");
    assert_eq!(run_mss("$a = \"10\"\n$b = \"2\"\nprint($a * $b)"), "20");
    assert_eq!(run_mss("$a = \"10\"\n$b = \"2\"\nprint($a / $b)"), "5");
}

#[test]
fn test_mss_loops() {
    let code = "
            $count = \"0\"
            while $count != \"3\" {
                $count = $count + \"1\"
            }
            if $count == \"3\" { print(\"done\") }
        ";
    assert_eq!(run_mss(code), "done");

    let code_for = "
            for $i in \"a b c\" {
                print($i)
            }
        ";
    let res = run_mss(code_for);
    assert!(res.contains("a"));
    assert!(res.contains("b"));
    assert!(res.contains("c"));
}

#[test]
fn test_mss_command_sub() {
    let code = "
            $res = `echo \"hello\"`
            if $res == \"hello\" { print(\"yes\") }
        ";
    assert_eq!(run_mss(code), "yes");
}

#[test]
fn runtime_errors_report_the_stack() {
    assert_eq!(run_mss("print($nope)"), "Runtime Error: Undefined variable: $nope\nAt line 1, column 1\nStack trace:\n  0: main\n");
    assert_eq!(
        run_mss("func f() { $x = $y }\nf()"),
        "Runtime Error: Undefined variable: $y\nAt line 2, column 1\nStack trace:\n  0: f\n  1: main\n"
    );
    assert_eq!(run_mss("$a = \"x\"\nprint($a - \"1\")"), "Runtime Error: Invalid number\nAt line 2, column 1\nStack trace:\n  0: main\n");
    assert_eq!(run_mss("print(\"1\" / \"0\")"), "Runtime Error: Division by zero\nAt line 1, column 1\nStack trace:\n  0: main\n");
    assert_eq!(run_mss("nosuch(\"1\")"), "Runtime Error: Unknown call: nosuch\nAt line 1, column 1\nStack trace:\n  0: main\n");
}

#[test]
fn functions_return_values() {
    assert_eq!(run_mss("func add($a, $b) { return $a + $b }\nprint(add(\"2\", \"5\"))"), "7");
    assert_eq!(run_mss("func two() { print(\"x\")\nprint(\"y\") }\ntwo()"), "x\ny");
    assert_eq!(run_mss("func g($a) { return $a }\nprint(g())"), "");
}

#[test]
fn builtin_edge_cases() {
    assert_eq!(run_mss("len()"), "0");
    assert_eq!(run_mss("len(\"é\")"), "2");
    assert_eq!(run_mss("print(json_parse(\"{\\\"a\\\": [1, 2]}\"))"), "{\"a\":[1,2]}");
    assert!(run_mss("json_parse(\"{oops\")").starts_with("Runtime Error: JSON Parse Error: "));
    assert_eq!(run_mss("json_parse()"), "Runtime Error: json_parse requires a string\nAt line 1, column 1\nStack trace:\n  0: main\n");
    assert_eq!(run_mss("http_get()"), "Runtime Error: http_get requires a URL\nAt line 1, column 1\nStack trace:\n  0: main\n");
    assert_eq!(run_mss("http_get(\"u\")"), "Runtime Error: offline: u\nAt line 1, column 1\nStack trace:\n  0: main\n");
}

#[test]
fn sleep_asks_the_host() {
    let mut interp = Interpreter::new(TestHost::new());
    assert_eq!(interp.run("sleep(\"25\")\nsleep(\"x\")\nprint(\"ok\")"), "ok");
    assert_eq!(interp.host.slept, vec![25]);
}

#[test]
fn cancellation_stops_the_script() {
    let mut host = TestHost::new();
    host.cancel_after = Some(1);
    let mut interp = Interpreter::new(host);
    assert_eq!(interp.run("print(\"a\")\nprint(\"b\")"), "Interrupted");
    let mut host = TestHost::new();
    host.cancel_after = Some(3);
    let mut interp = Interpreter::new(host);
    assert_eq!(
        interp.run("while \"1\" { print(\"x\") }"),
        "Runtime Error: Interrupted\nAt line 1, column 1\nStack trace:\n  0: main\n"
    );
}

#[test]
fn budget_bounds_loops() {
    let mut interp = Interpreter::new(TestHost::new());
    assert_eq!(
        interp.run_with_budget("while \"1\" { $x = \"1\" }", 5),
        "Runtime Error: Interrupted\nAt line 1, column 1\nStack trace:\n  0: main\n"
    );
    let mut interp = Interpreter::new(TestHost::new());
    assert_eq!(interp.run_with_budget("for $i in \"a b\" { print($i) }", 5), "a\nb");
}

#[test]
fn else_branches_and_commands() {
    assert_eq!(run_mss("if \"0\" { print(\"t\") } else { print(\"f\") }"), "f");
    assert_eq!(run_mss("if \"false\" { print(\"t\") }"), "");
    assert_eq!(run_mss("@echo \"one two\"\n@pwd"), "one two\n/");
    assert_eq!(run_mss("$f = \"/tmp/a\"\n@write $f \"data\"\n@cat $f"), "Wrote 4 bytes\ndata");
}

#[test]
fn parse_reports_what_does_not_read() {
    assert_eq!(parse_program("$a = \"1\"\n)))").err(), Some("unexpected input at line 2, column 1".to_string()));
    let (rest, stmts) = parse_program("$a = \"1\"\n  ").unwrap();
    assert_eq!(rest, "");
    assert_eq!(stmts.len(), 1);
    match &stmts[0] {
        Statement::Assignment(n, Expr::Literal(v)) => {
            assert_eq!(n, "a");
            assert_eq!(v, "1");
        }
        _ => panic!("unexpected statement"),
    }
    assert_eq!(run_mss("print(\"a\")\n)("), "Parse Error: unexpected input at line 2, column 1");
    assert_eq!(run_mss("print(\"a\")\n  )"), "Parse Error: unexpected input at line 2, column 3");
}

#[test]
fn runtime_errors_give_the_statement_position() {
    assert_eq!(
        run_mss("print(\"ok\")\n   print($x)"),
        "Runtime Error: Undefined variable: $x\nAt line 2, column 4\nStack trace:\n  0: main\n"
    );
}

#[test]
fn files_through_the_host() {
    let mut interp = Interpreter::new(TestHost::new());
    assert_eq!(interp.run("write_file(\"/tmp/n\", \"abc\")\nprint(read_file(\"/tmp/n\"))"), "abc");
    assert_eq!(
        run_mss("read_file()"),
        "Runtime Error: read_file requires a path\nAt line 1, column 1\nStack trace:\n  0: main\n"
    );
    assert_eq!(
        run_mss("write_file(\"x\")"),
        "Runtime Error: write_file requires path and content\nAt line 1, column 1\nStack trace:\n  0: main\n"
    );
    assert_eq!(
        run_mss("read_file(\"/tmp/none\")"),
        "Runtime Error: no such file: /tmp/none\nAt line 1, column 1\nStack trace:\n  0: main\n"
    );
}

#[test]
fn statements_and_expressions_one_at_a_time() {
    let mut interp = Interpreter::new(TestHost::new());
    let (_, stmts) = parse_program("$v = \"7\"").unwrap();
    for s in stmts {
        assert_eq!(interp.execute_statement(s), Ok(String::new()));
    }
    assert_eq!(interp.evaluate_expr(Expr::Variable("v".to_string())), Ok("7".to_string()));
    assert_eq!(interp.evaluate_expr(Expr::Variable("w".to_string())), Err("Undefined variable: $w".to_string()));
    interp.set_env("HOME", "/root");
    assert_eq!(interp.evaluate_expr(Expr::Variable("HOME".to_string())), Ok("/root".to_string()));
}

#[test]
fn pipelines_feed_outputs_forward() {
    let mut vfs = Vfs::new();
    vfs.write_file_mem("/tmp/log", b"a1\nb2\na3\n".to_vec());
    let mut p = Pipeline::new("cat /tmp/log | grep a");
    let mut seen = Vec::new();
    while let Some(args) = p.next_command() {
        seen.push(args.clone());
        let out = run_command(&mut vfs, &args).unwrap_or_default();
        p.feed(out);
    }
    assert_eq!(seen[0], vec!["cat", "/tmp/log"]);
    assert_eq!(seen[1], vec!["grep", "a", "a1\nb2\na3\n"]);
    assert_eq!(p.output(), "File not found: /a1\nb2\na3\n");
    let mut q = Pipeline::new(" | | ");
    assert!(q.next_command().is_none());
    assert_eq!(q.output(), "");
}

#[test]
fn assignment_reads_back() {
    assert_eq!(run_mss("$x = \"v\"\n$x"), "v");
    assert_eq!(run_mss("$x = \"v\"\n$x = \"w\"\n$x"), "w");
}

#[test]
fn calls_restore_the_caller_scope() {
    assert_eq!(run_mss("$a = \"1\"\nfunc f($a) { $b = $a }\nf(\"2\")\nprint($a)"), "1");
    assert_eq!(
        run_mss("func f() { $b = \"x\" }\nf()\nprint($b)"),
        "Runtime Error: Undefined variable: $b\nAt line 3, column 1\nStack trace:\n  0: main\n"
    );
}

#[test]
fn command_lines_read_back_as_words() {
    assert_eq!(engine::commands::parse_args("echo one two"), vec!["echo", "one", "two"]);
    assert_eq!(run_mss("$w = \"a b\"\n@echo $w \"c\""), "a b c");
}

#[test]
fn comparison_operators_are_read_but_not_evaluated() {
    assert_eq!(
        run_mss("print(\"1\" < \"2\")"),
        "Runtime Error: Unsupported operator: <\nAt line 1, column 1\nStack trace:\n  0: main\n"
    );
    assert_eq!(run_mss("print(\"a\" != \"b\")"), "true");
}
