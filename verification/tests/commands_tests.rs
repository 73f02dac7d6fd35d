use engine::commands::{cat, cd, cp, echo, find, grep, grep_text, head, lines, ls, parse_args, pwd, stat, tail, write_file};
use engine::json::json_answer;
use engine::shell::{mv_plan, rm_plan, run_command, xargs_lines, Pipeline};
use engine::vfs::Vfs;

fn strings(v: &[&str]) -> Vec<String> {
    v.iter().map(|s| s.to_string()).collect()
}

#[test]
fn test_commands() {
    let mut vfs = Vfs::new();
    assert_eq!(echo(&mut vfs, vec!["hello".to_string(), "world".to_string()]), "hello world");

    vfs.set_cwd("/");
    assert_eq!(pwd(&vfs), "/");
    cd(&mut vfs, "/tmp");
    assert_eq!(pwd(&vfs), "/tmp");

    echo(&mut vfs, vec!["test".to_string(), ">".to_string(), "foo.txt".to_string()]);
    assert_eq!(cat(&vfs, vec!["foo.txt".to_string()]), "test");

    echo(&mut vfs, vec!["1\n2\n3\n4\n5".to_string(), ">".to_string(), "lines.txt".to_string()]);
    assert_eq!(head(&vfs, vec!["-n".to_string(), "2".to_string(), "lines.txt".to_string()]), "1\n2");
    assert_eq!(tail(&vfs, vec!["-n".to_string(), "2".to_string(), "lines.txt".to_string()]), "4\n5");

    cp(&mut vfs, "lines.txt", "lines_copy.txt");
    assert_eq!(cat(&vfs, vec!["lines_copy.txt".to_string()]), "1\n2\n3\n4\n5");

    assert!(stat(&vfs, "lines.txt").contains("Size: 9"));
}

#[test]
fn test_parse_args() {
    assert_eq!(parse_args("ls -l /tmp"), vec!["ls", "-l", "/tmp"]);
    assert_eq!(parse_args("echo \"hello world\""), vec!["echo", "hello world"]);
    assert_eq!(parse_args("grep \"foo bar\" file.txt"), vec!["grep", "foo bar", "file.txt"]);
    assert_eq!(parse_args("  space  test  "), vec!["space", "test"]);
    assert_eq!(parse_args("cmd \"\""), vec!["cmd", ""]);
}

#[test]
fn parse_args_edge_cases() {
    assert_eq!(parse_args(""), Vec::<String>::new());
    assert_eq!(parse_args("a\"b c\"d e"), vec!["ab cd", "e"]);
    assert_eq!(parse_args("open \"x  "), vec!["open", "x  "]);
    assert_eq!(parse_args("\t\ttab\tsep\n"), vec!["tab", "sep"]);
}

#[test]
fn lines_like_str_lines() {
    for s in ["", "a", "a\n", "a\r\nb", "a\r", "\n\n", "x\ny\r\n"] {
        let expected: Vec<String> = s.lines().map(|l| l.to_string()).collect();
        assert_eq!(lines(s), expected);
    }
}

#[test]
fn grep_finds_matching_lines() {
    assert_eq!(grep_text("alpha\nbeta\ngamma\nalphabet", "alpha"), "alpha\nalphabet");
    assert_eq!(grep_text("one\ntwo", "x"), "");
    assert_eq!(grep_text("one\ntwo", ""), "one\ntwo");
}

#[test]
fn grep_on_files() {
    let mut vfs = Vfs::new();
    vfs.write_file_mem("/tmp/log", b"ok\nERROR one\nfine\nERROR two\n".to_vec());
    assert_eq!(grep(&vfs, "ERROR", "/tmp/log"), "ERROR one\nERROR two");
    assert_eq!(grep(&vfs, "x", "/tmp/none"), "File not found: /tmp/none");
    vfs.write_file_mem("/tmp/bin", vec![b'o', b'k', 0xff, b'\n', b'z']);
    assert_eq!(grep(&vfs, "ok", "/tmp/bin"), "ok\u{fffd}");
}

#[test]
fn ls_lists_each_path_once() {
    let mut vfs = Vfs::new();
    assert_eq!(ls(&vfs), "");
    vfs.write_file_mem("/tmp/a", b"1".to_vec());
    vfs.write_file_mem("/tmp/b", b"2".to_vec());
    vfs.write_file_mem("/tmp/a", b"3".to_vec());
    vfs.remember_stored("/x");
    assert_eq!(ls(&vfs), "/tmp/a\n/tmp/b\n/x");
}

#[test]
fn head_tail_defaults_and_errors() {
    let mut vfs = Vfs::new();
    cd(&mut vfs, "/tmp");
    let text: String = (1..=12).map(|i| i.to_string()).collect::<Vec<_>>().join("\n");
    echo(&mut vfs, strings(&[&text, ">", "n.txt"]));
    assert_eq!(head(&vfs, strings(&["n.txt"])), "1\n2\n3\n4\n5\n6\n7\n8\n9\n10");
    assert_eq!(tail(&vfs, strings(&["n.txt"])), "3\n4\n5\n6\n7\n8\n9\n10\n11\n12");
    assert_eq!(head(&vfs, strings(&["-n", "50", "n.txt"])), text);
    assert_eq!(head(&vfs, strings(&["-n", "x", "n.txt"])), "1\n2\n3\n4\n5\n6\n7\n8\n9\n10");
    assert_eq!(head(&vfs, strings(&[])), "head: missing file operand");
    assert_eq!(tail(&vfs, strings(&["gone"])), "tail: gone: No such file");
}

#[test]
fn cat_cp_and_stat_errors() {
    let mut vfs = Vfs::new();
    cd(&mut vfs, "/tmp");
    assert_eq!(cat(&vfs, strings(&["nope"])), "cat: nope: No such file");
    echo(&mut vfs, strings(&["ab", ">", "a"]));
    echo(&mut vfs, strings(&["cd", ">", "b"]));
    assert_eq!(cat(&vfs, strings(&["-v", "a", "b"])), "abcd");
    assert_eq!(cp(&mut vfs, "zz", "yy"), "cp: zz: No such file");
    assert_eq!(stat(&vfs, "a"), "File: /tmp/a\nSize: 2");
    assert_eq!(echo(&mut vfs, strings(&["only", ">"])), "only");
    echo(&mut vfs, strings(&["gone", ">", "/dev/null"]));
    assert_eq!(cat(&vfs, strings(&["/dev/null"])), "cat: /dev/null: No such file");
}

#[test]
fn write_and_find() {
    let mut vfs = Vfs::new();
    assert_eq!(write_file(&mut vfs, "/tmp/w.txt", "héllo"), Some("Wrote 6 bytes".to_string()));
    assert_eq!(cat(&vfs, strings(&["/tmp/w.txt"])), "héllo");
    assert_eq!(write_file(&mut vfs, "/home/w.txt", "x"), None);
    assert_eq!(write_file(&mut vfs, "/dev/null", "abc"), Some("Wrote 3 bytes".to_string()));
    vfs.write_file_mem("/tmp/notes.md", b"".to_vec());
    vfs.write_file_mem("/var/notes.md", b"".to_vec());
    assert_eq!(find(&vfs, "/tmp", "notes"), "/tmp/notes.md");
    assert_eq!(find(&vfs, "/", ".md"), "/tmp/notes.md\n/var/notes.md");
}

#[test]
fn echo_then_cat_round_trip() {
    let mut vfs = Vfs::new();
    cd(&mut vfs, "/tmp");
    echo(&mut vfs, strings(&["grüße", "ünd", "ß", ">", "u.txt"]));
    assert_eq!(cat(&vfs, strings(&["u.txt"])), "grüße ünd ß");
}

#[test]
fn json_answers() {
    assert_eq!(json_answer(Ok("[1]".to_string())), Ok("[1]".to_string()));
    assert_eq!(json_answer(Err("EOF".to_string())), Err("JSON Parse Error: EOF".to_string()));
}

#[test]
fn grep_uses_regular_expressions() {
    let mut vfs = Vfs::new();
    vfs.write_file_mem("/tmp/r.txt", b"ab\nxb\ncd".to_vec());
    assert_eq!(grep(&vfs, "[ax]b", "/tmp/r.txt"), "ab\nxb");
    assert_eq!(grep(&vfs, "^c", "/tmp/r.txt"), "cd");
    assert!(grep(&vfs, "(", "/tmp/r.txt").starts_with("grep: "));
}

#[test]
fn commands_through_the_dispatcher() {
    let mut vfs = Vfs::new();
    assert_eq!(run_command(&mut vfs, &strings(&["cd", "/tmp"])), Some(String::new()));
    assert_eq!(run_command(&mut vfs, &strings(&["pwd"])), Some("/tmp".to_string()));
    run_command(&mut vfs, &strings(&["echo", "1\n2\n3\n4\n5", ">", "lines.txt"]));
    assert_eq!(run_command(&mut vfs, &strings(&["head", "-n", "2", "lines.txt"])), Some("1\n2".to_string()));
    assert_eq!(run_command(&mut vfs, &strings(&["tail", "-n", "2", "lines.txt"])), Some("4\n5".to_string()));
    run_command(&mut vfs, &strings(&["cp", "lines.txt", "copy.txt"]));
    assert_eq!(run_command(&mut vfs, &strings(&["cat", "copy.txt"])), Some("1\n2\n3\n4\n5".to_string()));
    assert!(run_command(&mut vfs, &strings(&["stat", "lines.txt"])).unwrap().contains("Size: 9"));
    assert_eq!(run_command(&mut vfs, &strings(&["rm", "copy.txt"])), None);
    assert_eq!(run_command(&mut vfs, &strings(&["frob"])), Some("Unknown command: frob".to_string()));
}

#[test]
fn ls_long_shows_size_and_time() {
    let mut vfs = Vfs::new();
    vfs.set_clock(1700000000000);
    vfs.write_file_mem("/tmp/a.txt", b"abc".to_vec());
    vfs.remember_stored("/docs/x");
    assert_eq!(
        run_command(&mut vfs, &strings(&["ls", "-l"])),
        Some("/tmp/a.txt 3 1700000000000\n/docs/x 0 0".to_string())
    );
    assert_eq!(run_command(&mut vfs, &strings(&["ls"])), Some("/tmp/a.txt\n/docs/x".to_string()));
    vfs.set_clock(5);
    vfs.write_file_sync("/tmp/a.txt", b"z", 3).unwrap();
    assert_eq!(run_command(&mut vfs, &strings(&["ls", "-l"])), Some("/tmp/a.txt 4 5\n/docs/x 0 0".to_string()));
}

#[test]
fn host_command_plans() {
    assert_eq!(xargs_lines("cat", "a\nb\n"), vec!["cat a", "cat b"]);
    assert_eq!(rm_plan(&strings(&["-rf", "x", "y"])), (strings(&["x", "y"]), true));
    assert_eq!(rm_plan(&strings(&["x"])), (strings(&["x"]), false));
    assert_eq!(mv_plan("a", "b"), (strings(&["cp", "a", "b"]), strings(&["rm", "a"])));
}

#[test]
fn plain_lines_run_as_their_words() {
    let mut p = Pipeline::new("  ls  -l   /tmp ");
    assert_eq!(p.next_command(), Some(strings(&["ls", "-l", "/tmp"])));
    assert_eq!(p.next_command(), None);
    let mut q = Pipeline::new("echo hello | echo");
    assert_eq!(q.next_command(), Some(strings(&["echo", "hello"])));
    q.feed("hello".to_string());
    assert_eq!(q.next_command(), Some(strings(&["echo", "hello"])));
    q.feed("hello".to_string());
    assert_eq!(q.output(), "hello");
}

#[test]
fn commands_through_dispatch() {
    let mut vfs = Vfs::new();
    assert_eq!(run_command(&mut vfs, &strings(&["echo", "hello", "world"])), Some("hello world".to_string()));
    assert_eq!(run_command(&mut vfs, &strings(&["cd", "/tmp"])), Some(String::new()));
    assert_eq!(run_command(&mut vfs, &strings(&["pwd"])), Some("/tmp".to_string()));
    run_command(&mut vfs, &strings(&["echo", "1\n2\n3\n4\n5", ">", "lines.txt"]));
    assert_eq!(run_command(&mut vfs, &strings(&["head", "-n", "2", "lines.txt"])), Some("1\n2".to_string()));
    assert_eq!(run_command(&mut vfs, &strings(&["tail", "-n", "2", "lines.txt"])), Some("4\n5".to_string()));
    assert_eq!(run_command(&mut vfs, &strings(&["cp", "lines.txt", "copy.txt"])), Some(String::new()));
    assert_eq!(run_command(&mut vfs, &strings(&["cat", "copy.txt"])), Some("1\n2\n3\n4\n5".to_string()));
    assert!(run_command(&mut vfs, &strings(&["stat", "lines.txt"])).unwrap().contains("Size: 9"));
}

#[test]
fn stored_files_read_once_loaded() {
    let mut vfs = Vfs::new();
    assert_eq!(run_command(&mut vfs, &strings(&["cat", "/docs/a.txt"])), Some("cat: /docs/a.txt: No such file".to_string()));
    vfs.load_stored("/docs/a.txt", b"ab\nxb\ncd".to_vec());
    assert_eq!(run_command(&mut vfs, &strings(&["cat", "/docs/a.txt"])), Some("ab\nxb\ncd".to_string()));
    assert_eq!(run_command(&mut vfs, &strings(&["grep", "[ax]b", "/docs/a.txt"])), Some("ab\nxb".to_string()));
    assert_eq!(run_command(&mut vfs, &strings(&["tail", "-n", "1", "/docs/a.txt"])), Some("cd".to_string()));
    assert_eq!(vfs.read_file_sync("/docs/a.txt", 3, 2), Ok(b"xb".to_vec()));
    assert_eq!(vfs.read_file_sync("/docs/a.txt", 0, 8), Ok(b"ab\nxb\ncd".to_vec()));
    vfs.clear_loaded();
    assert_eq!(run_command(&mut vfs, &strings(&["cat", "/docs/a.txt"])), Some("cat: /docs/a.txt: No such file".to_string()));
    vfs.load_stored("/tmp/x.txt", b"x".to_vec());
    assert_eq!(vfs.read_file("/tmp/x.txt"), None);
}
