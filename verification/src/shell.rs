//! The shell: which command a line names, what it does to the file system,
//! which files the host must open first, and how a pipeline feeds each
//! command's output to the next.

use vstd::prelude::*;
use crate::text::{owned, append, str_eq, join, views, decimal, is_unicode_whitespace, unicode_whitespace};
use crate::text::{chars_of, string_of};
use crate::path::{split_on, resolve, normalize, lemma_split_on_len, lemma_split_concat, lemma_split_plain};
use crate::vfs::{Vfs, VfsView, written, write_result, put, readable};
use crate::commands::{text_lines, lines, args_of, parse_args, file_of, cat_out, lines_out, echo_state, echo_out, grep_answer, long_line};
use crate::commands::{found, stat_out, redirect_from, lemma_redirect_from, plain_word, lemma_args_of_join, scan_args};
use crate::commands::{ls, ls_long, pwd, cd, cat, head, tail, echo, grep, find, cp, write_file, stat};
use vstd::utf8::encode_utf8;

verus! {

pub open spec fn opt_view(r: Option<String>) -> Option<Seq<char>> {
    match r {
        Some(s) => Some(s@),
        None => None,
    }
}

/// What a command (its name and arguments) does to the file system, whose
/// listing is `listing`, and what it prints; `None` for the commands that
/// the host carries out (`xargs`, `mv`, `mkdir`, `rm`, and `write` to the
/// persistent store).
pub open spec fn dispatch(v: VfsView, listing: Seq<Seq<char>>, args: Seq<Seq<char>>) -> (VfsView, Option<Seq<char>>) {
    if args.len() == 0 {
        (v, Some(Seq::empty()))
    } else {
        let cmd = args[0];
        let rest = args.skip(1);
        if cmd == "ls"@ {
            if rest.contains("-l"@) {
                (v, Some(join(listing.map_values(|n: Seq<char>| long_line(v, n)), "\n"@)))
            } else {
                (v, Some(join(listing, "\n"@)))
            }
        } else if cmd == "pwd"@ {
            (v, Some(v.cwd))
        } else if cmd == "cd"@ {
            (VfsView { cwd: resolve(v.cwd, if rest.len() > 0 { rest[0] } else { "/"@ }), ..v }, Some(Seq::empty()))
        } else if cmd == "cat"@ {
            (v, Some(cat_out(readable(v), v.cwd, rest)))
        } else if cmd == "head"@ {
            (v, Some(lines_out("head"@, readable(v), v.cwd, rest, false)))
        } else if cmd == "tail"@ {
            (v, Some(lines_out("tail"@, readable(v), v.cwd, rest, true)))
        } else if cmd == "echo"@ {
            (echo_state(v, rest), Some(echo_out(rest)))
        } else if cmd == "grep"@ {
            if rest.len() >= 2 {
                let p = resolve(v.cwd, rest[1]);
                (v, Some(grep_answer(file_of(readable(v), p), rest[0], p)))
            } else {
                (v, Some("grep requires pattern and path"@))
            }
        } else if cmd == "find"@ {
            if rest.len() >= 2 {
                let dir = resolve(v.cwd, rest[0]);
                (v, Some(join(listing.filter(|n: Seq<char>| found(n, dir, rest[1])), "\n"@)))
            } else {
                (v, Some("find requires path and pattern"@))
            }
        } else if cmd == "xargs"@ {
            if rest.len() >= 2 { (v, None) } else { (v, Some("xargs requires command and input"@)) }
        } else if cmd == "cp"@ {
            if rest.len() >= 2 {
                match file_of(readable(v), resolve(v.cwd, rest[0])) {
                    Some(b) => (put(v, resolve(v.cwd, rest[1]), b), Some(Seq::empty())),
                    None => (v, Some("cp: "@ + rest[0] + ": No such file"@)),
                }
            } else {
                (v, Some("cp requires src and dest"@))
            }
        } else if cmd == "mv"@ {
            if rest.len() >= 2 { (v, None) } else { (v, Some("mv requires src and dest"@)) }
        } else if cmd == "write"@ {
            if rest.len() >= 2 {
                let p = normalize(resolve(v.cwd, rest[0]));
                let bytes = encode_utf8(rest[1]);
                (
                    written(v, p, bytes, 0),
                    match write_result(p, bytes.len()) {
                        Ok(n) => Some("Wrote "@ + decimal(n) + " bytes"@),
                        Err(_) => None,
                    },
                )
            } else {
                (v, Some("write requires path and content"@))
            }
        } else if cmd == "mkdir"@ {
            if rest.len() >= 1 { (v, None) } else { (v, Some("mkdir requires path"@)) }
        } else if cmd == "touch"@ {
            if rest.len() >= 1 { (v, Some("File touched: "@ + rest[0])) } else { (v, Some("touch requires path"@)) }
        } else if cmd == "rm"@ {
            (v, None)
        } else if cmd == "stat"@ {
            if rest.len() >= 1 { (v, Some(stat_out(v.files, v.cwd, rest[0]))) } else { (v, Some("stat requires path"@)) }
        } else {
            (v, Some("Unknown command: "@ + cmd))
        }
    }
}

/// Joining after a first part puts that part, then the separator, in front.
proof fn lemma_join_front(a: Seq<char>, vs: Seq<Seq<char>>, sep: Seq<char>)
    requires
        vs.len() > 0,
    ensures
        join(seq![a] + vs, sep) == a + sep + join(vs, sep),
    decreases vs.len(),
{
    if vs.len() == 1 {
        assert((seq![a] + vs).drop_last() =~= seq![a]);
        assert((seq![a] + vs).last() == vs[0]);
        assert(join(seq![a], sep) == a);
        assert(join(vs, sep) == vs[0]);
        assert(join(seq![a] + vs, sep) == join(seq![a], sep) + sep + vs[0]);
    } else {
        lemma_join_front(a, vs.drop_last(), sep);
        assert((seq![a] + vs).drop_last() =~= seq![a] + vs.drop_last());
        assert((seq![a] + vs).last() == vs.last());
        assert(a + sep + join(vs.drop_last(), sep) + sep + vs.last() =~= a + sep + (join(vs.drop_last(), sep) + sep + vs.last()));
    }
}

/// A command that a script calls with plain words reaches the shell as
/// exactly those words: the line `name v1 v2 ...` that the interpreter
/// builds reads back as `[name, v1, v2, ...]`.
pub proof fn lemma_command_line_args(name: Seq<char>, vals: Seq<Seq<char>>)
    requires
        plain_word(name),
        forall|i: int| 0 <= i < vals.len() ==> plain_word(#[trigger] vals[i]),
    ensures
        args_of(name + " "@ + join(vals, " "@)) == seq![name] + vals,
{
    reveal_strlit(" ");
    let all = seq![name] + vals;
    assert forall|i: int| 0 <= i < all.len() implies plain_word(#[trigger] all[i]) by {
        if i > 0 {
            assert(all[i] == vals[i - 1]);
        }
    }
    if vals.len() == 0 {
        lemma_args_of_join(seq![name]);
        let line = name + " "@;
        assert(line + join(vals, " "@) =~= line);
        assert(line.drop_last() =~= join(seq![name], " "@));
        assert(line.last() == ' ');
        assert(is_unicode_whitespace(' '));
        assert(seq![name].drop_last().push(name) =~= seq![name]);
        assert(all =~= seq![name]);
    } else {
        lemma_join_front(name, vals, " "@);
        lemma_args_of_join(all);
    }
}

/// A copy of `v[from..]`.
fn tail_of(v: &Vec<String>, from: usize) -> (r: Vec<String>)
    requires
        from <= v.len(),
    ensures
        views(r@) == views(v@).skip(from as int),
{
    let mut r: Vec<String> = Vec::new();
    let mut i = from;
    while i < v.len()
        invariant
            from <= i <= v.len(),
            views(r@) == views(v@).subrange(from as int, i as int),
        decreases v.len() - i,
    {
        let ghost r0 = views(r@);
        r.push(v[i].clone());
        assert(views(r@) =~= r0.push(views(v@)[i as int]));
        i = i + 1;
        assert(views(r@) =~= views(v@).subrange(from as int, i as int));
    }
    assert(views(v@).subrange(from as int, v.len() as int) =~= views(v@).skip(from as int));
    r
}

/// A message as an owned string.
fn say(m: &str) -> (r: Option<String>)
    ensures
        opt_view(r) == Some(m@),
{
    Some(owned(m))
}

/// Runs a command given as its name and arguments (see `dispatch`).
pub fn run_command(vfs: &mut Vfs, args: &Vec<String>) -> (r: Option<String>)
    requires
        old(vfs).wf(),
    ensures
        final(vfs).wf(),
        (final(vfs)@, opt_view(r)) == dispatch(old(vfs)@, old(vfs).listing(), views(args@)),
{
    if args.len() == 0 {
        return Some(String::new());
    }
    let cmd = args[0].as_str();
    let rest = tail_of(args, 1);
    let ghost a = views(args@);
    let ghost rv = views(rest@);
    assert(rv == a.skip(1));
    assert(cmd@ == a[0]);
    proof {
        if rv.len() > 0 {
            assert(rv[0] == rest@[0]@);
        }
        if rv.len() > 1 {
            assert(rv[1] == rest@[1]@);
        }
    }
    if str_eq(cmd, "ls") {
        let mut long = false;
        let mut i: usize = 0;
        while i < rest.len()
            invariant
                i <= rest.len(),
                rv == views(rest@),
                long == exists|k: int| 0 <= k < i && rv[k] == "-l"@,
            decreases rest.len() - i,
        {
            assert(rv[i as int] == rest@[i as int]@);
            if str_eq(rest[i].as_str(), "-l") {
                long = true;
            }
            i = i + 1;
        }
        assert(long == rv.contains("-l"@));
        if long {
            Some(ls_long(vfs))
        } else {
            Some(ls(vfs))
        }
    } else if str_eq(cmd, "pwd") {
        Some(pwd(vfs))
    } else if str_eq(cmd, "cd") {
        if rest.len() > 0 {
            Some(cd(vfs, rest[0].as_str()))
        } else {
            Some(cd(vfs, "/"))
        }
    } else if str_eq(cmd, "cat") {
        Some(cat(vfs, rest))
    } else if str_eq(cmd, "head") {
        Some(head(vfs, rest))
    } else if str_eq(cmd, "tail") {
        Some(tail(vfs, rest))
    } else if str_eq(cmd, "echo") {
        Some(echo(vfs, rest))
    } else if str_eq(cmd, "grep") {
        if rest.len() >= 2 {
            let p = vfs.resolve_path(rest[1].as_str());
            Some(grep(vfs, rest[0].as_str(), p.as_str()))
        } else {
            say("grep requires pattern and path")
        }
    } else if str_eq(cmd, "find") {
        if rest.len() >= 2 {
            let dir = vfs.resolve_path(rest[0].as_str());
            Some(find(vfs, dir.as_str(), rest[1].as_str()))
        } else {
            say("find requires path and pattern")
        }
    } else if str_eq(cmd, "xargs") {
        if rest.len() >= 2 {
            None
        } else {
            say("xargs requires command and input")
        }
    } else if str_eq(cmd, "cp") {
        if rest.len() >= 2 {
            Some(cp(vfs, rest[0].as_str(), rest[1].as_str()))
        } else {
            say("cp requires src and dest")
        }
    } else if str_eq(cmd, "mv") {
        if rest.len() >= 2 {
            None
        } else {
            say("mv requires src and dest")
        }
    } else if str_eq(cmd, "write") {
        if rest.len() >= 2 {
            write_file(vfs, rest[0].as_str(), rest[1].as_str())
        } else {
            say("write requires path and content")
        }
    } else if str_eq(cmd, "mkdir") {
        if rest.len() >= 1 {
            None
        } else {
            say("mkdir requires path")
        }
    } else if str_eq(cmd, "touch") {
        if rest.len() >= 1 {
            let mut m = owned("File touched: ");
            append(&mut m, rest[0].as_str());
            Some(m)
        } else {
            say("touch requires path")
        }
    } else if str_eq(cmd, "rm") {
        None
    } else if str_eq(cmd, "stat") {
        if rest.len() >= 1 {
            Some(stat(vfs, rest[0].as_str()))
        } else {
            say("stat requires path")
        }
    } else {
        let mut m = owned("Unknown command: ");
        append(&mut m, cmd);
        Some(m)
    }
}

/// The paths (read from `cwd`) that the host must open before a command
/// runs, each with whether to create it: the file that `grep` searches,
/// the target of `write`, `touch` and of `echo ... >`, every non-option
/// argument of `rm`, `stat`, `cat`, `head` and `tail`, and the source and
/// target of `cp` and `mv`.
pub open spec fn opening(cwd: Seq<char>, args: Seq<Seq<char>>) -> Seq<(Seq<char>, bool)> {
    if args.len() == 0 {
        Seq::empty()
    } else {
        let cmd = args[0];
        let rest = args.skip(1);
        if cmd == "grep"@ {
            if rest.len() > 1 { seq![(resolve(cwd, rest[1]), false)] } else { Seq::empty() }
        } else if cmd == "write"@ || cmd == "touch"@ {
            if rest.len() > 0 { seq![(resolve(cwd, rest[0]), true)] } else { Seq::empty() }
        } else if cmd == "rm"@ || cmd == "stat"@ || cmd == "cat"@ || cmd == "head"@ || cmd == "tail"@ {
            rest.filter(|p: Seq<char>| !(p.len() > 0 && p[0] == '-')).map_values(|p: Seq<char>| (resolve(cwd, p), false))
        } else if cmd == "echo"@ {
            let k = redirect_from(rest, 0);
            if k + 1 < rest.len() { seq![(resolve(cwd, rest[k + 1]), true)] } else { Seq::empty() }
        } else if cmd == "cp"@ || cmd == "mv"@ {
            if rest.len() >= 2 { seq![(resolve(cwd, rest[0]), false), (resolve(cwd, rest[1]), true)] } else { Seq::empty() }
        } else {
            Seq::empty()
        }
    }
}

pub open spec fn handles_view(v: Seq<(String, bool)>) -> Seq<(Seq<char>, bool)> {
    v.map_values(|h: (String, bool)| (h.0@, h.1))
}

fn one(p: String, create: bool) -> (r: Vec<(String, bool)>)
    ensures
        handles_view(r@) == seq![(p@, create)],
{
    let mut r: Vec<(String, bool)> = Vec::new();
    r.push((p, create));
    assert(handles_view(r@) =~= seq![(p@, create)]);
    r
}

/// The files to open before the command `args` runs (see `opening`).
pub fn handles_for(vfs: &Vfs, args: &Vec<String>) -> (r: Vec<(String, bool)>)
    ensures
        handles_view(r@) == opening(vfs@.cwd, views(args@)),
{
    if args.len() == 0 {
        let r: Vec<(String, bool)> = Vec::new();
        assert(handles_view(r@) =~= Seq::<(Seq<char>, bool)>::empty());
        return r;
    }
    let cmd = args[0].as_str();
    let rest = tail_of(args, 1);
    let ghost a = views(args@);
    let ghost rv = views(rest@);
    assert(rv == a.skip(1));
    assert(cmd@ == a[0]);
    proof {
        if rv.len() > 0 {
            assert(rv[0] == rest@[0]@);
        }
        if rv.len() > 1 {
            assert(rv[1] == rest@[1]@);
        }
    }
    let none: Vec<(String, bool)> = Vec::new();
    assert(handles_view(none@) =~= Seq::<(Seq<char>, bool)>::empty());
    if str_eq(cmd, "grep") {
        if rest.len() > 1 { one(vfs.resolve_path(rest[1].as_str()), false) } else { none }
    } else if str_eq(cmd, "write") || str_eq(cmd, "touch") {
        if rest.len() > 0 { one(vfs.resolve_path(rest[0].as_str()), true) } else { none }
    } else if str_eq(cmd, "rm") || str_eq(cmd, "stat") || str_eq(cmd, "cat") || str_eq(cmd, "head") || str_eq(cmd, "tail") {
        let ghost keep = |p: Seq<char>| !(p.len() > 0 && p[0] == '-');
        let ghost to = |p: Seq<char>| (resolve(vfs@.cwd, p), false);
        let mut r: Vec<(String, bool)> = Vec::new();
        let mut i: usize = 0;
        proof {
            assert(rv.take(0) =~= Seq::<Seq<char>>::empty());
            assert(rv.take(0).filter(keep) =~= Seq::<Seq<char>>::empty());
            assert(handles_view(r@) =~= rv.take(0).filter(keep).map_values(to));
        }
        while i < rest.len()
            invariant
                i <= rest.len(),
                rv == views(rest@),
                keep == (|p: Seq<char>| !(p.len() > 0 && p[0] == '-')),
                to == (|p: Seq<char>| (resolve(vfs@.cwd, p), false)),
                handles_view(r@) == rv.take(i as int).filter(keep).map_values(to),
            decreases rest.len() - i,
        {
            let arg = rest[i].as_str();
            let cs = chars_of(arg);
            proof {
                assert(rv.take(i + 1) =~= rv.take(i as int).push(arg@));
                rv.take(i as int).lemma_filter_push(arg@, keep);
            }
            if !(cs.len() > 0 && cs[0] == '-') {
                let ghost h0 = handles_view(r@);
                r.push((vfs.resolve_path(arg), false));
                proof {
                    assert(handles_view(r@) =~= h0.push(to(arg@)));
                    assert(rv.take(i as int).filter(keep).push(arg@).map_values(to)
                        =~= rv.take(i as int).filter(keep).map_values(to).push(to(arg@)));
                }
            }
            i = i + 1;
        }
        assert(rv.take(rest.len() as int) =~= rv);
        r
    } else if str_eq(cmd, "echo") {
        let mut k: usize = 0;
        proof {
            lemma_redirect_from(rv, 0);
        }
        while k < rest.len() && !str_eq(rest[k].as_str(), ">")
            invariant
                k <= rest.len(),
                rv == views(rest@),
                redirect_from(rv, 0) == redirect_from(rv, k as int),
            decreases rest.len() - k,
        {
            k = k + 1;
        }
        if k < rest.len() && rest.len() - k > 1 {
            one(vfs.resolve_path(rest[k + 1].as_str()), true)
        } else {
            none
        }
    } else if str_eq(cmd, "cp") || str_eq(cmd, "mv") {
        if rest.len() >= 2 {
            let mut r = one(vfs.resolve_path(rest[0].as_str()), false);
            let ghost h0 = handles_view(r@);
            r.push((vfs.resolve_path(rest[1].as_str()), true));
            assert(handles_view(r@) =~= h0.push((resolve(vfs@.cwd, rv[1]), true)));
            r
        } else {
            none
        }
    } else {
        none
    }
}

/// The command lines that `xargs cmd input` runs: `cmd` followed by each
/// line of the input.
pub fn xargs_lines(cmd: &str, input: &str) -> (r: Vec<String>)
    ensures
        views(r@) == text_lines(input@).map_values(|l: Seq<char>| cmd@ + " "@ + l),
{
    let ls = lines(input);
    let ghost lv = views(ls@);
    let ghost f = |l: Seq<char>| cmd@ + " "@ + l;
    let mut r: Vec<String> = Vec::new();
    let mut i: usize = 0;
    while i < ls.len()
        invariant
            i <= ls.len(),
            lv == views(ls@),
            f == (|l: Seq<char>| cmd@ + " "@ + l),
            views(r@) == lv.take(i as int).map_values(f),
        decreases ls.len() - i,
    {
        let mut line = owned(cmd);
        append(&mut line, " ");
        append(&mut line, ls[i].as_str());
        let ghost r0 = views(r@);
        proof {
            assert(lv.take(i + 1) =~= lv.take(i as int).push(lv[i as int]));
            assert(lv.take(i + 1).map_values(f) =~= lv.take(i as int).map_values(f).push(f(lv[i as int])));
        }
        r.push(line);
        assert(views(r@) =~= r0.push(f(lv[i as int])));
        i = i + 1;
    }
    assert(lv.take(ls.len() as int) =~= lv);
    r
}

/// Whether an argument of `rm` is an option.
pub open spec fn is_option(p: Seq<char>) -> bool {
    p.len() > 0 && p[0] == '-'
}

/// What `rm args` removes: every argument that is not an option; and
/// whether it removes directories with their contents (`-r` or `-rf`).
pub fn rm_plan(args: &Vec<String>) -> (r: (Vec<String>, bool))
    ensures
        views(r.0@) == views(args@).filter(|p: Seq<char>| !is_option(p)),
        r.1 == (views(args@).contains("-r"@) || views(args@).contains("-rf"@)),
{
    let ghost a = views(args@);
    let ghost keep = |p: Seq<char>| !is_option(p);
    let mut paths: Vec<String> = Vec::new();
    let mut rec = false;
    let mut i: usize = 0;
    proof {
        assert(a.take(0) =~= Seq::<Seq<char>>::empty());
        assert(a.take(0).filter(keep) =~= Seq::<Seq<char>>::empty());
    }
    while i < args.len()
        invariant
            i <= args.len(),
            a == views(args@),
            keep == (|p: Seq<char>| !is_option(p)),
            views(paths@) == a.take(i as int).filter(keep),
            rec == exists|k: int| 0 <= k < i && (a[k] == "-r"@ || a[k] == "-rf"@),
        decreases args.len() - i,
    {
        let arg = args[i].as_str();
        assert(a[i as int] == arg@);
        let cs = chars_of(arg);
        proof {
            assert(a.take(i + 1) =~= a.take(i as int).push(arg@));
            a.take(i as int).lemma_filter_push(arg@, keep);
        }
        if str_eq(arg, "-r") || str_eq(arg, "-rf") {
            rec = true;
        }
        if !(cs.len() > 0 && cs[0] == '-') {
            let ghost p0 = views(paths@);
            paths.push(args[i].clone());
            assert(views(paths@) =~= p0.push(arg@));
        }
        i = i + 1;
    }
    assert(a.take(args.len() as int) =~= a);
    proof {
        if a.contains("-r"@) {
            let k = choose|k: int| 0 <= k < a.len() && a[k] == "-r"@;
            assert(0 <= k < i && (a[k] == "-r"@ || a[k] == "-rf"@));
        }
        if a.contains("-rf"@) {
            let k = choose|k: int| 0 <= k < a.len() && a[k] == "-rf"@;
            assert(0 <= k < i && (a[k] == "-r"@ || a[k] == "-rf"@));
        }
    }
    (paths, rec)
}

/// The two commands that `mv src dst` runs: a copy, then the removal of
/// the source.
pub fn mv_plan(src: &str, dst: &str) -> (r: (Vec<String>, Vec<String>))
    ensures
        views(r.0@) == seq!["cp"@, src@, dst@],
        views(r.1@) == seq!["rm"@, src@],
{
    let mut copy: Vec<String> = Vec::new();
    copy.push(owned("cp"));
    copy.push(owned(src));
    copy.push(owned(dst));
    let mut remove: Vec<String> = Vec::new();
    remove.push(owned("rm"));
    remove.push(owned(src));
    assert(views(copy@) =~= seq!["cp"@, src@, dst@]);
    assert(views(remove@) =~= seq!["rm"@, src@]);
    (copy, remove)
}

/// `s` without whitespace at its start.
pub open spec fn trim_start(s: Seq<char>) -> Seq<char>
    decreases s.len(),
{
    if s.len() > 0 && is_unicode_whitespace(s[0]) { trim_start(s.drop_first()) } else { s }
}

/// `s` without whitespace at its end.
pub open spec fn trim_end(s: Seq<char>) -> Seq<char>
    decreases s.len(),
{
    if s.len() > 0 && is_unicode_whitespace(s.last()) { trim_end(s.drop_last()) } else { s }
}

/// `s` without whitespace at either end, like `str::trim`.
pub open spec fn trim(s: Seq<char>) -> Seq<char> {
    trim_end(trim_start(s))
}

/// `s` without whitespace at either end (see `trim`).
pub fn trim_text(s: &str) -> (r: String)
    ensures
        r@ == trim(s@),
{
    let cs = chars_of(s);
    let mut a: usize = 0;
    assert(cs@.skip(0) =~= cs@);
    while a < cs.len() && unicode_whitespace(cs[a])
        invariant
            a <= cs.len(),
            cs@ == s@,
            trim_start(s@) == trim_start(cs@.skip(a as int)),
        decreases cs.len() - a,
    {
        assert(cs@.skip(a as int).drop_first() =~= cs@.skip(a + 1));
        a = a + 1;
    }
    assert(trim_start(s@) == cs@.skip(a as int));
    let mut b: usize = cs.len();
    assert(cs@.subrange(a as int, b as int) =~= cs@.skip(a as int));
    while b > a && unicode_whitespace(cs[b - 1])
        invariant
            a <= b <= cs.len(),
            cs@ == s@,
            trim(s@) == trim_end(cs@.subrange(a as int, b as int)),
        decreases b - a,
    {
        assert(cs@.subrange(a as int, b as int).drop_last() =~= cs@.subrange(a as int, b - 1));
        b = b - 1;
    }
    string_of(&cs, a, b)
}

/// The arguments of one stage of a pipeline: the words of the trimmed
/// stage, then the previous stage's output when there was any.
pub open spec fn stage_args(stage: Seq<char>, input: Seq<char>) -> Seq<Seq<char>> {
    let words = args_of(trim(stage));
    if input.len() > 0 { words.push(input) } else { words }
}

/// The first stage from `i` on whose arguments (with `input`) are not empty.
pub open spec fn next_stage(stages: Seq<Seq<char>>, i: int, input: Seq<char>) -> int
    decreases stages.len() - i,
{
    if i < 0 || i >= stages.len() {
        stages.len() as int
    } else if stage_args(stages[i], input).len() > 0 {
        i
    } else {
        next_stage(stages, i + 1, input)
    }
}

pub proof fn lemma_next_stage(stages: Seq<Seq<char>>, i: int, input: Seq<char>)
    requires
        0 <= i <= stages.len(),
    ensures
        i <= next_stage(stages, i, input) <= stages.len(),
    decreases stages.len() - i,
{
    if i < stages.len() && stage_args(stages[i], input).len() == 0 {
        lemma_next_stage(stages, i + 1, input);
    }
}

/// A line of plain words: no quote, no `|`, and no whitespace but spaces.
pub open spec fn plain_line(s: Seq<char>) -> bool {
    forall|i: int| 0 <= i < s.len() ==> #[trigger] s[i] != '"' && s[i] != '|' && (is_unicode_whitespace(s[i]) ==> s[i] == ' ')
}

/// The words of a line: its non-empty pieces between spaces.
pub open spec fn words(s: Seq<char>) -> Seq<Seq<char>> {
    split_on(s, ' ').filter(|w: Seq<char>| w.len() > 0)
}

/// On a plain line, the argument reader is at the pieces between spaces.
proof fn lemma_scan_words(s: Seq<char>)
    requires
        plain_line(s),
    ensures
        ({
            let p = split_on(s, ' ');
            scan_args(s) == (p.drop_last().filter(|w: Seq<char>| w.len() > 0), p.last(), false, p.last().len() > 0)
        }),
    decreases s.len(),
{
    let ne = |w: Seq<char>| w.len() > 0;
    lemma_split_on_len(s, ' ');
    if s.len() == 0 {
        assert(split_on(s, ' ').drop_last() =~= Seq::<Seq<char>>::empty());
        assert(Seq::<Seq<char>>::empty().filter(ne) =~= Seq::<Seq<char>>::empty());
    } else {
        let d = s.drop_last();
        assert(plain_line(d)) by {
            assert forall|i: int| 0 <= i < d.len() implies #[trigger] d[i] != '"' && d[i] != '|' && (is_unicode_whitespace(d[i]) ==> d[i] == ' ') by {
                assert(d[i] == s[i]);
            }
        }
        lemma_scan_words(d);
        lemma_split_on_len(d, ' ');
        let q = split_on(d, ' ');
        let c = s.last();
        assert(c == s[s.len() - 1]);
        assert(is_unicode_whitespace(' '));
        if c == ' ' {
            assert(split_on(s, ' ') == q.push(Seq::<char>::empty()));
            assert(q.push(Seq::<char>::empty()).drop_last() =~= q);
            assert(q.drop_last().push(q.last()) =~= q);
            q.drop_last().lemma_filter_push(q.last(), ne);
        } else {
            let p = q.update(q.len() - 1, q.last().push(c));
            assert(split_on(s, ' ') == p);
            assert(p.drop_last() =~= q.drop_last());
        }
    }
}

/// On a plain line, the arguments are the words.
proof fn lemma_args_words(s: Seq<char>)
    requires
        plain_line(s),
    ensures
        args_of(s) == words(s),
{
    let ne = |w: Seq<char>| w.len() > 0;
    lemma_scan_words(s);
    lemma_split_on_len(s, ' ');
    let p = split_on(s, ' ');
    assert(p.drop_last().push(p.last()) =~= p);
    p.drop_last().lemma_filter_push(p.last(), ne);
}

/// A leading space changes no word.
proof fn lemma_words_front(t: Seq<char>)
    ensures
        words(seq![' '] + t) == words(t),
{
    let ne = |w: Seq<char>| w.len() > 0;
    lemma_split_concat(Seq::<char>::empty(), t, ' ');
    assert(Seq::<char>::empty() + seq![' '] + t =~= seq![' '] + t);
    assert(split_on(Seq::<char>::empty(), ' ') == seq![Seq::<char>::empty()]);
    split_on(t, ' ').lemma_filter_prepend(Seq::<char>::empty(), ne);
}

/// A trailing space changes no word.
proof fn lemma_words_back(t: Seq<char>)
    ensures
        words(t.push(' ')) == words(t),
{
    let ne = |w: Seq<char>| w.len() > 0;
    assert(t.push(' ').drop_last() =~= t);
    split_on(t, ' ').lemma_filter_push(Seq::<char>::empty(), ne);
}

proof fn lemma_plain_sub(s: Seq<char>, a: int, b: int)
    requires
        plain_line(s),
        0 <= a <= b <= s.len(),
    ensures
        plain_line(s.subrange(a, b)),
{
    assert forall|i: int| 0 <= i < b - a implies #[trigger] s.subrange(a, b)[i] != '"' && s.subrange(a, b)[i] != '|'
        && (is_unicode_whitespace(s.subrange(a, b)[i]) ==> s.subrange(a, b)[i] == ' ') by {
        assert(s.subrange(a, b)[i] == s[a + i]);
    }
}

proof fn lemma_trim_start_words(s: Seq<char>)
    requires
        plain_line(s),
    ensures
        plain_line(trim_start(s)),
        words(trim_start(s)) == words(s),
    decreases s.len(),
{
    if s.len() > 0 && is_unicode_whitespace(s[0]) {
        assert(s[0] == ' ');
        lemma_plain_sub(s, 1, s.len() as int);
        assert(s.drop_first() =~= s.subrange(1, s.len() as int));
        lemma_trim_start_words(s.drop_first());
        lemma_words_front(s.drop_first());
        assert(seq![' '] + s.drop_first() =~= s);
    }
}

proof fn lemma_trim_end_words(s: Seq<char>)
    requires
        plain_line(s),
    ensures
        words(trim_end(s)) == words(s),
    decreases s.len(),
{
    if s.len() > 0 && is_unicode_whitespace(s.last()) {
        assert(s.last() == s[s.len() - 1]);
        assert(s.last() == ' ');
        lemma_plain_sub(s, 0, s.len() - 1);
        assert(s.drop_last() =~= s.subrange(0, s.len() - 1));
        lemma_trim_end_words(s.drop_last());
        lemma_words_back(s.drop_last());
        assert(s.drop_last().push(' ') =~= s);
    }
}

proof fn lemma_trim_end_plain(s: Seq<char>)
    requires
        plain_line(s),
    ensures
        plain_line(trim_end(s)),
    decreases s.len(),
{
    if s.len() > 0 && is_unicode_whitespace(s.last()) {
        lemma_plain_sub(s, 0, s.len() - 1);
        assert(s.drop_last() =~= s.subrange(0, s.len() - 1));
        lemma_trim_end_plain(s.drop_last());
    }
}

/// A stage that is a plain line gives its words, then the previous output
/// when there was any.
pub proof fn lemma_stage_words(stage: Seq<char>, input: Seq<char>)
    requires
        plain_line(stage),
    ensures
        stage_args(stage, input) == if input.len() > 0 { words(stage).push(input) } else { words(stage) },
{
    lemma_trim_start_words(stage);
    lemma_trim_end_plain(trim_start(stage));
    lemma_trim_end_words(trim_start(stage));
    lemma_args_words(trim(stage));
}

/// A line without `|` is one stage, and its one command is its words: a
/// pipe-free plain line runs exactly as its space-separated words (and runs
/// nothing when it has none).
pub proof fn lemma_single_stage(line: Seq<char>)
    requires
        plain_line(line),
    ensures
        split_on(line, '|') == seq![line],
        stage_args(line, Seq::empty()) == words(line),
        next_stage(seq![line], 0, Seq::empty()) == if words(line).len() > 0 { 0int } else { 1int },
{
    reveal_with_fuel(next_stage, 3);
    assert(!line.contains('|')) by {
        if line.contains('|') {
            let k = choose|k: int| 0 <= k < line.len() && line[k] == '|';
            assert(line[k] != '|');
        }
    }
    lemma_split_plain(line, '|');
    lemma_stage_words(line, Seq::empty());
}

/// Piping: `a | b` is two stages, and the command of `b` is its words with
/// the output of `a` (when not empty) as one last argument.
pub proof fn lemma_pipe(a: Seq<char>, b: Seq<char>, out: Seq<char>)
    requires
        plain_line(a),
        plain_line(b),
    ensures
        split_on(a + seq!['|'] + b, '|') == seq![a, b],
        next_stage(seq![a, b], 0, Seq::empty()) == if words(a).len() > 0 { 0int } else if words(b).len() > 0 { 1int } else { 2int },
        stage_args(b, out) == if out.len() > 0 { words(b).push(out) } else { words(b) },
        next_stage(seq![a, b], 1, out) == if out.len() > 0 || words(b).len() > 0 { 1int } else { 2int },
{
    reveal_with_fuel(next_stage, 4);
    lemma_stage_words(a, Seq::empty());
    lemma_stage_words(b, Seq::empty());
    lemma_single_stage(a);
    lemma_single_stage(b);
    lemma_split_concat(a, b, '|');
    assert(seq![a] + seq![b] =~= seq![a, b]);
    lemma_stage_words(b, out);
}

/// Where a pipeline stands: its stages (the pieces of the line between
/// `|`), the next one to look at, the output of the last command run, and
/// what the pipeline prints.
pub struct PipelineView {
    pub stages: Seq<Seq<char>>,
    pub next: nat,
    pub input: Seq<char>,
    pub output: Seq<char>,
}

/// A command line being run stage by stage: the host asks for the next
/// command, runs it, and feeds back its output.
pub struct Pipeline {
    stages: Vec<String>,
    next: usize,
    input: String,
    output: String,
}

impl View for Pipeline {
    type V = PipelineView;

    closed spec fn view(&self) -> PipelineView {
        PipelineView { stages: views(self.stages@), next: self.next as nat, input: self.input@, output: self.output@ }
    }
}

impl Pipeline {
    pub closed spec fn wf(&self) -> bool {
        self.next <= self.stages.len()
    }

    /// The pipeline of `line`: its pieces between `|`, none run yet.
    pub fn new(line: &str) -> (r: Pipeline)
        ensures
            r.wf(),
            r@ == (PipelineView { stages: split_on(line@, '|'), next: 0, input: Seq::empty(), output: Seq::empty() }),
    {
        let cs = chars_of(line);
        let mut stages: Vec<String> = Vec::new();
        let mut start: usize = 0;
        let mut i: usize = 0;
        proof {
            assert(cs@.take(0) =~= Seq::<char>::empty());
            assert(views(stages@).push(cs@.subrange(0, 0)) =~= seq![Seq::<char>::empty()]);
        }
        while i < cs.len()
            invariant
                start <= i <= cs.len(),
                cs@ == line@,
                split_on(cs@.take(i as int), '|') == views(stages@).push(cs@.subrange(start as int, i as int)),
            decreases cs.len() - i,
        {
            assert(cs@.take(i + 1).drop_last() =~= cs@.take(i as int));
            assert(cs@.take(i + 1).last() == cs@[i as int]);
            if cs[i] == '|' {
                let piece = string_of(&cs, start, i);
                let ghost s0 = views(stages@);
                stages.push(piece);
                assert(views(stages@) =~= s0.push(piece@));
                start = i + 1;
                assert(cs@.subrange(start as int, i + 1) =~= Seq::<char>::empty());
                assert(views(stages@).push(cs@.subrange(start as int, i + 1)) =~= s0.push(piece@).push(Seq::<char>::empty()));
            } else {
                let ghost p = views(stages@).push(cs@.subrange(start as int, i as int));
                assert(cs@.subrange(start as int, i + 1) =~= cs@.subrange(start as int, i as int).push(cs@[i as int]));
                assert(p.update(p.len() - 1, p.last().push(cs@[i as int])) =~= views(stages@).push(cs@.subrange(start as int, i + 1)));
            }
            i = i + 1;
        }
        assert(cs@.take(cs.len() as int) =~= cs@);
        let last = string_of(&cs, start, cs.len());
        let ghost s0 = views(stages@);
        stages.push(last);
        assert(views(stages@) =~= s0.push(last@));
        Pipeline { stages, next: 0, input: String::new(), output: String::new() }
    }

    /// The next command to run: the arguments of the next stage that has
    /// any (see `stage_args`); `None` when no stage is left.
    pub fn next_command(&mut self) -> (r: Option<Vec<String>>)
        requires
            old(self).wf(),
        ensures
            final(self).wf(),
            ({
                let v = old(self)@;
                let j = next_stage(v.stages, v.next as int, v.input);
                if j < v.stages.len() {
                    &&& r matches Some(a) && views(a@) == stage_args(v.stages[j], v.input)
                    &&& final(self)@ == (PipelineView { next: (j + 1) as nat, ..v })
                } else {
                    &&& r is None
                    &&& final(self)@ == (PipelineView { next: v.stages.len(), ..v })
                }
            }),
    {
        let ghost v = self@;
        proof {
            lemma_next_stage(v.stages, v.next as int, v.input);
        }
        while self.next < self.stages.len()
            invariant
                self.wf(),
                v == old(self)@,
                self@.stages == v.stages,
                self@.input == v.input,
                self@.output == v.output,
                v.next <= self.next,
                next_stage(v.stages, v.next as int, v.input) == next_stage(v.stages, self.next as int, v.input),
            decreases self.stages.len() - self.next,
        {
            let stage = trim_text(self.stages[self.next].as_str());
            let mut args = parse_args(stage.as_str());
            if !self.input.as_str().is_empty() {
                let ghost a0 = views(args@);
                args.push(self.input.clone());
                assert(views(args@) =~= a0.push(self.input@));
            }
            let ghost n = self.next as int;
            assert(views(args@) == stage_args(v.stages[n], v.input));
            assert(views(args@).len() == args.len());
            self.next = self.next + 1;
            if args.len() > 0 {
                assert(next_stage(v.stages, n, v.input) == n);
                assert(self@ == (PipelineView { next: (n + 1) as nat, ..v }));
                return Some(args);
            }
            assert(next_stage(v.stages, n, v.input) == next_stage(v.stages, n + 1, v.input));
        }
        None
    }

    /// Records the output of the command that `next_command` gave: it is
    /// the next stage's input, and what the pipeline prints when that
    /// command came from the last stage.
    pub fn feed(&mut self, result: String)
        requires
            old(self).wf(),
        ensures
            final(self).wf(),
            final(self)@ == (PipelineView {
                input: result@,
                output: if old(self)@.next == old(self)@.stages.len() { result@ } else { old(self)@.output },
                ..old(self)@
            }),
    {
        if self.next == self.stages.len() {
            self.output = result.clone();
        }
        self.input = result;
    }

    /// What the pipeline prints.
    pub fn output(&self) -> (r: String)
        ensures
            r@ == self@.output,
    {
        self.output.clone()
    }
}

} // verus!
