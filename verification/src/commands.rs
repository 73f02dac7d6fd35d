//! The shell's commands over the virtual file system.

use vstd::prelude::*;
use crate::text::{chars_of, owned, append, str_eq, join, views, join_strings, contains_seq, contains_chars};
use crate::text::{is_unicode_whitespace, unicode_whitespace, string_from, starts_with_seq};
use crate::text::{decimal, decimal_string, parse_u64, parse_u64_spec, lemma_decimal_round_trip};
use crate::path::{split_on, resolve, normalize, has_prefix, lemma_split_concat, lemma_split_plain};
use crate::vfs::{Vfs, VfsView, listed, size_of, written, write_result, put, time_of, readable};
use crate::bytes::{utf8_lossy, decode_lossy, encode_text};
use crate::pattern::{regex_error_text, regex_match, regex_error, regex_is_match};
use vstd::utf8::{valid_utf8, decode_utf8};
use vstd::utf8::encode_utf8;

verus! {

/// The state of the argument reader after the characters `s`: the finished
/// arguments, the one being read, whether a quote is open, and whether the
/// current argument has begun (a pair of quotes begins an empty one).
pub open spec fn scan_args(s: Seq<char>) -> (Seq<Seq<char>>, Seq<char>, bool, bool)
    decreases s.len(),
{
    if s.len() == 0 {
        (Seq::empty(), Seq::empty(), false, false)
    } else {
        let (done, cur, quoted, begun) = scan_args(s.drop_last());
        let c = s.last();
        if c == '"' {
            (done, cur, !quoted, true)
        } else if is_unicode_whitespace(c) && !quoted {
            if begun { (done.push(cur), Seq::empty(), quoted, false) } else { (done, cur, quoted, begun) }
        } else {
            (done, cur.push(c), quoted, true)
        }
    }
}

/// The arguments of a command line: words separated by whitespace, where a
/// double quote opens or closes a part in which whitespace is kept; the
/// quotes themselves are dropped.
pub open spec fn args_of(s: Seq<char>) -> Seq<Seq<char>> {
    let (done, cur, quoted, begun) = scan_args(s);
    if begun { done.push(cur) } else { done }
}

/// A word that the argument reader keeps as one argument: not empty, with
/// no whitespace and no double quote.
pub open spec fn plain_word(w: Seq<char>) -> bool {
    w.len() > 0 && forall|i: int| 0 <= i < w.len() ==> !is_unicode_whitespace(#[trigger] w[i]) && w[i] != '"'
}

proof fn lemma_scan_plain(s: Seq<char>, w: Seq<char>)
    requires
        forall|i: int| 0 <= i < w.len() ==> !is_unicode_whitespace(#[trigger] w[i]) && w[i] != '"',
        !scan_args(s).2,
    ensures
        w.len() > 0 ==> scan_args(s + w) == (scan_args(s).0, scan_args(s).1 + w, false, true),
        w.len() == 0 ==> scan_args(s + w) == scan_args(s),
    decreases w.len(),
{
    if w.len() == 0 {
        assert(s + w =~= s);
    } else {
        let v = w.drop_last();
        assert forall|i: int| 0 <= i < v.len() implies !is_unicode_whitespace(#[trigger] v[i]) && v[i] != '"' by {
            assert(v[i] == w[i]);
        }
        lemma_scan_plain(s, v);
        assert((s + w).drop_last() =~= s + v);
        assert((s + w).last() == w[w.len() - 1]);
        if v.len() == 0 {
            assert(scan_args(s).1 + w =~= scan_args(s).1.push(w.last()));
        } else {
            assert(scan_args(s).1 + w =~= (scan_args(s).1 + v).push(w.last()));
        }
    }
}

/// Plain words joined by single spaces read back as those words.
pub proof fn lemma_args_of_join(ws: Seq<Seq<char>>)
    requires
        forall|i: int| 0 <= i < ws.len() ==> plain_word(#[trigger] ws[i]),
    ensures
        args_of(join(ws, " "@)) == ws,
        ws.len() > 0 ==> scan_args(join(ws, " "@)) == (ws.drop_last(), ws.last(), false, true),
    decreases ws.len(),
{
    reveal_strlit(" ");
    if ws.len() == 0 {
        assert(join(ws, " "@) =~= Seq::<char>::empty());
    } else if ws.len() == 1 {
        let w = ws[0];
        assert(plain_word(w));
        assert(Seq::<char>::empty() + w =~= w);
        lemma_scan_plain(Seq::<char>::empty(), w);
        assert(Seq::<char>::empty() + w =~= w);
        assert(ws.drop_last() =~= Seq::<Seq<char>>::empty());
        assert(seq![w] =~= ws);
    } else {
        let init = ws.drop_last();
        assert forall|i: int| 0 <= i < init.len() implies plain_word(#[trigger] init[i]) by {
            assert(init[i] == ws[i]);
        }
        lemma_args_of_join(init);
        let x = join(init, " "@);
        let xs = x + " "@;
        assert(xs.drop_last() =~= x);
        assert(xs.last() == ' ');
        assert(is_unicode_whitespace(' '));
        assert(init.drop_last().push(init.last()) =~= init);
        assert(plain_word(ws[ws.len() - 1]));
        lemma_scan_plain(xs, ws.last());
        assert(Seq::<char>::empty() + ws.last() =~= ws.last());
        assert(join(ws, " "@) == xs + ws.last());
        assert(init.push(ws.last()) =~= ws);
    }
}

proof fn lemma_scan_quoted(s: Seq<char>, q: Seq<char>)
    requires
        scan_args(s).2,
        scan_args(s).3,
        !q.contains('"'),
    ensures
        scan_args(s + q) == (scan_args(s).0, scan_args(s).1 + q, true, true),
    decreases q.len(),
{
    if q.len() == 0 {
        assert(s + q =~= s);
        assert(scan_args(s).1 + q =~= scan_args(s).1);
    } else {
        let d = q.drop_last();
        assert(!d.contains('"')) by {
            if d.contains('"') {
                let k = choose|k: int| 0 <= k < d.len() && d[k] == '"';
                assert(q[k] == '"');
            }
        }
        lemma_scan_quoted(s, d);
        assert((s + q).drop_last() =~= s + d);
        assert((s + q).last() == q.last());
        assert(q.last() != '"');
        assert((scan_args(s).1 + d).push(q.last()) =~= scan_args(s).1 + q);
    }
}

/// A part between double quotes is one argument, whitespace and all:
/// plain words, a space and a quoted part read as the words, then the part.
pub proof fn lemma_args_quoted(ws: Seq<Seq<char>>, q: Seq<char>)
    requires
        forall|i: int| 0 <= i < ws.len() ==> plain_word(#[trigger] ws[i]),
        !q.contains('"'),
    ensures
        args_of(join(ws, " "@) + seq![' ', '"'] + q + seq!['"']) == ws.push(q),
{
    lemma_args_of_join(ws);
    let s0 = join(ws, " "@);
    let s1 = s0.push(' ');
    let s2 = s1.push('"');
    assert(is_unicode_whitespace(' '));
    assert(s1.drop_last() =~= s0);
    assert(s2.drop_last() =~= s1);
    if ws.len() > 0 {
        assert(ws.drop_last().push(ws.last()) =~= ws);
        assert(scan_args(s1) == (ws, Seq::<char>::empty(), false, false));
    } else {
        assert(s0 =~= Seq::<char>::empty());
        assert(scan_args(s0) == (Seq::<Seq<char>>::empty(), Seq::<char>::empty(), false, false));
        assert(scan_args(s1) == (ws, Seq::<char>::empty(), false, false));
    }
    assert(scan_args(s2) == (ws, Seq::<char>::empty(), true, true));
    lemma_scan_quoted(s2, q);
    let s3 = s2 + q;
    let s4 = s3.push('"');
    assert(s4.drop_last() =~= s3);
    assert(Seq::<char>::empty() + q =~= q);
    assert(s0 + seq![' ', '"'] + q + seq!['"'] =~= s4);
}

/// Splits a command line into its arguments (see `args_of`).
pub fn parse_args(line: &str) -> (r: Vec<String>)
    ensures
        views(r@) == args_of(line@),
{
    let cs = chars_of(line);
    let mut done: Vec<String> = Vec::new();
    let mut cur: Vec<char> = Vec::new();
    let mut quoted = false;
    let mut begun = false;
    let mut i: usize = 0;
    proof {
        assert(cs@.take(0) =~= Seq::<char>::empty());
    }
    while i < cs.len()
        invariant
            i <= cs.len(),
            cs@ == line@,
            scan_args(cs@.take(i as int)) == (views(done@), cur@, quoted, begun),
        decreases cs.len() - i,
    {
        let c = cs[i];
        let ghost prev = scan_args(cs@.take(i as int));
        assert(cs@.take(i + 1).drop_last() =~= cs@.take(i as int));
        assert(cs@.take(i + 1).last() == c);
        assert(scan_args(cs@.take(i + 1)) == (if c == '"' {
            (prev.0, prev.1, !prev.2, true)
        } else if is_unicode_whitespace(c) && !prev.2 {
            if prev.3 { (prev.0.push(prev.1), Seq::<char>::empty(), prev.2, false) } else { prev }
        } else {
            (prev.0, prev.1.push(c), prev.2, true)
        }));
        if c == '"' {
            quoted = !quoted;
            begun = true;
        } else if unicode_whitespace(c) && !quoted {
            if begun {
                let w = string_from(&cur);
                let ghost d0 = views(done@);
                done.push(w);
                cur = Vec::new();
                begun = false;
                assert(views(done@) =~= d0.push(w@));
                assert(cur@ =~= Seq::<char>::empty());
            }
        } else {
            cur.push(c);
            begun = true;
        }
        i = i + 1;
    }
    assert(cs@.take(cs.len() as int) =~= cs@);
    if begun {
        let w = string_from(&cur);
        let ghost d0 = views(done@);
        done.push(w);
        assert(views(done@) =~= d0.push(w@));
    }
    done
}

/// A line without its final carriage return.
pub open spec fn strip_cr(l: Seq<char>) -> Seq<char> {
    if l.len() > 0 && l.last() == '\r' { l.drop_last() } else { l }
}

/// The lines of `s`, as `str::lines` yields them: split at `\n`, each line
/// ended by `\n` loses a final `\r`, and an empty last piece is no line.
pub open spec fn text_lines(s: Seq<char>) -> Seq<Seq<char>> {
    let pieces = split_on(s, '\n');
    let ended = pieces.drop_last().map_values(|l: Seq<char>| strip_cr(l));
    if pieces.last().len() == 0 { ended } else { ended.push(pieces.last()) }
}

proof fn lemma_split_joined_lines(ls: Seq<Seq<char>>)
    requires
        ls.len() > 0,
        forall|i: int| 0 <= i < ls.len() ==> !(#[trigger] ls[i]).contains('\n'),
    ensures
        split_on(join(ls, "\n"@), '\n') == ls,
    decreases ls.len(),
{
    reveal_strlit("\n");
    if ls.len() == 1 {
        lemma_split_plain(ls[0], '\n');
        assert(seq![ls[0]] =~= ls);
    } else {
        let d = ls.drop_last();
        assert forall|i: int| 0 <= i < d.len() implies !(#[trigger] d[i]).contains('\n') by {
            assert(d[i] == ls[i]);
        }
        lemma_split_joined_lines(d);
        assert(join(ls, "\n"@) == join(d, "\n"@) + seq!['\n'] + ls.last());
        lemma_split_concat(join(d, "\n"@), ls.last(), '\n');
        lemma_split_plain(ls.last(), '\n');
        assert(d + seq![ls.last()] =~= ls);
    }
}

/// Lines joined by line feeds read back as the same lines, with or without
/// a final line feed, when no line holds a line feed or ends in a carriage
/// return and the last line is not empty.
pub proof fn lemma_lines_of_joined(ls: Seq<Seq<char>>)
    requires
        ls.len() > 0,
        ls.last().len() > 0,
        forall|i: int| 0 <= i < ls.len() ==> !(#[trigger] ls[i]).contains('\n') && strip_cr(ls[i]) == ls[i],
    ensures
        text_lines(join(ls, "\n"@)) == ls,
        text_lines(join(ls, "\n"@) + "\n"@) == ls,
{
    reveal_strlit("\n");
    lemma_split_joined_lines(ls);
    let d = ls.drop_last();
    assert(d.map_values(|l: Seq<char>| strip_cr(l)) =~= d);
    assert(d.push(ls.last()) =~= ls);
    let j = join(ls, "\n"@);
    assert(j + "\n"@ =~= j + seq!['\n'] + Seq::<char>::empty());
    lemma_split_concat(j, Seq::<char>::empty(), '\n');
    assert(split_on(Seq::<char>::empty(), '\n') == seq![Seq::<char>::empty()]);
    let p = split_on(j + "\n"@, '\n');
    assert(p == ls + seq![Seq::<char>::empty()]);
    assert(p.drop_last() =~= ls);
    assert(ls.map_values(|l: Seq<char>| strip_cr(l)) =~= ls);
}

/// Lines ended by `\r\n` read back without the carriage returns.
pub proof fn lemma_crlf_lines(ls: Seq<Seq<char>>)
    requires
        ls.len() > 0,
        forall|i: int| 0 <= i < ls.len() ==> !(#[trigger] ls[i]).contains('\n'),
    ensures
        text_lines(join(ls.map_values(|l: Seq<char>| l.push('\r')), "\n"@) + "\n"@) == ls,
{
    reveal_strlit("\n");
    let cr = ls.map_values(|l: Seq<char>| l.push('\r'));
    assert forall|i: int| 0 <= i < cr.len() implies !(#[trigger] cr[i]).contains('\n') by {
        assert(cr[i] == ls[i].push('\r'));
        if cr[i].contains('\n') {
            let k = choose|k: int| 0 <= k < cr[i].len() && cr[i][k] == '\n';
            assert(k < ls[i].len());
            assert(ls[i][k] == '\n');
        }
    }
    lemma_split_joined_lines(cr);
    let j = join(cr, "\n"@);
    assert(j + "\n"@ =~= j + seq!['\n'] + Seq::<char>::empty());
    lemma_split_concat(j, Seq::<char>::empty(), '\n');
    assert(split_on(Seq::<char>::empty(), '\n') == seq![Seq::<char>::empty()]);
    let p = split_on(j + "\n"@, '\n');
    assert(p == cr + seq![Seq::<char>::empty()]);
    assert(p.drop_last() =~= cr);
    assert forall|i: int| 0 <= i < cr.len() implies strip_cr(#[trigger] cr[i]) == ls[i] by {
        assert(cr[i].drop_last() =~= ls[i]);
    }
    assert(cr.map_values(|l: Seq<char>| strip_cr(l)) =~= ls);
}

/// The lines of `s` (see `text_lines`).
pub fn lines(s: &str) -> (r: Vec<String>)
    ensures
        views(r@) == text_lines(s@),
{
    let cs = chars_of(s);
    let mut out: Vec<String> = Vec::new();
    let mut cur: Vec<char> = Vec::new();
    let ghost mut done: Seq<Seq<char>> = Seq::empty();
    let mut i: usize = 0;
    proof {
        assert(cs@.take(0) =~= Seq::<char>::empty());
        assert(done.push(cur@) =~= seq![Seq::<char>::empty()]);
    }
    while i < cs.len()
        invariant
            i <= cs.len(),
            cs@ == s@,
            split_on(cs@.take(i as int), '\n') == done.push(cur@),
            views(out@) == done.map_values(|l: Seq<char>| strip_cr(l)),
        decreases cs.len() - i,
    {
        let c = cs[i];
        assert(cs@.take(i + 1).drop_last() =~= cs@.take(i as int));
        assert(cs@.take(i + 1).last() == c);
        if c == '\n' {
            let ghost piece = cur@;
            let n = cur.len();
            let end = if n > 0 && cur[n - 1] == '\r' { n - 1 } else { n };
            let line = crate::text::string_of(&cur, 0, end);
            proof {
                assert(line@ =~= strip_cr(piece));
                assert(done.push(piece).drop_last() =~= done);
                assert(split_on(cs@.take(i + 1), '\n') =~= done.push(piece).push(Seq::<char>::empty()));
            }
            let ghost o0 = views(out@);
            out.push(line);
            cur = Vec::new();
            proof {
                assert(views(out@) =~= o0.push(strip_cr(piece)));
                assert(done.push(piece).map_values(|l: Seq<char>| strip_cr(l)) =~= done.map_values(|l: Seq<char>| strip_cr(l)).push(strip_cr(piece)));
                done = done.push(piece);
                assert(cur@ =~= Seq::<char>::empty());
            }
        } else {
            let ghost before = cur@;
            cur.push(c);
            proof {
                let p = done.push(before);
                assert(p.update(p.len() - 1, p.last().push(c)) =~= done.push(cur@));
            }
        }
        i = i + 1;
    }
    proof {
        assert(cs@.take(cs.len() as int) =~= cs@);
        assert(done.push(cur@).drop_last() =~= done);
        assert(done.push(cur@).last() == cur@);
    }
    if cur.len() > 0 {
        let last = string_from(&cur);
        let ghost o0 = views(out@);
        out.push(last);
        assert(views(out@) =~= o0.push(last@));
    }
    out
}

/// The text of a file's bytes: their decoding when they are valid UTF-8,
/// else what `String::from_utf8_lossy` makes of them.
pub open spec fn file_text(b: Seq<u8>) -> Seq<char> {
    if valid_utf8(b) { decode_utf8(b) } else { utf8_lossy(b) }
}

/// The text of a file's bytes (see `file_text`).
pub fn text_of_bytes(b: &Vec<u8>) -> (r: String)
    ensures
        r@ == file_text(b@),
{
    decode_lossy(b.as_slice())
}

/// The lines of `text` that the regular expression `pattern` matches, in order.
pub open spec fn matching_lines(text: Seq<char>, pattern: Seq<char>) -> Seq<Seq<char>> {
    text_lines(text).filter(|l: Seq<char>| regex_match(pattern, l))
}

/// `grep` keeps exactly the lines of the text that the pattern matches:
/// each line it keeps is a line of the text that the pattern matches, and
/// each line of the text that the pattern matches is kept.
pub proof fn lemma_grep_keeps_matches(text: Seq<char>, pattern: Seq<char>)
    ensures
        matching_lines(text, pattern).len() <= text_lines(text).len(),
        forall|k: int| 0 <= k < matching_lines(text, pattern).len() ==> {
            &&& regex_match(pattern, #[trigger] matching_lines(text, pattern)[k])
            &&& text_lines(text).contains(matching_lines(text, pattern)[k])
        },
        forall|k: int| 0 <= k < text_lines(text).len() && regex_match(pattern, #[trigger] text_lines(text)[k])
            ==> matching_lines(text, pattern).contains(text_lines(text)[k]),
{
    let keep = |l: Seq<char>| regex_match(pattern, l);
    let ls = text_lines(text);
    ls.lemma_filter_len(keep);
    assert forall|k: int| 0 <= k < matching_lines(text, pattern).len() implies {
        &&& regex_match(pattern, #[trigger] matching_lines(text, pattern)[k])
        &&& ls.contains(matching_lines(text, pattern)[k])
    } by {
        ls.lemma_filter_pred(keep, k);
        assert(ls.filter(keep).contains(ls.filter(keep)[k]));
        ls.lemma_filter_contains_rev(keep, ls.filter(keep)[k]);
    }
    assert forall|k: int| 0 <= k < ls.len() && regex_match(pattern, #[trigger] ls[k])
        implies matching_lines(text, pattern).contains(ls[k]) by {
        ls.lemma_filter_contains(keep, k);
    }
}

/// What `grep` prints for a text: the matching lines joined by newlines,
/// or why the pattern is not a regular expression.
pub open spec fn grep_text_out(text: Seq<char>, pattern: Seq<char>) -> Seq<char> {
    match regex_error_text(pattern) {
        Some(e) => "grep: "@ + e,
        None => join(matching_lines(text, pattern), "\n"@),
    }
}

/// The lines of `text` that the regular expression `pattern` matches,
/// joined by newlines (see `grep_text_out`).
pub fn grep_text(text: &str, pattern: &str) -> (r: String)
    ensures
        r@ == grep_text_out(text@, pattern@),
{
    match regex_error(pattern) {
        Some(e) => {
            let mut m = owned("grep: ");
            append(&mut m, e.as_str());
            return m;
        },
        None => {},
    }
    let ls = lines(text);
    let ghost all = views(ls@);
    let ghost keep = |l: Seq<char>| regex_match(pattern@, l);
    let mut kept: Vec<String> = Vec::new();
    let mut i: usize = 0;
    proof {
        assert(all.take(0) =~= Seq::<Seq<char>>::empty());
        assert(all.take(0).filter(keep) =~= Seq::<Seq<char>>::empty());
    }
    while i < ls.len()
        invariant
            i <= ls.len(),
            all == views(ls@),
            regex_error_text(pattern@) is None,
            keep == (|l: Seq<char>| regex_match(pattern@, l)),
            views(kept@) == all.take(i as int).filter(keep),
        decreases ls.len() - i,
    {
        let line = &ls[i];
        let hit = regex_is_match(pattern, line.as_str());
        proof {
            assert(all.take(i + 1) =~= all.take(i as int).push(line@));
            all.take(i as int).lemma_filter_push(line@, keep);
            assert(keep(line@) == hit);
        }
        if hit {
            let ghost k0 = views(kept@);
            kept.push(line.clone());
            assert(views(kept@) =~= k0.push(line@));
        }
        i = i + 1;
    }
    assert(all.take(ls.len() as int) =~= all);
    join_strings(&kept, "\n")
}

/// What `grep` answers for the bytes of a file (or none).
pub open spec fn grep_answer(content: Option<Seq<u8>>, pattern: Seq<char>, path: Seq<char>) -> Seq<char> {
    match content {
        Some(b) => grep_text_out(file_text(b), pattern),
        None => "File not found: "@ + path,
    }
}

/// The lines of the file in memory at `path` that contain `pattern`.
pub fn grep(vfs: &Vfs, pattern: &str, path: &str) -> (r: String)
    ensures
        r@ == grep_answer(
            if readable(vfs@).dom().contains(path@) { Some(readable(vfs@)[path@]) } else { None },
            pattern@, path@),
{
    match vfs.read_file(path) {
        Some(content) => {
            let text = text_of_bytes(&content);
            grep_text(text.as_str(), pattern)
        },
        None => {
            let mut m = owned("File not found: ");
            append(&mut m, path);
            m
        },
    }
}

/// Every known path, one per line: the files in memory (each once), then
/// the stored paths that are not also in memory.
pub fn ls(vfs: &Vfs) -> (r: String)
    requires
        vfs.wf(),
    ensures
        r@ == join(vfs.listing(), "\n"@),
        vfs.memory_order().no_duplicates(),
        vfs.memory_order().to_set() == vfs@.files.dom(),
        vfs.listing().no_duplicates(),
        vfs.listing().to_set() == listed(vfs@.files, vfs@.stored),
{
    proof {
        vfs.lemma_memory_order();
    }
    let files = vfs.list_files();
    join_strings(&files, "\n")
}


/// The file in memory at `p`, if any.
pub open spec fn file_of(files: Map<Seq<char>, Seq<u8>>, p: Seq<char>) -> Option<Seq<u8>> {
    if files.dom().contains(p) { Some(files[p]) } else { None }
}

/// The working directory.
pub fn pwd(vfs: &Vfs) -> (r: String)
    ensures
        r@ == vfs@.cwd,
{
    owned(vfs.get_cwd())
}

/// Changes the working directory to `path` read from it; prints nothing.
pub fn cd(vfs: &mut Vfs, path: &str) -> (r: String)
    ensures
        old(vfs).wf() ==> final(vfs).wf(),
        final(vfs)@ == (VfsView { cwd: resolve(old(vfs)@.cwd, path@), ..old(vfs)@ }),
        r@ == Seq::<char>::empty(),
{
    vfs.set_cwd(path);
    String::new()
}

/// The index of the first `>` in `args` at or after `i` (the length if none).
pub open spec fn redirect_from(args: Seq<Seq<char>>, i: int) -> int
    decreases args.len() - i,
{
    if i < 0 || i >= args.len() {
        args.len() as int
    } else if args[i] == ">"@ {
        i
    } else {
        redirect_from(args, i + 1)
    }
}

pub proof fn lemma_redirect_from(args: Seq<Seq<char>>, i: int)
    requires
        0 <= i <= args.len(),
    ensures
        i <= redirect_from(args, i) <= args.len(),
    decreases args.len() - i,
{
    if i < args.len() && args[i] != ">"@ {
        lemma_redirect_from(args, i + 1);
    }
}

/// What `echo` leaves in the file system: with `> path`, the words before
/// `>` as the whole content of that file (devices swallow it).
pub open spec fn echo_state(v: VfsView, args: Seq<Seq<char>>) -> VfsView {
    let k = redirect_from(args, 0);
    if k + 1 < args.len() {
        let p = resolve(v.cwd, args[k + 1]);
        if starts_with_seq(p, "/dev/"@) { v } else { put(v, p, encode_utf8(join(args.take(k), " "@))) }
    } else {
        v
    }
}

proof fn lemma_no_redirect(args: Seq<Seq<char>>, i: int)
    requires
        0 <= i <= args.len(),
        !args.contains(">"@),
    ensures
        redirect_from(args, i) == args.len(),
    decreases args.len() - i,
{
    if i < args.len() {
        assert(args[i] != ">"@);
        lemma_no_redirect(args, i + 1);
    }
}

/// Without `>`, `echo` prints its words separated by single spaces and
/// leaves the file system as it was.
pub proof fn lemma_echo_prints_words(v: VfsView, args: Seq<Seq<char>>)
    requires
        !args.contains(">"@),
    ensures
        echo_out(args) == join(args, " "@),
        echo_state(v, args) == v,
{
    lemma_no_redirect(args, 0);
    assert(args.take(args.len() as int) =~= args);
}

/// Text that `echo` writes to a file reads back through `cat` as the same
/// text.
pub proof fn lemma_echo_then_cat(v: VfsView, text: Seq<char>, name: Seq<char>)
    requires
        text != ">"@,
        name.len() > 0,
        name[0] != '-',
        !starts_with_seq(resolve(v.cwd, name), "/dev/"@),
    ensures
        cat_out(readable(echo_state(v, seq![text, ">"@, name])), v.cwd, seq![name]) == text,
{
    let args = seq![text, ">"@, name];
    reveal_with_fuel(redirect_from, 3);
    assert(redirect_from(args, 0) == 1);
    assert(args.take(1) =~= seq![text]);
    assert(join(seq![text], " "@) == text);
    crate::bytes::lemma_text_round_trip(text);
    let p = resolve(v.cwd, name);
    assert(readable(echo_state(v, args)).dom().contains(p));
    assert(readable(echo_state(v, args))[p] == encode_utf8(text));
    assert(seq![name].drop_last() =~= Seq::<Seq<char>>::empty());
    assert(cat_out(readable(echo_state(v, args)), v.cwd, Seq::<Seq<char>>::empty()) =~= Seq::<char>::empty());
    assert(Seq::<char>::empty() + text =~= text);
}

/// What `echo` prints: nothing when it wrote a file, else its words.
pub open spec fn echo_out(args: Seq<Seq<char>>) -> Seq<char> {
    let k = redirect_from(args, 0);
    if k + 1 < args.len() { Seq::empty() } else { join(args.take(k), " "@) }
}

/// Prints its words, or with `> path` writes them to a file.
pub fn echo(vfs: &mut Vfs, args: Vec<String>) -> (r: String)
    requires
        old(vfs).wf(),
    ensures
        final(vfs).wf(),
        final(vfs)@ == echo_state(old(vfs)@, views(args@)),
        r@ == echo_out(views(args@)),
{
    let ghost a = views(args@);
    let mut k: usize = 0;
    proof {
        lemma_redirect_from(a, 0);
    }
    while k < args.len() && !str_eq(args[k].as_str(), ">")
        invariant
            k <= args.len(),
            a == views(args@),
            redirect_from(a, 0) == redirect_from(a, k as int),
        decreases args.len() - k,
    {
        k = k + 1;
    }
    let mut words: Vec<String> = Vec::new();
    let mut i: usize = 0;
    while i < k
        invariant
            i <= k <= args.len(),
            a == views(args@),
            views(words@) == a.take(i as int),
        decreases k - i,
    {
        let ghost w0 = views(words@);
        words.push(args[i].clone());
        assert(views(words@) =~= w0.push(a[i as int]));
        i = i + 1;
        assert(views(words@) =~= a.take(i as int));
    }
    let text = join_strings(&words, " ");
    if k < args.len() && args.len() - k > 1 {
        let p = vfs.resolve_path(args[k + 1].as_str());
        if !has_prefix(p.as_str(), "/dev/") {
            let bytes = encode_text(text.as_str());
            vfs.write_file_mem(p.as_str(), bytes);
        }
        String::new()
    } else {
        text
    }
}

/// One argument of `cat`: an option prints nothing, a file its text.
pub open spec fn cat_piece(files: Map<Seq<char>, Seq<u8>>, cwd: Seq<char>, a: Seq<char>) -> Seq<char> {
    if a.len() > 0 && a[0] == '-' {
        Seq::empty()
    } else {
        match file_of(files, resolve(cwd, a)) {
            Some(b) => file_text(b),
            None => "cat: "@ + a + ": No such file"@,
        }
    }
}

/// What `cat` prints: the pieces of its arguments, one after another.
pub open spec fn cat_out(files: Map<Seq<char>, Seq<u8>>, cwd: Seq<char>, args: Seq<Seq<char>>) -> Seq<char>
    decreases args.len(),
{
    if args.len() == 0 {
        Seq::empty()
    } else {
        cat_out(files, cwd, args.drop_last()) + cat_piece(files, cwd, args.last())
    }
}

/// The texts of the files named by `args`, one after another.
pub fn cat(vfs: &Vfs, args: Vec<String>) -> (r: String)
    ensures
        r@ == cat_out(readable(vfs@), vfs@.cwd, views(args@)),
{
    let ghost a = views(args@);
    let mut out = String::new();
    let mut i: usize = 0;
    proof {
        assert(a.take(0) =~= Seq::<Seq<char>>::empty());
    }
    while i < args.len()
        invariant
            i <= args.len(),
            a == views(args@),
            out@ == cat_out(readable(vfs@), vfs@.cwd, a.take(i as int)),
        decreases args.len() - i,
    {
        let arg = args[i].as_str();
        let cs = chars_of(arg);
        assert(a.take(i + 1).drop_last() =~= a.take(i as int));
        assert(a.take(i + 1).last() == arg@);
        if !(cs.len() > 0 && cs[0] == '-') {
            let p = vfs.resolve_path(arg);
            match vfs.read_file(p.as_str()) {
                Some(b) => {
                    let t = text_of_bytes(&b);
                    append(&mut out, t.as_str());
                },
                None => {
                    append(&mut out, "cat: ");
                    append(&mut out, arg);
                    append(&mut out, ": No such file");
                    assert(out@ =~= cat_out(readable(vfs@), vfs@.cwd, a.take(i as int)) + ("cat: "@ + arg@ + ": No such file"@));
                },
            }
        } else {
            assert(out@ =~= out@ + Seq::<char>::empty());
        }
        i = i + 1;
    }
    assert(a.take(args.len() as int) =~= a);
    out
}

/// The line count and the file named by the arguments of `head` or `tail`
/// from index `i` on: `-n k` sets the count (a bad number leaves it), the
/// first other argument is the file.
pub open spec fn line_opts(args: Seq<Seq<char>>, i: int, n: nat, file: Option<Seq<char>>) -> (nat, Option<Seq<char>>)
    decreases args.len() - i,
{
    if i < 0 || i >= args.len() {
        (n, file)
    } else if args[i] == "-n"@ && i + 1 < args.len() {
        line_opts(args, i + 2, match parse_u64_spec(args[i + 1]) { Some(k) => k as nat, None => n }, file)
    } else {
        line_opts(args, i + 1, n, if file is None { Some(args[i]) } else { file })
    }
}

/// The first `n` lines of `ls` (all of them if there are fewer).
pub open spec fn first_lines(ls: Seq<Seq<char>>, n: nat) -> Seq<Seq<char>> {
    if n >= ls.len() { ls } else { ls.take(n as int) }
}

/// The last `n` lines of `ls` (all of them if there are fewer).
pub open spec fn last_lines(ls: Seq<Seq<char>>, n: nat) -> Seq<Seq<char>> {
    if n >= ls.len() { ls } else { ls.skip(ls.len() - n) }
}

/// `head -n k` keeps the first and `tail -n k` the last `min(k, |ls|)`
/// lines, in their order: the whole text when it has at most `k` lines.
pub proof fn lemma_line_windows(ls: Seq<Seq<char>>, k: nat)
    ensures
        first_lines(ls, k).len() == if k < ls.len() { k } else { ls.len() },
        last_lines(ls, k).len() == if k < ls.len() { k } else { ls.len() },
        forall|i: int| 0 <= i < first_lines(ls, k).len() ==> #[trigger] first_lines(ls, k)[i] == ls[i],
        forall|i: int| 0 <= i < last_lines(ls, k).len()
            ==> #[trigger] last_lines(ls, k)[i] == ls[ls.len() - last_lines(ls, k).len() + i],
        k >= ls.len() ==> first_lines(ls, k) == ls && last_lines(ls, k) == ls,
{
}

/// What `head` (or, `from_end`, `tail`) prints: the first (last) lines of
/// the file, 10 unless `-n` says otherwise.
pub open spec fn lines_out(name: Seq<char>, files: Map<Seq<char>, Seq<u8>>, cwd: Seq<char>, args: Seq<Seq<char>>, from_end: bool) -> Seq<char> {
    let (n, file) = line_opts(args, 0, 10, None);
    match file {
        None => name + ": missing file operand"@,
        Some(a) => match file_of(files, resolve(cwd, a)) {
            None => name + ": "@ + a + ": No such file"@,
            Some(b) => {
                let ls = text_lines(file_text(b));
                join(if from_end { last_lines(ls, n) } else { first_lines(ls, n) }, "\n"@)
            },
        },
    }
}

/// `head` and `tail` take 10 lines unless `-n k` asks for `k`.
pub proof fn lemma_line_count(name: Seq<char>, files: Map<Seq<char>, Seq<u8>>, cwd: Seq<char>, a: Seq<char>, k: u64, from_end: bool)
    requires
        file_of(files, resolve(cwd, a)) is Some,
    ensures
        ({
            let ls = text_lines(file_text(file_of(files, resolve(cwd, a))->0));
            &&& lines_out(name, files, cwd, seq![a], from_end)
                == join(if from_end { last_lines(ls, 10) } else { first_lines(ls, 10) }, "\n"@)
            &&& lines_out(name, files, cwd, seq!["-n"@, decimal(k as nat), a], from_end)
                == join(if from_end { last_lines(ls, k as nat) } else { first_lines(ls, k as nat) }, "\n"@)
        }),
{
    reveal_with_fuel(line_opts, 4);
    lemma_decimal_round_trip(k as nat);
    let args = seq!["-n"@, decimal(k as nat), a];
    assert(args[0] == "-n"@);
    assert(line_opts(args, 0, 10, None) == line_opts(args, 2, k as nat, None));
}

fn some_lines(vfs: &Vfs, name: &str, args: &Vec<String>, from_end: bool) -> (r: String)
    ensures
        r@ == lines_out(name@, readable(vfs@), vfs@.cwd, views(args@), from_end),
{
    let ghost a = views(args@);
    let mut n: u64 = 10;
    let mut file: Option<&String> = None;
    let mut i: usize = 0;
    while i < args.len()
        invariant
            i <= args.len(),
            a == views(args@),
            line_opts(a, 0, 10, None) == line_opts(a, i as int, n as nat, match file { Some(f) => Some(f@), None => None }),
        decreases args.len() - i,
    {
        if str_eq(args[i].as_str(), "-n") && i + 1 < args.len() {
            match parse_u64(args[i + 1].as_str()) {
                Some(k) => {
                    n = k;
                },
                None => {},
            }
            i = i + 2;
        } else {
            if file.is_none() {
                file = Some(&args[i]);
            }
            i = i + 1;
        }
    }
    let file = match file {
        None => {
            let mut m = owned(name);
            append(&mut m, ": missing file operand");
            return m;
        },
        Some(f) => f,
    };
    let p = vfs.resolve_path(file.as_str());
    match vfs.read_file(p.as_str()) {
        None => {
            let mut m = owned(name);
            append(&mut m, ": ");
            append(&mut m, file.as_str());
            append(&mut m, ": No such file");
            m
        },
        Some(b) => {
            let t = text_of_bytes(&b);
            let ls = lines(t.as_str());
            let ghost lv = views(ls@);
            let len = ls.len();
            let (from, to): (usize, usize) = if n >= len as u64 {
                (0, len)
            } else if from_end {
                (len - n as usize, len)
            } else {
                (0, n as usize)
            };
            let mut picked: Vec<String> = Vec::new();
            let mut j = from;
            while j < to
                invariant
                    from <= j <= to <= len,
                    len == ls.len(),
                    lv == views(ls@),
                    views(picked@) == lv.subrange(from as int, j as int),
                decreases to - j,
            {
                let ghost p0 = views(picked@);
                picked.push(ls[j].clone());
                assert(views(picked@) =~= p0.push(lv[j as int]));
                j = j + 1;
                assert(views(picked@) =~= lv.subrange(from as int, j as int));
            }
            proof {
                if n >= len as u64 {
                    assert(lv.subrange(0, len as int) =~= lv);
                } else if from_end {
                    assert(lv.subrange(from as int, len as int) =~= lv.skip(lv.len() - n));
                } else {
                    assert(lv.subrange(0, n as int) =~= lv.take(n as int));
                }
            }
            join_strings(&picked, "\n")
        },
    }
}

/// The first lines of a file (see `lines_out`).
pub fn head(vfs: &Vfs, args: Vec<String>) -> (r: String)
    ensures
        r@ == lines_out("head"@, readable(vfs@), vfs@.cwd, views(args@), false),
{
    some_lines(vfs, "head", &args, false)
}

/// The last lines of a file (see `lines_out`).
pub fn tail(vfs: &Vfs, args: Vec<String>) -> (r: String)
    ensures
        r@ == lines_out("tail"@, readable(vfs@), vfs@.cwd, views(args@), true),
{
    some_lines(vfs, "tail", &args, true)
}

/// Copies the file in memory at `src` to `dst` (both read from the working
/// directory); prints nothing, or why it could not.
pub fn cp(vfs: &mut Vfs, src: &str, dst: &str) -> (r: String)
    requires
        old(vfs).wf(),
    ensures
        final(vfs).wf(),
        match file_of(readable(old(vfs)@), resolve(old(vfs)@.cwd, src@)) {
            Some(b) => {
                &&& final(vfs)@ == put(old(vfs)@, resolve(old(vfs)@.cwd, dst@), b)
                &&& r@ == Seq::<char>::empty()
            },
            None => {
                &&& final(vfs)@ == old(vfs)@
                &&& r@ == "cp: "@ + src@ + ": No such file"@
            },
        },
{
    let from = vfs.resolve_path(src);
    match vfs.read_file(from.as_str()) {
        Some(b) => {
            let to = vfs.resolve_path(dst);
            vfs.write_file_mem(to.as_str(), b);
            String::new()
        },
        None => {
            let mut m = owned("cp: ");
            append(&mut m, src);
            append(&mut m, ": No such file");
            m
        },
    }
}

/// What `stat` prints for `path` read from `cwd`.
pub open spec fn stat_out(files: Map<Seq<char>, Seq<u8>>, cwd: Seq<char>, path: Seq<char>) -> Seq<char> {
    let p = resolve(cwd, path);
    "File: "@ + p + "\n"@ + "Size: "@ + decimal(size_of(files, normalize(p)) as nat)
}

/// The path and size of a file.
pub fn stat(vfs: &Vfs, path: &str) -> (r: String)
    ensures
        r@ == stat_out(vfs@.files, vfs@.cwd, path@),
{
    let p = vfs.resolve_path(path);
    let size = vfs.get_file_size(p.as_str());
    let mut r = owned("File: ");
    append(&mut r, p.as_str());
    append(&mut r, "\n");
    append(&mut r, "Size: ");
    let n = decimal_string(size);
    append(&mut r, n.as_str());
    r
}

/// Writes `content` at the start of the file `path` (read from the working
/// directory). `None` when the path belongs to the persistent store, which
/// the host must then write.
pub fn write_file(vfs: &mut Vfs, path: &str, content: &str) -> (r: Option<String>)
    requires
        old(vfs).wf(),
    ensures
        final(vfs).wf(),
        ({
            let p = resolve(old(vfs)@.cwd, path@);
            let bytes = encode_utf8(content@);
            &&& final(vfs)@ == written(old(vfs)@, normalize(p), bytes, 0)
            &&& match write_result(normalize(p), bytes.len()) {
                Ok(n) => r matches Some(m) && m@ == "Wrote "@ + decimal(n) + " bytes"@,
                Err(_) => r is None,
            }
        }),
{
    let p = vfs.resolve_path(path);
    let bytes = encode_text(content);
    assert(bytes@.len() == bytes.len());
    match vfs.write_file_sync(p.as_str(), bytes.as_slice(), 0) {
        Ok(n) => {
            let mut m = owned("Wrote ");
            let d = decimal_string(n as u64);
            append(&mut m, d.as_str());
            append(&mut m, " bytes");
            Some(m)
        },
        Err(_) => None,
    }
}

/// One line of a long listing: the path, its size and when it was last
/// written (0 and 0 for a path that is not in memory).
pub open spec fn long_line(v: VfsView, name: Seq<char>) -> Seq<char> {
    let size: nat = if v.files.dom().contains(name) { v.files[name].len() } else { 0 };
    let time: nat = if v.files.dom().contains(name) { time_of(v.times, name) as nat } else { 0 };
    name + " "@ + decimal(size) + " "@ + decimal(time)
}

/// `ls -l`: every known path with its size and last-written time, one per line.
pub fn ls_long(vfs: &Vfs) -> (r: String)
    requires
        vfs.wf(),
    ensures
        r@ == join(vfs.listing().map_values(|n: Seq<char>| long_line(vfs@, n)), "\n"@),
{
    let files = vfs.list_files();
    let ghost names = views(files@);
    let ghost f = |n: Seq<char>| long_line(vfs@, n);
    let mut out: Vec<String> = Vec::new();
    let mut i: usize = 0;
    while i < files.len()
        invariant
            i <= files.len(),
            names == views(files@),
            f == (|n: Seq<char>| long_line(vfs@, n)),
            views(out@) == names.take(i as int).map_values(f),
        decreases files.len() - i,
    {
        let name = &files[i];
        let mut line = name.clone();
        append(&mut line, " ");
        let (size, time) = match vfs.file_info(name.as_str()) {
            Some(info) => info,
            None => (0u64, 0u64),
        };
        let sz = decimal_string(size);
        append(&mut line, sz.as_str());
        append(&mut line, " ");
        let tm = decimal_string(time);
        append(&mut line, tm.as_str());
        let ghost o0 = views(out@);
        proof {
            reveal_strlit(" ");
            assert(line@ =~= long_line(vfs@, name@));
            assert(names.take(i + 1) =~= names.take(i as int).push(name@));
            assert(names.take(i + 1).map_values(f) =~= names.take(i as int).map_values(f).push(f(name@)));
        }
        out.push(line);
        assert(views(out@) =~= o0.push(line@));
        i = i + 1;
    }
    assert(names.take(files.len() as int) =~= names);
    join_strings(&out, "\n")
}

/// Whether `find` shows `name` for the directory `dir` and `pattern`.
pub open spec fn found(name: Seq<char>, dir: Seq<char>, pattern: Seq<char>) -> bool {
    starts_with_seq(name, dir) && contains_seq(name, pattern)
}

/// `find` shows exactly the known paths under `dir` (by prefix) whose text
/// holds `pattern`, in the order of the listing.
pub proof fn lemma_find_keeps(names: Seq<Seq<char>>, dir: Seq<char>, pattern: Seq<char>)
    ensures
        ({
            let f = names.filter(|n: Seq<char>| found(n, dir, pattern));
            &&& f.len() <= names.len()
            &&& forall|k: int| 0 <= k < f.len() ==> {
                &&& starts_with_seq(#[trigger] f[k], dir)
                &&& contains_seq(f[k], pattern)
                &&& names.contains(f[k])
            }
            &&& forall|k: int| 0 <= k < names.len() && starts_with_seq(#[trigger] names[k], dir) && contains_seq(names[k], pattern)
                ==> f.contains(names[k])
        }),
{
    let keep = |n: Seq<char>| found(n, dir, pattern);
    let f = names.filter(keep);
    names.lemma_filter_len(keep);
    assert forall|k: int| 0 <= k < f.len() implies {
        &&& starts_with_seq(#[trigger] f[k], dir)
        &&& contains_seq(f[k], pattern)
        &&& names.contains(f[k])
    } by {
        names.lemma_filter_pred(keep, k);
        assert(f.contains(f[k]));
        names.lemma_filter_contains_rev(keep, f[k]);
    }
    assert forall|k: int| 0 <= k < names.len() && starts_with_seq(#[trigger] names[k], dir) && contains_seq(names[k], pattern)
        implies f.contains(names[k]) by {
        names.lemma_filter_contains(keep, k);
    }
}

/// The known paths under `dir` that contain `pattern`, one per line.
pub fn find(vfs: &Vfs, dir: &str, pattern: &str) -> (r: String)
    requires
        vfs.wf(),
    ensures
        r@ == join(vfs.listing().filter(|n: Seq<char>| found(n, dir@, pattern@)), "\n"@),
{
    let all = vfs.list_files();
    let ghost names = views(all@);
    let ghost keep = |n: Seq<char>| found(n, dir@, pattern@);
    let pat = chars_of(pattern);
    let mut kept: Vec<String> = Vec::new();
    let mut i: usize = 0;
    proof {
        assert(names.take(0) =~= Seq::<Seq<char>>::empty());
        assert(names.take(0).filter(keep) =~= Seq::<Seq<char>>::empty());
    }
    while i < all.len()
        invariant
            i <= all.len(),
            names == views(all@),
            pat@ == pattern@,
            keep == (|n: Seq<char>| found(n, dir@, pattern@)),
            views(kept@) == names.take(i as int).filter(keep),
        decreases all.len() - i,
    {
        let name = &all[i];
        let nc = chars_of(name.as_str());
        let hit = has_prefix(name.as_str(), dir) && contains_chars(&nc, &pat);
        proof {
            assert(names.take(i + 1) =~= names.take(i as int).push(name@));
            names.take(i as int).lemma_filter_push(name@, keep);
            assert(keep(name@) == hit);
        }
        if hit {
            let ghost k0 = views(kept@);
            kept.push(name.clone());
            assert(views(kept@) =~= k0.push(name@));
        }
        i = i + 1;
    }
    assert(names.take(all.len() as int) =~= names);
    join_strings(&kept, "\n")
}

} // verus!
