//! Paths of the virtual file system: splitting at `/`, normalisation and
//! resolution against a working directory.

use vstd::prelude::*;
use crate::text::{chars_of, owned, append, str_eq, join, views, join_strings, starts_with_seq, matches_at};

verus! {

/// The pieces of `s` between occurrences of `c`, like `str::split`: there is
/// always at least one piece, and `k` separators give `k + 1` pieces.
pub open spec fn split_on(s: Seq<char>, c: char) -> Seq<Seq<char>>
    decreases s.len(),
{
    if s.len() == 0 {
        seq![Seq::empty()]
    } else {
        let p = split_on(s.drop_last(), c);
        if s.last() == c {
            p.push(Seq::empty())
        } else {
            p.update(p.len() - 1, p.last().push(s.last()))
        }
    }
}

pub proof fn lemma_split_on_len(s: Seq<char>, c: char)
    ensures
        split_on(s, c).len() >= 1,
    decreases s.len(),
{
    if s.len() > 0 {
        lemma_split_on_len(s.drop_last(), c);
    }
}

/// One piece of a path applied to the components so far: empty pieces and
/// `.` change nothing, `..` drops the last component (if any), any other
/// piece is appended.
pub open spec fn step(acc: Seq<Seq<char>>, piece: Seq<char>) -> Seq<Seq<char>> {
    if piece.len() == 0 || piece == "."@ {
        acc
    } else if piece == ".."@ {
        if acc.len() > 0 { acc.drop_last() } else { acc }
    } else {
        acc.push(piece)
    }
}

/// The components that the pieces leave, applied from left to right.
pub open spec fn fold_pieces(pieces: Seq<Seq<char>>) -> Seq<Seq<char>>
    decreases pieces.len(),
{
    if pieces.len() == 0 {
        Seq::empty()
    } else {
        step(fold_pieces(pieces.drop_last()), pieces.last())
    }
}

/// Whether a path starts with `/`.
pub open spec fn is_absolute(p: Seq<char>) -> bool {
    p.len() > 0 && p[0] == '/'
}

/// The normal form of a path: its components joined by `/`, with a leading
/// `/` for an absolute path; `.` for an empty relative result.
pub open spec fn normalize(p: Seq<char>) -> Seq<char> {
    let body = join(fold_pieces(split_on(p, '/')), "/"@);
    if is_absolute(p) {
        "/"@ + body
    } else if body.len() == 0 {
        "."@
    } else {
        body
    }
}

/// `path` read from the working directory `cwd`.
pub open spec fn resolve(cwd: Seq<char>, path: Seq<char>) -> Seq<char> {
    if is_absolute(path) {
        normalize(path)
    } else if cwd.len() > 0 && cwd.last() == '/' {
        normalize(cwd + path)
    } else {
        normalize(cwd + "/"@ + path)
    }
}

/// A component that normalisation keeps: not empty, not `.` or `..`, and
/// without `/`.
pub open spec fn kept_component(c: Seq<char>) -> bool {
    c.len() > 0 && c != "."@ && c != ".."@ && !c.contains('/')
}

/// No piece of a split at `/` holds `/`.
proof fn lemma_split_pieces(s: Seq<char>)
    ensures
        forall|i: int| 0 <= i < split_on(s, '/').len() ==> !(#[trigger] split_on(s, '/')[i]).contains('/'),
    decreases s.len(),
{
    lemma_split_on_len(s, '/');
    if s.len() > 0 {
        lemma_split_pieces(s.drop_last());
        lemma_split_on_len(s.drop_last(), '/');
        let p = split_on(s.drop_last(), '/');
        if s.last() != '/' {
            assert forall|i: int| 0 <= i < split_on(s, '/').len() implies !(#[trigger] split_on(s, '/')[i]).contains('/') by {
                if i == p.len() - 1 {
                    let l = p.last().push(s.last());
                    assert(split_on(s, '/')[i] == l);
                    if l.contains('/') {
                        let k = choose|k: int| 0 <= k < l.len() && l[k] == '/';
                        assert(p.last()[k] == '/');
                        assert(p[p.len() - 1].contains('/'));
                    }
                }
            }
        } else {
            assert forall|i: int| 0 <= i < split_on(s, '/').len() implies !(#[trigger] split_on(s, '/')[i]).contains('/') by {
                if i < p.len() {
                    assert(split_on(s, '/')[i] == p[i]);
                }
            }
        }
    }
}

/// The components left by pieces without `/` are all kept ones.
proof fn lemma_fold_kept(pieces: Seq<Seq<char>>)
    requires
        forall|i: int| 0 <= i < pieces.len() ==> !(#[trigger] pieces[i]).contains('/'),
    ensures
        forall|i: int| 0 <= i < fold_pieces(pieces).len() ==> kept_component(#[trigger] fold_pieces(pieces)[i]),
    decreases pieces.len(),
{
    if pieces.len() > 0 {
        let init = pieces.drop_last();
        assert forall|i: int| 0 <= i < init.len() implies !(#[trigger] init[i]).contains('/') by {
            assert(init[i] == pieces[i]);
        }
        lemma_fold_kept(init);
        let acc = fold_pieces(init);
        let last = pieces.last();
        assert(!pieces[pieces.len() - 1].contains('/'));
        assert forall|i: int| 0 <= i < fold_pieces(pieces).len() implies kept_component(#[trigger] fold_pieces(pieces)[i]) by {
            if last.len() == 0 || last == "."@ {
            } else if last == ".."@ {
                if acc.len() > 0 {
                    assert(fold_pieces(pieces)[i] == acc[i]);
                }
            } else {
                if i < acc.len() {
                    assert(fold_pieces(pieces)[i] == acc[i]);
                }
            }
        }
    }
}

/// Kept components are left as they are.
proof fn lemma_fold_identity(cs: Seq<Seq<char>>)
    requires
        forall|i: int| 0 <= i < cs.len() ==> kept_component(#[trigger] cs[i]),
    ensures
        fold_pieces(cs) == cs,
    decreases cs.len(),
{
    if cs.len() > 0 {
        let init = cs.drop_last();
        assert forall|i: int| 0 <= i < init.len() implies kept_component(#[trigger] init[i]) by {
            assert(init[i] == cs[i]);
        }
        lemma_fold_identity(init);
        assert(kept_component(cs[cs.len() - 1]));
        assert(init.push(cs.last()) =~= cs);
    }
}

/// An empty piece in front changes nothing.
proof fn lemma_fold_empty_front(cs: Seq<Seq<char>>)
    ensures
        fold_pieces(seq![Seq::<char>::empty()] + cs) == fold_pieces(cs),
    decreases cs.len(),
{
    let e = seq![Seq::<char>::empty()];
    if cs.len() == 0 {
        assert(e + cs =~= e);
        assert(e.drop_last() =~= Seq::<Seq<char>>::empty());
        assert(e.last().len() == 0);
        assert(fold_pieces(e.drop_last()) == Seq::<Seq<char>>::empty());
        assert(fold_pieces(e) == step(fold_pieces(e.drop_last()), e.last()));
    } else {
        lemma_fold_empty_front(cs.drop_last());
        assert((e + cs).drop_last() =~= e + cs.drop_last());
        assert((e + cs).last() == cs.last());
    }
}

/// Splitting at a separator splits both sides.
pub proof fn lemma_split_concat(a: Seq<char>, b: Seq<char>, sep: char)
    ensures
        split_on(a + seq![sep] + b, sep) == split_on(a, sep) + split_on(b, sep),
    decreases b.len(),
{
    lemma_split_on_len(b, sep);
    if b.len() == 0 {
        assert(a + seq![sep] + b =~= a.push(sep));
        assert((a + seq![sep] + b).drop_last() =~= a);
        assert(split_on(a, sep).push(Seq::<char>::empty()) =~= split_on(a, sep) + seq![Seq::<char>::empty()]);
    } else {
        let s = a + seq![sep] + b;
        assert(s.drop_last() =~= a + seq![sep] + b.drop_last());
        assert(s.last() == b.last());
        lemma_split_concat(a, b.drop_last(), sep);
        lemma_split_on_len(b.drop_last(), sep);
        let x = split_on(a, sep);
        let y = split_on(b.drop_last(), sep);
        if b.last() == sep {
            assert((x + y).push(Seq::<char>::empty()) =~= x + y.push(Seq::<char>::empty()));
        } else {
            let xy = x + y;
            assert(xy.update(xy.len() - 1, xy.last().push(b.last())) =~= x + y.update(y.len() - 1, y.last().push(b.last())));
        }
    }
}

/// A piece without the separator splits into itself.
pub proof fn lemma_split_plain(c: Seq<char>, sep: char)
    requires
        !c.contains(sep),
    ensures
        split_on(c, sep) == seq![c],
    decreases c.len(),
{
    if c.len() == 0 {
        assert(c =~= Seq::<char>::empty());
        assert(seq![c] =~= seq![Seq::<char>::empty()]);
    } else {
        let d = c.drop_last();
        assert(!d.contains(sep)) by {
            if d.contains(sep) {
                let k = choose|k: int| 0 <= k < d.len() && d[k] == sep;
                assert(c[k] == sep);
            }
        }
        lemma_split_plain(d, sep);
        assert(c[c.len() - 1] != sep);
        assert(d.push(c.last()) =~= c);
        assert(seq![d].update(0, d.push(c.last())) =~= seq![c]);
    }
}

/// Components without `/` joined by `/` split back into themselves.
proof fn lemma_split_join(cs: Seq<Seq<char>>)
    requires
        cs.len() > 0,
        forall|i: int| 0 <= i < cs.len() ==> !(#[trigger] cs[i]).contains('/'),
    ensures
        split_on(join(cs, "/"@), '/') == cs,
    decreases cs.len(),
{
    reveal_strlit("/");
    if cs.len() == 1 {
        lemma_split_plain(cs[0], '/');
        assert(seq![cs[0]] =~= cs);
    } else {
        let init = cs.drop_last();
        assert forall|i: int| 0 <= i < init.len() implies !(#[trigger] init[i]).contains('/') by {
            assert(init[i] == cs[i]);
        }
        lemma_split_join(init);
        assert(!cs[cs.len() - 1].contains('/'));
        lemma_split_plain(cs.last(), '/');
        assert("/"@ =~= seq!['/']);
        lemma_split_concat(join(init, "/"@), cs.last(), '/');
        assert(init + seq![cs.last()] =~= cs);
    }
}

/// The first character of components joined by `/` is that of the first one.
proof fn lemma_join_first(cs: Seq<Seq<char>>)
    requires
        cs.len() > 0,
        cs[0].len() > 0,
    ensures
        join(cs, "/"@).len() > 0,
        join(cs, "/"@)[0] == cs[0][0],
    decreases cs.len(),
{
    if cs.len() > 1 {
        let init = cs.drop_last();
        assert(init[0] == cs[0]);
        lemma_join_first(init);
    }
}

/// Normalising a normal path changes nothing.
pub proof fn lemma_normalize_idempotent(p: Seq<char>)
    ensures
        normalize(normalize(p)) == normalize(p),
{
    reveal_strlit("/");
    reveal_strlit(".");
    let cs = fold_pieces(split_on(p, '/'));
    lemma_split_pieces(p);
    lemma_fold_kept(split_on(p, '/'));
    assert forall|i: int| 0 <= i < cs.len() implies !(#[trigger] cs[i]).contains('/') by {
        assert(kept_component(cs[i]));
    }
    let body = join(cs, "/"@);
    let q = normalize(p);
    if is_absolute(p) {
        assert(q == "/"@ + body);
        if cs.len() == 0 {
            assert(body == Seq::<char>::empty());
            assert(q =~= seq!['/']);
            assert(seq!['/'] =~= Seq::<char>::empty() + seq!['/'] + Seq::<char>::empty());
            lemma_split_concat(Seq::<char>::empty(), Seq::<char>::empty(), '/');
            assert(split_on(q, '/') =~= seq![Seq::<char>::empty(), Seq::<char>::empty()]);
            assert(seq![Seq::<char>::empty(), Seq::<char>::empty()] =~= seq![Seq::<char>::empty()] + seq![Seq::<char>::empty()]);
            lemma_fold_empty_front(seq![Seq::<char>::empty()]);
            lemma_fold_empty_front(Seq::<Seq<char>>::empty());
            assert(seq![Seq::<char>::empty()] + Seq::<Seq<char>>::empty() =~= seq![Seq::<char>::empty()]);
            assert(fold_pieces(Seq::<Seq<char>>::empty()) == Seq::<Seq<char>>::empty());
            assert(join(Seq::<Seq<char>>::empty(), "/"@) == Seq::<char>::empty());
            assert(normalize(q) =~= "/"@ + Seq::<char>::empty());
        } else {
            assert(q =~= Seq::<char>::empty() + seq!['/'] + body);
            lemma_split_concat(Seq::<char>::empty(), body, '/');
            lemma_split_join(cs);
            assert(split_on(q, '/') == seq![Seq::<char>::empty()] + cs);
            lemma_fold_empty_front(cs);
            lemma_fold_identity(cs);
            assert(q[0] == '/');
        }
    } else if body.len() == 0 {
        assert(q == "."@);
        assert(split_on(q, '/') =~= seq![q]) by {
            assert(!q.contains('/')) by {
                assert(q =~= seq!['.']);
            }
            lemma_split_plain(q, '/');
        }
        assert(seq![q].drop_last() =~= Seq::<Seq<char>>::empty());
        assert(seq![q].last() == q);
        assert(fold_pieces(Seq::<Seq<char>>::empty()) == Seq::<Seq<char>>::empty());
        assert(fold_pieces(seq![q]) == step(fold_pieces(seq![q].drop_last()), seq![q].last()));
        assert(fold_pieces(seq![q]) == Seq::<Seq<char>>::empty());
    } else {
        assert(cs.len() > 0);
        assert(kept_component(cs[0]));
        lemma_join_first(cs);
        assert(cs[0][0] != '/') by {
            assert(!cs[0].contains('/'));
        }
        lemma_split_join(cs);
        lemma_fold_identity(cs);
    }
}

/// The shape of a normal form: not empty, its own normal form, absolute
/// exactly when the input is, and either `/` (absolute) or `.` (relative),
/// or components that are all kept ones (not empty, not `.` or `..`,
/// without `/`) joined by `/`, after the leading `/` of an absolute one.
pub proof fn lemma_normalize_shape(p: Seq<char>)
    ensures
        normalize(p).len() > 0,
        normalize(normalize(p)) == normalize(p),
        is_absolute(normalize(p)) == is_absolute(p),
        is_absolute(p) ==> (normalize(p) == "/"@
            || forall|i: int| 0 <= i < split_on(normalize(p).skip(1), '/').len()
                ==> kept_component(#[trigger] split_on(normalize(p).skip(1), '/')[i])),
        !is_absolute(p) ==> (normalize(p) == "."@
            || forall|i: int| 0 <= i < split_on(normalize(p), '/').len()
                ==> kept_component(#[trigger] split_on(normalize(p), '/')[i])),
{
    lemma_normalize_idempotent(p);
    reveal_strlit("/");
    reveal_strlit(".");
    let cs = fold_pieces(split_on(p, '/'));
    lemma_split_pieces(p);
    lemma_fold_kept(split_on(p, '/'));
    assert forall|i: int| 0 <= i < cs.len() implies !(#[trigger] cs[i]).contains('/') by {
        assert(kept_component(cs[i]));
    }
    let body = join(cs, "/"@);
    let r = normalize(p);
    if is_absolute(p) {
        assert(r == "/"@ + body);
        assert(r[0] == '/');
        assert(r.skip(1) =~= body);
        if cs.len() == 0 {
            assert(r =~= "/"@);
        } else {
            lemma_split_join(cs);
        }
    } else if body.len() == 0 {
        assert(r == "."@);
        assert(r[0] == '.');
    } else {
        assert(cs.len() > 0);
        assert(kept_component(cs[0]));
        lemma_join_first(cs);
        assert(!cs[0].contains('/'));
        assert(cs[0][0] != '/');
        lemma_split_join(cs);
    }
}

/// Stepping into a directory and back up with `..`, staying with `.`, or
/// adding an empty piece leaves the normal form of a path unchanged.
pub proof fn lemma_normalize_steps(p: Seq<char>, c: Seq<char>)
    requires
        p.len() > 0,
        kept_component(c),
    ensures
        normalize(p + "/"@ + c + "/.."@) == normalize(p),
        normalize(p + "/."@) == normalize(p),
        normalize(p + "/"@) == normalize(p),
{
    reveal_strlit("/");
    reveal_strlit(".");
    reveal_strlit("..");
    reveal_strlit("/..");
    reveal_strlit("/.");
    let sp = split_on(p, '/');
    // into `c` and back up
    let q = p + seq!['/'] + c;
    lemma_split_concat(p, c, '/');
    lemma_split_plain(c, '/');
    assert(split_on(q, '/') == sp + seq![c]);
    assert(!".."@.contains('/')) by {
        if ".."@.contains('/') {
            let k = choose|k: int| 0 <= k < ".."@.len() && ".."@[k] == '/';
        }
    }
    lemma_split_concat(q, ".."@, '/');
    lemma_split_plain(".."@, '/');
    let q2 = q + seq!['/'] + ".."@;
    let pieces = sp + seq![c] + seq![".."@];
    assert(split_on(q2, '/') == pieces);
    assert(pieces.drop_last() =~= sp.push(c));
    assert(sp.push(c).drop_last() =~= sp);
    assert(fold_pieces(sp.push(c)) == step(fold_pieces(sp), c));
    assert(c != "."@ && c != ".."@);
    assert(fold_pieces(pieces) == step(fold_pieces(sp).push(c), ".."@));
    assert(fold_pieces(sp).push(c).drop_last() =~= fold_pieces(sp));
    assert(p + "/"@ + c + "/.."@ =~= q2);
    assert(q2[0] == p[0]);
    // `.`
    assert(!"."@.contains('/')) by {
        if "."@.contains('/') {
            let k = choose|k: int| 0 <= k < "."@.len() && "."@[k] == '/';
        }
    }
    lemma_split_concat(p, "."@, '/');
    lemma_split_plain("."@, '/');
    let d = p + seq!['/'] + "."@;
    assert((sp + seq!["."@]).drop_last() =~= sp);
    assert(p + "/."@ =~= d);
    assert(d[0] == p[0]);
    // an empty piece
    lemma_split_concat(p, Seq::<char>::empty(), '/');
    assert(split_on(Seq::<char>::empty(), '/') == seq![Seq::<char>::empty()]);
    let e = p + seq!['/'] + Seq::<char>::empty();
    assert((sp + seq![Seq::<char>::empty()]).drop_last() =~= sp);
    assert(p + "/"@ =~= e);
    assert(e[0] == p[0]);
}

/// Read from an absolute working directory, every path resolves to an
/// absolute path in normal form.
pub proof fn lemma_resolve_absolute(cwd: Seq<char>, path: Seq<char>)
    requires
        is_absolute(cwd),
    ensures
        is_absolute(resolve(cwd, path)),
        normalize(resolve(cwd, path)) == resolve(cwd, path),
{
    reveal_strlit("/");
    let whole = if is_absolute(path) { path } else if cwd.last() == '/' { cwd + path } else { cwd + "/"@ + path };
    assert(is_absolute(whole)) by {
        if !is_absolute(path) {
            if cwd.last() == '/' {
                assert((cwd + path)[0] == cwd[0]);
            } else {
                assert((cwd + "/"@ + path)[0] == cwd[0]);
            }
        }
    }
    assert(resolve(cwd, path) == normalize(whole));
    assert(("/"@ + join(fold_pieces(split_on(whole, '/')), "/"@))[0] == '/');
    lemma_normalize_idempotent(whole);
}

/// Whether `s` starts with `p`.
pub fn has_prefix(s: &str, p: &str) -> (r: bool)
    ensures
        r == starts_with_seq(s@, p@),
{
    let a = chars_of(s);
    let b = chars_of(p);
    matches_at(&a, &b, 0)
}

/// Applies one piece to the components, as `step` does.
fn apply_piece(comps: &mut Vec<String>, piece: String)
    ensures
        views(final(comps)@) == step(views(old(comps)@), piece@),
{
    let ghost before = views(comps@);
    if piece.as_str().is_empty() || str_eq(piece.as_str(), ".") {
        return;
    }
    if str_eq(piece.as_str(), "..") {
        if comps.len() > 0 {
            comps.pop();
            assert(views(comps@) =~= before.drop_last());
        }
        return;
    }
    comps.push(piece);
    assert(views(comps@) =~= before.push(piece@));
}

/// The normal form of `path` (see `normalize`).
pub fn normalize_path(path: &str) -> (r: String)
    ensures
        r@ == normalize(path@),
{
    let cs = chars_of(path);
    let mut comps: Vec<String> = Vec::new();
    let mut cur = String::new();
    let ghost mut done: Seq<Seq<char>> = Seq::empty();
    let mut i: usize = 0;
    proof {
        assert(cs@.take(0) =~= Seq::<char>::empty());
        assert(done.push(cur@) =~= seq![Seq::<char>::empty()]);
    }
    while i < cs.len()
        invariant
            i <= cs.len(),
            cs@ == path@,
            split_on(cs@.take(i as int), '/') == done.push(cur@),
            views(comps@) == fold_pieces(done),
        decreases cs.len() - i,
    {
        let ch = cs[i];
        assert(cs@.take(i + 1).drop_last() =~= cs@.take(i as int));
        assert(cs@.take(i + 1).last() == ch);
        if ch == '/' {
            let piece = cur;
            cur = String::new();
            proof {
                assert(done.push(piece@).drop_last() =~= done);
                assert(split_on(cs@.take(i + 1), '/') =~= done.push(piece@).push(cur@));
                done = done.push(piece@);
            }
            apply_piece(&mut comps, piece);
        } else {
            let ghost before = cur@;
            cur.push(ch);
            proof {
                let p = done.push(before);
                assert(p.update(p.len() - 1, p.last().push(ch)) =~= done.push(cur@));
            }
        }
        i = i + 1;
    }
    proof {
        assert(cs@.take(cs.len() as int) =~= cs@);
        assert(done.push(cur@).drop_last() =~= done);
    }
    let ghost last = cur@;
    apply_piece(&mut comps, cur);
    assert(views(comps@) == fold_pieces(split_on(path@, '/')));
    let body = join_strings(&comps, "/");
    let abs = cs.len() > 0 && cs[0] == '/';
    if abs {
        let mut r = owned("/");
        append(&mut r, body.as_str());
        r
    } else if body.as_str().is_empty() {
        owned(".")
    } else {
        body
    }
}

/// `path` read from the working directory `cwd` (see `resolve`).
pub fn resolve_path_in(cwd: &str, path: &str) -> (r: String)
    ensures
        r@ == resolve(cwd@, path@),
{
    let p = chars_of(path);
    if p.len() > 0 && p[0] == '/' {
        return normalize_path(path);
    }
    let c = chars_of(cwd);
    let mut combined = owned(cwd);
    if !(c.len() > 0 && c[c.len() - 1] == '/') {
        append(&mut combined, "/");
    }
    append(&mut combined, path);
    normalize_path(combined.as_str())
}

} // verus!
