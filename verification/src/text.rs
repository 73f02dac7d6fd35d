//! Character-level building blocks shared by the shell, the file system and the
//! script language: character classes, conversions between `str`/`String` and
//! character vectors, and the small sequence functions (join, split, search)
//! that the commands are specified with.

use vstd::prelude::*;

verus! {

/// `String::push` appends one character to the end of the string.
pub assume_specification[ std::string::String::push ](s: &mut std::string::String, ch: char)
    ensures
        final(s)@ == old(s)@.push(ch),
;

/// Whitespace as the script grammar skips it: space, tab, carriage return, line feed.
pub open spec fn is_multispace(c: char) -> bool {
    c == ' ' || c == '\t' || c == '\r' || c == '\n'
}

pub open spec fn is_ascii_alpha(c: char) -> bool {
    ('a' <= c && c <= 'z') || ('A' <= c && c <= 'Z')
}

pub open spec fn is_ascii_digit(c: char) -> bool {
    '0' <= c && c <= '9'
}

/// A character that may start an identifier.
pub open spec fn is_ident_start(c: char) -> bool {
    is_ascii_alpha(c) || c == '_'
}

/// A character that may continue an identifier.
pub open spec fn is_ident_char(c: char) -> bool {
    is_ascii_alpha(c) || is_ascii_digit(c) || c == '_'
}

/// Unicode `White_Space`, the set that `char::is_whitespace` tests.
pub open spec fn is_unicode_whitespace(c: char) -> bool {
    ||| ('\u{9}' <= c && c <= '\u{d}')
    ||| c == ' '
    ||| c == '\u{85}'
    ||| c == '\u{a0}'
    ||| c == '\u{1680}'
    ||| ('\u{2000}' <= c && c <= '\u{200a}')
    ||| c == '\u{2028}'
    ||| c == '\u{2029}'
    ||| c == '\u{202f}'
    ||| c == '\u{205f}'
    ||| c == '\u{3000}'
}

pub fn multispace(c: char) -> (r: bool)
    ensures
        r == is_multispace(c),
{
    c == ' ' || c == '\t' || c == '\r' || c == '\n'
}

pub fn ident_start(c: char) -> (r: bool)
    ensures
        r == is_ident_start(c),
{
    ('a' <= c && c <= 'z') || ('A' <= c && c <= 'Z') || c == '_'
}

pub fn ident_char(c: char) -> (r: bool)
    ensures
        r == is_ident_char(c),
{
    ('a' <= c && c <= 'z') || ('A' <= c && c <= 'Z') || ('0' <= c && c <= '9') || c == '_'
}

pub fn unicode_whitespace(c: char) -> (r: bool)
    ensures
        r == is_unicode_whitespace(c),
{
    ('\u{9}' <= c && c <= '\u{d}') || c == ' ' || c == '\u{85}' || c == '\u{a0}' || c
        == '\u{1680}' || ('\u{2000}' <= c && c <= '\u{200a}') || c == '\u{2028}' || c
        == '\u{2029}' || c == '\u{202f}' || c == '\u{205f}' || c == '\u{3000}'
}

/// The characters of a string slice, in order.
pub fn chars_of(s: &str) -> (v: Vec<char>)
    ensures
        v@ == s@,
{
    let mut v: Vec<char> = Vec::new();
    for ch in it: s.chars()
        invariant
            v@ == it.seq().take(it.index() as int),
    {
        v.push(ch);
    }
    v
}

/// A string made of the characters `v[from..to]`.
pub fn string_of(v: &Vec<char>, from: usize, to: usize) -> (s: String)
    requires
        from <= to <= v.len(),
    ensures
        s@ == v@.subrange(from as int, to as int),
{
    let mut s = String::new();
    let mut i = from;
    while i < to
        invariant
            from <= i <= to <= v.len(),
            s@ == v@.subrange(from as int, i as int),
        decreases to - i,
    {
        s.push(v[i]);
        i = i + 1;
        assert(s@ =~= v@.subrange(from as int, i as int));
    }
    s
}

/// A string made of all characters of `v`.
pub fn string_from(v: &Vec<char>) -> (s: String)
    ensures
        s@ == v@,
{
    let s = string_of(v, 0, v.len());
    assert(v@.subrange(0, v@.len() as int) =~= v@);
    s
}

/// A copy of a string slice as an owned string.
pub fn owned(s: &str) -> (r: String)
    ensures
        r@ == s@,
{
    s.to_owned()
}

/// Appends the characters of `t` to `s`.
pub fn append(s: &mut String, t: &str)
    ensures
        final(s)@ == old(s)@ + t@,
{
    let v = chars_of(t);
    let ghost s0 = s@;
    let mut i: usize = 0;
    while i < v.len()
        invariant
            i <= v.len(),
            v@ == t@,
            s@ == s0 + v@.subrange(0, i as int),
        decreases v.len() - i,
    {
        s.push(v[i]);
        i = i + 1;
        assert(s@ =~= s0 + v@.subrange(0, i as int));
    }
    assert(v@.subrange(0, v@.len() as int) =~= v@);
}

/// Whether two strings hold the same characters.
pub fn str_eq(a: &str, b: &str) -> (r: bool)
    ensures
        r == (a@ == b@),
{
    let x = chars_of(a);
    let y = chars_of(b);
    if x.len() != y.len() {
        return false;
    }
    let mut i: usize = 0;
    while i < x.len()
        invariant
            x@ == a@,
            y@ == b@,
            x.len() == y.len(),
            i <= x.len(),
            forall|k: int| 0 <= k < i ==> x@[k] == y@[k],
        decreases x.len() - i,
    {
        if x[i] != y[i] {
            return false;
        }
        i = i + 1;
    }
    assert(x@ =~= y@);
    true
}

/// Whether `pat` occurs in `s` starting at index `i`.
pub open spec fn occurs_at(s: Seq<char>, pat: Seq<char>, i: int) -> bool {
    0 <= i && i + pat.len() <= s.len() && s.subrange(i, i + pat.len()) == pat
}

/// Whether `pat` occurs anywhere in `s` (the empty pattern occurs in every string).
pub open spec fn contains_seq(s: Seq<char>, pat: Seq<char>) -> bool {
    exists|i: int| occurs_at(s, pat, i)
}

pub open spec fn starts_with_seq(s: Seq<char>, pat: Seq<char>) -> bool {
    occurs_at(s, pat, 0)
}

/// Whether `pat` occurs in `v` at index `i`.
pub fn matches_at(v: &Vec<char>, pat: &Vec<char>, i: usize) -> (r: bool)
    ensures
        r == occurs_at(v@, pat@, i as int),
{
    if i > v.len() || pat.len() > v.len() - i {
        return false;
    }
    let mut k: usize = 0;
    while k < pat.len()
        invariant
            i + pat.len() <= v.len(),
            k <= pat.len(),
            forall|m: int| 0 <= m < k ==> v@[i + m] == pat@[m],
        decreases pat.len() - k,
    {
        if v[i + k] != pat[k] {
            assert(v@.subrange(i as int, i + pat.len())[k as int] != pat@[k as int]);
            return false;
        }
        k = k + 1;
    }
    assert(v@.subrange(i as int, i + pat.len()) =~= pat@);
    true
}

/// Whether `pat` occurs anywhere in `v`.
pub fn contains_chars(v: &Vec<char>, pat: &Vec<char>) -> (r: bool)
    ensures
        r == contains_seq(v@, pat@),
{
    if pat.len() > v.len() {
        assert forall|i: int| !occurs_at(v@, pat@, i) by {}
        return false;
    }
    let mut i: usize = 0;
    loop
        invariant
            pat.len() <= v.len(),
            i <= v.len() - pat.len(),
            forall|k: int| 0 <= k < i ==> !occurs_at(v@, pat@, k),
        decreases v.len() - pat.len() - i,
    {
        if matches_at(v, pat, i) {
            return true;
        }
        if i == v.len() - pat.len() {
            assert forall|k: int| !occurs_at(v@, pat@, k) by {
                if 0 <= k < i {
                }
            }
            return false;
        }
        i = i + 1;
    }
}

/// Joins the strings of `parts` with `sep` between neighbours.
pub open spec fn join(parts: Seq<Seq<char>>, sep: Seq<char>) -> Seq<char>
    decreases parts.len(),
{
    if parts.len() == 0 {
        Seq::empty()
    } else if parts.len() == 1 {
        parts[0]
    } else {
        join(parts.drop_last(), sep) + sep + parts.last()
    }
}

/// The views of a vector of strings.
pub open spec fn views(v: Seq<String>) -> Seq<Seq<char>> {
    v.map_values(|s: String| s@)
}

/// Joins the strings of `parts` with `sep`, like `[String]::join`.
pub fn join_strings(parts: &Vec<String>, sep: &str) -> (r: String)
    ensures
        r@ == join(views(parts@), sep@),
{
    let mut r = String::new();
    let mut i: usize = 0;
    while i < parts.len()
        invariant
            i <= parts.len(),
            r@ == join(views(parts@).take(i as int), sep@),
        decreases parts.len() - i,
    {
        let ghost prev = views(parts@).take(i as int);
        if i > 0 {
            append(&mut r, sep);
        }
        append(&mut r, parts[i].as_str());
        i = i + 1;
        assert(views(parts@).take(i as int).drop_last() =~= prev);
    }
    assert(views(parts@).take(parts@.len() as int) =~= views(parts@));
    r
}


/// The decimal digit character for `d < 10`.
pub open spec fn digit_char(d: nat) -> char {
    if d == 0 { '0' } else if d == 1 { '1' } else if d == 2 { '2' } else if d == 3 { '3' }
    else if d == 4 { '4' } else if d == 5 { '5' } else if d == 6 { '6' } else if d == 7 { '7' }
    else if d == 8 { '8' } else { '9' }
}

/// The value of a decimal digit character.
pub open spec fn digit_value(c: char) -> nat {
    (c as int - '0' as int) as nat
}

/// The decimal representation of `n`, without leading zeros.
pub open spec fn decimal(n: nat) -> Seq<char>
    decreases n,
{
    if n < 10 {
        seq![digit_char(n)]
    } else {
        decimal(n / 10).push(digit_char(n % 10))
    }
}

fn digit(d: u64) -> (c: char)
    requires
        d < 10,
    ensures
        c == digit_char(d as nat),
{
    if d == 0 { '0' } else if d == 1 { '1' } else if d == 2 { '2' } else if d == 3 { '3' }
    else if d == 4 { '4' } else if d == 5 { '5' } else if d == 6 { '6' } else if d == 7 { '7' }
    else if d == 8 { '8' } else { '9' }
}

/// The decimal text of `n`, as `u64::to_string` gives it.
pub fn decimal_string(n: u64) -> (r: String)
    ensures
        r@ == decimal(n as nat),
    decreases n,
{
    if n < 10 {
        let mut r = String::new();
        r.push(digit(n));
        assert(r@ =~= decimal(n as nat));
        r
    } else {
        let mut r = decimal_string(n / 10);
        r.push(digit(n % 10));
        r
    }
}

/// The value of a string of decimal digits.
pub open spec fn digits_value(d: Seq<char>) -> nat
    decreases d.len(),
{
    if d.len() == 0 {
        0
    } else {
        digits_value(d.drop_last()) * 10 + digit_value(d.last())
    }
}

pub open spec fn all_digits(d: Seq<char>) -> bool {
    forall|k: int| 0 <= k < d.len() ==> is_ascii_digit(#[trigger] d[k])
}

/// `u64::from_str`: an optional `+`, then one or more decimal digits whose
/// value fits in 64 bits.
pub open spec fn parse_u64_spec(s: Seq<char>) -> Option<u64> {
    let d = if s.len() > 0 && s[0] == '+' { s.skip(1) } else { s };
    if d.len() > 0 && all_digits(d) && digits_value(d) <= u64::MAX {
        Some(digits_value(d) as u64)
    } else {
        None
    }
}

proof fn lemma_digits_monotone(d: Seq<char>, i: int)
    requires
        0 <= i <= d.len(),
    ensures
        digits_value(d.take(i)) <= digits_value(d),
    decreases d.len() - i,
{
    if i < d.len() {
        lemma_digits_monotone(d, i + 1);
        assert(d.take(i + 1).drop_last() =~= d.take(i));
    } else {
        assert(d.take(i) =~= d);
    }
}

/// The decimal text of a number is a non-empty run of digits, without a
/// leading zero unless it is `0`, whose value is the number; for a `u64` it
/// parses back to the number.
pub proof fn lemma_decimal_round_trip(n: nat)
    ensures
        decimal(n).len() > 0,
        all_digits(decimal(n)),
        decimal(n).len() > 1 ==> decimal(n)[0] != '0',
        digits_value(decimal(n)) == n,
        n <= u64::MAX ==> parse_u64_spec(decimal(n)) == Some(n as u64),
    decreases n,
{
    let d = decimal(n);
    if n < 10 {
        assert(digit_value(digit_char(n)) == n);
        assert(d.drop_last() =~= Seq::<char>::empty());
        assert(digits_value(d) == digits_value(d.drop_last()) * 10 + digit_value(d.last()));
        assert(digits_value(d) == n);
        assert(is_ascii_digit(d[0]));
    } else {
        lemma_decimal_round_trip(n / 10);
        let h = decimal(n / 10);
        assert(d.drop_last() =~= h);
        assert(d.last() == digit_char(n % 10));
        assert(digit_value(digit_char(n % 10)) == n % 10);
        vstd::arithmetic::div_mod::lemma_fundamental_div_mod(n as int, 10);
        assert(digits_value(d) == digits_value(h) * 10 + digit_value(d.last()));
        assert(digits_value(d) == n);
        assert(h.len() > 1 ==> h[0] != '0');
        assert(h.len() == 1 ==> h[0] != '0') by {
            if h.len() == 1 && h[0] == '0' {
                assert(digits_value(h) == digits_value(h.drop_last()) * 10 + digit_value(h.last()));
                assert(h.drop_last() =~= Seq::<char>::empty());
            }
        }
        assert(d[0] == h[0]);
        assert forall|k: int| 0 <= k < d.len() implies is_ascii_digit(#[trigger] d[k]) by {
            if k < h.len() {
                assert(d[k] == h[k]);
            }
        }
    }
    assert(is_ascii_digit(d[0]));
    assert(d[0] != '+');
}

/// Parses a decimal `u64` as `str::parse::<u64>` does.
pub fn parse_u64(s: &str) -> (r: Option<u64>)
    ensures
        r == parse_u64_spec(s@),
{
    let v = chars_of(s);
    let start: usize = if v.len() > 0 && v[0] == '+' { 1 } else { 0 };
    let ghost d = if s@.len() > 0 && s@[0] == '+' { s@.skip(1) } else { s@ };
    assert(d =~= v@.skip(start as int));
    if start >= v.len() {
        return None;
    }
    let mut acc: u64 = 0;
    let mut i = start;
    while i < v.len()
        invariant
            v@ == s@,
            start <= i <= v.len(),
            d == v@.skip(start as int),
            d == (if s@.len() > 0 && s@[0] == '+' { s@.skip(1) } else { s@ }),
            all_digits(d.take(i - start)),
            acc as nat == digits_value(d.take(i - start)),
        decreases v.len() - i,
    {
        let c = v[i];
        if !('0' <= c && c <= '9') {
            assert(d[i - start] == c);
            assert(!all_digits(d));
            return None;
        }
        let ghost k = i - start;
        proof {
            assert(d.take(k + 1).drop_last() =~= d.take(k));
            assert(d.take(k + 1).last() == c);
        }
        let dv = (c as u32 - '0' as u32) as u64;
        if acc > (u64::MAX - dv) / 10 {
            proof {
                assert(digits_value(d.take(k + 1)) == acc * 10 + dv);
                assert(acc * 10 + dv > u64::MAX) by (nonlinear_arith)
                    requires acc > (u64::MAX - dv) / 10, dv <= 9;
                lemma_digits_monotone(d, k + 1);
            }
            return None;
        }
        assert(acc * 10 + dv <= u64::MAX) by (nonlinear_arith)
            requires acc <= (u64::MAX - dv) / 10, dv <= 9;
        acc = acc * 10 + dv;
        i = i + 1;
        assert forall|m: int| 0 <= m < d.take(i - start).len() implies is_ascii_digit(
            #[trigger] d.take(i - start)[m],
        ) by {
            if m < k {
                assert(d.take(i - start)[m] == d.take(k)[m]);
            }
        }
    }
    assert(d.take(v.len() - start) =~= d);
    Some(acc)
}

/// The end of the run of non-whitespace characters that starts at `j`.
pub open spec fn word_stop(s: Seq<char>, j: int) -> int
    decreases s.len() - j,
{
    if 0 <= j < s.len() && !is_unicode_whitespace(s[j]) {
        word_stop(s, j + 1)
    } else {
        j
    }
}

pub proof fn lemma_word_stop(s: Seq<char>, j: int)
    requires
        0 <= j <= s.len(),
    ensures
        j <= word_stop(s, j) <= s.len(),
        0 <= j < s.len() && !is_unicode_whitespace(s[j]) ==> j < word_stop(s, j),
    decreases s.len() - j,
{
    if 0 <= j < s.len() && !is_unicode_whitespace(s[j]) {
        lemma_word_stop(s, j + 1);
    }
}

/// The maximal runs of non-whitespace characters from index `i` on, as
/// `str::split_whitespace` yields them.
pub open spec fn words_from(s: Seq<char>, i: int) -> Seq<Seq<char>>
    decreases s.len() - i,
{
    if i < 0 || i >= s.len() {
        Seq::empty()
    } else if is_unicode_whitespace(s[i]) {
        words_from(s, i + 1)
    } else {
        let j = word_stop(s, i);
        proof {
            lemma_word_stop(s, i);
        }
        seq![s.subrange(i, j)] + words_from(s, j)
    }
}

pub open spec fn split_whitespace(s: Seq<char>) -> Seq<Seq<char>> {
    words_from(s, 0)
}

proof fn lemma_word_stop_plain(s: Seq<char>, j: int)
    requires
        0 <= j <= s.len(),
    ensures
        forall|m: int| j <= m < word_stop(s, j) ==> !is_unicode_whitespace(#[trigger] s[m]),
    decreases s.len() - j,
{
    if 0 <= j < s.len() && !is_unicode_whitespace(s[j]) {
        lemma_word_stop_plain(s, j + 1);
    }
}

proof fn lemma_words_from_plain(s: Seq<char>, i: int)
    requires
        0 <= i,
    ensures
        forall|k: int| 0 <= k < words_from(s, i).len() ==> {
            &&& (#[trigger] words_from(s, i)[k]).len() > 0
            &&& forall|m: int| 0 <= m < words_from(s, i)[k].len() ==> !is_unicode_whitespace(#[trigger] words_from(s, i)[k][m])
        },
    decreases s.len() - i,
{
    if i < s.len() {
        if is_unicode_whitespace(s[i]) {
            lemma_words_from_plain(s, i + 1);
            assert(words_from(s, i) == words_from(s, i + 1));
        } else {
            let j = word_stop(s, i);
            lemma_word_stop(s, i);
            lemma_word_stop_plain(s, i);
            lemma_words_from_plain(s, j);
            let w = s.subrange(i, j);
            let ws = words_from(s, i);
            assert(ws == seq![w] + words_from(s, j));
            assert forall|k: int| 0 <= k < ws.len() implies {
                &&& (#[trigger] ws[k]).len() > 0
                &&& forall|m: int| 0 <= m < ws[k].len() ==> !is_unicode_whitespace(#[trigger] ws[k][m])
            } by {
                if k == 0 {
                    assert(ws[0] == w);
                    assert(w.len() == j - i);
                    assert forall|m: int| 0 <= m < w.len() implies !is_unicode_whitespace(#[trigger] w[m]) by {
                        assert(w[m] == s[i + m]);
                    }
                } else {
                    assert(ws[k] == words_from(s, j)[k - 1]);
                }
            }
        }
    }
}

/// The words of a text, as `split_whitespace` yields them (the items of a
/// `for` loop), are not empty and hold no whitespace.
pub proof fn lemma_split_whitespace_words(s: Seq<char>)
    ensures
        forall|k: int| 0 <= k < split_whitespace(s).len() ==> {
            &&& (#[trigger] split_whitespace(s)[k]).len() > 0
            &&& forall|m: int| 0 <= m < split_whitespace(s)[k].len() ==> !is_unicode_whitespace(#[trigger] split_whitespace(s)[k][m])
        },
{
    lemma_words_from_plain(s, 0);
}

/// The words of `s`, as `str::split_whitespace` yields them.
pub fn split_words(s: &str) -> (r: Vec<String>)
    ensures
        views(r@) == split_whitespace(s@),
{
    let v = chars_of(s);
    let mut r: Vec<String> = Vec::new();
    let mut i: usize = 0;
    while i < v.len()
        invariant
            v@ == s@,
            i <= v.len(),
            split_whitespace(s@) == views(r@) + words_from(s@, i as int),
        decreases v.len() - i,
    {
        if unicode_whitespace(v[i]) {
            i = i + 1;
        } else {
            let start = i;
            while i < v.len() && !unicode_whitespace(v[i])
                invariant
                    v@ == s@,
                    start <= i <= v.len(),
                    start < v.len(),
                    !is_unicode_whitespace(s@[start as int]),
                    word_stop(s@, start as int) == word_stop(s@, i as int),
                decreases v.len() - i,
            {
                i = i + 1;
            }
            let w = string_of(&v, start, i);
            proof {
                lemma_word_stop(s@, i as int);
                assert(views(r@.push(w)) =~= views(r@).push(w@));
                assert(seq![w@] + words_from(s@, i as int) =~= seq![w@].add(words_from(s@, i as int)));
                assert(views(r@) + words_from(s@, start as int) =~= views(r@).push(w@) + words_from(s@, i as int));
            }
            r.push(w);
        }
    }
    assert(views(r@) + words_from(s@, i as int) =~= views(r@));
    r
}


/// The line and column (both from 1) of index `p` of `s`.
pub open spec fn line_col(s: Seq<char>, p: int) -> (nat, nat)
    decreases p,
{
    if p <= 0 {
        (1, 1)
    } else {
        let (l, c) = line_col(s, p - 1);
        if s[p - 1] == '\n' { (l + 1, 1) } else { (l, c + 1) }
    }
}

/// The line and column (both from 1) of index `p` of `s`.
pub fn line_and_column(s: &Vec<char>, p: usize) -> (r: (u64, u64))
    requires
        p < s.len(),
    ensures
        (r.0 as nat, r.1 as nat) == line_col(s@, p as int),
{
    let mut l: u64 = 1;
    let mut c: u64 = 1;
    let mut i: usize = 0;
    while i < p
        invariant
            i <= p < s.len(),
            1 <= l,
            1 <= c,
            l + c <= i + 2,
            (l as nat, c as nat) == line_col(s@, i as int),
        decreases p - i,
    {
        assert(s.len() <= usize::MAX && usize::MAX <= u64::MAX);
        if s[i] == '\n' {
            l = l + 1;
            c = 1;
        } else {
            c = c + 1;
        }
        i = i + 1;
    }
    (l, c)
}

} // verus!
