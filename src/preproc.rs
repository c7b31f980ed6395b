use vstd::prelude::*;

use crate::ngram::chars_eq;

verus! {

/// Horizontal whitespace removed from both ends of a normalized line.
pub open spec fn is_space(c: char) -> bool {
    c == ' ' || c == '\t' || c == '\r' || c == '\u{b}' || c == '\u{c}'
}

/// Characters that make up words; every other character separates words.
/// Anything outside ASCII counts as a letter.
pub open spec fn is_word_char(c: char) -> bool {
    ('a' <= c && c <= 'z') || ('A' <= c && c <= 'Z') || ('0' <= c && c <= '9') || c > '\u{7f}'
}

/// ASCII case folding.
pub open spec fn fold_char(c: char) -> char {
    if 'A' <= c && c <= 'Z' {
        ((c as u8) + 32) as char
    } else {
        c
    }
}

/// Lines finished so far, and the line being read, after reading `s`.
pub open spec fn split_state(s: Seq<char>) -> (Seq<Seq<char>>, Seq<char>)
    decreases s.len(),
{
    if s.len() == 0 {
        (Seq::empty(), Seq::empty())
    } else {
        let prev = split_state(s.drop_last());
        if s.last() == '\n' {
            (prev.0.push(prev.1), Seq::empty())
        } else {
            (prev.0, prev.1.push(s.last()))
        }
    }
}

/// `s` cut at every newline; `n` newlines give `n + 1` lines.
pub open spec fn split_lines(s: Seq<char>) -> Seq<Seq<char>> {
    split_state(s).0.push(split_state(s).1)
}

pub open spec fn trim_start(s: Seq<char>) -> Seq<char>
    decreases s.len(),
{
    if s.len() > 0 && is_space(s[0]) {
        trim_start(s.drop_first())
    } else {
        s
    }
}

pub open spec fn trim_end(s: Seq<char>) -> Seq<char>
    decreases s.len(),
{
    if s.len() > 0 && is_space(s.last()) {
        trim_end(s.drop_last())
    } else {
        s
    }
}

pub open spec fn trim(s: Seq<char>) -> Seq<char> {
    trim_end(trim_start(s))
}

/// A copyright line: its first word, case-folded, is "copyright".
pub open spec fn is_copyright_line(l: Seq<char>) -> bool {
    words(l).len() > 0 && words(l)[0] == "copyright"@
}

/// A trimmed line, emptied when it is a copyright line.
pub open spec fn clean_line(l: Seq<char>) -> Seq<char> {
    if is_copyright_line(trim(l)) {
        Seq::empty()
    } else {
        trim(l)
    }
}

/// The normalized lines of a text: each line with the whitespace at its ends removed,
/// and copyright lines emptied. Emptied lines keep their place, so line numbers stay.
pub open spec fn normalize(s: Seq<char>) -> Seq<Seq<char>> {
    split_lines(s).map_values(|l: Seq<char>| clean_line(l))
}

/// The parts of `ls` joined, with `sep` between each two.
pub open spec fn join_with(ls: Seq<Seq<char>>, sep: char) -> Seq<char>
    decreases ls.len(),
{
    if ls.len() == 0 {
        Seq::empty()
    } else if ls.len() == 1 {
        ls[0]
    } else {
        join_with(ls.drop_last(), sep).push(sep) + ls.last()
    }
}

/// Words finished so far, and the word being read, after reading `s`.
pub open spec fn word_state(s: Seq<char>) -> (Seq<Seq<char>>, Seq<char>)
    decreases s.len(),
{
    if s.len() == 0 {
        (Seq::empty(), Seq::empty())
    } else {
        let prev = word_state(s.drop_last());
        let c = s.last();
        if is_word_char(c) {
            (prev.0, prev.1.push(fold_char(c)))
        } else if prev.1.len() > 0 {
            (prev.0.push(prev.1), Seq::empty())
        } else {
            prev
        }
    }
}

/// The case-folded words of `s`: its maximal runs of word characters.
pub open spec fn words(s: Seq<char>) -> Seq<Seq<char>> {
    if word_state(s).1.len() > 0 {
        word_state(s).0.push(word_state(s).1)
    } else {
        word_state(s).0
    }
}

/// The aggressively processed form of a text: its words, separated by single spaces.
pub open spec fn processed(s: Seq<char>) -> Seq<char> {
    join_with(words(s), ' ')
}

pub open spec fn string_views(v: Seq<String>) -> Seq<Seq<char>> {
    v.map_values(|l: String| l@)
}

pub open spec fn char_views(v: Seq<Vec<char>>) -> Seq<Seq<char>> {
    v.map_values(|l: Vec<char>| l@)
}

/// Relies on `String`'s `FromIterator<&char>`: the string holds exactly the given characters.
#[verifier::external_body]
pub(crate) fn string_from_chars(v: &Vec<char>) -> (r: String)
    ensures
        r@ == v@,
{
    v.iter().collect()
}

/// The characters of `s`, in order.
pub fn chars_of(s: &str) -> (r: Vec<char>)
    ensures
        r@ == s@,
{
    let mut out: Vec<char> = Vec::new();
    for c in it: s.chars()
        invariant
            it.seq() == s@,
            out@ == it.seq().take(it.index() as int),
    {
        out.push(c);
    }
    out
}

pub fn fold(c: char) -> (r: char)
    ensures
        r == fold_char(c),
{
    if 'A' <= c && c <= 'Z' {
        ((c as u8) + 32) as char
    } else {
        c
    }
}

pub fn is_space_char(c: char) -> (r: bool)
    ensures
        r == is_space(c),
{
    c == ' ' || c == '\t' || c == '\r' || c == '\u{b}' || c == '\u{c}'
}

pub fn is_word(c: char) -> (r: bool)
    ensures
        r == is_word_char(c),
{
    ('a' <= c && c <= 'z') || ('A' <= c && c <= 'Z') || ('0' <= c && c <= '9') || c > '\u{7f}'
}

/// Cuts `s` at every newline.
pub fn split_newlines(s: &Vec<char>) -> (r: Vec<Vec<char>>)
    ensures
        char_views(r@) == split_lines(s@),
{
    let mut done: Vec<Vec<char>> = Vec::new();
    let mut cur: Vec<char> = Vec::new();
    let n = s.len();
    let mut i: usize = 0;
    while i < n
        invariant
            n == s.len(),
            i <= n,
            (char_views(done@), cur@) == split_state(s@.take(i as int)),
        decreases n - i,
    {
        let c = s[i];
        assert(s@.take(i + 1).drop_last() =~= s@.take(i as int));
        let ghost prev = char_views(done@);
        if c == '\n' {
            let line = cur;
            done.push(line);
            cur = Vec::new();
            assert(char_views(done@) =~= prev.push(line@));
        } else {
            cur.push(c);
            assert(char_views(done@) =~= prev);
        }
        i = i + 1;
    }
    assert(s@.take(n as int) =~= s@);
    let ghost prev = char_views(done@);
    done.push(cur);
    assert(char_views(done@) =~= prev.push(cur@));
    done
}

/// `s` without the whitespace at its ends.
pub fn trim_chars(s: &Vec<char>) -> (r: Vec<char>)
    ensures
        r@ == trim(s@),
{
    let n = s.len();
    let mut a: usize = 0;
    assert(s@.subrange(0, n as int) =~= s@);
    while a < n && is_space_char(s[a])
        invariant
            n == s.len(),
            a <= n,
            trim_start(s@) == trim_start(s@.subrange(a as int, n as int)),
        decreases n - a,
    {
        assert(s@.subrange(a as int, n as int).drop_first() =~= s@.subrange(a + 1, n as int));
        a = a + 1;
    }
    let mut b: usize = n;
    assert(trim_start(s@.subrange(a as int, n as int)) == s@.subrange(a as int, n as int));
    while b > a && is_space_char(s[b - 1])
        invariant
            n == s.len(),
            a <= b <= n,
            trim_start(s@) == s@.subrange(a as int, n as int),
            trim(s@) == trim_end(s@.subrange(a as int, b as int)),
        decreases b,
    {
        assert(s@.subrange(a as int, b as int).drop_last() =~= s@.subrange(a as int, b - 1));
        b = b - 1;
    }
    let mut out: Vec<char> = Vec::new();
    let mut k: usize = a;
    while k < b
        invariant
            n == s.len(),
            a <= k <= b <= n,
            out@ == s@.subrange(a as int, k as int),
        decreases b - k,
    {
        out.push(s[k]);
        k = k + 1;
    }
    out
}

/// Whether the first word of `l` is "copyright", in any case.
pub fn is_copyright(l: &Vec<char>) -> (r: bool)
    ensures
        r == is_copyright_line(l@),
{
    let ws = words_of(l);
    if ws.len() == 0 {
        return false;
    }
    let mark = chars_of("copyright");
    let same = chars_eq(&ws[0], &mark);
    assert(char_views(ws@)[0] == ws@[0]@);
    same
}

/// Splits `text` into lines, trims each one and empties copyright lines.
pub fn apply_normalizers(text: &str) -> (r: Vec<String>)
    ensures
        string_views(r@) == normalize(text@),
{
    let chars = chars_of(text);
    let split = split_newlines(&chars);
    let mut out: Vec<String> = Vec::new();
    let mut i: usize = 0;
    while i < split.len()
        invariant
            i <= split.len(),
            char_views(split@) == split_lines(text@),
            string_views(out@) =~= normalize(text@).take(i as int),
        decreases split.len() - i,
    {
        let t = trim_chars(&split[i]);
        let line = if is_copyright(&t) {
            String::new()
        } else {
            string_from_chars(&t)
        };
        let ghost prev = string_views(out@);
        out.push(line);
        assert(string_views(out@) =~= prev.push(line@));
        assert(char_views(split@)[i as int] == split@[i as int]@);
        i = i + 1;
    }
    out
}

/// The lines `start..end` of `lines`, joined by newlines.
pub fn join_lines(lines: &Vec<String>, start: usize, end: usize) -> (r: Vec<char>)
    requires
        start <= end <= lines.len(),
    ensures
        r@ == join_with(string_views(lines@).subrange(start as int, end as int), '\n'),
{
    let ghost ls = string_views(lines@).subrange(start as int, end as int);
    let mut out: Vec<char> = Vec::new();
    let mut i: usize = start;
    while i < end
        invariant
            start <= i <= end <= lines.len(),
            ls == string_views(lines@).subrange(start as int, end as int),
            out@ == join_with(ls.take(i - start), '\n'),
        decreases end - i,
    {
        if i > start {
            out.push('\n');
        }
        let line = chars_of(lines[i].as_str());
        let ghost before = out@;
        let mut k: usize = 0;
        while k < line.len()
            invariant
                k <= line.len(),
                out@ == before + line@.take(k as int),
            decreases line.len() - k,
        {
            out.push(line[k]);
            k = k + 1;
        }
        assert(line@.take(line.len() as int) =~= line@);
        assert(ls.take(i + 1 - start).drop_last() =~= ls.take(i - start));
        assert(ls.take(i + 1 - start).last() == ls[i - start]);
        assert(ls.take(i + 1 - start).len() == 1 ==> ls.take(i + 1 - start)[0] == ls[i - start]);
        i = i + 1;
    }
    assert(ls.take(end - start) =~= ls);
    out
}

/// The words of `s`, case-folded.
pub fn words_of(s: &Vec<char>) -> (r: Vec<Vec<char>>)
    ensures
        char_views(r@) == words(s@),
{
    let mut done: Vec<Vec<char>> = Vec::new();
    let mut cur: Vec<char> = Vec::new();
    let n = s.len();
    let mut i: usize = 0;
    while i < n
        invariant
            n == s.len(),
            i <= n,
            (char_views(done@), cur@) == word_state(s@.take(i as int)),
        decreases n - i,
    {
        let c = s[i];
        assert(s@.take(i + 1).drop_last() =~= s@.take(i as int));
        let ghost prev = char_views(done@);
        if is_word(c) {
            cur.push(fold(c));
            assert(char_views(done@) =~= prev);
        } else if cur.len() > 0 {
            let w = cur;
            done.push(w);
            cur = Vec::new();
            assert(char_views(done@) =~= prev.push(w@));
        }
        i = i + 1;
    }
    assert(s@.take(n as int) =~= s@);
    if cur.len() > 0 {
        let ghost prev = char_views(done@);
        done.push(cur);
        assert(char_views(done@) =~= prev.push(cur@));
    }
    done
}

/// The words joined by single spaces.
pub fn join_words(ws: &Vec<Vec<char>>) -> (r: Vec<char>)
    ensures
        r@ == join_with(char_views(ws@), ' '),
{
    let ghost ls = char_views(ws@);
    let mut out: Vec<char> = Vec::new();
    let mut i: usize = 0;
    while i < ws.len()
        invariant
            i <= ws.len(),
            ls == char_views(ws@),
            out@ == join_with(ls.take(i as int), ' '),
        decreases ws.len() - i,
    {
        if i > 0 {
            out.push(' ');
        }
        let ghost before = out@;
        let mut k: usize = 0;
        while k < ws[i].len()
            invariant
                i < ws.len(),
                k <= ws[i as int].len(),
                out@ == before + ws[i as int]@.take(k as int),
            decreases ws[i as int].len() - k,
        {
            out.push(ws[i][k]);
            k = k + 1;
        }
        assert(ws[i as int]@.take(ws[i as int].len() as int) =~= ws[i as int]@);
        assert(ls.take(i + 1).drop_last() =~= ls.take(i as int));
        assert(ls.take(i + 1).last() == ls[i as int]);
        assert(ls.take(i + 1).len() == 1 ==> ls.take(i + 1)[0] == ls[i as int]);
        i = i + 1;
    }
    assert(ls.take(ws.len() as int) =~= ls);
    out
}

} // verus!
