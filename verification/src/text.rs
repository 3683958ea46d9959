//! Rewriting the numbers of a text that carry an exponent.
//!
//! A reader of plain decimal numbers cannot take `1.0e-4`. The words of a
//! text that may be such numbers are those with an `e` in them:
//! [`exponent_words`] hands them out, the caller renders each one that is a
//! number in plain decimal form, and [`fix_all`] puts the renderings in
//! their places.

use vstd::prelude::*;

verus! {

/// The characters with the Unicode property `White_Space`.
pub open spec fn is_space(c: char) -> bool {
    let u = c as u32;
    ||| 0x09 <= u <= 0x0D
    ||| u == 0x20
    ||| u == 0x85
    ||| u == 0xA0
    ||| u == 0x1680
    ||| 0x2000 <= u <= 0x200A
    ||| u == 0x2028
    ||| u == 0x2029
    ||| u == 0x202F
    ||| u == 0x205F
    ||| u == 0x3000
}

/// The word that is open at the end of `s`: its longest suffix without
/// whitespace.
pub open spec fn open_word(s: Seq<char>) -> Seq<char>
    decreases s.len(),
{
    if s.len() == 0 || is_space(s.last()) {
        Seq::empty()
    } else {
        open_word(s.drop_last()).push(s.last())
    }
}

/// The words of `s` that whitespace has closed, in their order.
pub open spec fn closed_words(s: Seq<char>) -> Seq<Seq<char>>
    decreases s.len(),
{
    if s.len() == 0 {
        Seq::empty()
    } else if is_space(s.last()) && open_word(s.drop_last()).len() > 0 {
        closed_words(s.drop_last()).push(open_word(s.drop_last()))
    } else {
        closed_words(s.drop_last())
    }
}

/// The words of `s`: its longest runs of characters that are not
/// whitespace, in their order.
pub open spec fn words(s: Seq<char>) -> Seq<Seq<char>> {
    if open_word(s).len() > 0 {
        closed_words(s).push(open_word(s))
    } else {
        closed_words(s)
    }
}

/// The line that is open at the end of `s`: what follows its last line feed.
pub open spec fn open_line(s: Seq<char>) -> Seq<char>
    decreases s.len(),
{
    if s.len() == 0 || s.last() == '\n' {
        Seq::empty()
    } else {
        open_line(s.drop_last()).push(s.last())
    }
}

/// The lines of `s` that a line feed has closed, in their order.
pub open spec fn closed_lines(s: Seq<char>) -> Seq<Seq<char>>
    decreases s.len(),
{
    if s.len() == 0 {
        Seq::empty()
    } else if s.last() == '\n' {
        closed_lines(s.drop_last()).push(open_line(s.drop_last()))
    } else {
        closed_lines(s.drop_last())
    }
}

/// The lines of `s`: what stands between its line feeds. A line feed at
/// the end of the text opens no further line.
pub open spec fn lines(s: Seq<char>) -> Seq<Seq<char>> {
    if open_line(s).len() > 0 {
        closed_lines(s).push(open_line(s))
    } else {
        closed_lines(s)
    }
}

/// The word may be a number with an exponent: it has an `e` in it.
pub open spec fn marked(w: Seq<char>) -> bool {
    w.contains('e')
}

/// The number of marked words among `ws`.
pub open spec fn marks(ws: Seq<Seq<char>>) -> nat
    decreases ws.len(),
{
    if ws.len() == 0 {
        0
    } else {
        marks(ws.drop_last()) + if marked(ws.last()) { 1nat } else { 0 }
    }
}

/// The marked words among `ws`, in their order.
pub open spec fn picked(ws: Seq<Seq<char>>) -> Seq<Seq<char>>
    decreases ws.len(),
{
    if ws.len() == 0 {
        Seq::empty()
    } else if marked(ws.last()) {
        picked(ws.drop_last()).push(ws.last())
    } else {
        picked(ws.drop_last())
    }
}

/// The number of marked words in the lines `ls`.
pub open spec fn line_marks(ls: Seq<Seq<char>>) -> nat
    decreases ls.len(),
{
    if ls.len() == 0 {
        0
    } else {
        line_marks(ls.drop_last()) + marks(words(ls.last()))
    }
}

/// The marked words of the lines `ls`, line by line.
pub open spec fn picked_lines(ls: Seq<Seq<char>>) -> Seq<Seq<char>>
    decreases ls.len(),
{
    if ls.len() == 0 {
        Seq::empty()
    } else {
        picked_lines(ls.drop_last()) + picked(words(ls.last()))
    }
}

/// The word `w`, the `k`-th marked one if it is marked, after rewriting:
/// its rendering where `plain` has one for it, else the word itself.
pub open spec fn fix_word(w: Seq<char>, k: int, plain: Seq<Option<Seq<char>>>) -> Seq<char> {
    if marked(w) && 0 <= k < plain.len() && plain[k] is Some {
        plain[k]->0
    } else {
        w
    }
}

/// The words `ws` after rewriting, where `from` marked words stand before
/// the first of them.
pub open spec fn fix_words(ws: Seq<Seq<char>>, from: int, plain: Seq<Option<Seq<char>>>) -> Seq<
    Seq<char>,
> {
    Seq::new(ws.len(), |i: int| fix_word(ws[i], from + marks(ws.take(i)), plain))
}

/// The pieces with `sep` between each two of them.
pub open spec fn join(ws: Seq<Seq<char>>, sep: char) -> Seq<char>
    decreases ws.len(),
{
    if ws.len() == 0 {
        Seq::empty()
    } else if ws.len() == 1 {
        ws[0]
    } else {
        join(ws.drop_last(), sep).push(sep) + ws.last()
    }
}

/// The line after rewriting: its words, rewritten, with one space between
/// each two of them. `from` marked words stand before the line.
pub open spec fn fix_line_spec(t: Seq<char>, from: int, plain: Seq<Option<Seq<char>>>) -> Seq<char> {
    join(fix_words(words(t), from, plain), ' ')
}

/// The lines `ls` after rewriting.
pub open spec fn fix_lines(ls: Seq<Seq<char>>, plain: Seq<Option<Seq<char>>>) -> Seq<Seq<char>>
    decreases ls.len(),
{
    if ls.len() == 0 {
        Seq::empty()
    } else {
        fix_lines(ls.drop_last(), plain).push(
            fix_line_spec(ls.last(), line_marks(ls.drop_last()) as int, plain),
        )
    }
}

/// The text after rewriting: its lines, rewritten, with one line feed
/// between each two of them.
pub open spec fn fix_all_spec(t: Seq<char>, plain: Seq<Option<Seq<char>>>) -> Seq<char> {
    join(fix_lines(lines(t), plain), '\n')
}

/// The contents of a sequence of character vectors.
pub open spec fn rows(v: Seq<Vec<char>>) -> Seq<Seq<char>> {
    Seq::new(v.len(), |i: int| v[i]@)
}

/// The contents of a sequence of strings.
pub open spec fn texts(v: Seq<String>) -> Seq<Seq<char>> {
    Seq::new(v.len(), |i: int| v[i]@)
}

/// The contents of a sequence of strings that may be missing.
pub open spec fn renderings(v: Seq<Option<String>>) -> Seq<Option<Seq<char>>> {
    Seq::new(
        v.len(),
        |i: int|
            match v[i] {
                Some(s) => Some(s@),
                None => None,
            },
    )
}

/// Collects characters into a string with `String::from_iter`: the string
/// holds the characters of `v`, in their order.
#[verifier::external_body]
fn string_of(v: &Vec<char>) -> (r: String)
    ensures
        r@ == v@,
{
    String::from_iter(v.iter())
}

/// The characters of a string slice.
pub fn chars_of(t: &str) -> (v: Vec<char>)
    ensures
        v@ == t@,
{
    let mut v: Vec<char> = Vec::new();
    for c in it: t.chars()
        invariant
            it.seq() == t@,
            v@ == it.seq().take(it.index() as int),
    {
        v.push(c);
    }
    v
}

/// Whether `c` has the Unicode property `White_Space`.
pub fn is_whitespace(c: char) -> (r: bool)
    ensures
        r == is_space(c),
{
    let u: u32 = c as u32;
    (0x09 <= u && u <= 0x0D) || u == 0x20 || u == 0x85 || u == 0xA0 || u == 0x1680 || (0x2000 <= u
        && u <= 0x200A) || u == 0x2028 || u == 0x2029 || u == 0x202F || u == 0x205F || u == 0x3000
}

proof fn lemma_rows_push(v: Seq<Vec<char>>, w: Vec<char>)
    ensures
        rows(v.push(w)) == rows(v).push(w@),
{
    assert(rows(v.push(w)) =~= rows(v).push(w@));
}

/// The words of a line.
pub fn split_words(s: &Vec<char>) -> (r: Vec<Vec<char>>)
    ensures
        rows(r@) == words(s@),
{
    let mut out: Vec<Vec<char>> = Vec::new();
    let mut cur: Vec<char> = Vec::new();
    let mut i: usize = 0;
    assert(rows(out@) =~= closed_words(s@.take(0)));
    while i < s.len()
        invariant
            i <= s.len(),
            rows(out@) == closed_words(s@.take(i as int)),
            cur@ == open_word(s@.take(i as int)),
        decreases s.len() - i,
    {
        let c = s[i];
        proof {
            assert(s@.take(i + 1).drop_last() =~= s@.take(i as int));
            assert(s@.take(i + 1).last() == c);
            lemma_rows_push(out@, cur);
        }
        if is_whitespace(c) {
            if cur.len() > 0 {
                out.push(cur);
            }
            cur = Vec::new();
        } else {
            cur.push(c);
        }
        i += 1;
    }
    proof {
        assert(s@.take(i as int) == s@);
        lemma_rows_push(out@, cur);
    }
    if cur.len() > 0 {
        out.push(cur);
    }
    out
}

/// The lines of a text.
pub fn split_lines(s: &Vec<char>) -> (r: Vec<Vec<char>>)
    ensures
        rows(r@) == lines(s@),
{
    let mut out: Vec<Vec<char>> = Vec::new();
    let mut cur: Vec<char> = Vec::new();
    let mut i: usize = 0;
    assert(rows(out@) =~= closed_lines(s@.take(0)));
    while i < s.len()
        invariant
            i <= s.len(),
            rows(out@) == closed_lines(s@.take(i as int)),
            cur@ == open_line(s@.take(i as int)),
        decreases s.len() - i,
    {
        let c = s[i];
        proof {
            assert(s@.take(i + 1).drop_last() =~= s@.take(i as int));
            assert(s@.take(i + 1).last() == c);
            lemma_rows_push(out@, cur);
        }
        if c == '\n' {
            out.push(cur);
            cur = Vec::new();
        } else {
            cur.push(c);
        }
        i += 1;
    }
    proof {
        assert(s@.take(i as int) == s@);
        lemma_rows_push(out@, cur);
    }
    if cur.len() > 0 {
        out.push(cur);
    }
    out
}

/// Whether the word has an `e` in it.
pub fn has_mark(w: &Vec<char>) -> (r: bool)
    ensures
        r == marked(w@),
{
    let mut i: usize = 0;
    while i < w.len()
        invariant
            i <= w.len(),
            forall|j: int| 0 <= j < i ==> w[j] != 'e',
        decreases w.len() - i,
    {
        if w[i] == 'e' {
            return true;
        }
        i += 1;
    }
    false
}

/// The pieces with `sep` between each two of them.
pub fn join_chars(ws: &Vec<Vec<char>>, sep: char) -> (r: Vec<char>)
    ensures
        r@ == join(rows(ws@), sep),
{
    let mut out: Vec<char> = Vec::new();
    let mut i: usize = 0;
    while i < ws.len()
        invariant
            i <= ws.len(),
            out@ == join(rows(ws@).take(i as int), sep),
        decreases ws.len() - i,
    {
        proof {
            let cur = rows(ws@).take(i + 1);
            assert(cur.drop_last() =~= rows(ws@).take(i as int));
            assert(cur.last() == ws[i as int]@);
            if i == 0 {
                assert(cur[0] == ws[0]@);
            }
        }
        if i > 0 {
            out.push(sep);
        }
        let w = &ws[i];
        let ghost start = out@;
        let mut j: usize = 0;
        while j < w.len()
            invariant
                j <= w.len(),
                out@ == start + w@.take(j as int),
            decreases w.len() - j,
        {
            out.push(w[j]);
            assert(w@.take(j + 1) =~= w@.take(j as int).push(w[j as int]));
            j += 1;
        }
        assert(w@.take(j as int) == w@);
        assert(i == 0 ==> out@ =~= w@);
        i += 1;
    }
    proof {
        assert(rows(ws@).take(i as int) == rows(ws@));
    }
    out
}

/// A count of marked words as the machine holds it: exact below the
/// largest index, and the largest index from there on.
pub open spec fn clipped(k: int) -> int {
    if k >= usize::MAX { usize::MAX as int } else { k }
}

fn copy_chars(w: &Vec<char>) -> (r: Vec<char>)
    ensures
        r@ == w@,
{
    let mut out: Vec<char> = Vec::new();
    let mut j: usize = 0;
    while j < w.len()
        invariant
            j <= w.len(),
            out@ == w@.take(j as int),
        decreases w.len() - j,
    {
        out.push(w[j]);
        assert(w@.take(j + 1) =~= w@.take(j as int).push(w[j as int]));
        j += 1;
    }
    assert(w@.take(j as int) == w@);
    out
}

/// The word after rewriting: the rendering at `k` where there is one and
/// the word is marked, else the word itself.
fn fix_one(w: &Vec<char>, k: usize, Ghost(count): Ghost<int>, plain: &Vec<Option<String>>) -> (r: Vec<char>)
    requires
        0 <= count,
        k == clipped(count),
    ensures
        r@ == fix_word(w@, count, renderings(plain@)),
{
    if has_mark(w) && k < plain.len() {
        match &plain[k] {
            Some(s) => chars_of(s.as_str()),
            None => copy_chars(w),
        }
    } else {
        copy_chars(w)
    }
}

fn fix_chars(line: &Vec<char>, from: usize, Ghost(count): Ghost<int>, plain: &Vec<Option<String>>) -> (r: (Vec<char>, usize))
    requires
        0 <= count,
        from == clipped(count),
    ensures
        r.0@ == fix_line_spec(line@, count, renderings(plain@)),
        r.1 == clipped(count + marks(words(line@))),
{
    let ws = split_words(line);
    let ghost all = fix_words(rows(ws@), count, renderings(plain@));
    let mut fixed: Vec<Vec<char>> = Vec::new();
    let mut k: usize = from;
    let mut i: usize = 0;
    assert(rows(fixed@) =~= all.take(0));
    while i < ws.len()
        invariant
            i <= ws.len(),
            0 <= count,
            all == fix_words(rows(ws@), count, renderings(plain@)),
            rows(fixed@) == all.take(i as int),
            k == clipped(count + marks(rows(ws@).take(i as int))),
        decreases ws.len() - i,
    {
        let w = &ws[i];
        let ghost seen = count + marks(rows(ws@).take(i as int));
        proof {
            let cur = rows(ws@).take(i + 1);
            assert(cur.drop_last() =~= rows(ws@).take(i as int));
            assert(cur.last() == w@);
        }
        let one = fix_one(w, k, Ghost(seen), plain);
        proof {
            lemma_rows_push(fixed@, one);
            assert(all.take(i + 1) =~= all.take(i as int).push(one@));
        }
        fixed.push(one);
        if has_mark(w) && k < usize::MAX {
            k += 1;
        }
        i += 1;
    }
    proof {
        assert(rows(ws@).take(i as int) == rows(ws@));
        assert(all.take(i as int) == all);
    }
    (join_chars(&fixed, ' '), k)
}

/// The words of a text that have an `e` in them, line by line, in their
/// order: the words that [`fix_all`] may rewrite.
pub fn exponent_words(t: &str) -> (r: Vec<String>)
    ensures
        texts(r@) == picked_lines(lines(t@)),
{
    let chars = chars_of(t);
    let ls = split_lines(&chars);
    let mut out: Vec<String> = Vec::new();
    let mut i: usize = 0;
    assert(texts(out@) =~= picked_lines(rows(ls@).take(0)));
    while i < ls.len()
        invariant
            i <= ls.len(),
            texts(out@) == picked_lines(rows(ls@).take(i as int)),
        decreases ls.len() - i,
    {
        let ws = split_words(&ls[i]);
        let ghost before = texts(out@);
        proof {
            let cur = rows(ls@).take(i + 1);
            assert(cur.drop_last() =~= rows(ls@).take(i as int));
            assert(cur.last() == ls[i as int]@);
        }
        let mut j: usize = 0;
        assert(picked(rows(ws@).take(0)) =~= Seq::<Seq<char>>::empty());
        assert(before + picked(rows(ws@).take(0)) =~= before);
        while j < ws.len()
            invariant
                j <= ws.len(),
                texts(out@) == before + picked(rows(ws@).take(j as int)),
            decreases ws.len() - j,
        {
            let w = &ws[j];
            proof {
                let cur = rows(ws@).take(j + 1);
                assert(cur.drop_last() =~= rows(ws@).take(j as int));
                assert(cur.last() == w@);
            }
            if has_mark(w) {
                let word = string_of(w);
                proof {
                    let kept = picked(rows(ws@).take(j as int));
                    assert(texts(out@.push(word)) =~= (before + kept).push(w@));
                    assert((before + kept).push(w@) =~= before + kept.push(w@));
                }
                out.push(word);
            }
            j += 1;
        }
        proof {
            assert(rows(ws@).take(j as int) == rows(ws@));
        }
        i += 1;
    }
    proof {
        assert(rows(ls@).take(i as int) == rows(ls@));
    }
    out
}

/// Rewrites one line: each word with an `e` in it gives way to its
/// rendering in `plain`, where there is one, and one space stands between
/// each two words. The renderings are those of the marked words of the
/// line, in their order.
pub fn fix_line(t: &str, plain: &Vec<Option<String>>) -> (r: String)
    ensures
        r@ == fix_line_spec(t@, 0, renderings(plain@)),
{
    let chars = chars_of(t);
    let (fixed, _) = fix_chars(&chars, 0, Ghost(0), plain);
    string_of(&fixed)
}

/// Rewrites a text line by line, with one line feed between each two
/// lines. The renderings are those of the words that [`exponent_words`]
/// gives for the text, in their order.
pub fn fix_all(t: &str, plain: &Vec<Option<String>>) -> (r: String)
    ensures
        r@ == fix_all_spec(t@, renderings(plain@)),
{
    let chars = chars_of(t);
    let ls = split_lines(&chars);
    let mut out: Vec<Vec<char>> = Vec::new();
    let mut k: usize = 0;
    let mut i: usize = 0;
    assert(rows(out@) =~= fix_lines(rows(ls@).take(0), renderings(plain@)));
    while i < ls.len()
        invariant
            i <= ls.len(),
            rows(out@) == fix_lines(rows(ls@).take(i as int), renderings(plain@)),
            k == clipped(line_marks(rows(ls@).take(i as int)) as int),
        decreases ls.len() - i,
    {
        let ghost seen = line_marks(rows(ls@).take(i as int)) as int;
        proof {
            let cur = rows(ls@).take(i + 1);
            assert(cur.drop_last() =~= rows(ls@).take(i as int));
            assert(cur.last() == ls[i as int]@);
        }
        let (fixed, next) = fix_chars(&ls[i], k, Ghost(seen), plain);
        proof {
            lemma_rows_push(out@, fixed);
        }
        out.push(fixed);
        k = next;
        i += 1;
    }
    proof {
        assert(rows(ls@).take(i as int) == rows(ls@));
    }
    let joined = join_chars(&out, '\n');
    string_of(&joined)
}

/// A word is never empty and holds no whitespace.
pub proof fn lemma_words_are_runs(s: Seq<char>, i: int)
    requires
        0 <= i < words(s).len(),
    ensures
        words(s)[i].len() > 0,
        forall|j: int| 0 <= j < words(s)[i].len() ==> !is_space(#[trigger] words(s)[i][j]),
{
    lemma_open_word_is_run(s);
    if i < closed_words(s).len() {
        lemma_closed_words_are_runs(s, i);
    }
}

proof fn lemma_open_word_is_run(s: Seq<char>)
    ensures
        forall|j: int| 0 <= j < open_word(s).len() ==> !is_space(#[trigger] open_word(s)[j]),
    decreases s.len(),
{
    if s.len() > 0 && !is_space(s.last()) {
        let pre = open_word(s.drop_last());
        lemma_open_word_is_run(s.drop_last());
        assert forall|j: int| 0 <= j < open_word(s).len() implies !is_space(
            #[trigger] open_word(s)[j],
        ) by {
            if j < pre.len() {
                assert(open_word(s)[j] == pre[j]);
            }
        }
    }
}

proof fn lemma_closed_words_are_runs(s: Seq<char>, i: int)
    requires
        0 <= i < closed_words(s).len(),
    ensures
        closed_words(s)[i].len() > 0,
        forall|j: int|
            0 <= j < closed_words(s)[i].len() ==> !is_space(#[trigger] closed_words(s)[i][j]),
    decreases s.len(),
{
    let pre = s.drop_last();
    if is_space(s.last()) && open_word(pre).len() > 0 {
        if i < closed_words(pre).len() {
            lemma_closed_words_are_runs(pre, i);
        } else {
            lemma_open_word_is_run(pre);
        }
    } else {
        lemma_closed_words_are_runs(pre, i);
    }
}

/// There are as many picked words as marks, and the marked word at place
/// `i` is the picked word whose index is the number of marks before it:
/// that is the rendering which rewriting gives to it.
pub proof fn lemma_picked_place(ws: Seq<Seq<char>>, i: int)
    requires
        0 <= i < ws.len(),
        marked(ws[i]),
    ensures
        picked(ws).len() == marks(ws),
        marks(ws.take(i)) < marks(ws),
        picked(ws)[marks(ws.take(i)) as int] == ws[i],
    decreases ws.len(),
{
    lemma_picked_len(ws);
    let pre = ws.drop_last();
    lemma_picked_len(pre);
    if i == ws.len() - 1 {
        assert(ws.take(i) == pre);
    } else {
        lemma_picked_place(pre, i);
        assert(pre.take(i) == ws.take(i));
    }
}

/// There are as many picked words as marks.
pub proof fn lemma_picked_len(ws: Seq<Seq<char>>)
    ensures
        picked(ws).len() == marks(ws),
    decreases ws.len(),
{
    if ws.len() > 0 {
        lemma_picked_len(ws.drop_last());
    }
}

/// The picked words of lines are as many as the marks of the lines, and
/// the marked word at place `i` of line `j` is the picked word whose index
/// is the number of marks before it, in the lines above and in its own.
pub proof fn lemma_picked_lines_place(ls: Seq<Seq<char>>, j: int, i: int)
    requires
        0 <= j < ls.len(),
        0 <= i < words(ls[j]).len(),
        marked(words(ls[j])[i]),
    ensures
        picked_lines(ls).len() == line_marks(ls),
        line_marks(ls.take(j)) + marks(words(ls[j]).take(i)) < line_marks(ls),
        picked_lines(ls)[(line_marks(ls.take(j)) + marks(words(ls[j]).take(i))) as int] == words(
            ls[j],
        )[i],
    decreases ls.len(),
{
    lemma_picked_lines_len(ls);
    let pre = ls.drop_last();
    lemma_picked_lines_len(pre);
    lemma_picked_len(words(ls.last()));
    if j == ls.len() - 1 {
        assert(ls.take(j) == pre);
        lemma_picked_place(words(ls[j]), i);
    } else {
        lemma_picked_lines_place(pre, j, i);
        assert(pre.take(j) == ls.take(j));
    }
}

/// The picked words of lines are as many as the marks of the lines.
pub proof fn lemma_picked_lines_len(ls: Seq<Seq<char>>)
    ensures
        picked_lines(ls).len() == line_marks(ls),
    decreases ls.len(),
{
    if ls.len() > 0 {
        lemma_picked_lines_len(ls.drop_last());
        lemma_picked_len(words(ls.last()));
    }
}

/// Without a rendering no word changes: rewriting then only puts one
/// space between each two words.
pub proof fn lemma_unrendered_words_stay(ws: Seq<Seq<char>>, from: int, plain: Seq<Option<Seq<char>>>)
    requires
        forall|k: int| 0 <= k < plain.len() ==> plain[k] is None,
    ensures
        fix_words(ws, from, plain) == ws,
{
    assert(fix_words(ws, from, plain) =~= ws);
}

/// A run: characters without whitespace, one at least.
pub open spec fn is_run(w: Seq<char>) -> bool {
    w.len() > 0 && forall|j: int| 0 <= j < w.len() ==> !is_space(#[trigger] w[j])
}

proof fn lemma_append_unspaced(s: Seq<char>, w: Seq<char>)
    requires
        forall|j: int| 0 <= j < w.len() ==> !is_space(#[trigger] w[j]),
    ensures
        open_word(s + w) == open_word(s) + w,
        closed_words(s + w) == closed_words(s),
    decreases w.len(),
{
    if w.len() == 0 {
        assert(s + w =~= s);
        assert(open_word(s) + w =~= open_word(s));
    } else {
        let pre = w.drop_last();
        lemma_append_unspaced(s, pre);
        assert((s + w).drop_last() =~= s + pre);
        assert((s + w).last() == w.last());
        assert(open_word(s) + w =~= (open_word(s) + pre).push(w.last()));
    }
}

/// Runs that are joined with one space between each two of them are the
/// words of what they are joined to.
pub proof fn lemma_words_of_joined(ws: Seq<Seq<char>>)
    requires
        forall|i: int| 0 <= i < ws.len() ==> is_run(#[trigger] ws[i]),
    ensures
        words(join(ws, ' ')) == ws,
    decreases ws.len(),
{
    let none = Seq::<char>::empty();
    if ws.len() == 0 {
        assert(words(join(ws, ' ')) =~= ws);
    } else if ws.len() == 1 {
        let w = ws[0];
        assert(is_run(w));
        lemma_append_unspaced(none, w);
        assert(none + w =~= w);
        assert(words(w) =~= ws);
    } else {
        let pre = ws.drop_last();
        let w = ws.last();
        assert(is_run(w));
        assert forall|i: int| 0 <= i < pre.len() implies is_run(#[trigger] pre[i]) by {
            assert(pre[i] == ws[i]);
        }
        lemma_words_of_joined(pre);
        let joined = join(pre, ' ');
        let s = joined.push(' ');
        assert(s.drop_last() =~= joined);
        assert(s.last() == ' ');
        assert(is_space(' '));
        assert(open_word(s) == none);
        assert(closed_words(s) == words(joined));
        lemma_append_unspaced(s, w);
        assert(none + w =~= w);
        assert(pre.push(w) =~= ws);
    }
}

/// A rewritten line is settled: its words are the rewritten words, and
/// rewriting it once more, without renderings, changes nothing. The
/// renderings are runs, as the plain forms of numbers are.
pub proof fn lemma_fix_line_settles(t: Seq<char>, from: int, plain: Seq<Option<Seq<char>>>)
    requires
        forall|k: int| 0 <= k < plain.len() && plain[k] is Some ==> is_run(#[trigger] plain[k]->0),
    ensures
        words(fix_line_spec(t, from, plain)) == fix_words(words(t), from, plain),
        fix_line_spec(fix_line_spec(t, from, plain), 0, Seq::empty()) == fix_line_spec(
            t,
            from,
            plain,
        ),
{
    let ws = words(t);
    let fixed = fix_words(ws, from, plain);
    assert forall|i: int| 0 <= i < fixed.len() implies is_run(#[trigger] fixed[i]) by {
        lemma_words_are_runs(t, i);
        let k = from + marks(ws.take(i));
        if marked(ws[i]) && 0 <= k < plain.len() && plain[k] is Some {
            assert(is_run(plain[k]->0));
        }
    }
    lemma_words_of_joined(fixed);
    lemma_unrendered_words_stay(fixed, 0, Seq::empty());
}

} // verus!
