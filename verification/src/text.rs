//! Character-level text utilities: Unicode whitespace, word splitting,
//! greedy line wrapping and small string builders.
use vstd::prelude::*;
use vstd::string::*;

verus! {

broadcast use vstd::string::group_string_axioms;

/// The Unicode `White_Space` property, as listed in PropList.txt.
pub open spec fn is_white_space(c: char) -> bool {
    let n = c as u32;
    ||| (0x09 <= n && n <= 0x0d)
    ||| n == 0x20
    ||| n == 0x85
    ||| n == 0xa0
    ||| n == 0x1680
    ||| (0x2000 <= n && n <= 0x200a)
    ||| n == 0x2028
    ||| n == 0x2029
    ||| n == 0x202f
    ||| n == 0x205f
    ||| n == 0x3000
}

/// Whether `c` has the Unicode `White_Space` property.
pub fn is_whitespace(c: char) -> (r: bool)
    ensures
        r == is_white_space(c),
{
    let n = c as u32;
    (0x09 <= n && n <= 0x0d) || n == 0x20 || n == 0x85 || n == 0xa0 || n == 0x1680 || (0x2000
        <= n && n <= 0x200a) || n == 0x2028 || n == 0x2029 || n == 0x202f || n == 0x205f || n
        == 0x3000
}

/// The characters of `s`, in order.
pub fn chars_of(s: &str) -> (r: Vec<char>)
    ensures
        r@ == s@,
{
    let mut v: Vec<char> = Vec::new();
    for c in it: s.chars()
        invariant
            v@ == it.seq().take(it.index() as int),
    {
        v.push(c);
    }
    v
}


/// Appends one character to a string.
#[verifier::external_body]
pub(crate) fn push_char(s: &mut String, c: char)
    ensures
        final(s)@ == old(s)@.push(c),
{
    s.push(c);
}

/// Builds a string holding exactly the characters of `cs`.
pub fn string_from_chars(cs: &Vec<char>) -> (r: String)
    ensures
        r@ == cs@,
{
    let mut r = String::new();
    let mut i: usize = 0;
    while i < cs.len()
        invariant
            i <= cs@.len(),
            r@ == cs@.take(i as int),
        decreases cs@.len() - i,
    {
        push_char(&mut r, cs[i]);
        i += 1;
        assert(cs@.take(i as int) == cs@.take(i - 1).push(cs@[i - 1]));
    }
    assert(cs@.take(cs@.len() as int) == cs@);
    r
}

/// The maximal runs of non-whitespace characters of `s`, in order.
pub open spec fn words(s: Seq<char>) -> Seq<Seq<char>>
    decreases s.len(),
{
    if s.len() == 0 {
        Seq::empty()
    } else {
        let p = s.drop_last();
        let c = s.last();
        let w = words(p);
        if is_white_space(c) {
            w
        } else if p.len() > 0 && !is_white_space(p.last()) && w.len() > 0 {
            w.update(w.len() - 1, w.last().push(c))
        } else {
            w.push(seq![c])
        }
    }
}

/// One step of the greedy wrapper: `lines` are the finished lines, `cur` the
/// line being filled (empty when none is open), `word` the next word.
pub open spec fn wrap_step(
    lines: Seq<Seq<char>>,
    cur: Seq<char>,
    word: Seq<char>,
    width: nat,
) -> (Seq<Seq<char>>, Seq<char>) {
    if cur.len() == 0 {
        if word.len() > width {
            (lines.push(word), cur)
        } else {
            (lines, word)
        }
    } else if cur.len() + 1 + word.len() <= width {
        (lines, cur + seq![' '] + word)
    } else if word.len() > width {
        (lines.push(cur).push(word), Seq::empty())
    } else {
        (lines.push(cur), word)
    }
}

/// The greedy wrapper run over a list of words.
pub open spec fn wrap_fold(ws: Seq<Seq<char>>, width: nat) -> (Seq<Seq<char>>, Seq<char>)
    decreases ws.len(),
{
    if ws.len() == 0 {
        (Seq::empty(), Seq::empty())
    } else {
        let st = wrap_fold(ws.drop_last(), width);
        wrap_step(st.0, st.1, ws.last(), width)
    }
}

/// The finished lines of a wrapper state, with the open line closed.
pub open spec fn finish_lines(st: (Seq<Seq<char>>, Seq<char>)) -> Seq<Seq<char>> {
    if st.1.len() > 0 {
        st.0.push(st.1)
    } else {
        st.0
    }
}

/// The lines that wrapping `s` at `width` produces.
pub open spec fn wrapped_lines(s: Seq<char>, width: nat) -> Seq<Seq<char>> {
    finish_lines(wrap_fold(words(s), width))
}

/// The lines joined with `sep` between each two of them.
pub open spec fn join_with(lines: Seq<Seq<char>>, sep: char) -> Seq<char>
    decreases lines.len(),
{
    if lines.len() == 0 {
        Seq::empty()
    } else if lines.len() == 1 {
        lines[0]
    } else {
        join_with(lines.drop_last(), sep) + seq![sep] + lines.last()
    }
}

/// Text wrapped at `width` characters: unchanged for width 0, otherwise the
/// wrapped lines joined by newlines.
pub open spec fn wrap_text_spec(s: Seq<char>, width: nat) -> Seq<char> {
    if width == 0 {
        s
    } else {
        join_with(wrapped_lines(s, width), '\n')
    }
}

/// The views of a list of character vectors.
pub open spec fn views(v: Seq<Vec<char>>) -> Seq<Seq<char>> {
    v.map_values(|l: Vec<char>| l@)
}

/// If the text ends in a non-whitespace character, its word list is not empty.
pub proof fn lemma_words_nonempty(s: Seq<char>)
    requires
        s.len() > 0,
        !is_white_space(s.last()),
    ensures
        words(s).len() > 0,
    decreases s.len(),
{
}

fn wrap_push_word(lines: &mut Vec<Vec<char>>, cur: &mut Vec<char>, word: Vec<char>, width: usize)
    ensures
        (views(final(lines)@), final(cur)@) == wrap_step(
            views(old(lines)@),
            old(cur)@,
            word@,
            width as nat,
        ),
{
    let ghost l0 = views(lines@);
    let ghost c0 = cur@;
    if cur.len() == 0 {
        if word.len() > width {
            lines.push(word);
            assert(views(lines@) == l0.push(word@));
        } else {
            *cur = word;
        }
    } else if cur.len() < width && word.len() <= width - cur.len() - 1 {
        cur.push(' ');
        let mut w = word;
        cur.append(&mut w);
        assert(cur@ == c0 + seq![' '] + word@);
    } else {
        let mut line: Vec<char> = Vec::new();
        std::mem::swap(&mut line, cur);
        lines.push(line);
        if word.len() > width {
            lines.push(word);
            assert(views(lines@) == l0.push(c0).push(word@));
        } else {
            *cur = word;
            assert(views(lines@) == l0.push(c0));
        }
    }
}


/// Appends the characters of `src` to `out`.
pub(crate) fn append_chars(out: &mut Vec<char>, src: &Vec<char>)
    ensures
        final(out)@ == old(out)@ + src@,
{
    let mut j: usize = 0;
    while j < src.len()
        invariant
            j <= src@.len(),
            out@ == old(out)@ + src@.take(j as int),
        decreases src@.len() - j,
    {
        out.push(src[j]);
        j += 1;
        assert(src@.take(j as int) == src@.take(j - 1).push(src@[j - 1]));
    }
    assert(src@.take(src@.len() as int) == src@);
}

/// The lines joined by `sep`, as characters.
pub(crate) fn join_chars(lines: &Vec<Vec<char>>, sep: char) -> (r: Vec<char>)
    ensures
        r@ == join_with(views(lines@), sep),
{
    let mut out: Vec<char> = Vec::new();
    let mut k: usize = 0;
    while k < lines.len()
        invariant
            k <= lines@.len(),
            out@ == join_with(views(lines@).take(k as int), sep),
        decreases lines@.len() - k,
    {
        let ghost before = views(lines@).take(k as int);
        if k > 0 {
            out.push(sep);
        }
        append_chars(&mut out, &lines[k]);
        k += 1;
        proof {
            let now = views(lines@).take(k as int);
            assert(now.drop_last() == before);
            assert(now.last() == lines@[k - 1]@);
        }
    }
    assert(views(lines@).take(lines@.len() as int) == views(lines@));
    out
}

/// Greedy word wrapping: words (maximal runs of non-whitespace) are packed
/// into lines of at most `max_width` characters, separated by single spaces;
/// a word longer than `max_width` stands alone on its own line. Lines are
/// joined by `'\n'`. A width of 0 leaves the text unchanged.
pub fn wrap_text(s: &str, max_width: usize) -> (r: String)
    ensures
        r@ == wrap_text_spec(s@, max_width as nat),
{
    if max_width == 0 {
        return s.to_string();
    }
    let cs = chars_of(s);
    let mut lines: Vec<Vec<char>> = Vec::new();
    let mut cur: Vec<char> = Vec::new();
    let mut word: Vec<char> = Vec::new();
    let mut i: usize = 0;
    while i < cs.len()
        invariant
            i <= cs@.len(),
            cs@ == s@,
            word@.len() == 0 ==> (views(lines@), cur@) == wrap_fold(
                words(cs@.take(i as int)),
                max_width as nat,
            ) && (i == 0 || is_white_space(cs@[i - 1])),
            word@.len() > 0 ==> {
                &&& i > 0
                &&& !is_white_space(cs@[i - 1])
                &&& words(cs@.take(i as int)).len() > 0
                &&& word@ == words(cs@.take(i as int)).last()
                &&& (views(lines@), cur@) == wrap_fold(
                    words(cs@.take(i as int)).drop_last(),
                    max_width as nat,
                )
            },
        decreases cs@.len() - i,
    {
        let c = cs[i];
        let ghost p = cs@.take(i as int);
        let ghost q = cs@.take(i + 1);
        assert(q.drop_last() == p);
        assert(q.last() == c);
        if is_whitespace(c) {
            if word.len() > 0 {
                let mut taken: Vec<char> = Vec::new();
                std::mem::swap(&mut taken, &mut word);
                wrap_push_word(&mut lines, &mut cur, taken, max_width);
            }
        } else {
            let ghost w0 = word@;
            word.push(c);
            proof {
                let wp = words(p);
                if w0.len() > 0 {
                    assert(words(q) == wp.update(wp.len() - 1, wp.last().push(c)));
                    assert(words(q).drop_last() == wp.drop_last());
                } else {
                    assert(words(q) == wp.push(seq![c]));
                    assert(words(q).drop_last() == wp);
                }
            }
        }
        i += 1;
    }
    assert(cs@.take(cs@.len() as int) == cs@);
    if word.len() > 0 {
        let mut taken: Vec<char> = Vec::new();
        std::mem::swap(&mut taken, &mut word);
        wrap_push_word(&mut lines, &mut cur, taken, max_width);
    }
    if cur.len() > 0 {
        let ghost l0 = views(lines@);
        lines.push(cur);
        assert(views(lines@) == l0.push(cur@));
    }
    let out = join_chars(&lines, '\n');
    string_from_chars(&out)
}


/// A word: at least one character, none of them whitespace.
pub open spec fn is_word(w: Seq<char>) -> bool {
    &&& w.len() > 0
    &&& forall|j: int| 0 <= j < w.len() ==> !is_white_space(#[trigger] w[j])
}

/// Every character is either non-whitespace or a plain space.
pub open spec fn only_spaces(l: Seq<char>) -> bool {
    forall|j: int| 0 <= j < l.len() ==> (!is_white_space(#[trigger] l[j]) || l[j] == ' ')
}

/// Every element of `ws` is a word.
pub open spec fn all_words(ws: Seq<Seq<char>>) -> bool {
    forall|k: int| 0 <= k < ws.len() ==> is_word(#[trigger] ws[k])
}

/// The word list of any text is made of words.
pub proof fn lemma_words_are_words(s: Seq<char>)
    ensures
        all_words(words(s)),
    decreases s.len(),
{
    if s.len() > 0 {
        let p = s.drop_last();
        let c = s.last();
        lemma_words_are_words(p);
        let w = words(p);
        if is_white_space(c) {
        } else if p.len() > 0 && !is_white_space(p.last()) && w.len() > 0 {
            let n = w.last().push(c);
            assert(is_word(w.last()));
            assert forall|j: int| 0 <= j < n.len() implies !is_white_space(#[trigger] n[j]) by {
                if j < w.last().len() {
                    assert(n[j] == w.last()[j]);
                }
            }
            assert forall|k: int| 0 <= k < words(s).len() implies is_word(#[trigger] words(s)[k]) by {
                if k < w.len() - 1 {
                    assert(words(s)[k] == w[k]);
                }
            }
        } else {
            assert forall|k: int| 0 <= k < words(s).len() implies is_word(#[trigger] words(s)[k]) by {
                if k < w.len() {
                    assert(words(s)[k] == w[k]);
                } else {
                    assert(words(s)[k] == seq![c]);
                }
            }
        }
    }
}

/// A single word splits into itself.
pub proof fn lemma_words_of_word(w: Seq<char>)
    requires
        is_word(w),
    ensures
        words(w) == seq![w],
    decreases w.len(),
{
    let p = w.drop_last();
    let c = w.last();
    assert(!is_white_space(w[w.len() - 1]));
    if p.len() == 0 {
        assert(words(p) == Seq::<Seq<char>>::empty());
        assert(seq![c] == w);
    } else {
        assert forall|j: int| 0 <= j < p.len() implies !is_white_space(#[trigger] p[j]) by {
            assert(p[j] == w[j]);
        }
        lemma_words_of_word(p);
        assert(!is_white_space(w[p.len() - 1]));
        assert(p.push(c) == w);
    }
}

/// Splitting at a whitespace character splits the word list.
pub proof fn lemma_words_split(a: Seq<char>, c: char, b: Seq<char>)
    requires
        is_white_space(c),
    ensures
        words(a + seq![c] + b) == words(a) + words(b),
    decreases b.len(),
{
    let x = a + seq![c] + b;
    if b.len() == 0 {
        assert(x.drop_last() == a);
        assert(x.last() == c);
        assert(words(b) == Seq::<Seq<char>>::empty());
        assert(words(a) + words(b) == words(a));
    } else {
        let bp = b.drop_last();
        let d = b.last();
        let y = a + seq![c] + bp;
        lemma_words_split(a, c, bp);
        assert(x.drop_last() == y);
        assert(x.last() == d);
        let wa = words(a);
        let wb = words(bp);
        if is_white_space(d) {
        } else if bp.len() > 0 && !is_white_space(bp.last()) {
            assert(y.last() == bp.last());
            lemma_words_nonempty(bp);
            assert(words(y) == wa + wb);
            let wy = words(y);
            assert(wy.update(wy.len() - 1, wy.last().push(d)) == wa + wb.update(
                wb.len() - 1,
                wb.last().push(d),
            ));
        } else {
            if bp.len() == 0 {
                assert(y.last() == c);
            } else {
                assert(y.last() == bp.last());
            }
            assert((wa + wb).push(seq![d]) == wa + wb.push(seq![d]));
        }
    }
}

/// Words joined by a whitespace separator split back into the same words.
pub proof fn lemma_words_join(ws: Seq<Seq<char>>, sep: char)
    requires
        all_words(ws),
        is_white_space(sep),
    ensures
        words(join_with(ws, sep)) == ws,
    decreases ws.len(),
{
    if ws.len() == 0 {
        assert(words(Seq::<char>::empty()) == Seq::<Seq<char>>::empty());
    } else if ws.len() == 1 {
        assert(is_word(ws[0]));
        lemma_words_of_word(ws[0]);
        assert(seq![ws[0]] == ws);
    } else {
        let init = ws.drop_last();
        assert forall|k: int| 0 <= k < init.len() implies is_word(#[trigger] init[k]) by {
            assert(init[k] == ws[k]);
        }
        lemma_words_join(init, sep);
        assert(is_word(ws[ws.len() - 1]));
        lemma_words_of_word(ws.last());
        lemma_words_split(join_with(init, sep), sep, ws.last());
        assert(init + seq![ws.last()] == ws);
    }
}

/// What one wrapper step keeps: line shapes, widths and the text's words.
pub open spec fn fold_ok(st: (Seq<Seq<char>>, Seq<char>), ws: Seq<Seq<char>>, width: nat) -> bool {
    &&& forall|k: int| 0 <= k < st.0.len() ==> (#[trigger] st.0[k]).len() > 0
    &&& forall|k: int|
        0 <= k < st.0.len() ==> (#[trigger] st.0[k]).len() <= width || ws.contains(st.0[k])
    &&& forall|k: int| 0 <= k < st.0.len() ==> only_spaces(#[trigger] st.0[k])
    &&& st.1.len() <= width
    &&& only_spaces(st.1)
    &&& words(join_with(finish_lines(st), '\n')) == ws
}

proof fn lemma_word_only_spaces(w: Seq<char>)
    requires
        is_word(w),
    ensures
        only_spaces(w),
{
    assert forall|j: int| 0 <= j < w.len() implies (!is_white_space(#[trigger] w[j]) || w[j]
        == ' ') by {}
}

proof fn lemma_join_push(l: Seq<Seq<char>>, x: Seq<char>, sep: char)
    ensures
        join_with(l.push(x), sep) == if l.len() == 0 {
            x
        } else {
            join_with(l, sep) + seq![sep] + x
        },
{
    assert(l.push(x).drop_last() == l);
    if l.len() == 0 {
        assert(l.push(x)[0] == x);
    }
}

/// The greedy wrapper keeps `fold_ok` at every step.
pub proof fn lemma_wrap_fold(ws: Seq<Seq<char>>, width: nat)
    requires
        all_words(ws),
        width > 0,
    ensures
        fold_ok(wrap_fold(ws, width), ws, width),
    decreases ws.len(),
{
    if ws.len() == 0 {
        assert(join_with(Seq::<Seq<char>>::empty(), '\n') == Seq::<char>::empty());
        assert(words(Seq::<char>::empty()) == Seq::<Seq<char>>::empty());
        assert(ws == Seq::<Seq<char>>::empty());
    } else {
        let init = ws.drop_last();
        let word = ws.last();
        assert forall|k: int| 0 <= k < init.len() implies is_word(#[trigger] init[k]) by {
            assert(init[k] == ws[k]);
        }
        assert(is_word(ws[ws.len() - 1]));
        lemma_wrap_fold(init, width);
        lemma_word_only_spaces(word);
        lemma_words_of_word(word);
        let st = wrap_fold(init, width);
        let lines = st.0;
        let cur = st.1;
        let nst = wrap_fold(ws, width);
        assert(nst == wrap_step(lines, cur, word, width));
        assert(init.push(word) == ws);
        assert forall|x: Seq<char>| init.contains(x) implies ws.contains(x) by {
            let j = choose|j: int| 0 <= j < init.len() && init[j] == x;
            assert(ws[j] == x);
        }
        assert(ws.contains(word)) by {
            assert(ws[ws.len() - 1] == word);
        }
        let f = finish_lines(st);
        let jf = join_with(f, '\n');
        let nf = finish_lines(nst);
        if cur.len() == 0 {
            assert(f == lines);
            if word.len() > width {
                assert(nf == lines.push(word));
            } else {
                assert(nf == lines.push(word));
            }
            lemma_join_push(lines, word, '\n');
            assert(words(jf) == init);
            if lines.len() == 0 {
                assert(jf == Seq::<char>::empty());
                assert(init.len() == 0) by {
                    assert(words(Seq::<char>::empty()) == Seq::<Seq<char>>::empty());
                }
                assert(seq![word] == ws);
            } else {
                lemma_words_split(jf, '\n', word);
                assert(join_with(nf, '\n') == jf + seq!['\n'] + word);
            }
            assert(words(join_with(nf, '\n')) == ws);
            assert forall|k: int| 0 <= k < nst.0.len() implies (#[trigger] nst.0[k]).len() > 0
                && ((#[trigger] nst.0[k]).len() <= width || ws.contains(nst.0[k])) && only_spaces(
                nst.0[k],
            ) by {
                if k < lines.len() {
                    assert(nst.0[k] == lines[k]);
                }
            }
        } else if cur.len() + 1 + word.len() <= width {
            let ncur = cur + seq![' '] + word;
            assert(f == lines.push(cur));
            assert(nf == lines.push(ncur));
            lemma_join_push(lines, cur, '\n');
            lemma_join_push(lines, ncur, '\n');
            if lines.len() == 0 {
                assert(join_with(nf, '\n') == jf + seq![' '] + word);
            } else {
                assert(join_with(nf, '\n') == jf + seq![' '] + word);
            }
            lemma_words_split(jf, ' ', word);
            assert(words(join_with(nf, '\n')) == ws);
            assert forall|j: int| 0 <= j < ncur.len() implies (!is_white_space(#[trigger] ncur[j])
                || ncur[j] == ' ') by {
                if j < cur.len() {
                    assert(ncur[j] == cur[j]);
                } else if j > cur.len() {
                    assert(ncur[j] == word[j - cur.len() - 1]);
                }
            }
        } else {
            assert(f == lines.push(cur));
            assert(nst.0.len() > 0);
            if word.len() > width {
                assert(nf == lines.push(cur).push(word));
            } else {
                assert(nf == lines.push(cur).push(word));
            }
            lemma_join_push(f, word, '\n');
            lemma_words_split(jf, '\n', word);
            assert(words(join_with(nf, '\n')) == ws);
            assert forall|k: int| 0 <= k < nst.0.len() implies (#[trigger] nst.0[k]).len() > 0
                && ((#[trigger] nst.0[k]).len() <= width || ws.contains(nst.0[k])) && only_spaces(
                nst.0[k],
            ) by {
                if k < lines.len() {
                    assert(nst.0[k] == lines[k]);
                } else if k == lines.len() {
                    assert(nst.0[k] == cur);
                } else {
                    assert(nst.0[k] == word);
                }
            }
        }
    }
}


/// Wrapping at width 0 gives the text back unchanged.
pub proof fn law_wrap_zero_width(s: Seq<char>)
    ensures
        wrap_text_spec(s, 0) == s,
{
}

/// For a positive width, the output is the wrapped lines joined by newlines;
/// no line is empty or holds a newline, and every line fits the width unless
/// it is a single word of the text that is itself longer than the width.
pub proof fn law_wrap_line_width(s: Seq<char>, width: nat)
    requires
        width > 0,
    ensures
        wrap_text_spec(s, width) == join_with(wrapped_lines(s, width), '\n'),
        forall|k: int|
            0 <= k < wrapped_lines(s, width).len() ==> {
                let line = #[trigger] wrapped_lines(s, width)[k];
                &&& line.len() > 0
                &&& line.len() <= width || (words(s).contains(line) && is_word(line))
                &&& forall|j: int| 0 <= j < line.len() ==> line[j] != '\n'
            },
{
    let ws = words(s);
    lemma_words_are_words(s);
    lemma_wrap_fold(ws, width);
    let st = wrap_fold(ws, width);
    let lines = wrapped_lines(s, width);
    assert(is_white_space('\n'));
    assert forall|k: int| 0 <= k < lines.len() implies {
        let line = #[trigger] lines[k];
        &&& line.len() > 0
        &&& line.len() <= width || (ws.contains(line) && is_word(line))
        &&& forall|j: int| 0 <= j < line.len() ==> line[j] != '\n'
    } by {
        let line = lines[k];
        if k < st.0.len() {
            assert(line == st.0[k]);
            if line.len() > width {
                let i = choose|i: int| 0 <= i < ws.len() && ws[i] == line;
                assert(is_word(ws[i]));
            }
        } else {
            assert(line == st.1);
        }
        assert(only_spaces(line));
        assert forall|j: int| 0 <= j < line.len() implies line[j] != '\n' by {
            assert(!is_white_space(line[j]) || line[j] == ' ');
        }
    }
}

/// Wrapping changes only whitespace: the words of the output are exactly the
/// words of the input, in the same order.
pub proof fn law_wrap_keeps_words(s: Seq<char>, width: nat)
    ensures
        words(wrap_text_spec(s, width)) == words(s),
{
    if width > 0 {
        lemma_words_are_words(s);
        lemma_wrap_fold(words(s), width);
    }
}

/// The length of the first word of a line: its characters before the first
/// space.
pub open spec fn first_word_len(l: Seq<char>) -> nat
    decreases l.len(),
{
    if l.len() == 0 || l[0] == ' ' {
        0
    } else {
        1 + first_word_len(l.drop_first())
    }
}

/// The first word of a line: its characters before the first space.
pub open spec fn first_word(l: Seq<char>) -> Seq<char> {
    l.take(first_word_len(l) as int)
}

proof fn lemma_first_word_len_bound(l: Seq<char>)
    ensures
        first_word_len(l) <= l.len(),
    decreases l.len(),
{
    if l.len() > 0 && l[0] != ' ' {
        lemma_first_word_len_bound(l.drop_first());
    }
}

proof fn lemma_first_word_len_word(w: Seq<char>)
    requires
        forall|j: int| 0 <= j < w.len() ==> !is_white_space(#[trigger] w[j]),
    ensures
        first_word_len(w) == w.len(),
    decreases w.len(),
{
    if w.len() > 0 {
        assert(is_white_space(' '));
        assert(w[0] != ' ');
        let t = w.drop_first();
        assert forall|j: int| 0 <= j < t.len() implies !is_white_space(#[trigger] t[j]) by {
            assert(t[j] == w[j + 1]);
        }
        lemma_first_word_len_word(t);
    }
}

proof fn lemma_first_word_len_append(x: Seq<char>, y: Seq<char>)
    requires
        x.len() > 0,
    ensures
        first_word_len(x + y) == if first_word_len(x) < x.len() {
            first_word_len(x)
        } else {
            x.len() + first_word_len(y)
        },
    decreases x.len(),
{
    lemma_first_word_len_bound(x);
    if x[0] != ' ' {
        assert((x + y).drop_first() == x.drop_first() + y);
        if x.len() > 1 {
            lemma_first_word_len_append(x.drop_first(), y);
        } else {
            assert(x.drop_first() + y == y);
        }
    }
}

/// What the greedy wrapper keeps between two lines: no line could have taken
/// the first word of the line after it, and a line that ended with nothing
/// open after it holds a single over-long word.
pub open spec fn fold_greedy(st: (Seq<Seq<char>>, Seq<char>), width: nat) -> bool {
    &&& forall|k: int|
        0 <= k < st.0.len() - 1 ==> (#[trigger] st.0[k]).len() + 1 + first_word_len(st.0[k + 1])
            > width
    &&& st.0.len() > 0 && st.1.len() > 0 ==> st.0.last().len() + 1 + first_word_len(st.1) > width
    &&& st.0.len() > 0 && st.1.len() == 0 ==> st.0.last().len() > width
}

proof fn lemma_wrap_fold_greedy(ws: Seq<Seq<char>>, width: nat)
    requires
        all_words(ws),
        width > 0,
    ensures
        fold_greedy(wrap_fold(ws, width), width),
    decreases ws.len(),
{
    if ws.len() > 0 {
        let init = ws.drop_last();
        let word = ws.last();
        assert forall|k: int| 0 <= k < init.len() implies is_word(#[trigger] init[k]) by {
            assert(init[k] == ws[k]);
        }
        assert(is_word(ws[ws.len() - 1]));
        lemma_wrap_fold_greedy(init, width);
        lemma_first_word_len_word(word);
        let st = wrap_fold(init, width);
        let lines = st.0;
        let cur = st.1;
        let nst = wrap_fold(ws, width);
        assert(nst == wrap_step(lines, cur, word, width));
        if cur.len() == 0 {
            if word.len() > width {
                let n = lines.push(word);
                assert forall|k: int| 0 <= k < n.len() - 1 implies (#[trigger] n[k]).len() + 1
                    + first_word_len(n[k + 1]) > width by {
                    assert(n[k] == lines[k]);
                    if k + 1 < lines.len() {
                        assert(n[k + 1] == lines[k + 1]);
                    } else {
                        assert(n[k + 1] == word);
                    }
                }
            }
        } else if cur.len() + 1 + word.len() <= width {
            lemma_first_word_len_append(cur, seq![' '] + word);
            lemma_first_word_len_bound(cur);
            assert(cur + seq![' '] + word == cur + (seq![' '] + word));
            assert((seq![' '] + word)[0] == ' ');
            assert(first_word_len(seq![' '] + word) == 0);
            assert(first_word_len(cur + seq![' '] + word) == first_word_len(cur));
            assert(fold_greedy(nst, width));
        } else if word.len() > width {
            let n = lines.push(cur).push(word);
            assert forall|k: int| 0 <= k < n.len() - 1 implies (#[trigger] n[k]).len() + 1
                + first_word_len(n[k + 1]) > width by {
                if k + 1 < lines.len() {
                    assert(n[k] == lines[k] && n[k + 1] == lines[k + 1]);
                } else if k + 1 == lines.len() {
                    assert(n[k] == lines[k] && n[k + 1] == cur);
                } else {
                    assert(n[k] == cur && n[k + 1] == word);
                }
            }
        } else {
            let n = lines.push(cur);
            assert forall|k: int| 0 <= k < n.len() - 1 implies (#[trigger] n[k]).len() + 1
                + first_word_len(n[k + 1]) > width by {
                if k + 1 < lines.len() {
                    assert(n[k] == lines[k] && n[k + 1] == lines[k + 1]);
                } else {
                    assert(n[k] == lines[k] && n[k + 1] == cur);
                }
            }
        }
    }
}

/// Wrapping is greedy on every line: no line could also have held the first
/// word of the next line, since that word with the space before it would
/// have made the line longer than the width.
pub proof fn law_wrap_greedy(s: Seq<char>, width: nat)
    requires
        width > 0,
    ensures
        forall|k: int|
            0 <= k < wrapped_lines(s, width).len() - 1 ==> (#[trigger] wrapped_lines(s, width)[k]).len()
                + 1 + first_word(wrapped_lines(s, width)[k + 1]).len() > width,
{
    lemma_words_are_words(s);
    lemma_wrap_fold_greedy(words(s), width);
    let st = wrap_fold(words(s), width);
    let l = wrapped_lines(s, width);
    assert forall|k: int| 0 <= k < l.len() - 1 implies (#[trigger] l[k]).len() + 1 + first_word(
        l[k + 1],
    ).len() > width by {
        lemma_first_word_len_bound(l[k + 1]);
        if st.1.len() > 0 {
            assert(l == st.0.push(st.1));
            if k + 1 < st.0.len() {
                assert(l[k] == st.0[k] && l[k + 1] == st.0[k + 1]);
            } else {
                assert(l[k] == st.0[k] && l[k + 1] == st.1);
            }
        } else {
            assert(l[k] == st.0[k] && l[k + 1] == st.0[k + 1]);
        }
    }
}

proof fn lemma_fold_fitting(ws: Seq<Seq<char>>, width: nat)
    requires
        all_words(ws),
        width > 0,
        join_with(ws, ' ').len() <= width,
    ensures
        wrap_fold(ws, width) == (Seq::<Seq<char>>::empty(), join_with(ws, ' ')),
    decreases ws.len(),
{
    if ws.len() > 0 {
        let init = ws.drop_last();
        let word = ws.last();
        assert forall|k: int| 0 <= k < init.len() implies is_word(#[trigger] init[k]) by {
            assert(init[k] == ws[k]);
        }
        assert(is_word(ws[ws.len() - 1]));
        lemma_join_push(init, word, ' ');
        assert(init.push(word) == ws);
        lemma_fold_fitting(init, width);
        if init.len() > 0 {
            assert(is_word(init[init.len() - 1]));
            lemma_join_push(init.drop_last(), init.last(), ' ');
            assert(init.drop_last().push(init.last()) == init);
        }
    }
}

/// Text that already is its words separated by single spaces, and that fits
/// the width, comes back unchanged.
pub proof fn law_wrap_fitting_text_unchanged(s: Seq<char>, width: nat)
    requires
        s == join_with(words(s), ' '),
        s.len() <= width,
    ensures
        wrap_text_spec(s, width) == s,
{
    if width > 0 {
        lemma_words_are_words(s);
        lemma_fold_fitting(words(s), width);
        let st = wrap_fold(words(s), width);
        if s.len() > 0 {
            assert(wrapped_lines(s, width) == seq![s]);
        } else {
            assert(wrapped_lines(s, width) == Seq::<Seq<char>>::empty());
        }
    }
}


/// `s` without its leading whitespace.
pub open spec fn trim_start(s: Seq<char>) -> Seq<char>
    decreases s.len(),
{
    if s.len() > 0 && is_white_space(s[0]) {
        trim_start(s.drop_first())
    } else {
        s
    }
}

/// `s` without its trailing whitespace.
pub open spec fn trim_end(s: Seq<char>) -> Seq<char>
    decreases s.len(),
{
    if s.len() > 0 && is_white_space(s.last()) {
        trim_end(s.drop_last())
    } else {
        s
    }
}

/// `s` without leading and trailing whitespace.
pub open spec fn trim(s: Seq<char>) -> Seq<char> {
    trim_end(trim_start(s))
}

/// Whether every character of `s` is whitespace (the empty text included).
pub open spec fn is_blank(s: Seq<char>) -> bool {
    forall|j: int| 0 <= j < s.len() ==> is_white_space(#[trigger] s[j])
}

/// A text trims to nothing exactly when it is blank.
pub proof fn lemma_trim_empty_iff_blank(s: Seq<char>)
    ensures
        (trim(s).len() == 0) == is_blank(s),
    decreases s.len(),
{
    if s.len() > 0 && is_white_space(s[0]) {
        lemma_trim_empty_iff_blank(s.drop_first());
        assert(trim(s) == trim(s.drop_first()));
        if is_blank(s.drop_first()) {
            assert forall|j: int| 0 <= j < s.len() implies is_white_space(#[trigger] s[j]) by {
                if j > 0 {
                    assert(s[j] == s.drop_first()[j - 1]);
                }
            }
        } else {
            let j = choose|j: int| 0 <= j < s.drop_first().len() && !is_white_space(s.drop_first()[j]);
            assert(s[j + 1] == s.drop_first()[j]);
        }
    } else if s.len() > 0 {
        assert(trim_start(s) == s);
        lemma_trim_end_keeps_first(s);
        assert(!is_white_space(s[0]));
    }
}

proof fn lemma_trim_end_keeps_first(s: Seq<char>)
    requires
        s.len() > 0,
        !is_white_space(s[0]),
    ensures
        trim_end(s).len() > 0,
    decreases s.len(),
{
    if is_white_space(s.last()) {
        assert(s.len() > 1);
        assert(s.drop_last()[0] == s[0]);
        lemma_trim_end_keeps_first(s.drop_last());
    }
}

/// Whether `s` holds only whitespace (or nothing at all).
pub fn is_blank_str(s: &str) -> (r: bool)
    ensures
        r == is_blank(s@),
        r == (trim(s@).len() == 0),
{
    proof {
        lemma_trim_empty_iff_blank(s@);
    }
    let cs = chars_of(s);
    let mut i: usize = 0;
    while i < cs.len()
        invariant
            i <= cs@.len(),
            cs@ == s@,
            forall|j: int| 0 <= j < i ==> is_white_space(#[trigger] cs@[j]),
        decreases cs@.len() - i,
    {
        if !is_whitespace(cs[i]) {
            assert(!is_white_space(s@[i as int]));
            assert(!is_blank(s@));
            proof {
                lemma_trim_empty_iff_blank(s@);
            }
            return false;
        }
        i += 1;
    }
    true
}

/// The characters of `s` with leading and trailing whitespace removed.
pub fn trim_chars(cs: &Vec<char>) -> (r: Vec<char>)
    ensures
        r@ == trim(cs@),
{
    let n = cs.len();
    let mut lo: usize = 0;
    assert(cs@.subrange(0, n as int) == cs@);
    while lo < n && is_whitespace(cs[lo])
        invariant
            lo <= n,
            n == cs@.len(),
            trim_start(cs@) == trim_start(cs@.subrange(lo as int, n as int)),
        decreases n - lo,
    {
        assert(cs@.subrange(lo as int, n as int).drop_first() == cs@.subrange(lo + 1, n as int));
        lo += 1;
    }
    let ghost t = cs@.subrange(lo as int, n as int);
    assert(trim_start(cs@) == t);
    let mut hi: usize = n;
    while hi > lo && is_whitespace(cs[hi - 1])
        invariant
            lo <= hi <= n,
            n == cs@.len(),
            t == cs@.subrange(lo as int, n as int),
            trim_end(t) == trim_end(cs@.subrange(lo as int, hi as int)),
        decreases hi - lo,
    {
        assert(cs@.subrange(lo as int, hi as int).drop_last() == cs@.subrange(
            lo as int,
            hi - 1,
        ));
        hi -= 1;
    }
    let mut r: Vec<char> = Vec::new();
    let mut k: usize = lo;
    while k < hi
        invariant
            lo <= k <= hi <= n,
            n == cs@.len(),
            r@ == cs@.subrange(lo as int, k as int),
        decreases hi - k,
    {
        r.push(cs[k]);
        k += 1;
    }
    r
}

/// `s` with leading and trailing whitespace removed.
pub fn trim_str(s: &str) -> (r: String)
    ensures
        r@ == trim(s@),
{
    let cs = chars_of(s);
    let t = trim_chars(&cs);
    string_from_chars(&t)
}

/// The pieces of `s` between occurrences of `sep`; empty pieces included.
pub open spec fn split_on(s: Seq<char>, sep: char) -> Seq<Seq<char>>
    decreases s.len(),
{
    if s.len() == 0 {
        seq![Seq::empty()]
    } else {
        let parts = split_on(s.drop_last(), sep);
        if s.last() == sep {
            parts.push(Seq::empty())
        } else {
            parts.update(parts.len() - 1, parts.last().push(s.last()))
        }
    }
}

proof fn lemma_split_on_nonempty(s: Seq<char>, sep: char)
    ensures
        split_on(s, sep).len() > 0,
    decreases s.len(),
{
    if s.len() > 0 {
        lemma_split_on_nonempty(s.drop_last(), sep);
    }
}

/// The trimmed pieces that are not empty, in order.
pub open spec fn nonblank_trimmed(parts: Seq<Seq<char>>) -> Seq<Seq<char>>
    decreases parts.len(),
{
    if parts.len() == 0 {
        Seq::empty()
    } else {
        let rest = nonblank_trimmed(parts.drop_last());
        let t = trim(parts.last());
        if t.len() > 0 {
            rest.push(t)
        } else {
            rest
        }
    }
}

/// The comma-separated entries of `s`, trimmed, with empty entries dropped.
pub open spec fn tag_list(s: Seq<char>) -> Seq<Seq<char>> {
    nonblank_trimmed(split_on(s, ','))
}

proof fn lemma_nonblank_trimmed_filter(parts: Seq<Seq<char>>)
    ensures
        nonblank_trimmed(parts) == parts.filter(|p: Seq<char>| trim(p).len() > 0).map_values(
            |p: Seq<char>| trim(p),
        ),
    decreases parts.len(),
{
    reveal(Seq::filter);
    if parts.len() > 0 {
        lemma_nonblank_trimmed_filter(parts.drop_last());
        let f = |p: Seq<char>| trim(p).len() > 0;
        let g = |p: Seq<char>| trim(p);
        let sub = parts.drop_last().filter(f);
        assert(parts.filter(f) == if f(parts.last()) {
            sub.push(parts.last())
        } else {
            sub
        });
        if f(parts.last()) {
            assert(sub.push(parts.last()).map_values(g) =~= sub.map_values(g).push(trim(parts.last())));
        }
    }
}

/// The tags of a comma-separated list are its entries, in order, each with
/// its surrounding whitespace removed, leaving out the entries that are blank;
/// in particular every entry that is not blank, the last one included, is
/// among the tags.
pub proof fn law_tags_are_the_nonblank_entries(s: Seq<char>)
    ensures
        tag_list(s) == split_on(s, ',').filter(|p: Seq<char>| trim(p).len() > 0).map_values(
            |p: Seq<char>| trim(p),
        ),
        forall|i: int|
            0 <= i < split_on(s, ',').len() && trim(#[trigger] split_on(s, ',')[i]).len() > 0
                ==> tag_list(s).contains(trim(split_on(s, ',')[i])),
        forall|j: int| 0 <= j < tag_list(s).len() ==> (#[trigger] tag_list(s)[j]).len() > 0,
{
    let parts = split_on(s, ',');
    let f = |p: Seq<char>| trim(p).len() > 0;
    let g = |p: Seq<char>| trim(p);
    lemma_nonblank_trimmed_filter(parts);
    let fl = parts.filter(f);
    broadcast use vstd::seq_lib::group_filter_ensures;
    assert forall|i: int| 0 <= i < parts.len() && trim(#[trigger] parts[i]).len() > 0 implies tag_list(
        s,
    ).contains(trim(parts[i])) by {
        assert(f(parts[i]));
        assert(fl.contains(parts[i]));
        let j = choose|j: int| 0 <= j < fl.len() && fl[j] == parts[i];
        assert(fl.map_values(g)[j] == trim(parts[i]));
    }
    assert forall|j: int| 0 <= j < tag_list(s).len() implies (#[trigger] tag_list(s)[j]).len() > 0 by {
        assert(f(fl[j]));
        assert(tag_list(s)[j] == trim(fl[j]));
    }
}

/// The views of a list of strings.
pub open spec fn string_views(v: Seq<String>) -> Seq<Seq<char>> {
    v.map_values(|x: String| x@)
}

/// The pieces of `cs` between occurrences of `sep`, empty pieces included.
pub fn split_chars(cs: &Vec<char>, sep: char) -> (r: Vec<Vec<char>>)
    ensures
        views(r@) == split_on(cs@, sep),
{
    let mut pieces: Vec<Vec<char>> = Vec::new();
    let mut cur: Vec<char> = Vec::new();
    let mut i: usize = 0;
    while i < cs.len()
        invariant
            i <= cs@.len(),
            split_on(cs@.take(i as int), sep) == views(pieces@).push(cur@),
        decreases cs@.len() - i,
    {
        let c = cs[i];
        let ghost q = cs@.take(i + 1);
        assert(q.drop_last() == cs@.take(i as int));
        if c == sep {
            let mut done: Vec<char> = Vec::new();
            std::mem::swap(&mut done, &mut cur);
            let ghost before = views(pieces@);
            pieces.push(done);
            assert(views(pieces@) == before.push(done@));
        } else {
            cur.push(c);
        }
        i += 1;
    }
    assert(cs@.take(cs@.len() as int) == cs@);
    let ghost before = views(pieces@);
    pieces.push(cur);
    assert(views(pieces@) == before.push(cur@));
    pieces
}

/// Splits `s` at commas, trims every entry and drops the empty ones.
pub fn parse_tags(s: &str) -> (r: Vec<String>)
    ensures
        string_views(r@) == tag_list(s@),
{
    let cs = chars_of(s);
    let pieces = split_chars(&cs, ',');
    let mut r: Vec<String> = Vec::new();
    let mut k: usize = 0;
    while k < pieces.len()
        invariant
            k <= pieces@.len(),
            views(pieces@) == split_on(s@, ','),
            string_views(r@) == nonblank_trimmed(views(pieces@).take(k as int)),
        decreases pieces@.len() - k,
    {
        let t = trim_chars(&pieces[k]);
        let ghost before_r = string_views(r@);
        let ghost pre = views(pieces@).take(k as int);
        let ghost post = views(pieces@).take(k + 1);
        assert(post.drop_last() == pre);
        assert(post.last() == pieces@[k as int]@);
        if t.len() > 0 {
            let ts = string_from_chars(&t);
            r.push(ts);
            assert(string_views(r@) == before_r.push(t@));
        }
        k += 1;
    }
    assert(views(pieces@).take(pieces@.len() as int) == views(pieces@));
    r
}

/// The parts joined with `sep` between each two of them.
pub open spec fn join_sep(parts: Seq<Seq<char>>, sep: Seq<char>) -> Seq<char>
    decreases parts.len(),
{
    if parts.len() == 0 {
        Seq::empty()
    } else if parts.len() == 1 {
        parts[0]
    } else {
        join_sep(parts.drop_last(), sep) + sep + parts.last()
    }
}

/// The strings joined with `sep` between each two of them.
pub fn join_strings(parts: &Vec<String>, sep: &str) -> (r: String)
    ensures
        r@ == join_sep(string_views(parts@), sep@),
{
    let mut out = String::new();
    let mut k: usize = 0;
    while k < parts.len()
        invariant
            k <= parts@.len(),
            out@ == join_sep(string_views(parts@).take(k as int), sep@),
        decreases parts@.len() - k,
    {
        let ghost pre = string_views(parts@).take(k as int);
        if k > 0 {
            out.append(sep);
        }
        out.append(parts[k].as_str());
        k += 1;
        proof {
            let post = string_views(parts@).take(k as int);
            assert(post.drop_last() == pre);
            assert(post.last() == parts@[k - 1]@);
            if k == 1 {
                assert(post[0] == parts@[0]@);
            }
        }
    }
    assert(string_views(parts@).take(parts@.len() as int) == string_views(parts@));
    out
}

/// The placeholder shown for an empty value.
pub open spec fn dash() -> Seq<char> {
    seq!['\u{2014}']
}

/// `s` itself, or a dash when `s` is blank.
pub fn display_or_dash(s: String) -> (r: String)
    ensures
        r@ == if is_blank(s@) {
            dash()
        } else {
            s@
        },
{
    if is_blank_str(s.as_str()) {
        let mut d = String::new();
        push_char(&mut d, '\u{2014}');
        d
    } else {
        s
    }
}

/// The decimal digit for `d` (below 10).
pub open spec fn digit_char(d: nat) -> char {
    if d == 0 { '0' } else if d == 1 { '1' } else if d == 2 { '2' } else if d == 3 { '3' }
    else if d == 4 { '4' } else if d == 5 { '5' } else if d == 6 { '6' } else if d == 7 { '7' }
    else if d == 8 { '8' } else { '9' }
}

/// The decimal representation of `n`, without leading zeros.
pub open spec fn decimal(n: nat) -> Seq<char>
    decreases n,
{
    if n < 10 {
        seq![digit_char(n)]
    } else {
        decimal(n / 10).push(digit_char(n % 10))
    }
}

/// The decimal representation of a signed integer.
pub open spec fn signed_decimal(n: int) -> Seq<char> {
    if n < 0 {
        seq!['-'] + decimal((-n) as nat)
    } else {
        decimal(n as nat)
    }
}

fn digit(d: u64) -> (c: char)
    requires
        d < 10,
    ensures
        c == digit_char(d as nat),
{
    if d == 0 { '0' } else if d == 1 { '1' } else if d == 2 { '2' } else if d == 3 { '3' }
    else if d == 4 { '4' } else if d == 5 { '5' } else if d == 6 { '6' } else if d == 7 { '7' }
    else if d == 8 { '8' } else { '9' }
}

/// Appends the decimal representation of `n` to `out`.
pub fn push_decimal(out: &mut String, n: u64)
    ensures
        final(out)@ == old(out)@ + decimal(n as nat),
    decreases n,
{
    if n < 10 {
        push_char(out, digit(n));
        assert(old(out)@.push(digit_char(n as nat)) == old(out)@ + seq![digit_char(n as nat)]);
    } else {
        push_decimal(out, n / 10);
        push_char(out, digit(n % 10));
    }
}

/// The decimal representation of `n`.
pub fn decimal_string(n: u64) -> (r: String)
    ensures
        r@ == decimal(n as nat),
{
    let mut s = String::new();
    push_decimal(&mut s, n);
    s
}

/// The decimal representation of a signed `n`, with a leading `-` when negative.
pub fn signed_decimal_string(n: i64) -> (r: String)
    ensures
        r@ == signed_decimal(n as int),
{
    let mut s = String::new();
    if n < 0 {
        push_char(&mut s, '-');
        let m: u64 = (-(n as i128)) as u64;
        push_decimal(&mut s, m);
    } else {
        push_decimal(&mut s, n as u64);
    }
    s
}


/// Texts in lexicographic order of their characters (a proper prefix first),
/// which is also the byte order of their UTF-8 encodings.
pub open spec fn chars_lt(a: Seq<char>, b: Seq<char>) -> bool
    decreases a.len(),
{
    if a.len() == 0 || b.len() == 0 {
        a.len() == 0 && b.len() > 0
    } else if a[0] != b[0] {
        a[0] < b[0]
    } else {
        chars_lt(a.drop_first(), b.drop_first())
    }
}

/// The character order is irreflexive.
pub proof fn lemma_chars_lt_irreflexive(a: Seq<char>)
    ensures
        !chars_lt(a, a),
    decreases a.len(),
{
    if a.len() > 0 {
        lemma_chars_lt_irreflexive(a.drop_first());
    }
}

/// The character order is transitive.
pub proof fn lemma_chars_lt_transitive(a: Seq<char>, b: Seq<char>, c: Seq<char>)
    requires
        chars_lt(a, b),
        chars_lt(b, c),
    ensures
        chars_lt(a, c),
    decreases a.len(),
{
    if a.len() > 0 && b.len() > 0 && c.len() > 0 {
        if a[0] == b[0] && b[0] == c[0] {
            lemma_chars_lt_transitive(a.drop_first(), b.drop_first(), c.drop_first());
        }
    }
}

/// Two different texts are ordered one way or the other.
pub proof fn lemma_chars_lt_total(a: Seq<char>, b: Seq<char>)
    requires
        a != b,
    ensures
        chars_lt(a, b) || chars_lt(b, a),
    decreases a.len(),
{
    if a.len() == 0 {
        if b.len() == 0 {
            assert(a =~= b);
        }
    } else if b.len() == 0 {
    } else if a[0] == b[0] {
        if a.drop_first() == b.drop_first() {
            assert(a =~= seq![a[0]] + a.drop_first());
            assert(b =~= seq![b[0]] + b.drop_first());
        }
        lemma_chars_lt_total(a.drop_first(), b.drop_first());
    }
}

/// Whether text `a` sorts before text `b`.
pub fn str_less(a: &str, b: &str) -> (r: bool)
    ensures
        r == chars_lt(a@, b@),
{
    let x = chars_of(a);
    let y = chars_of(b);
    let mut i: usize = 0;
    assert(x@.skip(0) == x@);
    assert(y@.skip(0) == y@);
    while i < x.len() && i < y.len()
        invariant
            i <= x@.len(),
            i <= y@.len(),
            x@ == a@,
            y@ == b@,
            chars_lt(a@, b@) == chars_lt(x@.skip(i as int), y@.skip(i as int)),
        decreases x@.len() - i,
    {
        let c = x[i];
        let d = y[i];
        assert(x@.skip(i as int)[0] == c);
        assert(y@.skip(i as int)[0] == d);
        if c != d {
            return c < d;
        }
        assert(x@.skip(i as int).drop_first() == x@.skip(i + 1));
        assert(y@.skip(i as int).drop_first() == y@.skip(i + 1));
        i += 1;
    }
    i == x.len() && i < y.len()
}

/// Texts in non-decreasing order.
pub open spec fn sorted_texts(s: Seq<Seq<char>>) -> bool {
    forall|i: int, j: int| 0 <= i < j < s.len() ==> !chars_lt(#[trigger] s[j], #[trigger] s[i])
}

/// The strings sorted in increasing order.
pub fn sort_strings(v: Vec<String>) -> (r: Vec<String>)
    ensures
        sorted_texts(string_views(r@)),
        string_views(r@).to_multiset() == string_views(v@).to_multiset(),
{
    let mut out: Vec<String> = Vec::new();
    let mut i: usize = 0;
    assert(string_views(v@).take(0) =~= Seq::<Seq<char>>::empty());
    assert(string_views(out@) =~= Seq::<Seq<char>>::empty());
    while i < v.len()
        invariant
            i <= v@.len(),
            sorted_texts(string_views(out@)),
            string_views(out@).to_multiset() == string_views(v@).take(i as int).to_multiset(),
        decreases v@.len() - i,
    {
        let x = v[i].clone();
        let mut j: usize = 0;
        while j < out.len() && !str_less(x.as_str(), out[j].as_str())
            invariant
                j <= out@.len(),
                forall|k: int| 0 <= k < j ==> !chars_lt(x@, #[trigger] out@[k]@),
            decreases out@.len() - j,
        {
            j += 1;
        }
        let ghost old_out = string_views(out@);
        out.insert(j, x);
        proof {
            let n = string_views(out@);
            assert(n == old_out.insert(j as int, x@));
            assert forall|a: int, b: int| 0 <= a < b < n.len() implies !chars_lt(
                #[trigger] n[b],
                #[trigger] n[a],
            ) by {
                if b < j {
                    assert(n[a] == old_out[a] && n[b] == old_out[b]);
                } else if b == j {
                    assert(n[a] == old_out[a]);
                } else if a == j {
                    assert(n[b] == old_out[b - 1]);
                    if b - 1 > j {
                        assert(!chars_lt(old_out[b - 1], old_out[j as int]));
                    }
                    if chars_lt(old_out[b - 1], x@) {
                        lemma_chars_lt_transitive(old_out[b - 1], x@, old_out[j as int]);
                        if b - 1 == j {
                            lemma_chars_lt_irreflexive(old_out[j as int]);
                        }
                    }
                } else if a < j {
                    assert(n[a] == old_out[a] && n[b] == old_out[b - 1]);
                } else {
                    assert(n[a] == old_out[a - 1] && n[b] == old_out[b - 1]);
                }
            }
            assert(string_views(v@).take(i + 1) == string_views(v@).take(i as int).push(x@));
            vstd::seq_lib::to_multiset_insert(old_out, j as int, x@);
            vstd::seq_lib::to_multiset_build(string_views(v@).take(i as int), x@);
            assert(string_views(v@).take(i as int).push(x@).to_multiset() == string_views(
                v@,
            ).take(i as int).to_multiset().insert(x@));
        }
        i += 1;
    }
    assert(string_views(v@).take(v@.len() as int) == string_views(v@));
    out
}


/// Whether two texts are equal.
pub fn str_eq(a: &str, b: &str) -> (r: bool)
    ensures
        r == (a@ == b@),
{
    let x = chars_of(a);
    let y = chars_of(b);
    if x.len() != y.len() {
        return false;
    }
    let mut i: usize = 0;
    while i < x.len()
        invariant
            i <= x@.len(),
            x@.len() == y@.len(),
            x@ == a@,
            y@ == b@,
            forall|j: int| 0 <= j < i ==> x@[j] == y@[j],
        decreases x@.len() - i,
    {
        if x[i] != y[i] {
            return false;
        }
        i += 1;
    }
    assert(x@ =~= y@);
    true
}

/// The first `n` characters of `s` (all of them when it is shorter).
pub fn truncate_chars(s: &str, n: usize) -> (r: String)
    ensures
        r@ == if s@.len() > n {
            s@.take(n as int)
        } else {
            s@
        },
{
    let cs = chars_of(s);
    if cs.len() <= n {
        return s.to_string();
    }
    let mut v: Vec<char> = Vec::new();
    let mut i: usize = 0;
    while i < n
        invariant
            i <= n < cs@.len(),
            v@ == cs@.take(i as int),
        decreases n - i,
    {
        v.push(cs[i]);
        i += 1;
        assert(cs@.take(i as int) == cs@.take(i - 1).push(cs@[i - 1]));
    }
    string_from_chars(&v)
}

} // verus!
