use vstd::prelude::*;

verus! {

/// An ASCII letter or digit: the characters that words are made of.
pub open spec fn is_word_char(c: char) -> bool {
    ('a' <= c && c <= 'z') || ('A' <= c && c <= 'Z') || ('0' <= c && c <= '9')
}

/// A lowercase ASCII letter or an ASCII digit: the characters of a folded word.
pub open spec fn is_folded_word_char(c: char) -> bool {
    ('a' <= c && c <= 'z') || ('0' <= c && c <= '9')
}

/// ASCII case folding of one character; every other character is kept.
pub open spec fn fold_char(c: char) -> char {
    if 'A' <= c && c <= 'Z' {
        ((c as u32) + 32) as char
    } else {
        c
    }
}

/// A line with every ASCII capital replaced by its small letter.
pub open spec fn fold_line(s: Seq<char>) -> Seq<char> {
    s.map_values(|c: char| fold_char(c))
}

/// The run of word characters at the end of `s` (empty where `s` ends in a delimiter).
pub open spec fn open_word(s: Seq<char>) -> Seq<char>
    decreases s.len(),
{
    if s.len() == 0 {
        seq![]
    } else if is_word_char(s.last()) {
        open_word(s.drop_last()).push(s.last())
    } else {
        seq![]
    }
}

/// `ws` followed by `w`, where `w` is a word at all.
pub open spec fn flush(ws: Seq<Seq<char>>, w: Seq<char>) -> Seq<Seq<char>> {
    if w.len() > 0 {
        ws.push(w)
    } else {
        ws
    }
}

/// The words of `s` that a delimiter inside `s` has already ended.
pub open spec fn closed_words(s: Seq<char>) -> Seq<Seq<char>>
    decreases s.len(),
{
    if s.len() == 0 {
        seq![]
    } else if is_word_char(s.last()) {
        closed_words(s.drop_last())
    } else {
        flush(closed_words(s.drop_last()), open_word(s.drop_last()))
    }
}

/// The maximal non-empty runs of word characters of `s`, in order.
pub open spec fn words_of(s: Seq<char>) -> Seq<Seq<char>> {
    flush(closed_words(s), open_word(s))
}

/// The tokens of one line: the words of its folded form.
pub open spec fn line_tokens(line: Seq<char>) -> Seq<Seq<char>> {
    words_of(fold_line(line))
}

/// The tokens of all lines, line after line.
pub open spec fn all_tokens(lines: Seq<Seq<char>>) -> Seq<Seq<char>>
    decreases lines.len(),
{
    if lines.len() == 0 {
        seq![]
    } else {
        all_tokens(lines.drop_last()) + line_tokens(lines.last())
    }
}

/// The views of a sequence of strings.
pub open spec fn views(v: Seq<String>) -> Seq<Seq<char>> {
    v.map_values(|s: String| s@)
}

/// A non-empty word of small ASCII letters and digits.
pub open spec fn is_folded_word(w: Seq<char>) -> bool {
    w.len() > 0 && forall|i: int| 0 <= i < w.len() ==> is_folded_word_char(#[trigger] w[i])
}

/// A text in which every word character is already folded.
pub open spec fn is_folded_text(s: Seq<char>) -> bool {
    forall|i: int| 0 <= i < s.len() && is_word_char(#[trigger] s[i]) ==> is_folded_word_char(s[i])
}

proof fn lemma_words_folded(s: Seq<char>)
    requires
        is_folded_text(s),
    ensures
        forall|i: int| 0 <= i < open_word(s).len() ==> is_folded_word_char(#[trigger] open_word(s)[i]),
        forall|j: int| 0 <= j < closed_words(s).len() ==> is_folded_word(#[trigger] closed_words(s)[j]),
    decreases s.len(),
{
    if s.len() > 0 {
        let p = s.drop_last();
        assert(is_folded_text(p)) by {
            assert forall|i: int| 0 <= i < p.len() && is_word_char(#[trigger] p[i]) implies is_folded_word_char(p[i]) by {
                assert(p[i] == s[i]);
            }
        }
        lemma_words_folded(p);
        let o = open_word(p);
        let cw = closed_words(p);
        if is_word_char(s.last()) {
            assert(is_folded_word_char(s[s.len() - 1]));
            assert(open_word(s) == o.push(s.last()));
            assert forall|i: int| 0 <= i < open_word(s).len() implies is_folded_word_char(#[trigger] open_word(s)[i]) by {
                if i < o.len() {
                    assert(open_word(s)[i] == o[i]);
                }
            }
        } else if o.len() > 0 {
            assert(is_folded_word(o));
            assert(closed_words(s) == cw.push(o));
            assert forall|j: int| 0 <= j < closed_words(s).len() implies is_folded_word(#[trigger] closed_words(s)[j]) by {
                if j < cw.len() {
                    assert(closed_words(s)[j] == cw[j]);
                }
            }
        }
    }
}

/// Every token of a line is a non-empty word of small ASCII letters and digits.
pub proof fn lemma_line_tokens_folded(line: Seq<char>)
    ensures
        forall|j: int| 0 <= j < line_tokens(line).len() ==> is_folded_word(#[trigger] line_tokens(line)[j]),
{
    let f = fold_line(line);
    assert(is_folded_text(f));
    lemma_words_folded(f);
}

/// Every token of a sequence of lines is a non-empty word of small ASCII letters and digits.
pub proof fn lemma_all_tokens_folded(lines: Seq<Seq<char>>)
    ensures
        forall|j: int| 0 <= j < all_tokens(lines).len() ==> is_folded_word(#[trigger] all_tokens(lines)[j]),
    decreases lines.len(),
{
    if lines.len() > 0 {
        lemma_all_tokens_folded(lines.drop_last());
        lemma_line_tokens_folded(lines.last());
        let a = all_tokens(lines.drop_last());
        let b = line_tokens(lines.last());
        assert forall|j: int| 0 <= j < all_tokens(lines).len() implies is_folded_word(#[trigger] all_tokens(lines)[j]) by {
            if j < a.len() {
                assert(all_tokens(lines)[j] == a[j]);
            } else {
                assert(all_tokens(lines)[j] == b[j - a.len()]);
            }
        }
    }
}

/// A non-empty run of characters none of which is a word character.
pub open spec fn is_delimiter_run(d: Seq<char>) -> bool {
    d.len() > 0 && forall|i: int| 0 <= i < d.len() ==> !is_word_char(#[trigger] d[i])
}

proof fn lemma_after_delimiters(a: Seq<char>, d: Seq<char>)
    requires
        is_delimiter_run(d),
    ensures
        closed_words(a + d) == words_of(a),
        open_word(a + d) == Seq::<char>::empty(),
    decreases d.len(),
{
    let p = d.drop_last();
    assert((a + d).drop_last() == a + p);
    assert((a + d).last() == d[d.len() - 1]);
    if p.len() == 0 {
        assert(a + p == a);
    } else {
        assert forall|i: int| 0 <= i < p.len() implies !is_word_char(#[trigger] p[i]) by {
            assert(p[i] == d[i]);
        }
        lemma_after_delimiters(a, p);
    }
}

proof fn lemma_same_state_extends(x: Seq<char>, y: Seq<char>, b: Seq<char>)
    requires
        closed_words(x) == closed_words(y),
        open_word(x) == open_word(y),
    ensures
        closed_words(x + b) == closed_words(y + b),
        open_word(x + b) == open_word(y + b),
    decreases b.len(),
{
    if b.len() == 0 {
        assert(x + b == x);
        assert(y + b == y);
    } else {
        lemma_same_state_extends(x, y, b.drop_last());
        assert((x + b).drop_last() == x + b.drop_last());
        assert((y + b).drop_last() == y + b.drop_last());
        assert((x + b).last() == b.last());
        assert((y + b).last() == b.last());
    }
}

/// A run of delimiters separates words the same way whatever its length and content:
/// replacing one such run by another leaves the words unchanged.
pub proof fn lemma_delimiter_runs_interchangeable(a: Seq<char>, d1: Seq<char>, d2: Seq<char>, b: Seq<char>)
    requires
        is_delimiter_run(d1),
        is_delimiter_run(d2),
    ensures
        words_of(a + d1 + b) == words_of(a + d2 + b),
{
    lemma_after_delimiters(a, d1);
    lemma_after_delimiters(a, d2);
    lemma_same_state_extends(a + d1, a + d2, b);
}

/// Relies on str::to_ascii_lowercase: ASCII capitals become small letters and every
/// other character is kept.
#[verifier::external_body]
fn ascii_lowercase(s: &str) -> (r: String)
    ensures
        r@ == fold_line(s@),
{
    s.to_ascii_lowercase()
}

/// Tells whether `c` is an ASCII letter or digit.
pub fn is_word(c: char) -> (r: bool)
    ensures
        r == is_word_char(c),
{
    ('a' <= c && c <= 'z') || ('A' <= c && c <= 'Z') || ('0' <= c && c <= '9')
}

/// Splits a line into its tokens: the maximal runs of ASCII letters and digits,
/// with capitals folded to small letters.
pub fn split_words(line: &str) -> (r: Vec<String>)
    ensures
        views(r@) == line_tokens(line@),
{
    let folded = ascii_lowercase(line);
    let text = folded.as_str();
    let f = Ghost(text@);
    // The character count fits in a usize, and so does every position below it.
    let n = text.unicode_len();
    let mut words: Vec<String> = Vec::new();
    let mut start: usize = 0;
    let mut i: usize = 0;
    for c in it: text.chars()
        invariant
            it.seq() == f@,
            f@ == text@,
            n == f@.len(),
            i == it.index(),
            start <= i,
            f@.subrange(start as int, i as int) == open_word(f@.take(i as int)),
            views(words@) == closed_words(f@.take(i as int)),
    {
        assert(c == f@[i as int]);
        assert(f@.take(i + 1).drop_last() == f@.take(i as int));
        if is_word(c) {
            assert(f@.subrange(start as int, i + 1) == f@.subrange(start as int, i as int).push(c));
        } else {
            if start < i {
                let w = String::from_str(text.substring_char(start, i));
                let ghost before = words@;
                words.push(w);
                assert(views(words@) == views(before).push(w@));
            }
            start = i + 1;
            assert(f@.subrange(start as int, i + 1) == Seq::<char>::empty());
        }
        i = i + 1;
    }
    assert(f@.take(i as int) =~= f@);
    if start < i {
        let w = String::from_str(text.substring_char(start, i));
        let ghost before = words@;
        words.push(w);
        assert(views(words@) == views(before).push(w@));
    }
    words
}

} // verus!
