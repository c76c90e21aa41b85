//! The tokens of one pipeline: words, pipes, the background mark and
//! redirection operators.
//!
//! A word is a run of segments up to a blank or an operator character
//! (`|`, `&`, `<`, `>`). A segment is a double-quoted or single-quoted text
//! (quotes included), a process `$( .. )`, a backslash with the character it
//! escapes, or any other single character. Words keep their quotes.
use vstd::prelude::*;
use crate::splitter::is_blank;

verus! {

/// A token of a pipeline; a word is given by its position `[start, end)` in the text.
#[derive(Clone, Copy, PartialEq, Eq, Structural, Debug)]
pub enum Token {
    Word(usize, usize),
    Pipe,
    Background,
    Input,
    Output,
    Append,
}

/// A character that ends a word outside quotes.
pub open spec fn is_operator(c: char) -> bool {
    c == '|' || c == '&' || c == '<' || c == '>'
}

/// The first position at or after `i` that holds `c`.
pub open spec fn find_from(s: Seq<char>, i: int, c: char) -> Option<int>
    decreases s.len() - i,
{
    if i < 0 || i >= s.len() {
        None
    } else if s[i] == c {
        Some(i)
    } else {
        find_from(s, i + 1, c)
    }
}

pub proof fn lemma_find_from(s: Seq<char>, i: int, c: char)
    ensures
        find_from(s, i, c) matches Some(j) ==> 0 <= i <= j < s.len() && s[j] == c,
        find_from(s, i, c) is None ==> forall|k: int| 0 <= i <= k < s.len() ==> s[k] != c,
    decreases s.len() - i,
{
    if 0 <= i < s.len() && s[i] != c {
        lemma_find_from(s, i + 1, c);
    }
}

/// Where the segment that starts at `i` ends, or `None` when its closing
/// quote or parenthesis is missing.
pub open spec fn segment_end(s: Seq<char>, i: int) -> Option<int> {
    let c = s[i];
    if c == '"' {
        match find_from(s, i + 1, '"') {
            Some(j) => Some(j + 1),
            None => None,
        }
    } else if c == '\'' {
        match find_from(s, i + 1, '\'') {
            Some(j) => Some(j + 1),
            None => None,
        }
    } else if c == '$' && i + 1 < s.len() && s[i + 1] == '(' {
        match find_from(s, i + 2, ')') {
            Some(j) => Some(j + 1),
            None => None,
        }
    } else if c == '\\' && i + 1 < s.len() {
        Some(i + 2)
    } else {
        Some(i + 1)
    }
}

pub proof fn lemma_segment_end(s: Seq<char>, i: int)
    requires
        0 <= i < s.len(),
    ensures
        segment_end(s, i) matches Some(j) ==> i < j <= s.len(),
{
    lemma_find_from(s, i + 1, '"');
    lemma_find_from(s, i + 1, '\'');
    lemma_find_from(s, i + 2, ')');
}

/// Where the word that starts at `i` ends, or `None` when one of its segments
/// is not closed.
pub open spec fn word_end(s: Seq<char>, i: int) -> Option<int>
    decreases s.len() - i,
{
    if i < 0 || i >= s.len() || is_blank(s[i]) || is_operator(s[i]) {
        Some(i)
    } else {
        match segment_end(s, i) {
            Some(j) => {
                proof {
                    lemma_segment_end(s, i);
                }
                word_end(s, j)
            },
            None => None,
        }
    }
}

pub proof fn lemma_word_end(s: Seq<char>, i: int)
    requires
        0 <= i <= s.len(),
    ensures
        word_end(s, i) matches Some(j) ==> i <= j <= s.len(),
        word_end(s, i) matches Some(j) ==> (j == i <==> (i == s.len() || is_blank(s[i])
            || is_operator(s[i]))),
    decreases s.len() - i,
{
    if i < s.len() && !is_blank(s[i]) && !is_operator(s[i]) {
        lemma_segment_end(s, i);
        if let Some(j) = segment_end(s, i) {
            lemma_word_end(s, j);
        }
    }
}

/// `t` in front of the tokens `rest`, if there are any.
pub open spec fn prepend(t: Token, rest: Option<Seq<Token>>) -> Option<Seq<Token>> {
    match rest {
        Some(ts) => Some(seq![t] + ts),
        None => None,
    }
}

/// The tokens of `s` from position `i` on, or `None` when a quote or a process
/// is not closed.
pub open spec fn tokens_from(s: Seq<char>, i: int) -> Option<Seq<Token>>
    decreases s.len() - i,
{
    if i < 0 || i >= s.len() {
        Some(Seq::empty())
    } else if is_blank(s[i]) {
        tokens_from(s, i + 1)
    } else if s[i] == '|' {
        prepend(Token::Pipe, tokens_from(s, i + 1))
    } else if s[i] == '&' {
        prepend(Token::Background, tokens_from(s, i + 1))
    } else if s[i] == '<' {
        prepend(Token::Input, tokens_from(s, i + 1))
    } else if s[i] == '>' {
        if i + 1 < s.len() && s[i + 1] == '>' {
            prepend(Token::Append, tokens_from(s, i + 2))
        } else {
            prepend(Token::Output, tokens_from(s, i + 1))
        }
    } else {
        match word_end(s, i) {
            Some(j) => {
                proof {
                    lemma_word_end(s, i);
                }
                prepend(Token::Word(i as usize, j as usize), tokens_from(s, j))
            },
            None => None,
        }
    }
}

/// The tokens of `s`, or `None` when a quote or a process is not closed.
pub open spec fn tokens(s: Seq<char>) -> Option<Seq<Token>> {
    tokens_from(s, 0)
}

/// The text of a word token.
pub open spec fn token_text(s: Seq<char>, t: Token) -> Seq<char> {
    match t {
        Token::Word(a, b) => s.subrange(a as int, b as int),
        _ => Seq::empty(),
    }
}

/// Every word of the tokens lies within the text, in order.
pub open spec fn words_within(ts: Seq<Token>, n: int) -> bool {
    forall|k: int|
        0 <= k < ts.len() ==> (#[trigger] ts[k] matches Token::Word(a, b) ==> a < b <= n)
}

/// The first position at or after `from` that holds `c`.
fn find_char(s: &Vec<char>, from: usize, c: char) -> (r: Option<usize>)
    requires
        from <= s@.len(),
    ensures
        match r {
            Some(j) => find_from(s@, from as int, c) == Some(j as int),
            None => find_from(s@, from as int, c) is None,
        },
{
    let mut i = from;
    while i < s.len()
        invariant
            from <= i <= s@.len(),
            find_from(s@, i as int, c) == find_from(s@, from as int, c),
        decreases s@.len() - i,
    {
        if s[i] == c {
            return Some(i);
        }
        i += 1;
    }
    None
}

/// Where the word that starts at `i` ends, or `None` when a segment is not closed.
fn scan_word(s: &Vec<char>, start: usize) -> (r: Option<usize>)
    requires
        start <= s@.len(),
        s@.len() < usize::MAX,
    ensures
        match r {
            Some(j) => word_end(s@, start as int) == Some(j as int),
            None => word_end(s@, start as int) is None,
        },
{
    let n = s.len();
    let mut i = start;
    while i < n
        invariant
            start <= i <= n,
            n == s@.len(),
            n < usize::MAX,
            word_end(s@, i as int) == word_end(s@, start as int),
        decreases n - i,
    {
        let c = s[i];
        if c == ' ' || c == '\t' || c == '\n' || c == '\r' || c == '|' || c == '&' || c == '<'
            || c == '>' {
            return Some(i);
        }
        proof {
            lemma_segment_end(s@, i as int);
        }
        if c == '"' || c == '\'' {
            match find_char(s, i + 1, c) {
                Some(j) => {
                    proof {
                        lemma_find_from(s@, i + 1, c);
                    }
                    i = j + 1;
                },
                None => return None,
            }
        } else if c == '$' && i + 1 < n && s[i + 1] == '(' {
            match find_char(s, i + 2, ')') {
                Some(j) => {
                    proof {
                        lemma_find_from(s@, i + 2, ')');
                    }
                    i = j + 1;
                },
                None => return None,
            }
        } else if c == '\\' && i + 1 < n {
            i = i + 2;
        } else {
            i = i + 1;
        }
    }
    Some(i)
}

/// The tokens of `s`, or `None` when a quote or a process is not closed.
pub fn tokenize(s: &Vec<char>) -> (r: Option<Vec<Token>>)
    requires
        s@.len() < usize::MAX,
    ensures
        match r {
            Some(ts) => tokens(s@) == Some(ts@),
            None => tokens(s@) is None,
        },
{
    let n = s.len();
    let mut out: Vec<Token> = Vec::new();
    let mut i: usize = 0;
    while i < n
        invariant
            i <= n,
            n == s@.len(),
            n < usize::MAX,
            tokens(s@) == (match tokens_from(s@, i as int) {
                Some(rest) => Some(out@ + rest),
                None => None,
            }),
        decreases n - i,
    {
        let c = s[i];
        let ghost before = out@;
        if c == ' ' || c == '\t' || c == '\n' || c == '\r' {
            i += 1;
        } else if c == '|' {
            out.push(Token::Pipe);
            i += 1;
        } else if c == '&' {
            out.push(Token::Background);
            i += 1;
        } else if c == '<' {
            out.push(Token::Input);
            i += 1;
        } else if c == '>' {
            if i + 1 < n && s[i + 1] == '>' {
                out.push(Token::Append);
                i += 2;
            } else {
                out.push(Token::Output);
                i += 1;
            }
        } else {
            proof {
                lemma_word_end(s@, i as int);
            }
            match scan_word(s, i) {
                Some(j) => {
                    out.push(Token::Word(i, j));
                    i = j;
                },
                None => return None,
            }
        }
        proof {
            match tokens_from(s@, i as int) {
                Some(rest) => {
                    assert(out@ + rest =~= before + (out@.subrange(before.len() as int, out@.len() as int) + rest));
                },
                None => {},
            }
        }
    }
    assert(out@ + Seq::<Token>::empty() =~= out@);
    Some(out)
}

/// A token in front of tokens whose words lie within the text.
proof fn lemma_prepend_within(t: Token, rest: Option<Seq<Token>>, n: int)
    requires
        rest matches Some(ts) ==> words_within(ts, n),
        t matches Token::Word(a, b) ==> a < b <= n,
    ensures
        prepend(t, rest) matches Some(ts) ==> words_within(ts, n),
{
    if let Some(ts) = rest {
        let all = seq![t] + ts;
        assert forall|k: int| 0 <= k < all.len() implies (#[trigger] all[k] matches Token::Word(
            a,
            b,
        ) ==> a < b <= n) by {
            if k > 0 {
                assert(all[k] == ts[k - 1]);
            }
        }
    }
}

/// Every word token of the text lies within it.
pub proof fn lemma_tokens_within(s: Seq<char>, i: int)
    requires
        0 <= i <= s.len(),
        s.len() < usize::MAX,
    ensures
        tokens_from(s, i) matches Some(ts) ==> words_within(ts, s.len() as int),
    decreases s.len() - i,
{
    let n = s.len() as int;
    if i < s.len() {
        if is_blank(s[i]) {
            lemma_tokens_within(s, i + 1);
        } else if s[i] == '|' || s[i] == '&' || s[i] == '<' {
            lemma_tokens_within(s, i + 1);
            lemma_prepend_within(Token::Pipe, tokens_from(s, i + 1), n);
            lemma_prepend_within(Token::Background, tokens_from(s, i + 1), n);
            lemma_prepend_within(Token::Input, tokens_from(s, i + 1), n);
        } else if s[i] == '>' {
            lemma_tokens_within(s, i + 1);
            lemma_prepend_within(Token::Output, tokens_from(s, i + 1), n);
            if i + 1 < s.len() {
                lemma_tokens_within(s, i + 2);
                lemma_prepend_within(Token::Append, tokens_from(s, i + 2), n);
            }
        } else {
            lemma_word_end(s, i);
            if let Some(j) = word_end(s, i) {
                lemma_tokens_within(s, j);
                lemma_prepend_within(Token::Word(i as usize, j as usize), tokens_from(s, j), n);
            }
        }
    }
}

/// The first occurrence of `c` at or after `i` is the one at `j` when none lies before it.
proof fn lemma_find_first(s: Seq<char>, i: int, j: int, c: char)
    requires
        0 <= i <= j < s.len(),
        s[j] == c,
        forall|k: int| i <= k < j ==> s[k] != c,
    ensures
        find_from(s, i, c) == Some(j),
    decreases j - i,
{
    if i < j {
        lemma_find_first(s, i + 1, j, c);
    }
}

/// A text in double or single quotes that holds no such quote inside is one
/// word, quotes included.
pub proof fn law_quoted_text_is_one_word(inner: Seq<char>, quote: char)
    requires
        quote == '"' || quote == '\'',
        inner.len() + 2 < usize::MAX,
        forall|k: int| 0 <= k < inner.len() ==> #[trigger] inner[k] != quote,
    ensures
        tokens(seq![quote] + inner + seq![quote]) == Some(
            seq![Token::Word(0, (inner.len() + 2) as usize)],
        ),
{
    let s = seq![quote] + inner + seq![quote];
    let n = s.len() as int;
    assert forall|k: int| 1 <= k < n - 1 implies s[k] != quote by {
        assert(s[k] == inner[k - 1]);
    }
    lemma_find_first(s, 1, n - 1, quote);
    assert(segment_end(s, 0) == Some(n));
    assert(word_end(s, n) == Some(n));
    assert(word_end(s, 0) == Some(n));
    assert(tokens_from(s, n) == Some(Seq::<Token>::empty()));
    assert(seq![Token::Word(0, n as usize)] + Seq::<Token>::empty() =~= seq![
        Token::Word(0, n as usize),
    ]);
}

} // verus!
