//! Parsing the text of one pipeline: jobs separated by `|`, each a run of
//! words optionally followed by `&`, then any number of redirections
//! (`< file`, `> file`, `>> file`), a later one replacing an earlier one of
//! the same direction.
use vstd::prelude::*;
use crate::job::{Job, JobView, Pipeline, PipelineView, Redirection, RedirectionView, redirection_view};
use crate::lexer::{
    Token,
    is_operator,
    lemma_tokens_within,
    segment_end,
    token_text,
    tokenize,
    tokens,
    tokens_from,
    word_end,
    words_within,
};
use crate::splitter::is_blank;
use crate::splitter::chars_of;

verus! {

/// Where the run of word tokens that starts at `i` ends.
pub open spec fn word_run(ts: Seq<Token>, i: int) -> int
    decreases ts.len() - i,
{
    if 0 <= i < ts.len() && ts[i] is Word {
        word_run(ts, i + 1)
    } else {
        i
    }
}

pub proof fn lemma_word_run(ts: Seq<Token>, i: int)
    requires
        0 <= i <= ts.len(),
    ensures
        i <= word_run(ts, i) <= ts.len(),
        forall|k: int| i <= k < word_run(ts, i) ==> #[trigger] ts[k] is Word,
        word_run(ts, i) < ts.len() ==> !(ts[word_run(ts, i)] is Word),
    decreases ts.len() - i,
{
    if i < ts.len() && ts[i] is Word {
        lemma_word_run(ts, i + 1);
    }
}

/// The texts of the given word tokens.
pub open spec fn texts(s: Seq<char>, ts: Seq<Token>) -> Seq<Seq<char>> {
    ts.map_values(|t: Token| token_text(s, t))
}

/// The jobs that start at token `i`, and the position after the last of them.
pub open spec fn parse_jobs(s: Seq<char>, ts: Seq<Token>, i: int) -> Option<(Seq<JobView>, int)>
    decreases ts.len() - i,
{
    if i < 0 || i >= ts.len() {
        None
    } else {
        let e = word_run(ts, i);
        if e <= i {
            None
        } else {
            let args = texts(s, ts.subrange(i, e));
            let background = e < ts.len() && ts[e] is Background;
            let k = if background { e + 1 } else { e };
            let job = JobView { command: args[0], args: args, background: background };
            if k < ts.len() && ts[k] is Pipe {
                match parse_jobs(s, ts, k + 1) {
                    Some((rest, m)) => Some((seq![job] + rest, m)),
                    None => None,
                }
            } else {
                Some((seq![job], k))
            }
        }
    }
}

/// The redirections from token `k` to the end, given those seen so far; a
/// later one replaces an earlier one of the same direction.
pub open spec fn parse_redirections(
    s: Seq<char>,
    ts: Seq<Token>,
    k: int,
    stdin: Option<RedirectionView>,
    stdout: Option<RedirectionView>,
) -> Option<(Option<RedirectionView>, Option<RedirectionView>)>
    decreases ts.len() - k,
{
    if k < 0 || k >= ts.len() {
        Some((stdin, stdout))
    } else if k + 1 < ts.len() && ts[k + 1] is Word {
        let file = token_text(s, ts[k + 1]);
        match ts[k] {
            Token::Input => parse_redirections(
                s,
                ts,
                k + 2,
                Some(RedirectionView { file: file, append: false }),
                stdout,
            ),
            Token::Output => parse_redirections(
                s,
                ts,
                k + 2,
                stdin,
                Some(RedirectionView { file: file, append: false }),
            ),
            Token::Append => parse_redirections(
                s,
                ts,
                k + 2,
                stdin,
                Some(RedirectionView { file: file, append: true }),
            ),
            _ => None,
        }
    } else {
        None
    }
}

/// The pipeline that the tokens of `s` form, if they form one.
pub open spec fn pipeline_of_tokens(s: Seq<char>, ts: Seq<Token>) -> Option<PipelineView> {
    match parse_jobs(s, ts, 0) {
        Some((jobs, m)) => match parse_redirections(s, ts, m, None, None) {
            Some((stdin, stdout)) => Some(PipelineView { jobs: jobs, stdout: stdout, stdin: stdin }),
            None => None,
        },
        None => None,
    }
}

/// The pipeline that the text `s` holds, if it holds one.
pub open spec fn pipeline_of(s: Seq<char>) -> Option<PipelineView> {
    match tokens(s) {
        Some(ts) => pipeline_of_tokens(s, ts),
        None => None,
    }
}

/// The text of the word token `t` of `text`.
fn word_string(text: &str, t: Token) -> (w: String)
    requires
        t matches Token::Word(a, b) && a <= b <= text@.len(),
    ensures
        w@ == token_text(text@, t),
{
    match t {
        Token::Word(a, b) => text.substring_char(a, b).to_owned(),
        _ => String::new(),
    }
}

/// Parses the text of one pipeline: `None` when it is not of the form
/// `job (| job)* redirection*`, where a job is one or more words optionally
/// followed by `&` and a redirection is `<`, `>` or `>>` followed by a word.
pub fn parse_pipeline(text: &str) -> (p: Option<Pipeline>)
    requires
        text@.len() < usize::MAX,
    ensures
        match p {
            Some(p) => pipeline_of(text@) == Some(p@),
            None => pipeline_of(text@) is None,
        },
{
    let chars = chars_of(text);
    let ghost s = text@;
    let ts = match tokenize(&chars) {
        Some(ts) => ts,
        None => return None,
    };
    proof {
        lemma_tokens_within(s, 0);
    }
    let n = ts.len();
    let mut jobs: Vec<Job> = Vec::new();
    let mut i: usize = 0;
    let mut k: usize;
    loop
        invariant_except_break
            parse_jobs(s, ts@, 0) == (match parse_jobs(s, ts@, i as int) {
                Some((rest, m)) => Some((jobs@.map_values(|j: Job| j@) + rest, m)),
                None => None,
            }),
        invariant
            n == ts@.len(),
            i <= n,
            words_within(ts@, s.len() as int),
            s == text@,
            tokens(s) == Some(ts@),
        ensures
            k <= n,
            parse_jobs(s, ts@, 0) == Some((jobs@.map_values(|j: Job| j@), k as int)),
        decreases n - i,
    {
        if i >= n {
            return None;
        }
        proof {
            lemma_word_run(ts@, i as int);
        }
        let mut args: Vec<String> = Vec::new();
        let mut e = i;
        while e < n && ts[e] matches Token::Word(_, _)
            invariant
                i <= e <= word_run(ts@, i as int) <= n,
                n == ts@.len(),
                words_within(ts@, s.len() as int),
                s == text@,
                forall|q: int| i <= q < word_run(ts@, i as int) ==> #[trigger] ts@[q] is Word,
                word_run(ts@, i as int) < n ==> !(ts@[word_run(ts@, i as int)] is Word),
                args.deep_view() =~= texts(s, ts@.subrange(i as int, e as int)),
            decreases n - e,
        {
            let ghost before = args.deep_view();
            let w = word_string(text, ts[e]);
            args.push(w);
            assert(args.deep_view() =~= before.push(token_text(s, ts@[e as int])));
            e += 1;
            assert(texts(s, ts@.subrange(i as int, e as int)) =~= texts(
                s,
                ts@.subrange(i as int, e - 1),
            ).push(token_text(s, ts@[e - 1])));
        }
        if e == i {
            return None;
        }
        let background = e < n && ts[e] == Token::Background;
        k = if background {
            e + 1
        } else {
            e
        };
        let job = Job::new(args, background);
        let ghost before = jobs@.map_values(|j: Job| j@);
        jobs.push(job);
        assert(jobs@.map_values(|j: Job| j@) =~= before.push(job@));
        if k < n && ts[k] == Token::Pipe {
            proof {
                match parse_jobs(s, ts@, k + 1) {
                    Some((rest, m)) => {
                        assert(before + (seq![job@] + rest) =~= before.push(job@) + rest);
                    },
                    None => {},
                }
            }
            i = k + 1;
        } else {
            assert(before + seq![job@] =~= before.push(job@));
            break ;
        }
    }
    let mut stdin: Option<Redirection> = None;
    let mut stdout: Option<Redirection> = None;
    let ghost m = k;
    while k < n
        invariant
            m <= k <= n,
            n == ts@.len(),
            tokens(s) == Some(ts@),
            parse_jobs(s, ts@, 0) == Some((jobs@.map_values(|j: Job| j@), m as int)),
            words_within(ts@, s.len() as int),
            s == text@,
            parse_redirections(s, ts@, m as int, None, None) == parse_redirections(
                s,
                ts@,
                k as int,
                redirection_view(stdin),
                redirection_view(stdout),
            ),
        decreases n - k,
    {
        if k + 1 >= n {
            return None;
        }
        let target = ts[k + 1];
        if !(target matches Token::Word(_, _)) {
            return None;
        }
        let file = word_string(text, target);
        match ts[k] {
            Token::Input => {
                stdin = Some(Redirection { file: file, append: false });
            },
            Token::Output => {
                stdout = Some(Redirection { file: file, append: false });
            },
            Token::Append => {
                stdout = Some(Redirection { file: file, append: true });
            },
            _ => {
                return None;
            },
        }
        k += 2;
    }
    Some(Pipeline::new(jobs, stdin, stdout))
}

/// Every job that `parse_jobs` reads has at least one word and runs the first.
proof fn lemma_jobs_have_commands(s: Seq<char>, ts: Seq<Token>, i: int)
    ensures
        parse_jobs(s, ts, i) matches Some((jobs, m)) ==> forall|k: int|
            0 <= k < jobs.len() ==> (#[trigger] jobs[k]).args.len() > 0 && jobs[k].command
                == jobs[k].args[0],
    decreases ts.len() - i,
{
    if 0 <= i < ts.len() {
        lemma_word_run(ts, i);
        let e = word_run(ts, i);
        if e > i {
            let args = texts(s, ts.subrange(i, e));
            assert(args.len() == e - i);
            let background = e < ts.len() && ts[e] is Background;
            let k = if background { e + 1 } else { e };
            if k < ts.len() && ts[k] is Pipe {
                lemma_jobs_have_commands(s, ts, k + 1);
                if let Some((jobs, m)) = parse_jobs(s, ts, i) {
                    let rest = parse_jobs(s, ts, k + 1).unwrap().0;
                    assert forall|q: int| 0 <= q < jobs.len() implies (#[trigger] jobs[q]).args.len()
                        > 0 && jobs[q].command == jobs[q].args[0] by {
                        if q > 0 {
                            assert(jobs[q] == rest[q - 1]);
                        }
                    }
                }
            }
        }
    }
}

/// Every job of a pipeline has at least one word, and its command is its
/// first word.
pub proof fn law_every_job_runs_its_first_word(s: Seq<char>)
    ensures
        pipeline_of(s) matches Some(p) ==> forall|k: int|
            0 <= k < p.jobs.len() ==> (#[trigger] p.jobs[k]).args.len() > 0 && p.jobs[k].command
                == p.jobs[k].args[0],
{
    if let Some(ts) = tokens(s) {
        lemma_jobs_have_commands(s, ts, 0);
    }
}

/// The job reads a maximal run of word tokens of `ts`: its arguments are the
/// texts of those words, in order, its command the first of them, and it runs
/// in the background exactly when `&` follows the run.
pub open spec fn job_reads_words(s: Seq<char>, ts: Seq<Token>, job: JobView) -> bool {
    exists|i: int, e: int|
        #![trigger ts.subrange(i, e)]
        {
            &&& 0 <= i < e <= ts.len()
            &&& forall|k: int| i <= k < e ==> #[trigger] ts[k] is Word
            &&& !(e < ts.len() && ts[e] is Word)
            &&& job.args == texts(s, ts.subrange(i, e))
            &&& job.command == job.args[0]
            &&& job.background == (e < ts.len() && ts[e] is Background)
        }
}

proof fn lemma_jobs_read_words(s: Seq<char>, ts: Seq<Token>, i: int)
    requires
        words_within(ts, s.len() as int),
    ensures
        parse_jobs(s, ts, i) matches Some((jobs, m)) ==> forall|k: int|
            0 <= k < jobs.len() ==> {
                &&& job_reads_words(s, ts, #[trigger] jobs[k])
                &&& forall|j: int| 0 <= j < jobs[k].args.len() ==> (#[trigger] jobs[k].args[j]).len() > 0
            },
    decreases ts.len() - i,
{
    if 0 <= i < ts.len() {
        lemma_word_run(ts, i);
        let e = word_run(ts, i);
        if e > i {
            let args = texts(s, ts.subrange(i, e));
            let background = e < ts.len() && ts[e] is Background;
            let k = if background { e + 1 } else { e };
            let job = JobView { command: args[0], args: args, background: background };
            assert forall|j: int| 0 <= j < args.len() implies (#[trigger] args[j]).len() > 0 by {
                assert(ts.subrange(i, e)[j] == ts[i + j]);
                assert(ts[i + j] is Word);
            }
            assert(job_reads_words(s, ts, job)) by {
                assert(forall|q: int| i <= q < e ==> #[trigger] ts[q] is Word);
                assert(ts.subrange(i, e) == ts.subrange(i, e));
            }
            if k < ts.len() && ts[k] is Pipe {
                lemma_jobs_read_words(s, ts, k + 1);
                if let Some((jobs, m)) = parse_jobs(s, ts, i) {
                    let rest = parse_jobs(s, ts, k + 1).unwrap().0;
                    assert(jobs[0] == job);
                    assert forall|q: int| 0 <= q < jobs.len() implies {
                        &&& job_reads_words(s, ts, #[trigger] jobs[q])
                        &&& forall|j: int| 0 <= j < jobs[q].args.len() ==> (#[trigger] jobs[q].args[j]).len() > 0
                    } by {
                        if q > 0 {
                            assert(jobs[q] == rest[q - 1]);
                        }
                    }
                }
            } else {
                if let Some((jobs, m)) = parse_jobs(s, ts, i) {
                    assert(jobs[0] == job);
                }
            }
        }
    }
}

/// The arguments of every job are exactly the words of a maximal run of word
/// tokens of the text, none of them empty, the command is the first, and the
/// job runs in the background exactly when `&` follows its words.
pub proof fn law_job_args_are_its_words(s: Seq<char>)
    requires
        s.len() < usize::MAX,
    ensures
        pipeline_of(s) matches Some(p) ==> {
            &&& tokens(s) is Some
            &&& forall|k: int|
                0 <= k < p.jobs.len() ==> {
                    &&& job_reads_words(s, tokens(s).unwrap(), #[trigger] p.jobs[k])
                    &&& forall|j: int|
                        0 <= j < p.jobs[k].args.len() ==> (#[trigger] p.jobs[k].args[j]).len() > 0
                }
        },
{
    lemma_tokens_within(s, 0);
    if let Some(ts) = tokens(s) {
        lemma_jobs_read_words(s, ts, 0);
    }
}

/// A character that stands for itself in a word: no blank, operator, quote,
/// backslash or `$`.
pub open spec fn plain(c: char) -> bool {
    !is_blank(c) && !is_operator(c) && c != '"' && c != '\'' && c != '\\' && c != '$'
}

/// A run of plain characters that a blank, an operator or the end follows is one word.
proof fn lemma_plain_word_end(s: Seq<char>, i: int, j: int)
    requires
        0 <= i <= j <= s.len(),
        forall|k: int| i <= k < j ==> plain(#[trigger] s[k]),
        j == s.len() || is_blank(s[j]) || is_operator(s[j]),
    ensures
        word_end(s, i) == Some(j),
    decreases j - i,
{
    if i < j {
        assert(plain(s[i]));
        assert(segment_end(s, i) == Some(i + 1));
        lemma_plain_word_end(s, i + 1, j);
    }
}

/// The redirections of a pipeline go where their operators say: for plain
/// words `W`, `F` and `G`, the pipeline `W < F > G` reads its input from `F`
/// and writes its output to `G`, and `W < F >> G` appends it to `G`; its one
/// job runs `W` in the foreground.
pub proof fn law_redirections_go_where_they_point(w: Seq<char>, f: Seq<char>, g: Seq<char>, append: bool)
    requires
        w.len() > 0,
        f.len() > 0,
        g.len() > 0,
        forall|k: int| 0 <= k < w.len() ==> plain(#[trigger] w[k]),
        forall|k: int| 0 <= k < f.len() ==> plain(#[trigger] f[k]),
        forall|k: int| 0 <= k < g.len() ==> plain(#[trigger] g[k]),
        w.len() + f.len() + g.len() + 8 < usize::MAX,
    ensures
        ({
            let out = if append { seq![' ', '>', '>', ' '] } else { seq![' ', '>', ' '] };
            let s = w + seq![' ', '<', ' '] + f + out + g;
            pipeline_of(s) == Some(
                PipelineView {
                    jobs: seq![JobView { command: w, args: seq![w], background: false }],
                    stdin: Some(RedirectionView { file: f, append: false }),
                    stdout: Some(RedirectionView { file: g, append: append }),
                },
            )
        }),
{
    let out = if append { seq![' ', '>', '>', ' '] } else { seq![' ', '>', ' '] };
    let s = w + seq![' ', '<', ' '] + f + out + g;
    let a = w.len() as int;
    let b = f.len() as int;
    let o = out.len() as int;
    let n = s.len() as int;
    let fs = a + 3;
    let gs = a + 3 + b + o;
    assert(n == gs + g.len());
    assert forall|k: int| 0 <= k < a implies plain(#[trigger] s[k]) by {
        assert(s[k] == w[k]);
    }
    assert forall|k: int| fs <= k < fs + b implies plain(#[trigger] s[k]) by {
        assert(s[k] == f[k - fs]);
    }
    assert forall|k: int| gs <= k < n implies plain(#[trigger] s[k]) by {
        assert(s[k] == g[k - gs]);
    }
    assert(s[a] == ' ');
    assert(s[a + 1] == '<');
    assert(s[a + 2] == ' ');
    assert(s[fs + b] == ' ');
    assert(s[fs + b + 1] == '>');
    if append {
        assert(s[fs + b + 2] == '>');
        assert(s[fs + b + 3] == ' ');
    } else {
        assert(s[fs + b + 2] == ' ');
    }
    lemma_plain_word_end(s, 0, a);
    lemma_plain_word_end(s, fs, fs + b);
    lemma_plain_word_end(s, gs, n);
    let tw = Token::Word(0, a as usize);
    let tf = Token::Word(fs as usize, (fs + b) as usize);
    let tg = Token::Word(gs as usize, n as usize);
    let op = if append { Token::Append } else { Token::Output };
    assert(tokens_from(s, n) == Some(Seq::<Token>::empty()));
    assert(tokens_from(s, gs) == Some(seq![tg] + Seq::<Token>::empty()));
    assert(tokens_from(s, gs - 1) == tokens_from(s, gs));
    if append {
        assert(tokens_from(s, fs + b + 1) == Some(seq![op] + seq![tg] + Seq::<Token>::empty()));
    } else {
        assert(tokens_from(s, fs + b + 1) == Some(seq![op] + seq![tg] + Seq::<Token>::empty()));
    }
    assert(tokens_from(s, fs + b) == tokens_from(s, fs + b + 1));
    assert(tokens_from(s, fs) == Some(seq![tf] + (seq![op] + seq![tg] + Seq::<Token>::empty())));
    assert(tokens_from(s, a + 2) == tokens_from(s, fs));
    assert(tokens_from(s, a + 1) == Some(
        seq![Token::Input] + (seq![tf] + (seq![op] + seq![tg] + Seq::<Token>::empty())),
    ));
    assert(tokens_from(s, a) == tokens_from(s, a + 1));
    let ts = seq![tw, Token::Input, tf, op, tg];
    assert(tokens_from(s, 0) == Some(
        seq![tw] + (seq![Token::Input] + (seq![tf] + (seq![op] + seq![tg] + Seq::<Token>::empty()))),
    ));
    assert(seq![tw] + (seq![Token::Input] + (seq![tf] + (seq![op] + seq![tg] + Seq::<Token>::empty())))
        =~= ts);
    assert(tokens(s) == Some(ts));
    assert(word_run(ts, 1) == 1);
    assert(word_run(ts, 0) == 1);
    assert(ts.subrange(0, 1) =~= seq![tw]);
    assert(texts(s, seq![tw]) =~= seq![s.subrange(0, a)]);
    assert(s.subrange(0, a) =~= w);
    assert(s.subrange(fs, fs + b) =~= f);
    assert(s.subrange(gs, n) =~= g);
    let job = JobView { command: w, args: seq![w], background: false };
    assert(parse_jobs(s, ts, 0) == Some((seq![job], 1int)));
    let rin = RedirectionView { file: f, append: false };
    let rout = RedirectionView { file: g, append: append };
    assert(parse_redirections(s, ts, 5, Some(rin), Some(rout)) == Some((Some(rin), Some(rout))));
    assert(parse_redirections(s, ts, 3, Some(rin), None) == Some((Some(rin), Some(rout))));
    assert(parse_redirections(s, ts, 1, None, None) == Some((Some(rin), Some(rout))));
}

/// A pipe joins two jobs and `&` marks only the job it follows: for plain
/// words `V` and `W`, the pipeline `V | W &` has exactly the jobs `V`, in the
/// foreground, and `W`, in the background, and no redirection.
pub proof fn law_pipe_joins_jobs(v: Seq<char>, w: Seq<char>)
    requires
        v.len() > 0,
        w.len() > 0,
        forall|k: int| 0 <= k < v.len() ==> plain(#[trigger] v[k]),
        forall|k: int| 0 <= k < w.len() ==> plain(#[trigger] w[k]),
        v.len() + w.len() + 5 < usize::MAX,
    ensures
        ({
            let s = v + seq![' ', '|', ' '] + w + seq![' ', '&'];
            pipeline_of(s) == Some(
                PipelineView {
                    jobs: seq![
                        JobView { command: v, args: seq![v], background: false },
                        JobView { command: w, args: seq![w], background: true },
                    ],
                    stdin: None,
                    stdout: None,
                },
            )
        }),
{
    let s = v + seq![' ', '|', ' '] + w + seq![' ', '&'];
    let a = v.len() as int;
    let ws = a + 3;
    let we = ws + w.len();
    let n = s.len() as int;
    assert(n == we + 2);
    assert forall|k: int| 0 <= k < a implies plain(#[trigger] s[k]) by {
        assert(s[k] == v[k]);
    }
    assert forall|k: int| ws <= k < we implies plain(#[trigger] s[k]) by {
        assert(s[k] == w[k - ws]);
    }
    assert(s[a] == ' ');
    assert(s[a + 1] == '|');
    assert(s[a + 2] == ' ');
    assert(s[we] == ' ');
    assert(s[we + 1] == '&');
    lemma_plain_word_end(s, 0, a);
    lemma_plain_word_end(s, ws, we);
    let tv = Token::Word(0, a as usize);
    let tw = Token::Word(ws as usize, we as usize);
    assert(tokens_from(s, n) == Some(Seq::<Token>::empty()));
    assert(tokens_from(s, we + 1) == Some(seq![Token::Background] + Seq::<Token>::empty()));
    assert(tokens_from(s, we) == tokens_from(s, we + 1));
    assert(tokens_from(s, ws) == Some(seq![tw] + (seq![Token::Background] + Seq::<Token>::empty())));
    assert(tokens_from(s, a + 2) == tokens_from(s, ws));
    assert(tokens_from(s, a + 1) == Some(
        seq![Token::Pipe] + (seq![tw] + (seq![Token::Background] + Seq::<Token>::empty())),
    ));
    assert(tokens_from(s, a) == tokens_from(s, a + 1));
    let ts = seq![tv, Token::Pipe, tw, Token::Background];
    assert(tokens_from(s, 0) == Some(
        seq![tv] + (seq![Token::Pipe] + (seq![tw] + (seq![Token::Background] + Seq::<Token>::empty()))),
    ));
    assert(seq![tv] + (seq![Token::Pipe] + (seq![tw] + (seq![Token::Background] + Seq::<Token>::empty())))
        =~= ts);
    assert(tokens(s) == Some(ts));
    assert(word_run(ts, 3) == 3);
    assert(word_run(ts, 2) == 3);
    assert(word_run(ts, 1) == 1);
    assert(word_run(ts, 0) == 1);
    assert(ts.subrange(0, 1) =~= seq![tv]);
    assert(ts.subrange(2, 3) =~= seq![tw]);
    assert(texts(s, seq![tv]) =~= seq![s.subrange(0, a)]);
    assert(texts(s, seq![tw]) =~= seq![s.subrange(ws, we)]);
    assert(s.subrange(0, a) =~= v);
    assert(s.subrange(ws, we) =~= w);
    let jv = JobView { command: v, args: seq![v], background: false };
    let jw = JobView { command: w, args: seq![w], background: true };
    assert(parse_jobs(s, ts, 2) == Some((seq![jw], 4int)));
    assert(seq![jv] + seq![jw] =~= seq![jv, jw]);
    assert(parse_jobs(s, ts, 0) == Some((seq![jv, jw], 4int)));
    assert(parse_redirections(s, ts, 4, None, None) == Some((None::<RedirectionView>, None::<RedirectionView>)));
}

} // verus!
