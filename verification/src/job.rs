//! Jobs, pipelines of jobs and their redirections, and the expansion of glob
//! patterns among a job's arguments.
use vstd::prelude::*;

verus! {

/// Where a pipeline reads its input from or writes its output to.
#[derive(Debug, PartialEq, Clone)]
pub struct Redirection {
    pub file: String,
    pub append: bool,
}

/// A redirection as a value: the file's name, and whether output is appended.
#[verifier::ext_equal]
pub struct RedirectionView {
    pub file: Seq<char>,
    pub append: bool,
}

impl View for Redirection {
    type V = RedirectionView;

    open spec fn view(&self) -> RedirectionView {
        RedirectionView { file: self.file@, append: self.append }
    }
}

/// An optional redirection as a value.
pub open spec fn redirection_view(r: Option<Redirection>) -> Option<RedirectionView> {
    match r {
        Some(r) => Some(r@),
        None => None,
    }
}

/// One command of a pipeline: the program, its arguments (the program's name
/// first), and whether it runs in the background.
#[derive(Debug, PartialEq, Clone)]
pub struct Job {
    pub command: String,
    pub args: Vec<String>,
    pub background: bool,
}

/// A job as a value.
#[verifier::ext_equal]
pub struct JobView {
    pub command: Seq<char>,
    pub args: Seq<Seq<char>>,
    pub background: bool,
}

impl View for Job {
    type V = JobView;

    open spec fn view(&self) -> JobView {
        JobView { command: self.command@, args: self.args.deep_view(), background: self.background }
    }
}

/// Jobs connected by pipes, with the pipeline's own input and output.
#[derive(Debug, PartialEq, Clone)]
pub struct Pipeline {
    pub jobs: Vec<Job>,
    pub stdout: Option<Redirection>,
    pub stdin: Option<Redirection>,
}

/// A pipeline as a value.
#[verifier::ext_equal]
pub struct PipelineView {
    pub jobs: Seq<JobView>,
    pub stdout: Option<RedirectionView>,
    pub stdin: Option<RedirectionView>,
}

impl View for Pipeline {
    type V = PipelineView;

    open spec fn view(&self) -> PipelineView {
        PipelineView {
            jobs: self.jobs@.map_values(|j: Job| j@),
            stdout: redirection_view(self.stdout),
            stdin: redirection_view(self.stdin),
        }
    }
}

impl Pipeline {
    /// A pipeline of `jobs` that reads from `stdin` and writes to `stdout`.
    pub fn new(jobs: Vec<Job>, stdin: Option<Redirection>, stdout: Option<Redirection>) -> (p: Self)
        ensures
            p.jobs == jobs,
            p.stdin == stdin,
            p.stdout == stdout,
    {
        Pipeline { jobs: jobs, stdin: stdin, stdout: stdout }
    }
}

impl Job {
    /// A job whose program is its first argument.
    pub fn new(args: Vec<String>, background: bool) -> (job: Self)
        requires
            args.len() > 0,
        ensures
            job.command@ == args[0]@,
            job.args == args,
            job.background == background,
    {
        let command = args[0].clone();
        Job { command: command, args: args, background: background }
    }

    /// The arguments handed to the program: every argument after the first.
    pub fn command_arguments(&self) -> (arguments: Vec<String>)
        ensures
            arguments.deep_view() == (if self.args.len() == 0 {
                Seq::empty()
            } else {
                self.args.deep_view().skip(1)
            }),
    {
        let mut arguments: Vec<String> = Vec::new();
        if self.args.len() == 0 {
            assert(arguments.deep_view() =~= Seq::empty());
            return arguments;
        }
        let mut i: usize = 1;
        while i < self.args.len()
            invariant
                1 <= i <= self.args.len(),
                arguments.deep_view() =~= self.args.deep_view().subrange(1, i as int),
            decreases self.args.len() - i,
        {
            let ghost before = arguments.deep_view();
            let arg = self.args[i].clone();
            arguments.push(arg);
            assert(arguments.deep_view() =~= before.push(self.args[i as int]@));
            i += 1;
        }
        assert(arguments.deep_view() =~= self.args.deep_view().skip(1));
        arguments
    }
}

/// A character that makes an argument a glob pattern.
pub open spec fn is_glob_char(c: char) -> bool {
    c == '?' || c == '*' || c == '['
}

/// The argument holds a glob metacharacter.
pub open spec fn has_glob_chars(s: Seq<char>) -> bool {
    exists|i: int| 0 <= i < s.len() && is_glob_char(#[trigger] s[i])
}

/// The paths among the entries that a glob walk yielded, in order; the entries
/// that could not be read are `None` and are left out.
pub open spec fn found_paths(entries: Seq<Option<Seq<char>>>) -> Seq<Seq<char>>
    decreases entries.len(),
{
    if entries.len() == 0 {
        Seq::empty()
    } else {
        let rest = found_paths(entries.drop_last());
        match entries.last() {
            Some(path) => rest.push(path),
            None => rest,
        }
    }
}

/// What one argument becomes, given the outcome of globbing it (`None` when
/// the pattern does not compile): the paths found, when it is a pattern and
/// some were found; else the argument itself.
pub open spec fn arg_expansion(arg: Seq<char>, outcome: Option<Seq<Option<Seq<char>>>>) -> Seq<
    Seq<char>,
> {
    if has_glob_chars(arg) && outcome is Some && found_paths(outcome.unwrap()).len() > 0 {
        found_paths(outcome.unwrap())
    } else {
        seq![arg]
    }
}

/// What a list of arguments becomes, given the outcome for each of them.
pub open spec fn args_expansion(
    args: Seq<Seq<char>>,
    outcomes: Seq<Option<Seq<Option<Seq<char>>>>>,
) -> Seq<Seq<char>>
    decreases args.len(),
{
    if args.len() == 0 {
        Seq::empty()
    } else {
        args_expansion(args.drop_last(), outcomes.drop_last()) + arg_expansion(
            args.last(),
            outcomes.last(),
        )
    }
}

/// `after` is `before` with each pattern replaced by the paths that some walk
/// of the file system found for it: the walks may find anything, but a
/// pattern that does not compile, or that finds nothing, stays as it is.
pub open spec fn glob_expands(before: Seq<Seq<char>>, after: Seq<Seq<char>>) -> bool {
    exists|outcomes: Seq<Option<Seq<Option<Seq<char>>>>>|
        {
            &&& outcomes.len() == before.len()
            &&& forall|i: int|
                0 <= i < before.len() ==> (#[trigger] outcomes[i] is Some <==> glob_pattern_compiles(
                    before[i],
                ))
            &&& after == args_expansion(before, outcomes)
        }
}

/// Whether `glob::glob` accepts the pattern; it depends on the pattern alone.
pub uninterp spec fn glob_pattern_compiles(pattern: Seq<char>) -> bool;

/// Calls `glob::glob` on `pattern`. `None` when the pattern does not compile;
/// else every entry of the walk, in the order the walk yields them, as the
/// path's text (lossily converted, as `to_string_lossy` does) or `None` for an
/// entry that could not be read. Which paths are found depends on the file
/// system and is not stated.
#[verifier::external_body]
fn glob_entries(pattern: &str) -> (entries: Option<Vec<Option<String>>>)
    ensures
        entries is Some <==> glob_pattern_compiles(pattern@),
{
    match glob::glob(pattern) {
        Ok(paths) => Some(
            paths.map(|entry| entry.ok().map(|path| path.to_string_lossy().into_owned())).collect(),
        ),
        Err(_) => None,
    }
}

/// Whether the argument holds `?`, `*` or `[`.
pub fn contains_glob_char(arg: &String) -> (r: bool)
    ensures
        r == has_glob_chars(arg@),
{
    broadcast use vstd::string::group_string_axioms;

    let mut seen = false;
    for c in it: arg.as_str().chars()
        invariant
            it.seq() == arg@,
            seen == (exists|k: int| 0 <= k < it.index() && is_glob_char(#[trigger] arg@[k])),
    {
        assert(c == arg@[it.index() as int]);
        if c == '?' || c == '*' || c == '[' {
            seen = true;
        }
    }
    seen
}

/// What `arg` becomes once globbed with the given outcome: the paths found,
/// when `arg` is a pattern and some were found; else `arg` itself.
pub fn expand_arg(arg: String, outcome: Option<Vec<Option<String>>>) -> (expanded: Vec<String>)
    ensures
        expanded.deep_view() == arg_expansion(arg@, outcome.deep_view()),
{
    if contains_glob_char(&arg) {
        if let Some(entries) = outcome {
            let mut found: Vec<String> = Vec::new();
            let mut k: usize = 0;
            while k < entries.len()
                invariant
                    k <= entries.len(),
                    found.deep_view() =~= found_paths(entries.deep_view().take(k as int)),
                decreases entries.len() - k,
            {
                let ghost before = found.deep_view();
                assert(entries.deep_view().take(k + 1).drop_last() =~= entries.deep_view().take(
                    k as int,
                ));
                match &entries[k] {
                    Some(path) => {
                        found.push(path.clone());
                        assert(found.deep_view() =~= before.push(entries.deep_view()[k as int]->0));
                    },
                    None => {},
                }
                k += 1;
            }
            assert(entries.deep_view().take(k as int) =~= entries.deep_view());
            if found.len() > 0 {
                return found;
            }
        }
    }
    let mut kept: Vec<String> = Vec::new();
    kept.push(arg);
    assert(kept.deep_view() =~= seq![arg@]);
    kept
}

impl Job {
    /// Replaces each argument that holds `?`, `*` or `[` by the paths that
    /// `glob` finds for it; an argument that is no pattern, whose pattern does
    /// not compile, or that finds nothing stays as it is. The command and the
    /// background flag do not change.
    pub fn expand_globs(&mut self)
        ensures
            final(self).command == old(self).command,
            final(self).background == old(self).background,
            glob_expands(old(self).args.deep_view(), final(self).args.deep_view()),
            (forall|i: int|
                0 <= i < old(self).args.len() ==> !has_glob_chars(#[trigger] old(self).args[i]@))
                ==> final(self).args.deep_view() == old(self).args.deep_view(),
    {
        let ghost before = self.args.deep_view();
        let ghost mut outcomes: Seq<Option<Seq<Option<Seq<char>>>>> = Seq::empty();
        let mut new_args: Vec<String> = Vec::new();
        let mut i: usize = 0;
        while i < self.args.len()
            invariant
                i <= self.args.len(),
                before == self.args.deep_view(),
                outcomes.len() == i,
                forall|j: int|
                    0 <= j < i ==> (#[trigger] outcomes[j] is Some <==> glob_pattern_compiles(
                        before[j],
                    )),
                new_args.deep_view() == args_expansion(before.take(i as int), outcomes),
                (forall|j: int| 0 <= j < i ==> !has_glob_chars(#[trigger] before[j]))
                    ==> new_args.deep_view() == before.take(i as int),
            decreases self.args.len() - i,
        {
            let arg = self.args[i].clone();
            assert(arg@ == before[i as int]);
            let pattern = contains_glob_char(&arg);
            let outcome = if pattern {
                glob_entries(arg.as_str())
            } else {
                None
            };
            let ghost taken = if pattern {
                outcome.deep_view()
            } else if glob_pattern_compiles(arg@) {
                Some(Seq::empty())
            } else {
                None
            };
            let ghost prefix = new_args.deep_view();
            let mut expanded = expand_arg(arg, outcome);
            assert(expanded.deep_view() == arg_expansion(before[i as int], taken));
            new_args.append(&mut expanded);
            assert(new_args.deep_view() =~= prefix + arg_expansion(before[i as int], taken));
            proof {
                let old_outcomes = outcomes;
                outcomes = outcomes.push(taken);
                assert(before.take(i + 1).drop_last() =~= before.take(i as int));
                assert(outcomes.drop_last() =~= old_outcomes);
                if forall|j: int| 0 <= j < i + 1 ==> !has_glob_chars(#[trigger] before[j]) {
                    assert(!has_glob_chars(before[i as int]));
                    assert(before.take(i + 1) =~= before.take(i as int).push(before[i as int]));
                }
            }
            i += 1;
        }
        assert(before.take(i as int) =~= before);
        self.args = new_args;
        assert forall|j: int| 0 <= j < before.len() implies #[trigger] before[j] == old(self).args[j]@ by {}
    }
}

impl Pipeline {
    /// Expands the glob patterns among the arguments of every job, as
    /// `Job::expand_globs` does; the jobs keep their order, commands and
    /// background flags, and the redirections do not change.
    pub fn expand_globs(&mut self)
        ensures
            final(self).stdin == old(self).stdin,
            final(self).stdout == old(self).stdout,
            final(self).jobs.len() == old(self).jobs.len(),
            forall|k: int|
                0 <= k < old(self).jobs.len() ==> {
                    &&& (#[trigger] final(self).jobs[k]).command == old(self).jobs[k].command
                    &&& final(self).jobs[k].background == old(self).jobs[k].background
                    &&& glob_expands(old(self).jobs[k].args.deep_view(), final(self).jobs[k].args.deep_view())
                },
    {
        let mut old_jobs: Vec<Job> = Vec::new();
        std::mem::swap(&mut old_jobs, &mut self.jobs);
        let ghost before = old_jobs@;
        let mut jobs: Vec<Job> = Vec::new();
        for job in it: old_jobs
            invariant
                it.seq() == before,
                jobs.len() == it.index(),
                forall|k: int|
                    0 <= k < it.index() ==> {
                        &&& (#[trigger] jobs[k]).command == before[k].command
                        &&& jobs[k].background == before[k].background
                        &&& glob_expands(before[k].args.deep_view(), jobs[k].args.deep_view())
                    },
        {
            let mut job = job;
            job.expand_globs();
            jobs.push(job);
        }
        self.jobs = jobs;
    }
}

} // verus!
