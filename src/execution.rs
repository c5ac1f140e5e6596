use vstd::prelude::*;
use crate::features::{FeatureMatrix, FeatureSet};
use crate::names::{joined, Name};

verus! {

/// What a task does with each combination of the matrix.
#[derive(Clone, Copy, Debug, PartialEq, Eq, Structural)]
pub enum TaskKind {
    /// Print the report as if every run had succeeded, and run nothing.
    DryRun,
    /// Print the full command line of every run, one per line.
    PrintJobs,
    /// Run the tool once per combination and report each outcome.
    Execute,
    /// Print the text of every non-empty combination, one per line.
    PrintMatrix,
}

/// Why a task failed.
#[derive(Clone, Debug, PartialEq, Eq)]
pub enum Error {
    /// The tool could not be started, or its output could not be read.
    Io { message: String },
    /// The tool exited with a failure status; its exit code, if it had one.
    Fail(Option<i32>),
}

impl Error {
    /// A copy of this error.
    pub fn duplicate(&self) -> (r: Error)
        ensures
            r == *self,
    {
        match self {
            Error::Io { message } => Error::Io { message: message.clone() },
            Error::Fail(code) => Error::Fail(*code),
        }
    }
}

/// How one run of the tool ended.
#[derive(Clone, Debug, PartialEq, Eq)]
pub enum Outcome {
    Success,
    /// It exited with a failure status; its exit code, if it had one.
    Failure(Option<i32>),
    /// It could not be started, or its output could not be read.
    Unavailable { message: String },
}

/// What the caller of a task does next.
#[derive(Debug, PartialEq, Eq)]
pub enum Action {
    /// Print this line.
    Print(String),
    /// Print `announce` without ending the line, run the program with `args`,
    /// and hand the outcome to `Task::record`.
    Invoke { announce: String, args: Vec<String> },
    /// End the announced line with `verdict`; when `echo_output` holds, write
    /// the output that the run captured.
    Report { verdict: String, echo_output: bool },
    /// Nothing is left: the task ends with this result.
    Finish(Result<(), Error>),
}

/// Where a task stands: the next combination, and the last failure so far.
#[derive(Clone, Debug)]
pub struct Progress {
    pub next: usize,
    pub failure: Option<Error>,
}

/// One pass of the tool over the matrix of one package.
#[derive(Debug)]
pub struct Task {
    matrix: FeatureMatrix,
    program: String,
    package_name: String,
    args: Vec<String>,
    command: String,
    kind: TaskKind,
}

/// The line that announces the run of `command` on a combination.
pub open spec fn announce_line(command: Seq<char>, package: Seq<char>, features: Seq<char>) -> Seq<char> {
    "running: cmd="@ + command + " package="@ + package + " features=["@ + features + "]......"@
}

/// Words joined by single spaces.
pub open spec fn spaced(words: Seq<Seq<char>>) -> Seq<char>
    decreases words.len(),
{
    if words.len() == 0 {
        Seq::empty()
    } else if words.len() == 1 {
        words[0]
    } else {
        spaced(words.drop_last()) + " "@ + words.last()
    }
}

/// The arguments of the run on a combination: the command, the extra
/// arguments, then the features; with no features, the flag that turns the
/// default ones off.
pub open spec fn invocation_args(command: Seq<char>, args: Seq<Seq<char>>, names: Seq<Name>) -> Seq<Seq<char>> {
    if names.len() == 0 {
        seq![command] + args + seq!["--no-default-features"@]
    } else {
        seq![command] + args + seq!["--features"@, joined(names)]
    }
}

/// The printed command line of the run on a combination; the empty
/// combination gets no feature flag.
pub open spec fn job_line(program: Seq<char>, command: Seq<char>, args: Seq<Seq<char>>, names: Seq<Name>) -> Seq<char> {
    let base = spaced(seq![program, command] + args);
    if names.len() == 0 {
        base
    } else {
        base + " --features "@ + joined(names)
    }
}

/// The failure that an outcome leaves behind, if any.
pub open spec fn failure_of(o: Outcome) -> Option<Error> {
    match o {
        Outcome::Success => None,
        Outcome::Failure(code) => Some(Error::Fail(code)),
        Outcome::Unavailable { message } => Some(Error::Io { message }),
    }
}

/// The result of a task that has seen this last failure.
pub open spec fn result_of(failure: Option<Error>) -> Result<(), Error> {
    match failure {
        None => Ok(()),
        Some(e) => Err(e),
    }
}

fn push_all(r: &mut String, words: &Vec<String>)
    ensures
        final(r)@ == spaced(seq![old(r)@] + words@.map_values(|w: String| w@)),
{
    let ghost start = r@;
    let mut i: usize = 0;
    while i < words.len()
        invariant
            i <= words.len(),
            r@ == spaced(seq![start] + words@.map_values(|w: String| w@).take(i as int)),
        decreases words.len() - i,
    {
        let ghost ws = words@.map_values(|w: String| w@);
        assert((seq![start] + ws.take(i + 1)).drop_last() =~= seq![start] + ws.take(i as int));
        assert(ws[i as int] == words@[i as int]@);
        r.append(" ");
        r.append(words[i].as_str());
        i = i + 1;
    }
    assert(words@.map_values(|w: String| w@).take(i as int) =~= words@.map_values(|w: String| w@));
}

/// The answer of `Task::run` to `p` on a task of this kind, matrix, program,
/// command, package and arguments.
pub open spec fn run_spec(
    kind: TaskKind,
    seqs: Seq<Seq<Name>>,
    program: Seq<char>,
    command: Seq<char>,
    package: Seq<char>,
    args: Seq<Seq<char>>,
    p: Progress,
    next: Progress,
    a: Action,
) -> bool {
    let i = p.next as int;
    let n = seqs.len();
    if kind == TaskKind::PrintMatrix {
        ||| {
            &&& a == Action::Finish(result_of(p.failure))
            &&& next == p
            &&& forall|k: int| i <= k < n ==> (#[trigger] seqs[k]).len() == 0
        }
        ||| {
            &&& a matches Action::Print(line)
            &&& i < next.next <= n
            &&& next.failure == p.failure
            &&& seqs[next.next - 1].len() > 0
            &&& line@ == joined(seqs[next.next - 1])
            &&& forall|k: int| i <= k < next.next - 1 ==> (#[trigger] seqs[k]).len() == 0
        }
    } else if i >= n {
        a == Action::Finish(result_of(p.failure)) && next == p
    } else if kind == TaskKind::DryRun {
        &&& next.next == i + 1
        &&& next.failure == p.failure
        &&& a matches Action::Print(line)
        &&& line@ == announce_line(command, package, joined(seqs[i])) + "OK"@
    } else if kind == TaskKind::PrintJobs {
        &&& next.next == i + 1
        &&& next.failure == p.failure
        &&& a matches Action::Print(line)
        &&& line@ == job_line(program, command, args, seqs[i])
    } else {
        &&& next == p
        &&& a matches Action::Invoke { announce, args: run_args }
        &&& announce@ == announce_line(command, package, joined(seqs[i]))
        &&& run_args@.map_values(|x: String| x@) == invocation_args(command, args, seqs[i])
    }
}

impl Task {
    pub closed spec fn matrix(&self) -> FeatureMatrix {
        self.matrix
    }

    pub closed spec fn kind(&self) -> TaskKind {
        self.kind
    }

    pub closed spec fn command(&self) -> Seq<char> {
        self.command@
    }

    pub closed spec fn program(&self) -> Seq<char> {
        self.program@
    }

    pub closed spec fn package_name(&self) -> Seq<char> {
        self.package_name@
    }

    pub closed spec fn args(&self) -> Seq<Seq<char>> {
        self.args@.map_values(|a: String| a@)
    }

    /// A task over `matrix` that runs `program` with `command` and `args` for
    /// the package `package_name`.
    pub fn new(
        kind: TaskKind,
        program: String,
        command: String,
        package_name: String,
        args: Vec<String>,
        matrix: FeatureMatrix,
    ) -> (r: Task)
        requires
            matrix.wf(),
        ensures
            r.matrix() == matrix,
            r.kind() == kind,
            r.program() == program@,
            r.command() == command@,
            r.package_name() == package_name@,
            r.args() == args@.map_values(|a: String| a@),
            r.matrix().wf(),
    {
        Task { matrix, program, package_name, args, command, kind }
    }

    /// The progress of a task that has not begun.
    pub fn start(&self) -> (r: Progress)
        ensures
            r.next == 0,
            r.failure == None::<Error>,
    {
        Progress { next: 0, failure: None }
    }

    /// The number of combinations.
    pub fn len(&self) -> (r: usize)
        requires
            self.matrix().wf(),
        ensures
            r == self.matrix().entries().len(),
    {
        self.matrix.len()
    }

    /// The next step of the task from `progress`. A dry run prints each
    /// combination's line with a success verdict and runs nothing; printing
    /// jobs prints each command line; printing the matrix prints the text of
    /// each non-empty combination; executing asks for one run of the tool,
    /// whose outcome goes to `record`. Past the last combination the task
    /// finishes, with the last failure that it recorded, if any.
    pub fn run(&self, progress: &Progress) -> (r: (Progress, Action))
        requires
            self.matrix().wf(),
        ensures
            run_spec(
                self.kind(),
                self.matrix().name_seqs(),
                self.program(),
                self.command(),
                self.package_name(),
                self.args(),
                *progress,
                r.0,
                r.1,
            ),
    {
        let n = self.matrix.len();
        let i = progress.next;
        let ghost seqs = self.matrix().name_seqs();
        proof {
            self.matrix.lemma_name_seqs();
        }
        match self.kind {
            TaskKind::PrintMatrix => {
                let mut j: usize = i;
                while j < n
                    invariant
                        self.matrix().wf(),
                        self.kind() == TaskKind::PrintMatrix,
                        i == progress.next,
                        n == self.matrix().entries().len(),
                        seqs == self.matrix().name_seqs(),
                        seqs.len() == n,
                        i <= j || n <= j,
                        forall|k: int| i <= k < j ==> (#[trigger] seqs[k]).len() == 0,
                    decreases n - j,
                {
                    let set = self.matrix.get(j);
                    if !set.is_empty() {
                        assert(set.names().len() > 0) by {
                            if set.names().len() == 0 {
                                assert(set@ =~= Set::<Name>::empty());
                            }
                        }
                        let line = set.to_text();
                        let next = Progress { next: j + 1, failure: self.copy_failure(progress) };
                        assert(seqs[j as int].len() > 0);
                        assert(line@ == joined(seqs[next.next - 1]));
                        assert(forall|k: int| i <= k < next.next - 1 ==> (#[trigger] seqs[k]).len() == 0);
                        return (next, Action::Print(line));
                    }
                    assert(set.names().len() == 0) by {
                        if set.names().len() > 0 {
                            assert(set@.contains(set.names()[0]));
                        }
                    }
                    j = j + 1;
                }
                let next = Progress { next: i, failure: self.copy_failure(progress) };
                (next, Action::Finish(self.result(progress)))
            },
            _ => {
                if i >= n {
                    let next = Progress { next: i, failure: self.copy_failure(progress) };
                    return (next, Action::Finish(self.result(progress)));
                }
                let set = self.matrix.get(i);
                match self.kind {
                    TaskKind::DryRun => {
                        let mut line = self.announce(set);
                        line.append("OK");
                        let next = Progress { next: i + 1, failure: self.copy_failure(progress) };
                        (next, Action::Print(line))
                    },
                    TaskKind::PrintJobs => {
                        let line = self.job(set);
                        let next = Progress { next: i + 1, failure: self.copy_failure(progress) };
                        (next, Action::Print(line))
                    },
                    _ => {
                        let announce = self.announce(set);
                        let args = self.invocation(set);
                        let next = Progress { next: i, failure: self.copy_failure(progress) };
                        (next, Action::Invoke { announce, args })
                    },
                }
            },
        }
    }

    /// Takes the outcome of the run that `run` asked for on the combination at
    /// `progress.next`: moves on to the next combination, keeps a failure as the
    /// last one, and says how to end the announced line.
    pub fn record(&self, progress: &Progress, outcome: Outcome) -> (r: (Progress, Action))
        requires
            self.matrix().wf(),
            progress.next < self.matrix().entries().len(),
        ensures
            r.0.next == progress.next + 1,
            r.0.failure == (match failure_of(outcome) {
                Some(e) => Some(e),
                None => progress.failure,
            }),
            r.1 matches Action::Report { verdict, echo_output } && verdict@ == (if outcome is Success {
                "OK"@
            } else {
                "Fail"@
            }) && echo_output == !(outcome is Success),
    {
        proof {
            self.matrix.lemma_name_seqs();
        }
        let n = self.matrix.len();
        let next = progress.next + 1;
        match outcome {
            Outcome::Success => (
                Progress { next, failure: self.copy_failure(progress) },
                Action::Report { verdict: "OK".to_owned(), echo_output: false },
            ),
            Outcome::Failure(code) => (
                Progress { next, failure: Some(Error::Fail(code)) },
                Action::Report { verdict: "Fail".to_owned(), echo_output: true },
            ),
            Outcome::Unavailable { message } => (
                Progress { next, failure: Some(Error::Io { message }) },
                Action::Report { verdict: "Fail".to_owned(), echo_output: true },
            ),
        }
    }

    fn copy_failure(&self, progress: &Progress) -> (r: Option<Error>)
        ensures
            r == progress.failure,
    {
        match &progress.failure {
            None => None,
            Some(e) => Some(e.duplicate()),
        }
    }

    fn result(&self, progress: &Progress) -> (r: Result<(), Error>)
        ensures
            r == result_of(progress.failure),
    {
        match &progress.failure {
            None => Ok(()),
            Some(e) => Err(e.duplicate()),
        }
    }

    fn announce(&self, set: &FeatureSet) -> (r: String)
        ensures
            r@ == announce_line(self.command(), self.package_name(), set.text()),
    {
        let mut r = "running: cmd=".to_owned();
        r.append(self.command.as_str());
        r.append(" package=");
        r.append(self.package_name.as_str());
        r.append(" features=[");
        let text = set.to_text();
        r.append(text.as_str());
        r.append("]......");
        r
    }

    fn invocation(&self, set: &FeatureSet) -> (r: Vec<String>)
        requires
            set.wf(),
        ensures
            r@.map_values(|a: String| a@) == invocation_args(self.command(), self.args(), set.names()),
    {
        let mut r: Vec<String> = Vec::new();
        r.push(self.command.clone());
        let mut i: usize = 0;
        while i < self.args.len()
            invariant
                i <= self.args.len(),
                r@.map_values(|a: String| a@) == seq![self.command()] + self.args().take(i as int),
            decreases self.args.len() - i,
        {
            let ghost before = r@;
            r.push(self.args[i].clone());
            assert(r@.map_values(|a: String| a@) =~= seq![self.command()] + self.args().take(i + 1)) by {
                assert(r@ == before.push(self.args@[i as int]));
                assert(self.args()[i as int] == self.args@[i as int]@);
                assert(r@.map_values(|a: String| a@) =~= before.map_values(|a: String| a@).push(self.args()[i as int]));
                assert(self.args().take(i + 1) =~= self.args().take(i as int).push(self.args()[i as int]));
            }
            i = i + 1;
        }
        assert(self.args().take(i as int) =~= self.args());
        let ghost before = r@.map_values(|a: String| a@);
        if set.is_empty() {
            proof {
                set.lemma_finite();
                assert(set.names().len() == 0) by {
                    if set.names().len() > 0 {
                        assert(set@.contains(set.names()[0]));
                    }
                }
            }
            r.push("--no-default-features".to_owned());
            assert(r@.map_values(|a: String| a@) =~= before + seq!["--no-default-features"@]);
        } else {
            proof {
                if set.names().len() == 0 {
                    assert(set@ =~= Set::<Name>::empty());
                }
            }
            r.push("--features".to_owned());
            r.push(set.to_text());
            assert(r@.map_values(|a: String| a@) =~= before + seq!["--features"@, set.text()]);
        }
        r
    }

    fn job(&self, set: &FeatureSet) -> (r: String)
        requires
            set.wf(),
        ensures
            r@ == job_line(self.program(), self.command(), self.args(), set.names()),
    {
        let mut r = self.program.clone();
        let mut words: Vec<String> = Vec::new();
        words.push(self.command.clone());
        let mut i: usize = 0;
        while i < self.args.len()
            invariant
                i <= self.args.len(),
                words@.map_values(|a: String| a@) == seq![self.command()] + self.args().take(i as int),
            decreases self.args.len() - i,
        {
            let ghost before = words@;
            words.push(self.args[i].clone());
            assert(words@.map_values(|a: String| a@) =~= seq![self.command()] + self.args().take(i + 1)) by {
                assert(words@ == before.push(self.args@[i as int]));
                assert(self.args()[i as int] == self.args@[i as int]@);
                assert(words@.map_values(|a: String| a@) =~= before.map_values(|a: String| a@).push(self.args()[i as int]));
                assert(self.args().take(i + 1) =~= self.args().take(i as int).push(self.args()[i as int]));
            }
            i = i + 1;
        }
        assert(self.args().take(i as int) =~= self.args());
        push_all(&mut r, &words);
        assert(seq![self.program()] + (seq![self.command()] + self.args()) =~= seq![self.program(), self.command()] + self.args());
        if set.is_empty() {
            assert(set.names().len() == 0) by {
                if set.names().len() > 0 {
                    assert(set@.contains(set.names()[0]));
                }
            }
        } else {
            assert(set.names().len() != 0) by {
                if set.names().len() == 0 {
                    assert(set@ =~= Set::<Name>::empty());
                }
            }
            r.append(" --features ");
            let text = set.to_text();
            r.append(text.as_str());
        }
        r
    }
}

} // verus!
