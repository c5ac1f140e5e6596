use cargo_feature_matrix::{Action, Error, Feature, FeatureMatrix, FeatureSet, Outcome, Task, TaskKind};

fn set_of(names: &[&str]) -> FeatureSet {
    let mut s = FeatureSet::new();
    for n in names {
        s.insert(Feature::new(n.to_string()));
    }
    s
}

fn three_combinations() -> FeatureMatrix {
    let mut m = FeatureMatrix::empty();
    m.insert(FeatureSet::new());
    m.insert(set_of(&["a"]));
    m.insert(set_of(&["b", "a"]));
    m
}

fn task(kind: TaskKind, args: Vec<String>) -> Task {
    Task::new(
        kind,
        "cargo".to_string(),
        "test".to_string(),
        "pkg".to_string(),
        args,
        three_combinations(),
    )
}

/// Drives a task to its end; `outcomes` answers each run it asks for.
fn drive(t: &Task, outcomes: &[Outcome]) -> (Vec<String>, Vec<Vec<String>>, Result<(), Error>) {
    let mut lines = Vec::new();
    let mut runs = Vec::new();
    let mut progress = t.start();
    loop {
        let (next, action) = t.run(&progress);
        progress = next;
        match action {
            Action::Print(line) => lines.push(line),
            Action::Invoke { announce, args } => {
                let outcome = outcomes[runs.len()].clone();
                runs.push(args);
                let (next, report) = t.record(&progress, outcome);
                progress = next;
                match report {
                    Action::Report { verdict, .. } => lines.push(format!("{}{}", announce, verdict)),
                    _ => panic!("record answers with a report"),
                }
            }
            Action::Report { .. } => panic!("run never reports"),
            Action::Finish(result) => return (lines, runs, result),
        }
    }
}

#[test]
fn dry_run_reports_every_combination_and_runs_nothing() {
    let t = task(TaskKind::DryRun, vec![]);
    let (lines, runs, result) = drive(&t, &[]);
    assert_eq!(
        lines,
        vec![
            "running: cmd=test package=pkg features=[]......OK",
            "running: cmd=test package=pkg features=[a]......OK",
            "running: cmd=test package=pkg features=[a,b]......OK",
        ]
    );
    assert!(runs.is_empty());
    assert_eq!(result, Ok(()));
}

#[test]
fn print_matrix_leaves_out_the_empty_combination() {
    let t = task(TaskKind::PrintMatrix, vec![]);
    let (lines, runs, result) = drive(&t, &[]);
    assert_eq!(lines, vec!["a", "a,b"]);
    assert!(runs.is_empty());
    assert_eq!(result, Ok(()));
}

#[test]
fn print_jobs_prints_each_command_line() {
    let t = task(TaskKind::PrintJobs, vec!["--release".to_string(), "-q".to_string()]);
    let (lines, runs, result) = drive(&t, &[]);
    assert_eq!(
        lines,
        vec![
            "cargo test --release -q",
            "cargo test --release -q --features a",
            "cargo test --release -q --features a,b",
        ]
    );
    assert!(runs.is_empty());
    assert_eq!(result, Ok(()));
}

#[test]
fn execute_runs_all_and_keeps_the_failure() {
    let t = task(TaskKind::Execute, vec![]);
    let outcomes = [Outcome::Success, Outcome::Failure(Some(101)), Outcome::Success];
    let (lines, runs, result) = drive(&t, &outcomes);
    assert_eq!(
        lines,
        vec![
            "running: cmd=test package=pkg features=[]......OK",
            "running: cmd=test package=pkg features=[a]......Fail",
            "running: cmd=test package=pkg features=[a,b]......OK",
        ]
    );
    assert_eq!(runs.len(), 3);
    assert_eq!(result, Err(Error::Fail(Some(101))));
}

#[test]
fn execute_reports_the_last_failure() {
    let t = task(TaskKind::Execute, vec![]);
    let outcomes = [Outcome::Failure(Some(1)), Outcome::Success, Outcome::Failure(None)];
    let (_, runs, result) = drive(&t, &outcomes);
    assert_eq!(runs.len(), 3);
    assert_eq!(result, Err(Error::Fail(None)));
}

#[test]
fn execute_goes_on_after_a_tool_that_cannot_start() {
    let t = task(TaskKind::Execute, vec![]);
    let outcomes = [
        Outcome::Success,
        Outcome::Unavailable { message: "no such program".to_string() },
        Outcome::Success,
    ];
    let (lines, runs, result) = drive(&t, &outcomes);
    assert_eq!(runs.len(), 3);
    assert_eq!(lines[1], "running: cmd=test package=pkg features=[a]......Fail");
    assert_eq!(result, Err(Error::Io { message: "no such program".to_string() }));
}

#[test]
fn execute_passes_features_or_turns_defaults_off() {
    let t = task(TaskKind::Execute, vec!["--quiet".to_string()]);
    let outcomes = [Outcome::Success, Outcome::Success, Outcome::Success];
    let (_, runs, result) = drive(&t, &outcomes);
    assert_eq!(runs[0], vec!["test", "--quiet", "--no-default-features"]);
    assert_eq!(runs[1], vec!["test", "--quiet", "--features", "a"]);
    assert_eq!(runs[2], vec!["test", "--quiet", "--features", "a,b"]);
    assert_eq!(result, Ok(()));
}

#[test]
fn record_says_whether_to_echo_output() {
    let t = task(TaskKind::Execute, vec![]);
    let p = t.start();
    let (next, report) = t.record(&p, Outcome::Failure(Some(2)));
    assert_eq!(next.next, 1);
    assert_eq!(next.failure, Some(Error::Fail(Some(2))));
    assert_eq!(report, Action::Report { verdict: "Fail".to_string(), echo_output: true });
    let (next, report) = t.record(&next, Outcome::Success);
    assert_eq!(next.next, 2);
    assert_eq!(next.failure, Some(Error::Fail(Some(2))));
    assert_eq!(report, Action::Report { verdict: "OK".to_string(), echo_output: false });
}

#[test]
fn finished_task_stays_finished() {
    let t = task(TaskKind::DryRun, vec![]);
    let mut p = t.start();
    p.next = 3;
    let (next, action) = t.run(&p);
    assert_eq!(next.next, 3);
    assert_eq!(action, Action::Finish(Ok(())));
}
