use ishizue::job::{Job, JobOutput};

#[test]
fn job_new_records_command_and_args() {
    let job = Job::new("echo", &["hello", "world"]);
    assert_eq!(job.program(), "echo");
    let args: Vec<&str> = job.arguments().iter().map(|a| a.as_str()).collect();
    assert_eq!(args, vec!["hello", "world"]);
    assert_eq!(job.working_dir(), None);
    assert!(job.env_vars().is_empty());
    assert!(!job.clears_env());
    assert_eq!(job.stdin_data(), None);
}

#[test]
fn job_builders_set_fields() {
    let job = Job::new("pwd", &[])
        .cwd("/tmp")
        .env_clear()
        .stdin("hello from stdin");
    assert_eq!(job.working_dir(), Some("/tmp"));
    assert!(job.clears_env());
    assert_eq!(job.stdin_data(), Some("hello from stdin"));
    assert!(job.arguments().is_empty());
}

#[test]
fn job_env_replaces_same_name() {
    let job = Job::new("env", &[])
        .env("A", "1")
        .env("B", "2")
        .env("A", "3");
    let mut vars: Vec<(String, String)> = job.env_vars().to_vec();
    vars.sort();
    assert_eq!(
        vars,
        vec![("A".to_owned(), "3".to_owned()), ("B".to_owned(), "2".to_owned())],
    );
}

#[test]
fn job_clone_is_equal_description() {
    let job = Job::new("sh", &["-c", "exit 42"]).env("X", "y").cwd("/");
    let copy = job.clone();
    assert_eq!(copy.program(), job.program());
    assert_eq!(copy.arguments(), job.arguments());
    assert_eq!(copy.env_vars(), job.env_vars());
    assert_eq!(copy.working_dir(), job.working_dir());
}

#[test]
fn job_output_success_only_for_exit_zero() {
    let ok = JobOutput::from_exit(Some(0), b"hello world\n", b"");
    assert!(ok.success);
    assert_eq!(ok.exit_code, Some(0));
    assert_eq!(ok.stdout.trim(), "hello world");
    assert!(ok.stderr.is_empty());

    let failed = JobOutput::from_exit(Some(42), b"", b"oops\n");
    assert!(!failed.success);
    assert_eq!(failed.exit_code, Some(42));
    assert_eq!(failed.stderr.trim(), "oops");

    let killed = JobOutput::from_exit(None, b"", b"");
    assert!(!killed.success);
    assert_eq!(killed.exit_code, None);
}

#[test]
fn job_output_decodes_invalid_utf8_lossily() {
    let out = JobOutput::from_exit(Some(0), &[b'f', 0xff, b'g'], "é".as_bytes());
    assert_eq!(out.stdout, "f\u{FFFD}g");
    assert_eq!(out.stderr, "é");
}
