use lc::cmd::Cmd;
use lc::job::Job;
use lc::job::is_glob;

#[test]
fn literal_pattern_is_a_file_job() {
    match Job::new("src/main.rs") {
        Job::File(p) => assert_eq!(p, "src/main.rs"),
        _ => panic!("expected a file job"),
    }
}

#[test]
fn recursive_pattern_is_unbounded() {
    match Job::new("src/**/*.txt") {
        Job::Walk { root, glob, depth } => {
            assert_eq!(root, "src");
            assert_eq!(glob, "**/*.txt");
            assert_eq!(depth, None);
        }
        _ => panic!("expected a walk job"),
    }
}

#[test]
fn non_recursive_pattern_is_depth_bounded() {
    match Job::new("src/*/*.txt") {
        Job::Walk { root, glob, depth } => {
            assert_eq!(root, "src");
            assert_eq!(glob, "*/*.txt");
            assert_eq!(depth, Some(2));
        }
        _ => panic!("expected a walk job"),
    }
}

#[test]
fn leading_glob_roots_at_current_directory() {
    match Job::new("*.txt") {
        Job::Walk { root, glob, depth } => {
            assert_eq!(root, "./");
            assert_eq!(glob, "*.txt");
            assert_eq!(depth, Some(1));
        }
        _ => panic!("expected a walk job"),
    }
}

#[test]
fn leading_recursive_glob_roots_at_current_directory() {
    match Job::new("**/*.rs") {
        Job::Walk { root, glob, depth } => {
            assert_eq!(root, "./");
            assert_eq!(glob, "**/*.rs");
            assert_eq!(depth, None);
        }
        _ => panic!("expected a walk job"),
    }
}

#[test]
fn absolute_pattern_keeps_leading_separator() {
    match Job::new("/tmp/*.log") {
        Job::Walk { root, glob, depth } => {
            assert_eq!(root, "/tmp");
            assert_eq!(glob, "*.log");
            assert_eq!(depth, Some(1));
        }
        _ => panic!("expected a walk job"),
    }
}

#[test]
fn repeated_separators_form_no_component() {
    match Job::new("a//b/*.c") {
        Job::Walk { root, glob, depth } => {
            assert_eq!(root, "a/b");
            assert_eq!(glob, "*.c");
            assert_eq!(depth, Some(1));
        }
        _ => panic!("expected a walk job"),
    }
}

#[test]
fn deep_literal_prefix_is_kept_whole() {
    match Job::new("a/b/c/?.rs") {
        Job::Walk { root, glob, depth } => {
            assert_eq!(root, "a/b/c");
            assert_eq!(glob, "?.rs");
            assert_eq!(depth, Some(1));
        }
        _ => panic!("expected a walk job"),
    }
}

#[test]
fn glob_detection() {
    assert!(!is_glob("plain/path.txt"));
    assert!(!is_glob(""));
    assert!(is_glob("a*b"));
    assert!(is_glob("a?b"));
    assert!(is_glob("a[bc]d"));
    assert!(is_glob("src/**/x"));
}

#[test]
fn patterns_are_classified_in_order() {
    let cmd = Cmd {
        no_ignore: false,
        quiet: false,
        follow_links: false,
        n_jobs: 0,
        args: vec![String::from("a.txt"), String::from("src/*.rs")],
        read_stdin: false,
    };
    let jobs = cmd.jobs();
    assert_eq!(jobs.len(), 2);
    match &jobs[0] {
        Job::File(p) => assert_eq!(p, "a.txt"),
        _ => panic!("expected a file job"),
    }
    match &jobs[1] {
        Job::Walk { root, glob, depth } => {
            assert_eq!(root, "src");
            assert_eq!(glob, "*.rs");
            assert_eq!(depth, &Some(1));
        }
        _ => panic!("expected a walk job"),
    }
}
