use std::path::Path;
use tunshell::dirs::{
    equal_paths, get_exe_dir, parent_dir, probe_name, sock_path, temp_dir_candidates, temp_dir_vars,
    ExeDirError, SearchStep, TempDirError, TempDirSearch,
};

fn bytes(s: &str) -> Vec<u8> {
    s.as_bytes().to_vec()
}

fn all_paths(max: usize) -> Vec<String> {
    let mut all = vec![String::new()];
    let mut last = vec![String::new()];
    for _ in 0..max {
        let mut next = Vec::new();
        for p in &last {
            for c in ["/", ".", "a"] {
                next.push(format!("{}{}", p, c));
            }
        }
        all.extend(next.clone());
        last = next;
    }
    all
}

#[test]
fn paths_are_equal_as_the_standard_library_has_it() {
    let paths = all_paths(5);
    for a in &paths {
        for b in &paths {
            assert_eq!(
                equal_paths(&bytes(a), &bytes(b)),
                Path::new(a) == Path::new(b),
                "{} and {}",
                a,
                b
            );
        }
    }
}

#[test]
fn parents_are_those_of_the_standard_library() {
    for p in &all_paths(8) {
        let std: Option<Vec<u8>> =
            Path::new(p).parent().and_then(|dir| dir.to_str()).map(|dir| bytes(dir));
        assert_eq!(parent_dir(&bytes(p)), std, "{}", p);
    }
    assert_eq!(parent_dir(&bytes("/opt/tunshell/bin//client")), Some(bytes("/opt/tunshell/bin")));
    assert_eq!(parent_dir(&bytes("/opt/./../client/.")), Some(bytes("/opt/./..")));
    assert_eq!(parent_dir(&vec![0xff, 47, 1]), Some(vec![0xff]));
    assert_eq!(parent_dir(&bytes("/")), None);
}

#[test]
fn candidates_come_in_order_and_once() {
    let got = temp_dir_candidates(
        Some(bytes("/opt/tunshell")),
        Some(bytes("/opt//tunshell/")),
        vec![Some(bytes("/tmp/")), None, Some(bytes("/run/./user")), Some(bytes("/run/user"))],
    );
    assert_eq!(got, vec![bytes("/opt/tunshell"), bytes("/tmp/"), bytes("/run/./user")]);
    assert_eq!(temp_dir_candidates(None, None, vec![]), vec![bytes("/tmp")]);
    assert_eq!(
        temp_dir_candidates(None, Some(vec![0xff]), vec![Some(vec![]), Some(vec![])]),
        vec![vec![0xff], vec![], bytes("/tmp")]
    );
    assert_eq!(temp_dir_vars(), vec!["TMPDIR", "TEMP", "TMP", "XDG_RUNTIME_DIR"]);
}

#[test]
fn search_takes_the_first_writable_dir() {
    let mut search = TempDirSearch::new(vec![bytes("/a"), bytes("/b"), vec![0xff]]);
    assert_eq!(search.candidate(), Ok(&bytes("/a")));
    assert!(matches!(search.probed(false), SearchStep::Next));
    assert_eq!(search.candidate(), Ok(&bytes("/b")));
    match search.probed(true) {
        SearchStep::Found(dir) => assert_eq!(dir, "/b"),
        _ => panic!(),
    }
    assert!(matches!(search.probed(true), SearchStep::Failed(TempDirError::NotText)));
    assert_eq!(search.candidate(), Err(TempDirError::NoneWritable));
    assert_eq!(TempDirError::NoneWritable.message(), "could not find writable temp dir for rpty");
    assert_eq!(TempDirError::NotText.message(), "failed to convert temp dir to str");
}

#[test]
fn program_directory() {
    assert_eq!(get_exe_dir(Some(Some(bytes("/usr/bin")))), Ok("/usr/bin".to_string()));
    assert_eq!(get_exe_dir(None), Err(ExeDirError::NoExe));
    assert_eq!(get_exe_dir(Some(None)), Err(ExeDirError::NoParent));
    assert_eq!(get_exe_dir(Some(Some(vec![0x2f, 0xff]))), Err(ExeDirError::NotText));
    assert_eq!(ExeDirError::NoExe.message(), "could not get running exe path");
    assert_eq!(ExeDirError::NoParent.message(), "could not get path parent");
    assert_eq!(ExeDirError::NotText.message(), "failed to convert exe dir to str");
}

#[test]
fn files_are_named_by_process() {
    assert_eq!(sock_path("/tmp", 4711), "/tmp/rpty.4711.sock");
    assert_eq!(sock_path("", 0), "/rpty.0.sock");
    assert_eq!(probe_name(4294967295), ".tunshell-write-test-4294967295");
    assert_ne!(sock_path("/tmp", 1), sock_path("/tmp", 11));
}
