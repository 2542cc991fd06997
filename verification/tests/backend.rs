use git_fat::backend::{
    backend_keys, load_backend, select_section, Backend, BackendConfig, CopyAction, CopyBackend,
    CopyJob, LoadedBackend, RsyncBackend, Transfer,
};
use git_fat::error::FatError;
use git_fat::names::NameSet;
use std::collections::HashMap;
use std::path::PathBuf;

fn set(names: &[&str]) -> NameSet {
    let mut res = NameSet::new();
    for name in names {
        res.insert(name.to_string());
    }
    res
}

fn strings(texts: &[&str]) -> Vec<String> {
    texts.iter().map(|text| text.to_string()).collect()
}

fn config(section: &str, remote: Option<&str>, remote_is_dir: bool) -> BackendConfig {
    BackendConfig {
        section: section.to_string(),
        remote: remote.map(|text| text.to_string()),
        ssh_user: Some("me".to_string()),
        ssh_port: None,
        remote_is_dir,
    }
}

fn message(error: FatError) -> (&'static str, String) {
    match error {
        FatError::NotFound(text) => ("not found", text),
        FatError::Unsupported(text) => ("unsupported", text),
        FatError::Other(text) => ("other", text),
        FatError::Git(error) => ("git", error.message().to_string()),
    }
}

fn failure(res: Result<LoadedBackend, FatError>) -> (&'static str, String) {
    match res {
        Ok(_) => panic!("loaded"),
        Err(error) => message(error),
    }
}

#[test]
fn a_copy_backend_needs_its_directory() {
    assert!(CopyBackend::new(PathBuf::from("/objects"), "/mnt", true).is_ok());
    match CopyBackend::new(PathBuf::from("/objects"), "/mnt", false) {
        Ok(_) => panic!("made"),
        Err(error) => assert_eq!(
            message(error),
            ("not found", "copy backend remote is not a directory: /mnt".to_string())
        ),
    }
}

#[test]
fn a_copy_push_copies_to_the_remote() {
    let backend = match CopyBackend::new(PathBuf::from("/repo/objects"), "/mnt/fat", true) {
        Ok(backend) => backend,
        Err(_) => panic!("no backend"),
    };
    match backend.push_files(&set(&["aa", "bb"]), &None) {
        Transfer::Copy { create_dir, jobs } => {
            assert_eq!(create_dir, Some(PathBuf::from("/mnt/fat")));
            assert_eq!(jobs.len(), 2);
            assert_eq!(jobs[0].src, PathBuf::from("/repo/objects/aa"));
            assert_eq!(jobs[0].dst, PathBuf::from("/mnt/fat/aa"));
            assert_eq!(jobs[1].src, PathBuf::from("/repo/objects/bb"));
            assert_eq!(jobs[1].dst, PathBuf::from("/mnt/fat/bb"));
            assert!(!jobs[0].set_readonly);
        }
        _ => panic!("no copies"),
    }
}

#[test]
fn a_copy_pull_copies_from_the_remote() {
    let backend = match CopyBackend::new(PathBuf::from("/repo/objects"), "/mnt/fat", true) {
        Ok(backend) => backend,
        Err(_) => panic!("no backend"),
    };
    match backend.pull_files(&set(&["aa"]), &None) {
        Transfer::Copy { create_dir, jobs } => {
            assert_eq!(create_dir, None);
            assert_eq!(jobs.len(), 1);
            assert_eq!(jobs[0].src, PathBuf::from("/mnt/fat/aa"));
            assert_eq!(jobs[0].dst, PathBuf::from("/repo/objects/aa"));
            assert!(jobs[0].set_readonly);
        }
        _ => panic!("no copies"),
    }
}

#[test]
fn copies_are_never_written_over() {
    let push = CopyJob { src: PathBuf::from("a"), dst: PathBuf::from("b"), set_readonly: false };
    let pull = CopyJob { src: PathBuf::from("a"), dst: PathBuf::from("b"), set_readonly: true };
    assert_eq!(push.action(true), CopyAction::Skip);
    assert_eq!(push.action(false), CopyAction::Copy);
    assert_eq!(pull.action(true), CopyAction::Skip);
    assert_eq!(pull.action(false), CopyAction::CopyReadOnly);
}

#[test]
fn rsync_over_ssh_is_told_the_shell() {
    let backend = RsyncBackend::new(
        PathBuf::from("/repo/objects"),
        "me@host:/srv/fat",
        Some("joe".to_string()),
        Some("2222".to_string()),
    );
    assert_eq!(
        backend.build_command(true, &None),
        strings(&[
            "-s",
            "--progress",
            "--ignore-existing",
            "--from0",
            "--files-from=-",
            "/repo/objects/",
            "me@host:/srv/fat/",
            "--rsh=ssh -l joe -p 2222",
        ])
    );
    assert_eq!(
        backend.build_command(false, &Some("myssh".to_string())),
        strings(&[
            "-s",
            "--progress",
            "--ignore-existing",
            "--from0",
            "--files-from=-",
            "me@host:/srv/fat/",
            "/repo/objects/",
            "--rsh=myssh -l joe -p 2222",
        ])
    );
}

#[test]
fn an_rsync_daemon_needs_no_shell() {
    let backend = RsyncBackend::new(PathBuf::from("objects"), "host::fat", Some("joe".to_string()), None);
    assert_eq!(
        backend.build_command(true, &None),
        strings(&[
            "-s",
            "--progress",
            "--ignore-existing",
            "--from0",
            "--files-from=-",
            "objects/",
            "host::fat/",
        ])
    );
}

#[test]
fn rsync_reads_the_names_from_its_input() {
    let backend = RsyncBackend::new(PathBuf::from("objects"), "host:fat", None, None);
    match backend.pull_files(&set(&["aa", "b\u{e9}"]), &None) {
        Transfer::Rsync(run) => {
            assert_eq!(run.stdin, b"aa\0b\xc3\xa9\0".to_vec());
            assert_eq!(run.args, backend.build_command(false, &None));
            assert_eq!(run.args[7], "--rsh=ssh");
        }
        _ => panic!("no rsync"),
    }
    match backend.push_files(&set(&["aa"]), &None) {
        Transfer::Rsync(run) => assert_eq!(run.args, backend.build_command(true, &None)),
        _ => panic!("no rsync"),
    }
}

#[test]
fn rsync_is_not_run_for_nothing() {
    let backend = RsyncBackend::new(PathBuf::from("objects"), "host:fat", None, None);
    assert!(matches!(backend.push_files(&set(&[]), &None), Transfer::Nothing));
    assert!(matches!(backend.pull_files(&set(&[]), &None), Transfer::Nothing));
}

#[test]
fn the_first_section_is_chosen() {
    let path = PathBuf::from("/repo/.gitfat");
    let entries = vec![None, Some("rsync.remote".to_string()), Some("copy.remote".to_string())];
    assert_eq!(select_section(None, &entries, &path).unwrap(), "rsync");
    assert_eq!(select_section(Some("copy"), &entries, &path).unwrap(), "copy");
    assert_eq!(select_section(Some("else"), &vec![], &path).unwrap(), "else");
    assert_eq!(
        message(select_section(None, &vec![None], &path).unwrap_err()),
        ("not found", "no backend configuration found in /repo/.gitfat".to_string())
    );
}

#[test]
fn config_keys_are_dotted() {
    let keys = backend_keys("rsync");
    assert_eq!(keys.remote, "rsync.remote");
    assert_eq!(keys.ssh_user, "rsync.sshuser");
    assert_eq!(keys.ssh_port, "rsync.sshport");
}

#[test]
fn loads_the_described_backend() {
    let path = PathBuf::from("/repo/.gitfat");
    match load_backend(PathBuf::from("o"), &path, config("copy", Some("/mnt"), true)) {
        Ok(LoadedBackend::Copy(backend)) => match backend.push_files(&set(&[]), &None) {
            Transfer::Copy { create_dir, jobs } => {
                assert_eq!(create_dir, Some(PathBuf::from("/mnt")));
                assert_eq!(jobs.len(), 0);
            }
            _ => panic!("no copies"),
        },
        _ => panic!("no copy backend"),
    }
    match load_backend(PathBuf::from("o"), &path, config("rsync", Some("h:x"), false)) {
        Ok(backend) => match backend.push_files(&set(&["a"]), &None) {
            Transfer::Rsync(run) => assert_eq!(run.args[7], "--rsh=ssh -l me"),
            _ => panic!("no rsync"),
        },
        _ => panic!("no rsync backend"),
    }
}

#[test]
fn a_description_can_be_wrong() {
    let path = PathBuf::from("/repo/.gitfat");
    assert_eq!(
        failure(load_backend(PathBuf::from("o"), &path, config("rsync", None, false))),
        ("not found", "missing 'rsync.remote' in /repo/.gitfat".to_string())
    );
    assert_eq!(
        failure(load_backend(PathBuf::from("o"), &path, config("copy", Some("/mnt"), false))),
        ("not found", "copy backend remote is not a directory: /mnt".to_string())
    );
    assert_eq!(
        failure(load_backend(PathBuf::from("o"), &path, config("http", Some("x"), true))),
        ("unsupported", "unknown backend 'http' in /repo/.gitfat".to_string())
    );
    assert_eq!(
        failure(load_backend(PathBuf::from("o"), &path, config("RSYNC", Some("x"), true))),
        ("unsupported", "unknown backend 'RSYNC' in /repo/.gitfat".to_string())
    );
}

// Runs the copies of a transfer on a model of the files.
fn run(files: &mut HashMap<PathBuf, Vec<u8>>, transfer: Transfer) -> bool {
    let jobs = match transfer {
        Transfer::Copy { jobs, .. } => jobs,
        _ => panic!("no copies"),
    };
    for job in jobs {
        if job.action(files.contains_key(&job.dst)) == CopyAction::Skip {
            continue;
        }
        match files.get(&job.src).cloned() {
            Some(content) => {
                files.insert(job.dst, content);
            }
            None => return false,
        }
    }
    true
}

fn copy_backend(base_dir: &str) -> CopyBackend {
    match CopyBackend::new(PathBuf::from(base_dir), "/mnt/fat", true) {
        Ok(backend) => backend,
        Err(_) => panic!("no backend"),
    }
}

#[test]
fn what_is_pushed_is_pulled_elsewhere() {
    for there in ["/two", "/mnt/fat"] {
        let mut files: HashMap<PathBuf, Vec<u8>> = HashMap::new();
        files.insert(PathBuf::from("/one/aa"), b"A".to_vec());
        files.insert(PathBuf::from("/one/bb"), b"B".to_vec());
        let names = set(&["aa", "bb"]);
        assert!(run(&mut files, copy_backend("/one").push_files(&names, &None)));
        assert!(run(&mut files, copy_backend(there).pull_files(&names, &None)));
        assert_eq!(files[&PathBuf::from(there).join("aa")], b"A".to_vec());
        assert_eq!(files[&PathBuf::from(there).join("bb")], b"B".to_vec());
    }
}

#[test]
fn a_stored_object_needs_no_source() {
    let mut files: HashMap<PathBuf, Vec<u8>> = HashMap::new();
    files.insert(PathBuf::from("/mnt/fat/aa"), b"A".to_vec());
    assert!(run(&mut files, copy_backend("/one").push_files(&set(&["aa"]), &None)));
    assert!(!run(&mut files, copy_backend("/one").push_files(&set(&["aa", "bb"]), &None)));
    assert!(run(&mut files, copy_backend("/two").pull_files(&set(&["aa"]), &None)));
    assert_eq!(files[&PathBuf::from("/two/aa")], b"A".to_vec());
}
