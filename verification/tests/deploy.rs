use rmdigest::deploy::{default_conf_path, is_blank_conf, is_blank_text, join_path, resolve_bin};
use rmdigest::deploy::{staged_name, Backend, CloudDoc, Environment, LocalBackend, Next};
use rmdigest::deploy::{ProcessRmapi, RmapiBackend, RmapiError, RmapiRunner, RunError};
use std::cell::RefCell;
use std::collections::HashMap;
use std::io::{Read, Write};
use std::path::Path;
use std::rc::Rc;

/// Records every command and answers with prepared output.
#[derive(Debug, Default)]
struct FakeRunner {
    calls: Rc<RefCell<Vec<Vec<String>>>>,
    capture_responses: HashMap<String, String>,
    write_rmdoc: bool,
    broken: bool,
}

impl FakeRunner {
    fn with_capture(mut self, key: &str, stdout: &str) -> Self {
        self.capture_responses.insert(key.to_string(), stdout.to_string());
        self
    }

    fn writing(mut self) -> Self {
        self.write_rmdoc = true;
        self
    }

    fn breaking(mut self) -> Self {
        self.broken = true;
        self
    }

    fn note(&self, args: &[&str]) {
        self.calls.borrow_mut().push(args.iter().map(|s| s.to_string()).collect());
    }

    fn fail<T>(&self) -> Result<T, RunError> {
        Err(RunError { message: "broken".to_string() })
    }
}

impl RmapiRunner for FakeRunner {
    fn run(&mut self, args: &[&str]) -> Result<(), RunError> {
        self.note(args);
        if self.broken {
            return self.fail();
        }
        Ok(())
    }

    fn try_run_in(&mut self, dir: &str, args: &[&str]) -> Result<bool, RunError> {
        self.note(args);
        if self.broken {
            return self.fail();
        }
        if self.write_rmdoc {
            if let Some(remote) = args.last() {
                let name = remote.split('/').next_back().unwrap_or("doc");
                let mut file = tempfile::NamedTempFile::new_in(dir).unwrap();
                file.write_all(b"fake bundle").unwrap();
                file.persist(Path::new(dir).join(format!("{}.rmdoc", name))).unwrap();
            }
        }
        Ok(self.write_rmdoc)
    }

    fn run_capture(&mut self, args: &[&str]) -> Result<String, RunError> {
        self.note(args);
        if self.broken {
            return self.fail();
        }
        let key = args.last().copied().unwrap_or("");
        Ok(self.capture_responses.get(key).cloned().unwrap_or_default())
    }
}

fn doc(path: &str, name: &str, folder: &str) -> CloudDoc {
    CloudDoc {
        path: path.to_string(),
        name: name.to_string(),
        folder: folder.to_string(),
        version: None,
    }
}

#[test]
fn list_recursive_and_excludes_suffixes() {
    let root_ls = "[d]\tAuthor\n[f]\tTopDoc\n[f]\tTopDoc \u{2014} Digest\n";
    let author_ls =
        "[f]\tGreat Book\n[f]\tGreat Book \u{2014} Digest\n[f]\tGreat Book \u{2014} Annotated\n";

    let calls = Rc::new(RefCell::new(Vec::new()));
    let runner = FakeRunner { calls: calls.clone(), ..Default::default() }
        .with_capture("/Watch", root_ls)
        .with_capture("/Watch/Author", author_ls);

    let mut backend = RmapiBackend::new(runner);
    let suffixes = vec![" \u{2014} Digest".to_string(), " \u{2014} Annotated".to_string()];
    let docs = backend.list("/Watch", &suffixes).unwrap();

    assert_eq!(docs.len(), 2, "expected 2 docs, got: {:?}", docs);

    let top = docs.iter().find(|d| d.name == "TopDoc").expect("TopDoc missing");
    assert_eq!(top.folder, "/Watch");
    assert_eq!(top.path, "/Watch/TopDoc");
    assert!(top.version.is_none());

    let book = docs.iter().find(|d| d.name == "Great Book").expect("Great Book missing");
    assert_eq!(book.folder, "/Watch/Author");
    assert_eq!(book.path, "/Watch/Author/Great Book");

    assert!(docs.iter().all(|d| !d.name.contains("Digest")));
    assert!(docs.iter().all(|d| !d.name.contains("Annotated")));
}

#[test]
fn put_issues_correct_arg_sequence() {
    let calls = Rc::new(RefCell::new(Vec::new()));
    let runner = FakeRunner { calls: calls.clone(), ..Default::default() };
    let mut backend = RmapiBackend::new(runner);

    let stage = tempfile::tempdir().unwrap();
    let staged = join_path(stage.path().to_str().unwrap(), &staged_name("My Book — Digest"));
    let mut file = tempfile::NamedTempFile::new_in(stage.path()).unwrap();
    file.write_all(b"%PDF").unwrap();
    file.persist(&staged).unwrap();

    let copied = backend.put(&staged, "/Books/Digests/Author", "My Book — Digest").unwrap();
    assert!(copied.is_none());

    let c = calls.borrow();
    assert_eq!(c[0], vec!["-ni", "mkdir", "/Books"]);
    assert_eq!(c[1], vec!["-ni", "mkdir", "/Books/Digests"]);
    assert_eq!(c[2], vec!["-ni", "mkdir", "/Books/Digests/Author"]);
    assert_eq!(c[3], vec!["-ni", "rm", "/Books/Digests/Author/My Book — Digest"]);
    assert_eq!(c[4].len(), 4, "put should have 4 args");
    assert_eq!(c[4][0], "-ni");
    assert_eq!(c[4][1], "put");
    assert!(
        c[4][2].ends_with("My Book — Digest.pdf"),
        "staged path should end with 'My Book — Digest.pdf', got: {}",
        c[4][2]
    );
    assert_eq!(c[4][3], "/Books/Digests/Author");
    assert_eq!(c.len(), 5);
}

#[test]
fn fetch_success_returns_rmdoc_path() {
    let calls = Rc::new(RefCell::new(Vec::new()));
    let runner = FakeRunner { calls: calls.clone(), ..Default::default() }.writing();
    let mut backend = RmapiBackend::new(runner);

    let tmp = tempfile::tempdir().unwrap();
    let kept = tempfile::tempdir().unwrap();
    let result = backend
        .fetch(
            tmp.path().to_str().unwrap(),
            &doc("/Books/Author/My Book", "My Book", "/Books/Author"),
        )
        .unwrap();
    assert!(result.is_some(), "expected Some(path)");
    let names = result.unwrap();
    let produced = tmp.path().join(&names.produced);
    assert!(produced.exists());
    let path = kept.path().join(&names.dest);
    tempfile::TempPath::try_from_path(produced).unwrap().persist(&path).unwrap();
    assert!(path.exists(), "returned path must exist: {}", path.display());
    assert!(
        path.file_name().and_then(|n| n.to_str()).unwrap_or("") == "rmdigest-My Book.rmdoc",
        "unexpected filename: {}",
        path.display()
    );
    let c = calls.borrow();
    assert_eq!(c[0], vec!["-ni", "get", "/Books/Author/My Book"]);
}

#[test]
fn fetch_missing_returns_none() {
    let calls = Rc::new(RefCell::new(Vec::new()));
    let runner = FakeRunner { calls: calls.clone(), ..Default::default() };
    let mut backend = RmapiBackend::new(runner);
    let tmp = tempfile::tempdir().unwrap();
    let result = backend
        .fetch(
            tmp.path().to_str().unwrap(),
            &doc("/Books/Author/Ghost", "Ghost", "/Books/Author"),
        )
        .unwrap();
    assert!(result.is_none());
}

#[test]
fn local_backend_put_writes_pdf() {
    let out = tempfile::tempdir().unwrap();
    let mut backend = LocalBackend::new(out.path().to_str().unwrap().to_string());

    let mut src = tempfile::NamedTempFile::new_in(out.path()).unwrap();
    src.write_all(b"%PDF-content").unwrap();
    let mut written = src.reopen().unwrap();

    let path = backend.put("input.pdf", "/ignored/folder", "My Digest").unwrap().unwrap();
    src.persist(&path).unwrap();

    let dest = out.path().join("My Digest.pdf");
    assert!(dest.exists(), "dest file must exist: {}", dest.display());
    let mut bytes = Vec::new();
    written.read_to_end(&mut bytes).unwrap();
    assert_eq!(bytes, b"%PDF-content");
}

#[test]
fn blank_conf_detection() {
    assert!(is_blank_conf(b""));
    assert!(is_blank_conf(b"devicetoken: \"\"\nusertoken: \"\""));
    assert!(!is_blank_conf(b"devicetoken: \"abc123\"\nusertoken: \"def456\""));
    assert!(is_blank_conf(b"devicetoken: \"abc123\""));
}

#[test]
fn resolve_bin_finds_existing_absolute() {
    let is_file = |p: &str| Path::new(p).is_file();
    assert!(resolve_bin("/bin/sh", &vec![], &is_file).is_ok());
}

#[test]
fn resolve_bin_rejects_missing_absolute() {
    let is_file = |p: &str| Path::new(p).is_file();
    let r = resolve_bin("/nonexistent/rmapi-fake-bin", &vec![], &is_file);
    assert!(r.is_err());
    assert_eq!(r, Err(RmapiError::NotAFile));
}

#[test]
fn a_bare_name_is_looked_for_in_the_directories() {
    let is_file = |p: &str| p == "/usr/bin/rmapi";
    let dirs = vec!["/bin".to_string(), "/usr/bin".to_string()];
    assert_eq!(resolve_bin("rmapi", &dirs, &is_file), Ok(()));
    assert_eq!(resolve_bin("rmapi", &vec!["/bin".to_string()], &is_file), Err(RmapiError::NotOnPath));
    assert_eq!(resolve_bin("./rmapi", &dirs, &is_file), Err(RmapiError::NotAFile));
    assert_eq!(resolve_bin("bin/rmapi", &dirs, &is_file), Err(RmapiError::NotAFile));
    assert_eq!(resolve_bin("rmapi/", &dirs, &|p: &str| p == "/bin/rmapi/"), Ok(()));
}

#[test]
fn tokens_are_read_leniently() {
    assert!(!is_blank_text("  devicetoken:abc\r\nusertoken  \"d\""));
    assert!(is_blank_text("devicetoken: \"\"\"\"\nusertoken: x"));
    assert!(is_blank_text("x devicetoken: a\nusertoken: b"));
    assert!(!is_blank_conf(b"devicetoken: \xff\nusertoken: b"));
}

#[test]
fn listings_pass_over_what_they_do_not_know() {
    let runner = FakeRunner::default()
        .with_capture("/", "\n  [f]\tA  \nnoise\n[x]\tB\n[d]\tsub\n[f]\t\n")
        .with_capture("/sub", "[f]\tC");
    let mut backend = RmapiBackend::new(runner);
    let docs = backend.list("/", &[]).unwrap();
    let paths: Vec<&str> = docs.iter().map(|d| d.path.as_str()).collect();
    assert_eq!(paths, vec!["/A", "/sub/C"]);
}

#[test]
fn a_broken_program_ends_every_call() {
    let mut backend = RmapiBackend::new(FakeRunner::default().breaking());
    assert_eq!(backend.list("/Watch", &[]).unwrap_err().message, "broken");
    assert!(backend.fetch("/tmp", &doc("/a", "a", "/")).is_err());
    assert!(backend.put("/tmp/a.pdf", "/", "a").is_err());
}

#[test]
fn a_failed_listing_ends_the_walk() {
    let calls = Rc::new(RefCell::new(Vec::new()));
    let runner = FakeRunner { calls: calls.clone(), ..Default::default() }
        .with_capture("/W", "[d]\tA\n[d]\tB\n");
    let mut backend = RmapiBackend::new(runner);
    let mut docs = vec![doc("/kept", "kept", "/")];
    backend.walk("/W", &[], &mut docs).unwrap();
    assert_eq!(docs.len(), 1);
    let c = calls.borrow();
    assert_eq!(c.len(), 3);
    assert_eq!(c[0], vec!["-ni", "ls", "/W"]);
    assert_eq!(c[1], vec!["-ni", "ls", "/W/A"]);
    assert_eq!(c[2], vec!["-ni", "ls", "/W/B"]);
}

#[test]
fn folders_are_made_from_the_top() {
    let calls = Rc::new(RefCell::new(Vec::new()));
    let runner = FakeRunner { calls: calls.clone(), ..Default::default() }.breaking();
    let mut backend = RmapiBackend::new(runner);
    backend.mkdir_p("//a//b/");
    let c = calls.borrow();
    assert_eq!(c.len(), 2);
    assert_eq!(c[0], vec!["-ni", "mkdir", "/a"]);
    assert_eq!(c[1], vec!["-ni", "mkdir", "/a/b"]);
}

#[test]
fn the_local_backend_has_no_cloud() {
    let mut backend = LocalBackend::new("out".to_string());
    assert!(backend.list("/", &[]).unwrap().is_empty());
    assert!(backend.fetch("/tmp", &doc("/a", "a", "/")).unwrap().is_none());
    assert_eq!(backend.put("x", "/f", "A").unwrap(), Some("out/A.pdf".to_string()));
}

fn environment() -> Environment {
    Environment {
        rmapi_xdg_home: None,
        xdg_config_home: None,
        home: Some("/home/a".to_string()),
        path: vec!["/usr/bin".to_string()],
    }
}

#[test]
fn the_configuration_is_where_the_program_looks() {
    let mut env = environment();
    assert_eq!(default_conf_path(&env), "/home/a/.config/rmapi/rmapi.conf");
    env.xdg_config_home = Some("/x".to_string());
    assert_eq!(default_conf_path(&env), "/x/rmapi/rmapi.conf");
    env.rmapi_xdg_home = Some("/r/".to_string());
    assert_eq!(default_conf_path(&env), "/r/rmapi/rmapi.conf");
    env.rmapi_xdg_home = None;
    env.xdg_config_home = None;
    env.home = None;
    assert_eq!(default_conf_path(&env), ".config/rmapi/rmapi.conf");
}

const GOOD: &[u8] = b"devicetoken: a\nusertoken: b\n";

#[test]
fn the_runner_needs_a_program_and_its_tokens() {
    let found = |_: &str| true;
    let missing = |_: &str| false;
    let good = |p: &str| {
        if p == "/home/a/.config/rmapi/rmapi.conf" {
            Some(GOOD.to_vec())
        } else {
            None
        }
    };
    let env = environment();
    let rmapi = ProcessRmapi::new(&env, &found, &good).unwrap();
    assert_eq!(rmapi.program(), "rmapi");
    assert_eq!(rmapi.conf(), "/home/a/.config/rmapi/rmapi.conf");
    assert_eq!(ProcessRmapi::new(&env, &missing, &good).unwrap_err(), RmapiError::NotOnPath);
    assert_eq!(
        ProcessRmapi::new(&env, &found, &|_: &str| None).unwrap_err(),
        RmapiError::NotPaired
    );
    assert_eq!(
        ProcessRmapi::new(&env, &found, &|_: &str| Some(b"usertoken: b".to_vec())).unwrap_err(),
        RmapiError::BlankTokens
    );
    let r = ProcessRmapi::with("/x/rmapi".into(), "/c".into(), &env.path, &missing, &good);
    assert_eq!(r.unwrap_err(), RmapiError::NotAFile);
}

#[test]
fn an_emptied_configuration_is_put_back_once() {
    let read = |_: &str| Some(GOOD.to_vec());
    let rmapi = ProcessRmapi::new(&environment(), &|_: &str| true, &read).unwrap();
    let blank: &[u8] = b"devicetoken: \"\"";
    let step = |again: bool, success: bool, conf: Option<&[u8]>| {
        let step = rmapi.after_exit(again, success, conf);
        (step.restore.map(|bytes| bytes.clone()), step.then_do)
    };
    let kept = Some(GOOD.to_vec());
    assert_eq!(step(false, true, Some(GOOD)), (None, Next::Succeed));
    assert_eq!(step(false, false, Some(GOOD)), (None, Next::Fail));
    assert_eq!(step(false, false, Some(blank)), (kept.clone(), Next::Retry));
    assert_eq!(step(false, false, None), (kept.clone(), Next::Retry));
    // A call that succeeds may have emptied it too, and so may the second one.
    assert_eq!(step(false, true, Some(blank)), (kept.clone(), Next::Succeed));
    assert_eq!(step(true, false, Some(blank)), (kept.clone(), Next::Fail));
    assert_eq!(step(true, true, None), (kept, Next::Succeed));
    assert_eq!(step(true, false, Some(GOOD)), (None, Next::Fail));
}

#[test]
fn paths_are_joined() {
    assert_eq!(join_path("/a", "b"), "/a/b");
    assert_eq!(join_path("/a/", "b"), "/a/b");
    assert_eq!(join_path("", "b"), "b");
    assert_eq!(join_path("/a", "/b"), "/b");
    assert_eq!(join_path("/a", ""), "/a/");
    assert_eq!(staged_name("My Book"), "My Book.pdf");
}
