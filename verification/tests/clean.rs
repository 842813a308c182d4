use allenap_shell_utils::clean::{
    candidate_paths, clean_entries, clean_path, clean_path_given, expand_paths,
};
use allenap_shell_utils::component::is_same_path;
use allenap_shell_utils::environment::Environment;
use allenap_shell_utils::list::JoinPathsError;
use std::cell::RefCell;

fn env(home: Option<&str>, cwd: Option<&str>) -> Environment {
    Environment {
        home: home.map(|s| s.as_bytes().to_vec()),
        cwd: cwd.map(|s| s.as_bytes().to_vec()),
    }
}

fn paths(items: &[&str]) -> Vec<Vec<u8>> {
    items.iter().map(|s| s.as_bytes().to_vec()).collect()
}

fn among<'a>(existing: &'a [&'a str]) -> impl Fn(&[u8]) -> bool + 'a {
    move |path: &[u8]| existing.iter().any(|e| e.as_bytes() == path)
}

fn cleaned(input: &str, env: &Environment, existing: &[&str]) -> String {
    String::from_utf8(clean_path(input.as_bytes(), env, among(existing)).unwrap()).unwrap()
}

#[test]
fn clean_drops_duplicates_and_missing_paths() {
    let env = env(Some("/home/u"), Some("/work"));
    assert_eq!(
        cleaned(
            "/tmp/x:/tmp/x:~:/tmp/does-not-exist:/tmp/y",
            &env,
            &["/tmp/x", "/tmp/y", "/home/u"]
        ),
        "/tmp/x:/home/u:/tmp/y"
    );
}

#[test]
fn clean_empty_input_is_empty() {
    let env = env(Some("/home/u"), Some("/work"));
    assert_eq!(cleaned("", &env, &["/tmp/x"]), "");
    assert_eq!(clean_entries(b"", &env, among(&["/tmp/x"])), paths(&[]));
    assert_eq!(candidate_paths(b"", &env), paths(&[""]));
}

#[test]
fn clean_keeps_relative_path_unexpanded() {
    let env = env(Some("/home/u"), Some("/work"));
    assert_eq!(cleaned("bin", &env, &["bin", "/work/bin"]), "bin");
    assert_eq!(cleaned("bin", &env, &["/work/bin"]), "");
}

#[test]
fn clean_expands_leading_dot() {
    let env = env(Some("/home/u"), Some("/work"));
    assert_eq!(cleaned("./bin:.", &env, &["/work/bin", "/work"]), "/work/bin:/work");
}

#[test]
fn clean_drops_what_cannot_be_expanded() {
    let env = env(None, None);
    let everything = |_: &[u8]| true;
    assert_eq!(
        clean_path(b"~/bin:/usr/bin:./x:/bin", &env, everything),
        Ok(b"/usr/bin:/bin".to_vec())
    );
}

#[test]
fn clean_compares_expanded_paths() {
    let env = env(Some("/home/u"), Some("/work"));
    assert_eq!(
        cleaned("~/bin:/home/u/bin:./x:/work/x", &env, &["/home/u/bin", "/work/x"]),
        "/home/u/bin:/work/x"
    );
}

#[test]
fn clean_compares_by_components() {
    let env = env(None, None);
    assert_eq!(cleaned("/tmp/x/:/tmp/x://tmp///x", &env, &["/tmp/x"]), "/tmp/x");
}

#[test]
fn clean_keeps_a_later_dot() {
    let env = env(Some("/home/u"), Some("/work"));
    let everything = |_: &[u8]| true;
    assert_eq!(
        clean_path(b"/tmp/x:/tmp/./x:/tmp/x/.:/tmp/./x/:./a/.:~/./b", &env, everything),
        Ok(b"/tmp/x:/tmp/./x:/tmp/x/.:/work/a/.:/home/u/./b".to_vec())
    );
    assert_eq!(cleaned("/tmp/x:/tmp/./x", &env, &["/tmp/x"]), "/tmp/x");
    assert_eq!(cleaned("/tmp/x:/tmp/./x", &env, &["/tmp/./x"]), "/tmp/./x");
}

#[test]
fn clean_does_not_follow_links_or_parents() {
    let env = env(None, None);
    assert_eq!(
        cleaned("/tmp/x:/tmp/y/../x", &env, &["/tmp/x", "/tmp/y/../x"]),
        "/tmp/x:/tmp/y/../x"
    );
}

#[test]
fn clean_missing_first_occurrence_hides_later_ones() {
    let env = env(None, None);
    let asked = RefCell::new(Vec::new());
    let probe = |path: &[u8]| {
        asked.borrow_mut().push(path.to_vec());
        asked.borrow().len() > 1
    };
    assert_eq!(clean_path(b"/a:/a:/b:/a", &env, probe), Ok(b"/b".to_vec()));
    assert_eq!(*asked.borrow(), paths(&["/a", "/b"]));
}

#[test]
fn clean_asks_once_for_each_candidate_in_order() {
    let env = env(Some("/home/u"), Some("/work"));
    let asked = RefCell::new(Vec::new());
    let probe = |path: &[u8]| {
        asked.borrow_mut().push(path.to_vec());
        true
    };
    let kept = clean_entries(b"/c:~:/a:/c:.:/home/u:/a/", &env, probe);
    assert_eq!(*asked.borrow(), paths(&["/c", "/home/u", "/a", "/work"]));
    assert_eq!(kept, paths(&["/c", "/home/u", "/a", "/work"]));
}

#[test]
fn clean_fails_on_a_kept_path_with_the_delimiter() {
    let env = env(Some("/ho:me"), None);
    let everything = |_: &[u8]| true;
    assert_eq!(
        clean_path(b"/bin:~/x:~", &env, everything),
        Err(JoinPathsError { position: 1, path: b"/ho:me/x".to_vec() })
    );
}

#[test]
fn clean_succeeds_when_the_path_with_the_delimiter_is_dropped() {
    let env = env(Some("/ho:me"), None);
    assert_eq!(cleaned("/bin:~/x", &env, &["/bin"]), "/bin");
}

#[test]
fn clean_output_has_no_equal_entries() {
    let env = env(Some("/home/u"), Some("/work"));
    let everything = |_: &[u8]| true;
    let kept = clean_entries(b"/a:/b/:/a/.:~:/b:./c:/home/u/:/work/c:/a", &env, everything);
    assert_eq!(kept, paths(&["/a", "/b", "/a/.", "/home/u", "/work/c"]));
    for i in 0..kept.len() {
        for j in 0..i {
            assert!(!is_same_path(&kept[j], &kept[i]));
        }
    }
}

#[test]
fn clean_output_is_in_input_order() {
    let env = env(None, None);
    assert_eq!(cleaned("/z:/y:/x:/y:/w", &env, &["/w", "/x", "/z"]), "/z:/x:/w");
}

#[test]
fn clean_output_entries_exist() {
    let env = env(Some("/home/u"), Some("/work"));
    let existing = ["/a", "/home/u/bin", "/work"];
    let kept = clean_entries(b"/a:/b:~/bin:~:.:./x", &env, among(&existing));
    assert_eq!(kept, paths(&["/a", "/home/u/bin", "/work"]));
    for path in kept.iter() {
        assert!(among(&existing)(path));
    }
}

#[test]
fn clean_is_idempotent() {
    let env = env(Some("/home/u"), Some("/work"));
    let existing = ["/tmp/x", "/tmp/y", "/home/u", "/work/bin", "rel"];
    let once = cleaned("/tmp/x:./bin:/tmp/x/:~:/nope:rel:/tmp/y:~/", &env, &existing);
    assert_eq!(once, "/tmp/x:/work/bin:/home/u:rel:/tmp/y");
    assert_eq!(cleaned(&once, &env, &existing), once);
    assert_eq!(cleaned("", &env, &existing), "");
}

#[test]
fn clean_twice_differs_for_a_home_with_trailing_separator() {
    let env = env(Some("/home/u/"), None);
    let everything = |_: &[u8]| true;
    let once = clean_path(b"~", &env, everything).unwrap();
    assert_eq!(once, b"/home/u/".to_vec());
    assert_eq!(clean_path(&once, &env, everything), Ok(b"/home/u".to_vec()));
}

#[test]
fn clean_given_answers() {
    let env = env(Some("/home/u"), None);
    let input = b"/tmp/x:/tmp/x:~:/tmp/does-not-exist:/tmp/y";
    assert_eq!(
        candidate_paths(input, &env),
        paths(&["/tmp/x", "/home/u", "/tmp/does-not-exist", "/tmp/y"])
    );
    assert_eq!(
        clean_path_given(input, &env, &[true, true, false, true]),
        Ok(b"/tmp/x:/home/u:/tmp/y".to_vec())
    );
    assert_eq!(clean_path_given(input, &env, &[false, false, false, false]), Ok(Vec::new()));
    assert_eq!(clean_path_given(input, &env, &[]), Ok(Vec::new()));
    assert_eq!(clean_path_given(input, &env, &[false, true]), Ok(b"/home/u".to_vec()));
}

#[test]
fn clean_given_answers_fails_on_the_delimiter() {
    let env = env(Some("a:b"), None);
    assert_eq!(
        clean_path_given(b"/x:~", &env, &[true, true]),
        Err(JoinPathsError { position: 1, path: b"a:b".to_vec() })
    );
    assert_eq!(clean_path_given(b"/x:~", &env, &[true, false]), Ok(b"/x".to_vec()));
}

#[test]
fn expand_paths_drops_failures() {
    let env = env(Some("/home/u"), None);
    assert_eq!(
        expand_paths(&paths(&["~", ".", "/a//b", "", "./x", "~/y"]), &env),
        paths(&["/home/u", "/a/b", "", "/home/u/y"])
    );
}
