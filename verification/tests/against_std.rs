use allenap_shell_utils::clean::clean_path;
use allenap_shell_utils::component::{components, is_same_path, Component};
use allenap_shell_utils::environment::Environment;
use allenap_shell_utils::expand::{expand_path, push};
use allenap_shell_utils::list::{join_paths, split_paths};
use std::collections::HashSet;
use std::path::{Path, PathBuf};

// `std::path` leaves out a `.` that stands after the first component of a
// path. Here such a `.` is a component like any other. So `std::path` is asked
// about the path that has the name `D` in the place of each such `.`, and in
// its answer `D` is read as `.` again. No path that is tried holds a `D`.

/// Every string over `alphabet` of at most `max_len` characters.
fn strings(alphabet: &[char], max_len: usize) -> Vec<String> {
    let mut all = vec![String::new()];
    let mut last = vec![String::new()];
    for _ in 0..max_len {
        let mut next = Vec::new();
        for s in last.iter() {
            for c in alphabet.iter() {
                let mut longer = s.clone();
                longer.push(*c);
                next.push(longer);
            }
        }
        all.extend(next.iter().cloned());
        last = next;
    }
    all
}

/// `path` with `D` in the place of each `.` after its first piece.
fn mask(path: &str) -> String {
    let pieces: Vec<&str> = path
        .split('/')
        .enumerate()
        .map(|(index, piece)| if index > 0 && piece == "." { "D" } else { piece })
        .collect();
    pieces.join("/")
}

/// `path` with `.` in the place of each `D`.
fn unmask(path: &str) -> String {
    let pieces: Vec<&str> =
        path.split('/').map(|piece| if piece == "D" { "." } else { piece }).collect();
    pieces.join("/")
}

fn mask_list(list: &str) -> String {
    let entries: Vec<String> = list.split(':').map(mask).collect();
    entries.join(":")
}

fn std_components(path: &str) -> Vec<Component> {
    Path::new(&mask(path))
        .components()
        .map(|c| match c {
            std::path::Component::RootDir => Component::RootDir,
            std::path::Component::CurDir => Component::CurDir,
            std::path::Component::ParentDir => Component::ParentDir,
            std::path::Component::Normal(name) if name == "D" => Component::CurDir,
            std::path::Component::Normal(name) => {
                Component::Normal(name.to_str().unwrap().as_bytes().to_vec())
            }
            std::path::Component::Prefix(_) => unreachable!(),
        })
        .collect()
}

/// The expansion of a masked path; its result is masked too.
fn std_expand(path: &str, home: Option<&str>, cwd: Option<&str>) -> Option<PathBuf> {
    let mut abspath = PathBuf::new();
    for (index, component) in Path::new(path).components().enumerate() {
        match component {
            std::path::Component::CurDir => {
                if index == 0 {
                    abspath.push(cwd?)
                }
            }
            std::path::Component::Normal(element) => {
                if index == 0 && element == "~" {
                    abspath.push(home?)
                } else {
                    abspath.push(element)
                }
            }
            other => abspath.push(other),
        }
    }
    Some(abspath)
}

fn std_clean(
    input: &str,
    home: Option<&str>,
    cwd: Option<&str>,
    exists: &dyn Fn(&str) -> bool,
) -> Option<String> {
    let paths: Vec<PathBuf> = mask_list(input)
        .split(':')
        .filter_map(|entry| std_expand(entry, home, cwd))
        .collect();
    let mut unseen: HashSet<&PathBuf> = paths.iter().collect();
    let kept: Vec<String> = paths
        .iter()
        .filter(|p| unseen.remove(p) && exists(&unmask(p.to_str().unwrap())))
        .map(|p| unmask(p.to_str().unwrap()))
        .collect();
    if kept.iter().any(|p| p.contains(':')) {
        None
    } else {
        Some(kept.join(":"))
    }
}

fn env(home: Option<&str>, cwd: Option<&str>) -> Environment {
    Environment {
        home: home.map(|s| s.as_bytes().to_vec()),
        cwd: cwd.map(|s| s.as_bytes().to_vec()),
    }
}

#[test]
fn mask_hides_each_later_dot() {
    assert_eq!(mask("a/./b"), "a/D/b");
    assert_eq!(mask("./a/."), "./a/D");
    assert_eq!(mask("/./.."), "/D/..");
    assert_eq!(mask("."), ".");
    assert_eq!(mask("a/.b/..."), "a/.b/...");
    assert_eq!(unmask("/D/a/D"), "/./a/.");
    assert_eq!(mask_list("a/.:./.:."), "a/D:./D:.");
}

#[test]
fn components_agree_with_std() {
    for path in strings(&['/', '.', '~', 'a'], 6) {
        assert_eq!(components(path.as_bytes()), std_components(&path));
    }
}

#[test]
fn components_without_a_later_dot_are_those_of_std() {
    for path in strings(&['/', '.', '~', 'a'], 6) {
        if mask(&path) == path {
            let of_std: Vec<Vec<u8>> = Path::new(&path)
                .components()
                .map(|c| c.as_os_str().to_str().unwrap().as_bytes().to_vec())
                .collect();
            let ours: Vec<Vec<u8>> =
                components(path.as_bytes()).iter().map(|c| c.bytes()).collect();
            assert_eq!(ours, of_std);
        }
    }
}

#[test]
fn same_path_agrees_with_std() {
    let all = strings(&['/', '.', 'a'], 4);
    for a in all.iter() {
        for b in all.iter() {
            assert_eq!(
                is_same_path(a.as_bytes(), b.as_bytes()),
                Path::new(&mask(a)) == Path::new(&mask(b))
            );
        }
    }
}

#[test]
fn push_agrees_with_std() {
    let all = strings(&['/', '.', 'a'], 4);
    for buf in all.iter() {
        for part in all.iter() {
            let mut bytes = buf.as_bytes().to_vec();
            push(&mut bytes, part.as_bytes());
            let mut path = PathBuf::from(buf);
            path.push(part);
            assert_eq!(bytes, path.to_str().unwrap().as_bytes().to_vec());
        }
    }
}

#[test]
fn expand_agrees_with_std() {
    let settings = [
        (Some("/home/u"), Some("/work")),
        (None, None),
        (Some("/"), Some("rel/dir")),
        (Some("/home/u/"), Some(".")),
        (Some(""), Some("~")),
    ];
    for (home, cwd) in settings {
        let env = env(home, cwd);
        for path in strings(&['/', '.', '~', 'a'], 5) {
            let expected = std_expand(&mask(&path), home, cwd)
                .map(|p| unmask(p.to_str().unwrap()).into_bytes());
            assert_eq!(expand_path(path.as_bytes(), &env), expected);
        }
    }
}

#[test]
fn split_and_join_agree_with_std() {
    for input in strings(&[':', '/', 'a'], 7) {
        let entries: Vec<Vec<u8>> = input.split(':').map(|e| e.as_bytes().to_vec()).collect();
        assert_eq!(split_paths(input.as_bytes()), entries);
        assert_eq!(join_paths(&entries), Ok(input.as_bytes().to_vec()));
    }
}

#[test]
fn clean_agrees_with_std() {
    let exists = |path: &str| path.len() % 2 == 1 || path.starts_with("/home");
    let probe = |path: &[u8]| path.len() % 2 == 1 || path.starts_with(b"/home");
    let settings = [
        (Some("/home/u"), Some("/work")),
        (None, Some("/w")),
        (Some("/home/u/"), None),
        (Some("/ho:me"), Some("/")),
    ];
    for (home, cwd) in settings {
        let env = env(home, cwd);
        for input in strings(&[':', '/', '.', '~', 'a'], 5) {
            let expected = std_clean(&input, home, cwd, &exists).map(|s| s.into_bytes());
            assert_eq!(clean_path(input.as_bytes(), &env, probe).ok(), expected);
        }
    }
}

#[test]
fn clean_of_longer_lists_agrees_with_std() {
    let exists = |path: &str| path != "/a/a" && !path.is_empty();
    let probe = |path: &[u8]| path != b"/a/a" && !path.is_empty();
    let env = env(Some("/home/u"), Some("/work"));
    for input in strings(&[':', '/', 'a'], 8) {
        let expected =
            std_clean(&input, Some("/home/u"), Some("/work"), &exists).map(|s| s.into_bytes());
        assert_eq!(clean_path(input.as_bytes(), &env, probe).ok(), expected);
    }
}

#[test]
fn clean_with_dots_agrees_with_std() {
    let exists = |path: &str| !path.ends_with("a");
    let probe = |path: &[u8]| !path.ends_with(b"a");
    let env = env(Some("/home/u"), Some("/work"));
    for input in strings(&[':', '/', '.', 'a'], 6) {
        let expected =
            std_clean(&input, Some("/home/u"), Some("/work"), &exists).map(|s| s.into_bytes());
        assert_eq!(clean_path(input.as_bytes(), &env, probe).ok(), expected);
    }
}
