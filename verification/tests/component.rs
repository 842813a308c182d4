use allenap_shell_utils::component::{
    components, is_same_path, same_component, Component, DOT, SEPARATOR, TILDE,
};

fn normal(name: &str) -> Component {
    Component::Normal(name.as_bytes().to_vec())
}

#[test]
fn special_bytes() {
    assert_eq!(SEPARATOR, b'/');
    assert_eq!(DOT, b'.');
    assert_eq!(TILDE, b'~');
}

#[test]
fn components_of_empty_path() {
    assert_eq!(components(b""), vec![]);
}

#[test]
fn components_of_root() {
    assert_eq!(components(b"/"), vec![Component::RootDir]);
    assert_eq!(components(b"//"), vec![Component::RootDir]);
}

#[test]
fn components_of_absolute_path() {
    assert_eq!(
        components(b"/usr/local/bin"),
        vec![Component::RootDir, normal("usr"), normal("local"), normal("bin")]
    );
}

#[test]
fn components_of_relative_path() {
    assert_eq!(components(b"a/b"), vec![normal("a"), normal("b")]);
    assert_eq!(components(b"bin"), vec![normal("bin")]);
}

#[test]
fn components_skip_repeated_and_trailing_separators() {
    assert_eq!(components(b"a//b/"), vec![normal("a"), normal("b")]);
    assert_eq!(components(b"//a///b//"), vec![Component::RootDir, normal("a"), normal("b")]);
}

#[test]
fn components_keep_every_dot() {
    assert_eq!(components(b"."), vec![Component::CurDir]);
    assert_eq!(components(b"./a"), vec![Component::CurDir, normal("a")]);
    assert_eq!(components(b"a/./b"), vec![normal("a"), Component::CurDir, normal("b")]);
    assert_eq!(components(b"a/b/."), vec![normal("a"), normal("b"), Component::CurDir]);
    assert_eq!(components(b"/./a"), vec![Component::RootDir, Component::CurDir, normal("a")]);
    assert_eq!(components(b"/."), vec![Component::RootDir, Component::CurDir]);
    assert_eq!(components(b"./."), vec![Component::CurDir, Component::CurDir]);
    assert_eq!(
        components(b".//a/./b/."),
        vec![
            Component::CurDir,
            normal("a"),
            Component::CurDir,
            normal("b"),
            Component::CurDir
        ]
    );
}

#[test]
fn components_keep_every_parent() {
    assert_eq!(components(b".."), vec![Component::ParentDir]);
    assert_eq!(
        components(b"../a/../.."),
        vec![Component::ParentDir, normal("a"), Component::ParentDir, Component::ParentDir]
    );
    assert_eq!(components(b"/.."), vec![Component::RootDir, Component::ParentDir]);
}

#[test]
fn components_with_dots_in_names() {
    assert_eq!(components(b"..."), vec![normal("...")]);
    assert_eq!(components(b".a/b."), vec![normal(".a"), normal("b.")]);
    assert_eq!(components(b"~/.cargo"), vec![normal("~"), normal(".cargo")]);
}

#[test]
fn same_component_compares_kind_and_name() {
    assert!(same_component(&Component::RootDir, &Component::RootDir));
    assert!(same_component(&Component::CurDir, &Component::CurDir));
    assert!(same_component(&Component::ParentDir, &Component::ParentDir));
    assert!(same_component(&normal("a"), &normal("a")));
    assert!(!same_component(&normal("a"), &normal("b")));
    assert!(!same_component(&Component::CurDir, &Component::ParentDir));
    assert!(!same_component(&Component::RootDir, &normal("/")));
}

#[test]
fn same_path_goes_by_components() {
    assert!(is_same_path(b"/tmp/x", b"/tmp/x"));
    assert!(is_same_path(b"/tmp/x", b"/tmp//x/"));
    assert!(is_same_path(b"/tmp/./x", b"/tmp//.//x/"));
    assert!(!is_same_path(b"/tmp/x", b"/tmp/./x"));
    assert!(!is_same_path(b"/tmp/x", b"/tmp/x/."));
    assert!(is_same_path(b"", b""));
    assert!(!is_same_path(b"/tmp/x", b"tmp/x"));
    assert!(!is_same_path(b"/tmp/x", b"/tmp/y"));
    assert!(!is_same_path(b"a", b"./a"));
    assert!(!is_same_path(b"/tmp/x", b"/tmp/x/../x"));
    assert!(!is_same_path(b"/tmp/x", b"/tmp"));
}

#[test]
fn component_bytes() {
    assert_eq!(Component::RootDir.bytes(), b"/".to_vec());
    assert_eq!(Component::CurDir.bytes(), b".".to_vec());
    assert_eq!(Component::ParentDir.bytes(), b"..".to_vec());
    assert_eq!(Component::Normal(b"bin".to_vec()).bytes(), b"bin".to_vec());
}

#[test]
fn component_home_marker() {
    assert!(Component::Normal(b"~".to_vec()).is_home_marker());
    assert!(!Component::Normal(b"~~".to_vec()).is_home_marker());
    assert!(!Component::Normal(b"a".to_vec()).is_home_marker());
    assert!(!Component::CurDir.is_home_marker());
}
