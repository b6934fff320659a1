use opendal_service_container::error::ContainerError;
use opendal_service_container::paths::{
    ensure_dir_path, is_whiteout, join_path, normalize_link_target, normalize_tar_path,
    split_parent_name,
};

#[test]
fn tar_paths_keep_only_normal_components() {
    assert_eq!(normalize_tar_path("./a//b/../c/"), "a/b/c");
    assert_eq!(normalize_tar_path("/etc/os-release"), "etc/os-release");
    assert_eq!(normalize_tar_path("./"), "");
    assert_eq!(normalize_tar_path("..."), "...");
    let once = normalize_tar_path("x/./y//z/");
    assert_eq!(normalize_tar_path(&once), once);
}

#[test]
fn link_targets_resolve_from_their_directory() {
    assert_eq!(normalize_link_target("usr/bin", "../lib/x").unwrap(), "usr/lib/x");
    assert_eq!(normalize_link_target("a/b", "/etc/x").unwrap(), "etc/x");
    assert_eq!(normalize_link_target("", "usr/bin/dash").unwrap(), "usr/bin/dash");
    assert_eq!(normalize_link_target("bin", "./sh").unwrap(), "bin/sh");
    assert_eq!(normalize_link_target("bin", "..").unwrap(), "");
    assert!(matches!(
        normalize_link_target("", "../x"),
        Err(ContainerError::LinkEscapesImageRoot)
    ));
    assert!(matches!(
        normalize_link_target("bin", "../../x"),
        Err(ContainerError::LinkEscapesImageRoot)
    ));
}

#[test]
fn path_pieces() {
    assert_eq!(split_parent_name("a/b/c"), ("a/b".to_string(), "c".to_string()));
    assert_eq!(split_parent_name("c"), (String::new(), "c".to_string()));
    assert_eq!(split_parent_name("a/"), ("a".to_string(), String::new()));
    assert_eq!(join_path("", "x"), "x");
    assert_eq!(join_path("a/b", "x"), "a/b/x");
    assert_eq!(ensure_dir_path("a"), "a/");
    assert_eq!(ensure_dir_path("a/"), "a/");
    assert!(is_whiteout("dir/.wh.foo"));
    assert!(is_whiteout(".wh..wh..opq"));
    assert!(!is_whiteout("dir/foo"));
    assert!(!is_whiteout(".wh/foo"));
}

#[test]
fn link_target_is_its_directory_joined_with_it() {
    for (parent, target) in [("usr/bin", "../lib/x"), ("a", "b/./c"), ("a/b", "../../..")] {
        let joined = format!("{parent}/{target}");
        assert_eq!(
            normalize_link_target(parent, target).ok(),
            normalize_link_target("", &joined).ok()
        );
    }
    assert_eq!(
        normalize_link_target("usr/bin", "/etc/x").unwrap(),
        normalize_link_target("", "/etc/x").unwrap()
    );
    assert_eq!(normalize_link_target("usr/bin", "../lib/x").unwrap(), "usr/lib/x");
}
