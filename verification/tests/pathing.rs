//! Path resolution, parent directories and the cache mirror, exercised on
//! concrete values.
use dotdeploy::paths::cache_mirror;
use dotdeploy::paths::parent_of;
use dotdeploy::paths::resolve_path;
use dotdeploy::paths::PathError;

#[test]
fn tilde_expands_to_the_home_directory() {
    let home = b"/home/u".to_vec();
    assert_eq!(resolve_path(&b"~/conf/a".to_vec(), &home), Ok(b"/home/u/conf/a".to_vec()));
    assert_eq!(resolve_path(&b"~".to_vec(), &home), Ok(b"/home/u".to_vec()));
}

#[test]
fn plain_paths_resolve_to_themselves() {
    let home = b"/home/u".to_vec();
    assert_eq!(resolve_path(&b"/etc/app".to_vec(), &home), Ok(b"/etc/app".to_vec()));
    assert_eq!(resolve_path(&b"relative/p".to_vec(), &home), Ok(b"relative/p".to_vec()));
    // A tilde anywhere but at the start, or without a separator after it,
    // is ordinary text.
    assert_eq!(resolve_path(&b"~user/x".to_vec(), &home), Ok(b"~user/x".to_vec()));
}

#[test]
fn empty_path_is_rejected() {
    let home = b"/home/u".to_vec();
    assert_eq!(resolve_path(&b"".to_vec(), &home), Err(PathError::Empty));
}

#[test]
fn parent_is_everything_before_the_last_separator() {
    assert_eq!(parent_of(&b"/etc/app/conf".to_vec()), b"/etc/app".to_vec());
    assert_eq!(parent_of(&b"/x".to_vec()), b"/".to_vec());
    assert_eq!(parent_of(&b"plain".to_vec()), b"".to_vec());
    assert_eq!(parent_of(&b"a/b".to_vec()), b"a".to_vec());
}

#[test]
fn cache_mirror_keeps_an_absolute_target_inside_the_root() {
    let mirrored = cache_mirror(&b"/tmp/cache".to_vec(), &b"/etc/app/conf".to_vec());
    assert_eq!(mirrored, b"/tmp/cache/etc/app/conf".to_vec());
}

#[test]
fn cache_mirror_joins_a_relative_target() {
    let mirrored = cache_mirror(&b"/tmp/cache".to_vec(), &b"etc/conf".to_vec());
    assert_eq!(mirrored, b"/tmp/cache/etc/conf".to_vec());
}
