//! Whole deployment runs against the in-memory filesystem model.
use dotdeploy::fsmodel::FsModel;
use dotdeploy::paths::PathError;
use dotdeploy::plan::deploy_plan;
use dotdeploy::plan::plan_file;
use dotdeploy::plan::Action;
use dotdeploy::vars::VarMap;

fn vars_xy() -> VarMap {
    let mut m = VarMap::new();
    m.insert(b"x".to_vec(), b"1".to_vec());
    m.insert(b"y".to_vec(), b"2".to_vec());
    m
}

#[test]
fn plan_without_cache_ensures_the_parent_then_writes() {
    let p = plan_file(&b"/src/t".to_vec(), &b"/etc/app/conf".to_vec(), false, &b"/tmp/cache".to_vec());
    assert_eq!(
        p,
        vec![
            Action::EnsureDir(b"/etc/app".to_vec()),
            Action::WriteSubstituted { from: b"/src/t".to_vec(), to: b"/etc/app/conf".to_vec() },
        ]
    );
}

#[test]
fn plan_with_cache_routes_through_the_mirror() {
    let p = plan_file(&b"/src/t".to_vec(), &b"/etc/app/conf".to_vec(), true, &b"/tmp/cache".to_vec());
    assert_eq!(
        p,
        vec![
            Action::EnsureDir(b"/etc/app".to_vec()),
            Action::EnsureDir(b"/tmp/cache/etc/app".to_vec()),
            Action::WriteSubstituted {
                from: b"/src/t".to_vec(),
                to: b"/tmp/cache/etc/app/conf".to_vec(),
            },
            Action::CopyFile {
                from: b"/tmp/cache/etc/app/conf".to_vec(),
                to: b"/etc/app/conf".to_vec(),
            },
        ]
    );
}

#[test]
fn deploy_plan_provisions_the_cache_root_first() {
    let entries = vec![(b"~/s".to_vec(), b"/etc/c".to_vec())];
    let plan = deploy_plan(&entries, &b"/home/u".to_vec(), true, &b"~/cache".to_vec()).unwrap();
    assert_eq!(plan[0], Action::EnsureCacheRoot(b"/home/u/cache".to_vec()));
    assert_eq!(plan.len(), 5);
    assert_eq!(
        plan[3],
        Action::WriteSubstituted { from: b"/home/u/s".to_vec(), to: b"/home/u/cache/etc/c".to_vec() }
    );
}

#[test]
fn deploy_plan_rejects_an_empty_cache_directory_path() {
    let entries = vec![(b"/s".to_vec(), b"/t".to_vec())];
    let r = deploy_plan(&entries, &b"/home/u".to_vec(), false, &b"".to_vec());
    assert_eq!(r, Err(PathError::Empty));
}

#[test]
fn deploy_plan_warns_on_an_uninterpretable_entry_and_plans_the_rest() {
    let entries = vec![
        (b"".to_vec(), b"/t1".to_vec()),
        (b"/s2".to_vec(), b"/t2".to_vec()),
    ];
    let plan = deploy_plan(&entries, &b"/home/u".to_vec(), false, &b"/tmp/cache".to_vec()).unwrap();
    assert_eq!(plan[0], Action::WarnBadPath { from: b"".to_vec(), to: b"/t1".to_vec() });
    assert_eq!(
        plan[2],
        Action::WriteSubstituted { from: b"/s2".to_vec(), to: b"/t2".to_vec() }
    );
    assert_eq!(plan.len(), 3);
}

#[test]
fn cache_and_target_end_up_byte_identical() {
    let mut fs = FsModel::new();
    fs.write(b"/src/t".to_vec(), b"n={{ x }}".to_vec());
    let plan = plan_file(&b"/src/t".to_vec(), &b"/etc/conf".to_vec(), true, &b"/tmp/cache".to_vec());
    fs.run(&plan, &vars_xy(), true);
    let target = fs.read(&b"/etc/conf".to_vec()).unwrap().clone();
    let mirror = fs.read(&b"/tmp/cache/etc/conf".to_vec()).unwrap().clone();
    assert_eq!(target, b"n=1".to_vec());
    assert_eq!(mirror, target);
}

#[test]
fn running_a_deployment_twice_changes_nothing_more() {
    let mut fs = FsModel::new();
    fs.write(b"/src/t".to_vec(), b"n={{ x }} m={{ y }}".to_vec());
    let plan = plan_file(&b"/src/t".to_vec(), &b"/etc/conf".to_vec(), true, &b"/tmp/cache".to_vec());
    let vars = vars_xy();
    fs.run(&plan, &vars, true);
    let after_once = fs.read(&b"/etc/conf".to_vec()).unwrap().clone();
    fs.run(&plan, &vars, true);
    let after_twice = fs.read(&b"/etc/conf".to_vec()).unwrap().clone();
    assert_eq!(after_once, b"n=1 m=2".to_vec());
    assert_eq!(after_twice, after_once);
}

#[test]
fn dry_run_touches_nothing() {
    let mut fs = FsModel::new();
    fs.write(b"/src/t".to_vec(), b"n={{ x }}".to_vec());
    let plan = plan_file(&b"/src/t".to_vec(), &b"/etc/conf".to_vec(), true, &b"/tmp/cache".to_vec());
    let vars = vars_xy();
    fs.run(&plan, &vars, false);
    assert!(fs.read(&b"/etc/conf".to_vec()).is_none());
    assert!(fs.read(&b"/tmp/cache/etc/conf".to_vec()).is_none());
    assert_eq!(fs.read(&b"/src/t".to_vec()).unwrap(), &b"n={{ x }}".to_vec());
    // A later real run finds the filesystem as if the dry run had not
    // happened.
    fs.run(&plan, &vars, true);
    assert_eq!(fs.read(&b"/etc/conf".to_vec()).unwrap(), &b"n=1".to_vec());
}

#[test]
fn a_missing_source_does_not_block_other_entries() {
    let mut fs = FsModel::new();
    fs.write(b"/src/good".to_vec(), b"ok={{ y }}".to_vec());
    let entries = vec![
        (b"/src/absent".to_vec(), b"/etc/bad".to_vec()),
        (b"/src/good".to_vec(), b"/etc/good".to_vec()),
    ];
    let plan = deploy_plan(&entries, &b"/home/u".to_vec(), true, &b"/tmp/cache".to_vec()).unwrap();
    fs.run(&plan, &vars_xy(), true);
    assert!(fs.read(&b"/etc/bad".to_vec()).is_none());
    assert_eq!(fs.read(&b"/etc/good".to_vec()).unwrap(), &b"ok=2".to_vec());
}

#[test]
fn running_a_whole_run_twice_changes_nothing_more() {
    let mut fs = FsModel::new();
    fs.write(b"/src/a".to_vec(), b"a={{ x }}".to_vec());
    fs.write(b"/src/b".to_vec(), b"b={{ y }}".to_vec());
    let entries = vec![
        (b"/src/a".to_vec(), b"/etc/a".to_vec()),
        (b"/src/b".to_vec(), b"/etc/b".to_vec()),
    ];
    let vars = vars_xy();
    let plan = deploy_plan(&entries, &b"/home/u".to_vec(), true, &b"/tmp/cache".to_vec()).unwrap();
    fs.run(&plan, &vars, true);
    let a_once = fs.read(&b"/etc/a".to_vec()).unwrap().clone();
    let b_once = fs.read(&b"/etc/b".to_vec()).unwrap().clone();
    fs.run(&plan, &vars, true);
    assert_eq!(a_once, b"a=1".to_vec());
    assert_eq!(b_once, b"b=2".to_vec());
    assert_eq!(fs.read(&b"/etc/a".to_vec()).unwrap(), &a_once);
    assert_eq!(fs.read(&b"/etc/b".to_vec()).unwrap(), &b_once);
    assert_eq!(fs.read(&b"/src/a".to_vec()).unwrap(), &b"a={{ x }}".to_vec());
}
