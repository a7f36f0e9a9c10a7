//! The deployment planner: turns configured entries into the exact list of
//! filesystem steps that a run performs. The steps carry plain paths; the
//! binary around the library executes them, and the in-memory filesystem
//! model gives them their meaning.
use vstd::prelude::*;

use crate::paths::cache_mirror;
use crate::paths::parent_of;
use crate::paths::resolve_path;
use crate::paths::spec_cache_mirror;
use crate::paths::spec_parent;
use crate::paths::spec_resolve;
use crate::paths::PathError;
use crate::text::clone_bytes;
use crate::vars::pairs_view;

verus! {

/// One step of a deployment run.
#[derive(Debug, Clone, PartialEq, Eq)]
pub enum Action {
    /// Create this directory tree if it is missing; failure is a warning.
    EnsureDir(Vec<u8>),
    /// Create the cache root; failure is fatal when changes are performed.
    EnsureCacheRoot(Vec<u8>),
    /// Read `from`, substitute the variable mapping into its text, and
    /// write the result to `to`; any failure warns and abandons the step.
    WriteSubstituted { from: Vec<u8>, to: Vec<u8> },
    /// Copy `from` to `to` byte for byte; failure is a warning.
    CopyFile { from: Vec<u8>, to: Vec<u8> },
    /// Report that an entry's paths could not be interpreted; no
    /// filesystem effect.
    WarnBadPath { from: Vec<u8>, to: Vec<u8> },
}

/// The mathematical form of one step: the same shape over sequences.
pub enum ActionView {
    EnsureDir(Seq<u8>),
    EnsureCacheRoot(Seq<u8>),
    WriteSubstituted { from: Seq<u8>, to: Seq<u8> },
    CopyFile { from: Seq<u8>, to: Seq<u8> },
    WarnBadPath { from: Seq<u8>, to: Seq<u8> },
}

impl View for Action {
    type V = ActionView;

    open spec fn view(&self) -> ActionView {
        match self {
            Action::EnsureDir(p) => ActionView::EnsureDir(p@),
            Action::EnsureCacheRoot(p) => ActionView::EnsureCacheRoot(p@),
            Action::WriteSubstituted { from, to } => ActionView::WriteSubstituted {
                from: from@,
                to: to@,
            },
            Action::CopyFile { from, to } => ActionView::CopyFile { from: from@, to: to@ },
            Action::WarnBadPath { from, to } => ActionView::WarnBadPath { from: from@, to: to@ },
        }
    }
}

/// The mathematical view of a plan: each step's view, in order.
pub open spec fn plan_view(p: Seq<Action>) -> Seq<ActionView> {
    p.map_values(|a: Action| a@)
}

/// The steps that deploy one file. Without caching: make sure the target's
/// directory exists, then write the substituted source there. With
/// caching: the same write lands on the cache mirror of the target, and
/// the target then receives a byte-for-byte copy of the mirror, so
/// substitution happens exactly once, at the cache-write step.
pub open spec fn spec_plan_file(
    from: Seq<u8>,
    to: Seq<u8>,
    cache: bool,
    root: Seq<u8>,
) -> Seq<ActionView> {
    if cache {
        let mirror = spec_cache_mirror(root, to);
        seq![
            ActionView::EnsureDir(spec_parent(to)),
            ActionView::EnsureDir(spec_parent(mirror)),
            ActionView::WriteSubstituted { from, to: mirror },
            ActionView::CopyFile { from: mirror, to },
        ]
    } else {
        seq![
            ActionView::EnsureDir(spec_parent(to)),
            ActionView::WriteSubstituted { from, to },
        ]
    }
}

/// Plans the deployment of one file from `from` to `to`.
pub fn plan_file(from: &Vec<u8>, to: &Vec<u8>, cache: bool, root: &Vec<u8>) -> (p: Vec<Action>)
    ensures
        plan_view(p@) == spec_plan_file(from@, to@, cache, root@),
{
    let mut p: Vec<Action> = Vec::new();
    p.push(Action::EnsureDir(parent_of(to)));
    if cache {
        let mirror = cache_mirror(root, to);
        p.push(Action::EnsureDir(parent_of(&mirror)));
        p.push(Action::WriteSubstituted {
            from: clone_bytes(from),
            to: clone_bytes(&mirror),
        });
        p.push(Action::CopyFile { from: mirror, to: clone_bytes(to) });
    } else {
        p.push(Action::WriteSubstituted { from: clone_bytes(from), to: clone_bytes(to) });
    }
    assert(plan_view(p@) =~= spec_plan_file(from@, to@, cache, root@));
    p
}

/// The steps for a list of entries, in the configured order. An entry
/// whose paths cannot be interpreted contributes only a warning step; the
/// entries after it are planned all the same.
pub open spec fn spec_plan_entries(
    entries: Seq<(Seq<u8>, Seq<u8>)>,
    home: Seq<u8>,
    cache: bool,
    root: Seq<u8>,
) -> Seq<ActionView>
    decreases entries.len(),
{
    if entries.len() == 0 {
        Seq::empty()
    } else {
        let head = match (
            spec_resolve(entries[0].0, home),
            spec_resolve(entries[0].1, home),
        ) {
            (Some(f), Some(t)) => spec_plan_file(f, t, cache, root),
            _ => seq![ActionView::WarnBadPath { from: entries[0].0, to: entries[0].1 }],
        };
        head + spec_plan_entries(entries.skip(1), home, cache, root)
    }
}

/// The whole run: when caching, the cache root directory is provisioned
/// first, before any file is deployed.
pub open spec fn spec_deploy_plan(
    entries: Seq<(Seq<u8>, Seq<u8>)>,
    home: Seq<u8>,
    cache: bool,
    root: Seq<u8>,
) -> Seq<ActionView> {
    if cache {
        seq![ActionView::EnsureCacheRoot(root)] + spec_plan_entries(entries, home, cache, root)
    } else {
        spec_plan_entries(entries, home, cache, root)
    }
}

/// Plans a whole deployment run over the configured `(from, to)` entries.
/// The raw cache directory path must itself be interpretable; a run whose
/// cache root cannot be resolved plans nothing and fails.
pub fn deploy_plan(
    entries: &Vec<(Vec<u8>, Vec<u8>)>,
    home: &Vec<u8>,
    cache: bool,
    cache_root_raw: &Vec<u8>,
) -> (r: Result<Vec<Action>, PathError>)
    ensures
        r is Ok <==> spec_resolve(cache_root_raw@, home@) is Some,
        r matches Ok(p) ==> plan_view(p@) == spec_deploy_plan(
            pairs_view(entries@),
            home@,
            cache,
            spec_resolve(cache_root_raw@, home@).unwrap(),
        ),
{
    let root = match resolve_path(cache_root_raw, home) {
        Ok(root) => root,
        Err(e) => {
            return Err(e);
        },
    };
    let ghost es = pairs_view(entries@);
    let mut p: Vec<Action> = Vec::new();
    if cache {
        p.push(Action::EnsureCacheRoot(clone_bytes(&root)));
    }
    let ghost prefix = plan_view(p@);
    assert(prefix =~= if cache {
        seq![ActionView::EnsureCacheRoot(root@)]
    } else {
        Seq::<ActionView>::empty()
    });
    let mut i: usize = 0;
    assert(es.skip(0) =~= es);
    while i < entries.len()
        invariant
            i <= entries.len(),
            es == pairs_view(entries@),
            es.len() == entries@.len(),
            plan_view(p@) + spec_plan_entries(es.skip(i as int), home@, cache, root@)
                == prefix + spec_plan_entries(es, home@, cache, root@),
        decreases entries.len() - i,
    {
        let ghost tail = es.skip(i as int);
        assert(tail[0] == es[i as int]);
        assert(tail.skip(1) =~= es.skip(i as int + 1));
        let ghost p_before = plan_view(p@);
        let from_raw = &entries[i].0;
        let to_raw = &entries[i].1;
        match (resolve_path(from_raw, home), resolve_path(to_raw, home)) {
            (Ok(f), Ok(t)) => {
                let mut steps = plan_file(&f, &t, cache, &root);
                let ghost steps_view = plan_view(steps@);
                p.append(&mut steps);
                assert(plan_view(p@) =~= p_before + steps_view);
            },
            _ => {
                p.push(Action::WarnBadPath {
                    from: clone_bytes(from_raw),
                    to: clone_bytes(to_raw),
                });
                assert(plan_view(p@) =~= p_before.push(
                    ActionView::WarnBadPath { from: from_raw@, to: to_raw@ },
                ));
            },
        }
        i = i + 1;
        assert(plan_view(p@) + spec_plan_entries(es.skip(i as int), home@, cache, root@)
            =~= prefix + spec_plan_entries(es, home@, cache, root@));
    }
    assert(es.skip(es.len() as int) =~= Seq::<(Seq<u8>, Seq<u8>)>::empty());
    assert(plan_view(p@) =~= spec_deploy_plan(es, home@, cache, root@));
    Ok(p)
}

} // verus!
