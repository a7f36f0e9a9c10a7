//! The laws of the deployment engine, proved over the filesystem model:
//! what a plan run leaves on disk when every call succeeds.
use vstd::prelude::*;

use crate::fsmodel::spec_apply_action;
use crate::fsmodel::spec_apply_plan;
use crate::paths::spec_cache_mirror;
use crate::plan::spec_plan_file;
use crate::plan::ActionView;
use crate::vars::lemma_insert_same_value;
use crate::vars::lemma_lookup_insert_other;
use crate::vars::lemma_lookup_insert_same;
use crate::vars::spec_lookup;
use crate::vars::spec_subst;

verus! {

/// Running a two-step plan is running its steps in order.
proof fn lemma_apply_plan2(
    m: Seq<(Seq<u8>, Seq<u8>)>,
    a0: ActionView,
    a1: ActionView,
    vars: Seq<(Seq<u8>, Seq<u8>)>,
)
    ensures
        spec_apply_plan(m, seq![a0, a1], vars) == spec_apply_action(
            spec_apply_action(m, a0, vars),
            a1,
            vars,
        ),
{
    let m1 = spec_apply_action(m, a0, vars);
    let m2 = spec_apply_action(m1, a1, vars);
    assert(seq![a0, a1].skip(1) =~= seq![a1]);
    assert(seq![a1].skip(1) =~= Seq::<ActionView>::empty());
    assert(spec_apply_plan(m, seq![a0, a1], vars) == spec_apply_plan(m1, seq![a1], vars));
    assert(spec_apply_plan(m1, seq![a1], vars) == spec_apply_plan(
        m2,
        Seq::<ActionView>::empty(),
        vars,
    ));
}

/// Running a four-step plan is running its steps in order.
proof fn lemma_apply_plan4(
    m: Seq<(Seq<u8>, Seq<u8>)>,
    a0: ActionView,
    a1: ActionView,
    a2: ActionView,
    a3: ActionView,
    vars: Seq<(Seq<u8>, Seq<u8>)>,
)
    ensures
        spec_apply_plan(m, seq![a0, a1, a2, a3], vars) == spec_apply_action(
            spec_apply_action(
                spec_apply_action(spec_apply_action(m, a0, vars), a1, vars),
                a2,
                vars,
            ),
            a3,
            vars,
        ),
{
    let m1 = spec_apply_action(m, a0, vars);
    let m2 = spec_apply_action(m1, a1, vars);
    assert(seq![a0, a1, a2, a3].skip(1) =~= seq![a1, a2, a3]);
    assert(seq![a1, a2, a3].skip(1) =~= seq![a2, a3]);
    assert(spec_apply_plan(m, seq![a0, a1, a2, a3], vars) == spec_apply_plan(
        m1,
        seq![a1, a2, a3],
        vars,
    ));
    assert(spec_apply_plan(m1, seq![a1, a2, a3], vars) == spec_apply_plan(m2, seq![a2, a3], vars));
    lemma_apply_plan2(m2, a2, a3, vars);
}

/// Cache-target equivalence: when a cached deployment's source exists,
/// the cache-mirrored file and the final target end up byte-identical,
/// and both hold the substituted source — substitution happened exactly
/// once, at the cache-write step, never at the copy step.
pub proof fn lemma_cache_target_equivalence(
    m: Seq<(Seq<u8>, Seq<u8>)>,
    from: Seq<u8>,
    to: Seq<u8>,
    root: Seq<u8>,
    vars: Seq<(Seq<u8>, Seq<u8>)>,
)
    requires
        spec_lookup(m, from) is Some,
    ensures
        ({
            let mirror = spec_cache_mirror(root, to);
            let m1 = spec_apply_plan(m, spec_plan_file(from, to, true, root), vars);
            let expected = spec_subst(spec_lookup(m, from).unwrap(), vars);
            spec_lookup(m1, to) == Some(expected) && spec_lookup(m1, mirror) == Some(expected)
        }),
{
    let mirror = spec_cache_mirror(root, to);
    let p = spec_plan_file(from, to, true, root);
    let s = spec_subst(spec_lookup(m, from).unwrap(), vars);
    lemma_apply_plan4(m, p[0], p[1], p[2], p[3], vars);
    let mw = crate::vars::spec_insert(m, mirror, s);
    lemma_lookup_insert_same(m, mirror, s);
    assert(spec_lookup(mw, mirror) == Some(s));
    let m1 = crate::vars::spec_insert(mw, to, s);
    assert(spec_apply_plan(m, p, vars) == m1);
    lemma_lookup_insert_same(mw, to, s);
    if to != mirror {
        lemma_lookup_insert_other(mw, to, s, mirror);
    }
}

/// Idempotence: deploying one file twice leaves exactly what deploying it
/// once leaves, whenever the source path is not itself a deployment
/// target — neither the final target nor its cache mirror.
pub proof fn lemma_deploy_file_idempotent(
    m: Seq<(Seq<u8>, Seq<u8>)>,
    from: Seq<u8>,
    to: Seq<u8>,
    cache: bool,
    root: Seq<u8>,
    vars: Seq<(Seq<u8>, Seq<u8>)>,
)
    requires
        from != to,
        cache ==> from != spec_cache_mirror(root, to),
    ensures
        ({
            let p = spec_plan_file(from, to, cache, root);
            let m1 = spec_apply_plan(m, p, vars);
            spec_apply_plan(m1, p, vars) == m1
        }),
{
    let p = spec_plan_file(from, to, cache, root);
    if cache {
        let mirror = spec_cache_mirror(root, to);
        lemma_apply_plan4(m, p[0], p[1], p[2], p[3], vars);
        let m1 = spec_apply_plan(m, p, vars);
        lemma_apply_plan4(m1, p[0], p[1], p[2], p[3], vars);
        match spec_lookup(m, from) {
            Some(c) => {
                let s = spec_subst(c, vars);
                let mw = crate::vars::spec_insert(m, mirror, s);
                lemma_lookup_insert_same(m, mirror, s);
                assert(m1 == crate::vars::spec_insert(mw, to, s));
                lemma_lookup_insert_same(mw, to, s);
                lemma_lookup_insert_other(mw, to, s, from);
                lemma_lookup_insert_other(m, mirror, s, from);
                assert(spec_lookup(m1, from) == Some(c));
                if mirror == to {
                    assert(spec_lookup(m1, mirror) == Some(s));
                } else {
                    lemma_lookup_insert_other(mw, to, s, mirror);
                    assert(spec_lookup(m1, mirror) == Some(s));
                }
                lemma_insert_same_value(m1, mirror, s);
                lemma_insert_same_value(m1, to, s);
            },
            None => {
                match spec_lookup(m, mirror) {
                    Some(cc) => {
                        let m1b = crate::vars::spec_insert(m, to, cc);
                        assert(m1 == m1b);
                        lemma_lookup_insert_other(m, to, cc, from);
                        assert(spec_lookup(m1, from) is None);
                        lemma_lookup_insert_same(m, to, cc);
                        if mirror == to {
                            assert(spec_lookup(m1, mirror) == Some(cc));
                        } else {
                            lemma_lookup_insert_other(m, to, cc, mirror);
                            assert(spec_lookup(m1, mirror) == Some(cc));
                        }
                        lemma_insert_same_value(m1, to, cc);
                    },
                    None => {
                        assert(m1 == m);
                    },
                }
            },
        }
    } else {
        lemma_apply_plan2(m, p[0], p[1], vars);
        let m1 = spec_apply_plan(m, p, vars);
        lemma_apply_plan2(m1, p[0], p[1], vars);
        match spec_lookup(m, from) {
            Some(c) => {
                let s = spec_subst(c, vars);
                assert(m1 == crate::vars::spec_insert(m, to, s));
                lemma_lookup_insert_other(m, to, s, from);
                assert(spec_lookup(m1, from) == Some(c));
                lemma_lookup_insert_same(m, to, s);
                lemma_insert_same_value(m1, to, s);
            },
            None => {
                assert(m1 == m);
            },
        }
    }
}

/// Running the concatenation of two plans is running the first, then the
/// second on its outcome.
pub proof fn lemma_apply_plan_concat(
    m: Seq<(Seq<u8>, Seq<u8>)>,
    p1: Seq<ActionView>,
    p2: Seq<ActionView>,
    vars: Seq<(Seq<u8>, Seq<u8>)>,
)
    ensures
        spec_apply_plan(m, p1 + p2, vars) == spec_apply_plan(
            spec_apply_plan(m, p1, vars),
            p2,
            vars,
        ),
    decreases p1.len(),
{
    if p1.len() == 0 {
        assert(p1 + p2 =~= p2);
    } else {
        assert((p1 + p2)[0] == p1[0]);
        assert((p1 + p2).skip(1) =~= p1.skip(1) + p2);
        lemma_apply_plan_concat(spec_apply_action(m, p1[0], vars), p1.skip(1), p2, vars);
    }
}

/// Deploying a file whose source does not exist changes nothing, as long
/// as no stale artifact sits at its cache mirror: every step of its plan
/// warns and moves on.
pub proof fn lemma_missing_source_noop(
    m: Seq<(Seq<u8>, Seq<u8>)>,
    from: Seq<u8>,
    to: Seq<u8>,
    cache: bool,
    root: Seq<u8>,
    vars: Seq<(Seq<u8>, Seq<u8>)>,
)
    requires
        spec_lookup(m, from) is None,
        cache ==> spec_lookup(m, spec_cache_mirror(root, to)) is None,
    ensures
        spec_apply_plan(m, spec_plan_file(from, to, cache, root), vars) == m,
{
    let p = spec_plan_file(from, to, cache, root);
    if cache {
        lemma_apply_plan4(m, p[0], p[1], p[2], p[3], vars);
    } else {
        lemma_apply_plan2(m, p[0], p[1], vars);
    }
}

/// Partial-run resilience: one entry whose source file does not exist
/// leaves the run of every following entry exactly as it would have been
/// without it.
pub proof fn lemma_partial_run_resilience(
    m: Seq<(Seq<u8>, Seq<u8>)>,
    from: Seq<u8>,
    to: Seq<u8>,
    cache: bool,
    root: Seq<u8>,
    rest: Seq<ActionView>,
    vars: Seq<(Seq<u8>, Seq<u8>)>,
)
    requires
        spec_lookup(m, from) is None,
        cache ==> spec_lookup(m, spec_cache_mirror(root, to)) is None,
    ensures
        spec_apply_plan(m, spec_plan_file(from, to, cache, root) + rest, vars)
            == spec_apply_plan(m, rest, vars),
{
    lemma_missing_source_noop(m, from, to, cache, root, vars);
    lemma_apply_plan_concat(m, spec_plan_file(from, to, cache, root), rest, vars);
}

// The lemmas below lift idempotence from one file to a whole run. A run
// over interpreted entries is the concatenation of the per-file plans;
// `spec_final_at` names the bytes the run leaves at a path, and the main
// induction shows a run realizes exactly that, from which running twice
// changes nothing.

/// The plan of a whole run over entries whose paths are already
/// interpreted: each entry's file plan, in the configured order.
pub open spec fn spec_plan_pairs(
    rs: Seq<(Seq<u8>, Seq<u8>)>,
    cache: bool,
    root: Seq<u8>,
) -> Seq<ActionView>
    decreases rs.len(),
{
    if rs.len() == 0 {
        Seq::empty()
    } else {
        spec_plan_file(rs[0].0, rs[0].1, cache, root)
            + spec_plan_pairs(rs.skip(1), cache, root)
    }
}

/// Each raw entry's paths, interpreted against the home directory.
pub open spec fn spec_resolved_pairs(
    es: Seq<(Seq<u8>, Seq<u8>)>,
    home: Seq<u8>,
) -> Seq<(Seq<u8>, Seq<u8>)> {
    es.map_values(
        |e: (Seq<u8>, Seq<u8>)|
            (
                crate::paths::spec_resolve(e.0, home).unwrap(),
                crate::paths::spec_resolve(e.1, home).unwrap(),
            ),
    )
}

/// When every entry's paths can be interpreted, the orchestrator's plan
/// over the raw entries is exactly the plan over the interpreted pairs.
pub proof fn lemma_plan_entries_resolved(
    es: Seq<(Seq<u8>, Seq<u8>)>,
    home: Seq<u8>,
    cache: bool,
    root: Seq<u8>,
)
    requires
        forall|i: int|
            0 <= i < es.len() ==> (crate::paths::spec_resolve(#[trigger] es[i].0, home) is Some
                && crate::paths::spec_resolve(es[i].1, home) is Some),
    ensures
        crate::plan::spec_plan_entries(es, home, cache, root) == spec_plan_pairs(
            spec_resolved_pairs(es, home),
            cache,
            root,
        ),
    decreases es.len(),
{
    let rs = spec_resolved_pairs(es, home);
    if es.len() == 0 {
        assert(crate::plan::spec_plan_entries(es, home, cache, root) =~= spec_plan_pairs(
            rs,
            cache,
            root,
        ));
    } else {
        lemma_plan_entries_resolved(es.skip(1), home, cache, root);
        assert(spec_resolved_pairs(es.skip(1), home) =~= rs.skip(1));
        assert(rs[0] == (
            crate::paths::spec_resolve(es[0].0, home).unwrap(),
            crate::paths::spec_resolve(es[0].1, home).unwrap(),
        ));
        assert(crate::plan::spec_plan_entries(es, home, cache, root) =~= spec_plan_pairs(
            rs,
            cache,
            root,
        ));
    }
}

/// Whether some entry deploys to `q`: as its final target, or, when
/// caching, as its cache mirror.
pub open spec fn spec_is_target(
    rs: Seq<(Seq<u8>, Seq<u8>)>,
    q: Seq<u8>,
    cache: bool,
    root: Seq<u8>,
) -> bool {
    exists|i: int|
        0 <= i < rs.len() && (#[trigger] rs[i].1 == q || (cache && spec_cache_mirror(
            root,
            rs[i].1,
        ) == q))
}

/// The bytes that a run over `rs` leaves at `q`: the substituted source of
/// the last entry that deploys to `q`, or nothing of the run's doing.
pub open spec fn spec_final_at(
    rs: Seq<(Seq<u8>, Seq<u8>)>,
    m: Seq<(Seq<u8>, Seq<u8>)>,
    cache: bool,
    root: Seq<u8>,
    vars: Seq<(Seq<u8>, Seq<u8>)>,
    q: Seq<u8>,
) -> Option<Seq<u8>>
    decreases rs.len(),
{
    if rs.len() == 0 {
        None
    } else {
        let last = rs[rs.len() - 1];
        if last.1 == q || (cache && spec_cache_mirror(root, last.1) == q) {
            Some(spec_subst(spec_lookup(m, last.0).unwrap(), vars))
        } else {
            spec_final_at(rs.take(rs.len() - 1), m, cache, root, vars, q)
        }
    }
}

/// A path no entry deploys to is left alone by `spec_final_at`.
proof fn lemma_final_at_untargeted(
    rs: Seq<(Seq<u8>, Seq<u8>)>,
    m: Seq<(Seq<u8>, Seq<u8>)>,
    cache: bool,
    root: Seq<u8>,
    vars: Seq<(Seq<u8>, Seq<u8>)>,
    q: Seq<u8>,
)
    requires
        !spec_is_target(rs, q, cache, root),
    ensures
        spec_final_at(rs, m, cache, root, vars, q) is None,
    decreases rs.len(),
{
    if rs.len() > 0 {
        let last = rs[rs.len() - 1];
        assert(!(last.1 == q || (cache && spec_cache_mirror(root, last.1) == q))) by {
            if last.1 == q || (cache && spec_cache_mirror(root, last.1) == q) {
                assert(spec_is_target(rs, q, cache, root));
            }
        }
        let front = rs.take(rs.len() - 1);
        assert(!spec_is_target(front, q, cache, root)) by {
            if spec_is_target(front, q, cache, root) {
                let i = choose|i: int|
                    0 <= i < front.len() && (#[trigger] front[i].1 == q || (cache
                        && spec_cache_mirror(root, front[i].1) == q));
                assert(rs[i].1 == front[i].1);
                assert(spec_is_target(rs, q, cache, root));
            }
        }
        lemma_final_at_untargeted(front, m, cache, root, vars, q);
    }
}

/// What deploying one file whose source exists leaves at each path: the
/// substituted source at the target and, when caching, at the mirror;
/// everything else untouched.
proof fn lemma_file_effect(
    n: Seq<(Seq<u8>, Seq<u8>)>,
    from: Seq<u8>,
    to: Seq<u8>,
    cache: bool,
    root: Seq<u8>,
    vars: Seq<(Seq<u8>, Seq<u8>)>,
    q: Seq<u8>,
)
    requires
        spec_lookup(n, from) is Some,
    ensures
        ({
            let s = spec_subst(spec_lookup(n, from).unwrap(), vars);
            let r = spec_apply_plan(n, spec_plan_file(from, to, cache, root), vars);
            spec_lookup(r, q) == if q == to || (cache && spec_cache_mirror(root, to) == q) {
                Some(s)
            } else {
                spec_lookup(n, q)
            }
        }),
{
    let p = spec_plan_file(from, to, cache, root);
    let s = spec_subst(spec_lookup(n, from).unwrap(), vars);
    if cache {
        let mirror = spec_cache_mirror(root, to);
        lemma_apply_plan4(n, p[0], p[1], p[2], p[3], vars);
        let nw = crate::vars::spec_insert(n, mirror, s);
        lemma_lookup_insert_same(n, mirror, s);
        let r = crate::vars::spec_insert(nw, to, s);
        assert(spec_apply_plan(n, p, vars) == r);
        if q == to {
            lemma_lookup_insert_same(nw, to, s);
        } else if q == mirror {
            lemma_lookup_insert_other(nw, to, s, q);
            lemma_lookup_insert_same(n, mirror, s);
        } else {
            lemma_lookup_insert_other(nw, to, s, q);
            lemma_lookup_insert_other(n, mirror, s, q);
        }
    } else {
        lemma_apply_plan2(n, p[0], p[1], vars);
        let r = crate::vars::spec_insert(n, to, s);
        assert(spec_apply_plan(n, p, vars) == r);
        if q == to {
            lemma_lookup_insert_same(n, to, s);
        } else {
            lemma_lookup_insert_other(n, to, s, q);
        }
    }
}

/// A run's plan is the plan of all but the last entry, then the last
/// entry's file plan.
proof fn lemma_plan_pairs_snoc(rs: Seq<(Seq<u8>, Seq<u8>)>, cache: bool, root: Seq<u8>)
    requires
        rs.len() > 0,
    ensures
        spec_plan_pairs(rs, cache, root) == spec_plan_pairs(rs.take(rs.len() - 1), cache, root)
            + spec_plan_file(rs[rs.len() - 1].0, rs[rs.len() - 1].1, cache, root),
    decreases rs.len(),
{
    let last = rs[rs.len() - 1];
    let front = rs.take(rs.len() - 1);
    if rs.len() == 1 {
        assert(front =~= Seq::<(Seq<u8>, Seq<u8>)>::empty());
        assert(rs.skip(1) =~= Seq::<(Seq<u8>, Seq<u8>)>::empty());
        assert(spec_plan_pairs(rs, cache, root) =~= spec_plan_pairs(front, cache, root)
            + spec_plan_file(last.0, last.1, cache, root));
    } else {
        lemma_plan_pairs_snoc(rs.skip(1), cache, root);
        assert(rs.skip(1)[rs.skip(1).len() - 1] == last);
        assert(rs.skip(1).take(rs.skip(1).len() - 1) =~= front.skip(1));
        assert(front[0] == rs[0]);
        assert(spec_plan_pairs(rs, cache, root) =~= spec_plan_pairs(front, cache, root)
            + spec_plan_file(last.0, last.1, cache, root));
    }
}

/// The main induction: a run over entries whose sources all exist, are
/// shared between `n` and `m`, and are not themselves deployment targets,
/// leaves `spec_final_at`'s bytes at every targeted path and everything
/// else as `n` had it.
proof fn lemma_run_final(
    n: Seq<(Seq<u8>, Seq<u8>)>,
    m: Seq<(Seq<u8>, Seq<u8>)>,
    rs: Seq<(Seq<u8>, Seq<u8>)>,
    cache: bool,
    root: Seq<u8>,
    vars: Seq<(Seq<u8>, Seq<u8>)>,
    q: Seq<u8>,
)
    requires
        forall|i: int|
            0 <= i < rs.len() ==> spec_lookup(n, #[trigger] rs[i].0) == spec_lookup(m, rs[i].0),
        forall|i: int| 0 <= i < rs.len() ==> (#[trigger] spec_lookup(m, rs[i].0)) is Some,
        forall|i: int| 0 <= i < rs.len() ==> !spec_is_target(rs, #[trigger] rs[i].0, cache, root),
    ensures
        ({
            let r = spec_apply_plan(n, spec_plan_pairs(rs, cache, root), vars);
            spec_lookup(r, q) == match spec_final_at(rs, m, cache, root, vars, q) {
                Some(v) => Some(v),
                None => spec_lookup(n, q),
            }
        }),
    decreases rs.len(),
{
    if rs.len() == 0 {
    } else {
        let last = rs[rs.len() - 1];
        let front = rs.take(rs.len() - 1);
        lemma_plan_pairs_snoc(rs, cache, root);
        lemma_apply_plan_concat(
            n,
            spec_plan_pairs(front, cache, root),
            spec_plan_file(last.0, last.1, cache, root),
            vars,
        );
        let n1 = spec_apply_plan(n, spec_plan_pairs(front, cache, root), vars);
        assert(forall|i: int| 0 <= i < front.len() ==> front[i] == rs[i]);
        assert(forall|i: int|
            0 <= i < front.len() ==> !spec_is_target(front, #[trigger] front[i].0, cache, root))
            by {
            assert forall|i: int| 0 <= i < front.len() implies !spec_is_target(
                front,
                #[trigger] front[i].0,
                cache,
                root,
            ) by {
                if spec_is_target(front, front[i].0, cache, root) {
                    let j = choose|j: int|
                        0 <= j < front.len() && (#[trigger] front[j].1 == front[i].0 || (cache
                            && spec_cache_mirror(root, front[j].1) == front[i].0));
                    assert(rs[j].1 == front[j].1);
                    assert(spec_is_target(rs, rs[i].0, cache, root));
                }
            }
        }
        lemma_run_final(n, m, front, cache, root, vars, last.0);
        assert(!spec_is_target(front, last.0, cache, root)) by {
            if spec_is_target(front, last.0, cache, root) {
                let j = choose|j: int|
                    0 <= j < front.len() && (#[trigger] front[j].1 == last.0 || (cache
                        && spec_cache_mirror(root, front[j].1) == last.0));
                assert(rs[j].1 == front[j].1);
                assert(spec_is_target(rs, rs[rs.len() - 1].0, cache, root));
            }
        }
        lemma_final_at_untargeted(front, m, cache, root, vars, last.0);
        assert(spec_lookup(n1, last.0) == spec_lookup(m, last.0));
        lemma_file_effect(n1, last.0, last.1, cache, root, vars, q);
        lemma_run_final(n, m, front, cache, root, vars, q);
    }
}

/// Provisioning the cache root touches no file: the step before the file
/// plans leaves the model unchanged, so the laws over the file plans
/// carry to the whole planned run.
pub proof fn lemma_cache_root_step_noop(
    m: Seq<(Seq<u8>, Seq<u8>)>,
    root: Seq<u8>,
    p: Seq<ActionView>,
    vars: Seq<(Seq<u8>, Seq<u8>)>,
)
    ensures
        spec_apply_plan(m, seq![ActionView::EnsureCacheRoot(root)] + p, vars)
            == spec_apply_plan(m, p, vars),
{
    let whole = seq![ActionView::EnsureCacheRoot(root)] + p;
    assert(whole[0] == ActionView::EnsureCacheRoot(root));
    assert(whole.skip(1) =~= p);
    assert(spec_apply_action(m, whole[0], vars) == m);
}

/// Idempotence of a whole run: over entries whose source files all exist
/// and are not themselves deployment targets or cache mirrors, a second
/// identical run leaves every path byte-identical to the first run's
/// outcome.
pub proof fn lemma_deploy_run_idempotent(
    m: Seq<(Seq<u8>, Seq<u8>)>,
    rs: Seq<(Seq<u8>, Seq<u8>)>,
    cache: bool,
    root: Seq<u8>,
    vars: Seq<(Seq<u8>, Seq<u8>)>,
    q: Seq<u8>,
)
    requires
        forall|i: int| 0 <= i < rs.len() ==> (#[trigger] spec_lookup(m, rs[i].0)) is Some,
        forall|i: int| 0 <= i < rs.len() ==> !spec_is_target(rs, #[trigger] rs[i].0, cache, root),
    ensures
        ({
            let p = spec_plan_pairs(rs, cache, root);
            let m1 = spec_apply_plan(m, p, vars);
            spec_lookup(spec_apply_plan(m1, p, vars), q) == spec_lookup(m1, q)
        }),
{
    let p = spec_plan_pairs(rs, cache, root);
    let m1 = spec_apply_plan(m, p, vars);
    assert(forall|i: int|
        0 <= i < rs.len() ==> spec_lookup(m1, #[trigger] rs[i].0) == spec_lookup(m, rs[i].0)) by {
        assert forall|i: int| 0 <= i < rs.len() implies spec_lookup(m1, #[trigger] rs[i].0)
            == spec_lookup(m, rs[i].0) by {
            lemma_run_final(m, m, rs, cache, root, vars, rs[i].0);
            lemma_final_at_untargeted(rs, m, cache, root, vars, rs[i].0);
        }
    }
    lemma_run_final(m, m, rs, cache, root, vars, q);
    lemma_run_final(m1, m, rs, cache, root, vars, q);
}

} // verus!
