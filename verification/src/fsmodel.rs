//! An in-memory filesystem model: paths mapped to file contents. Running
//! a plan against it gives the plan its meaning — what a real run writes
//! where, assuming every filesystem call succeeds — and is what the
//! deployment laws are proved about.
use vstd::prelude::*;

use crate::plan::Action;
use crate::plan::ActionView;
use crate::plan::plan_view;
use crate::text::clone_bytes;
use crate::vars::spec_insert;
use crate::vars::spec_lookup;
use crate::vars::spec_subst;
use crate::vars::substitute_variables;
use crate::vars::VarMap;

verus! {

/// What one step does to the files, when every call succeeds. Directory
/// steps and warnings touch no file. A substituted write whose source is
/// missing writes nothing — the step is abandoned with a warning — and so
/// does a copy whose source is missing.
pub open spec fn spec_apply_action(
    m: Seq<(Seq<u8>, Seq<u8>)>,
    a: ActionView,
    vars: Seq<(Seq<u8>, Seq<u8>)>,
) -> Seq<(Seq<u8>, Seq<u8>)> {
    match a {
        ActionView::WriteSubstituted { from, to } => match spec_lookup(m, from) {
            Some(c) => spec_insert(m, to, spec_subst(c, vars)),
            None => m,
        },
        ActionView::CopyFile { from, to } => match spec_lookup(m, from) {
            Some(c) => spec_insert(m, to, c),
            None => m,
        },
        _ => m,
    }
}

/// The files after every step of a plan, in order.
pub open spec fn spec_apply_plan(
    m: Seq<(Seq<u8>, Seq<u8>)>,
    p: Seq<ActionView>,
    vars: Seq<(Seq<u8>, Seq<u8>)>,
) -> Seq<(Seq<u8>, Seq<u8>)>
    decreases p.len(),
{
    if p.len() == 0 {
        m
    } else {
        spec_apply_plan(spec_apply_action(m, p[0], vars), p.skip(1), vars)
    }
}

/// An in-memory filesystem: each path holds a file's bytes.
pub struct FsModel {
    files: VarMap,
}

impl View for FsModel {
    type V = Seq<(Seq<u8>, Seq<u8>)>;

    closed spec fn view(&self) -> Seq<(Seq<u8>, Seq<u8>)> {
        self.files@
    }
}

impl FsModel {
    /// Well-formed: each path occurs once.
    pub open spec fn wf(&self) -> bool {
        crate::vars::keys_unique(self@)
    }

    /// An empty filesystem.
    pub fn new() -> (m: FsModel)
        ensures
            m@ == Seq::<(Seq<u8>, Seq<u8>)>::empty(),
            m.wf(),
    {
        FsModel { files: VarMap::new() }
    }

    /// Puts a file at `path`, replacing what was there.
    pub fn write(&mut self, path: Vec<u8>, contents: Vec<u8>)
        ensures
            final(self)@ == spec_insert(old(self)@, path@, contents@),
            old(self).wf() ==> final(self).wf(),
    {
        self.files.insert(path, contents);
    }

    /// The bytes of the file at `path`, if one exists.
    pub fn read(&self, path: &Vec<u8>) -> (r: Option<&Vec<u8>>)
        ensures
            match r {
                Some(c) => spec_lookup(self@, path@) == Some(c@),
                None => spec_lookup(self@, path@) is None,
            },
    {
        self.files.get(path)
    }

    /// Performs one step against the model.
    pub fn apply_action(&mut self, a: &Action, vars: &VarMap)
        ensures
            final(self)@ == spec_apply_action(old(self)@, a@, vars@),
            old(self).wf() ==> final(self).wf(),
    {
        match a {
            Action::WriteSubstituted { from, to } => {
                let contents = match self.files.get(from) {
                    Some(c) => Some(clone_bytes(c)),
                    None => None,
                };
                if let Some(c) = contents {
                    let substituted = substitute_variables(c, vars);
                    self.files.insert(clone_bytes(to), substituted);
                }
            },
            Action::CopyFile { from, to } => {
                let contents = match self.files.get(from) {
                    Some(c) => Some(clone_bytes(c)),
                    None => None,
                };
                if let Some(c) = contents {
                    self.files.insert(clone_bytes(to), c);
                }
            },
            _ => {},
        }
    }

    /// Runs a plan against the model. With `act` false — a dry run — the
    /// files are left exactly as they were; with `act` true every step is
    /// performed in order.
    pub fn run(&mut self, plan: &Vec<Action>, vars: &VarMap, act: bool)
        ensures
            act ==> final(self)@ == spec_apply_plan(old(self)@, plan_view(plan@), vars@),
            !act ==> final(self)@ == old(self)@,
            old(self).wf() ==> final(self).wf(),
    {
        if !act {
            return;
        }
        let ghost orig = self@;
        let ghost pv = plan_view(plan@);
        let mut i: usize = 0;
        assert(pv.skip(0) =~= pv);
        while i < plan.len()
            invariant
                i <= plan.len(),
                pv == plan_view(plan@),
                pv.len() == plan@.len(),
                spec_apply_plan(self@, pv.skip(i as int), vars@)
                    == spec_apply_plan(orig, pv, vars@),
                crate::vars::keys_unique(orig) ==> crate::vars::keys_unique(self@),
            decreases plan.len() - i,
        {
            let ghost tail = pv.skip(i as int);
            assert(tail[0] == pv[i as int]);
            assert(tail.skip(1) =~= pv.skip(i as int + 1));
            self.apply_action(&plan[i], vars);
            i = i + 1;
        }
        assert(pv.skip(pv.len() as int) =~= Seq::<ActionView>::empty());
    }
}

} // verus!
