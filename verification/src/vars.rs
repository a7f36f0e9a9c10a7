//! The variable mapping: ordered key/value pairs of bytes, built by merging
//! a variables table with a secrets table, and the substitution engine that
//! rewrites template text with it.
use vstd::prelude::*;

use crate::spec_token;
use crate::text::bytes_eq;
use crate::text::clone_bytes;
use crate::text::replace_bytes;
use crate::text::spec_replace;

verus! {

/// The mathematical view of a pair list: each key and value as a sequence.
pub open spec fn pairs_view(ps: Seq<(Vec<u8>, Vec<u8>)>) -> Seq<(Seq<u8>, Seq<u8>)> {
    ps.map_values(|p: (Vec<u8>, Vec<u8>)| (p.0@, p.1@))
}

/// The value bound to `k`: the first pair whose key is `k`, if any.
pub open spec fn spec_lookup(ps: Seq<(Seq<u8>, Seq<u8>)>, k: Seq<u8>) -> Option<Seq<u8>>
    decreases ps.len(),
{
    if ps.len() == 0 {
        None
    } else if ps[0].0 == k {
        Some(ps[0].1)
    } else {
        spec_lookup(ps.skip(1), k)
    }
}

/// The pair list with `k` bound to `v`: the first pair keyed `k` is
/// replaced in place, or, when no pair is keyed `k`, `(k, v)` is appended.
pub open spec fn spec_insert(
    ps: Seq<(Seq<u8>, Seq<u8>)>,
    k: Seq<u8>,
    v: Seq<u8>,
) -> Seq<(Seq<u8>, Seq<u8>)>
    decreases ps.len(),
{
    if ps.len() == 0 {
        seq![(k, v)]
    } else if ps[0].0 == k {
        seq![(k, v)] + ps.skip(1)
    } else {
        seq![ps[0]] + spec_insert(ps.skip(1), k, v)
    }
}

/// The pair list `ps` with every pair of `qs` inserted, in order: a pair of
/// `qs` overwrites the value of a pair of `ps` with the same key.
pub open spec fn spec_merge(
    ps: Seq<(Seq<u8>, Seq<u8>)>,
    qs: Seq<(Seq<u8>, Seq<u8>)>,
) -> Seq<(Seq<u8>, Seq<u8>)>
    decreases qs.len(),
{
    if qs.len() == 0 {
        ps
    } else {
        spec_merge(spec_insert(ps, qs[0].0, qs[0].1), qs.skip(1))
    }
}

/// No two pairs share a key.
pub open spec fn keys_unique(ps: Seq<(Seq<u8>, Seq<u8>)>) -> bool
    decreases ps.len(),
{
    ps.len() == 0 || (spec_lookup(ps.skip(1), ps[0].0) is None && keys_unique(ps.skip(1)))
}

/// The text after substituting the pairs one by one, in order: each pair
/// `(name, value)` replaces every occurrence of the token `{{ name }}` in
/// the text produced by the pairs before it.
pub open spec fn spec_subst(text: Seq<u8>, ps: Seq<(Seq<u8>, Seq<u8>)>) -> Seq<u8>
    decreases ps.len(),
{
    if ps.len() == 0 {
        text
    } else {
        spec_subst(spec_replace(text, spec_token(ps[0].0), ps[0].1), ps.skip(1))
    }
}

/// An insertion-ordered mapping from variable names to replacement values,
/// with at most one pair per key.
pub struct VarMap {
    pairs: Vec<(Vec<u8>, Vec<u8>)>,
}

impl View for VarMap {
    type V = Seq<(Seq<u8>, Seq<u8>)>;

    closed spec fn view(&self) -> Seq<(Seq<u8>, Seq<u8>)> {
        pairs_view(self.pairs@)
    }
}

impl VarMap {
    /// Well-formed: no key occurs twice.
    pub open spec fn wf(&self) -> bool {
        keys_unique(self@)
    }

    /// An empty mapping.
    pub fn new() -> (m: VarMap)
        ensures
            m@ == Seq::<(Seq<u8>, Seq<u8>)>::empty(),
            m.wf(),
    {
        let m = VarMap { pairs: Vec::new() };
        assert(m@ =~= Seq::<(Seq<u8>, Seq<u8>)>::empty());
        m
    }

    /// How many pairs the mapping holds.
    pub fn len(&self) -> (n: usize)
        ensures
            n == self@.len(),
    {
        self.pairs.len()
    }

    /// The key of the pair at `i`.
    pub fn key_at(&self, i: usize) -> (k: &Vec<u8>)
        requires
            i < self@.len(),
        ensures
            k@ == self@[i as int].0,
    {
        &self.pairs[i].0
    }

    /// The value of the pair at `i`.
    pub fn value_at(&self, i: usize) -> (v: &Vec<u8>)
        requires
            i < self@.len(),
        ensures
            v@ == self@[i as int].1,
    {
        &self.pairs[i].1
    }

    /// Binds `k` to `v`, overwriting the value of an existing pair keyed
    /// `k`, or appending a new pair.
    pub fn insert(&mut self, k: Vec<u8>, v: Vec<u8>)
        ensures
            final(self)@ == spec_insert(old(self)@, k@, v@),
            old(self).wf() ==> final(self).wf(),
    {
        let ghost orig = self@;
        let mut out: Vec<(Vec<u8>, Vec<u8>)> = Vec::new();
        let mut i: usize = 0;
        let mut done = false;
        assert(orig.skip(0) =~= orig);
        assert(pairs_view(out@) + spec_insert(orig, k@, v@) =~= spec_insert(orig, k@, v@));
        while i < self.pairs.len()
            invariant
                i <= self.pairs.len(),
                self@ == orig,
                self@.len() == self.pairs@.len(),
                !done ==> pairs_view(out@) + spec_insert(orig.skip(i as int), k@, v@)
                    == spec_insert(orig, k@, v@),
                done ==> pairs_view(out@) + orig.skip(i as int) == spec_insert(orig, k@, v@),
            decreases self.pairs.len() - i,
        {
            let ghost tail = orig.skip(i as int);
            assert(tail[0] == orig[i as int]);
            assert(tail.skip(1) =~= orig.skip(i as int + 1));
            let key_matches = !done && bytes_eq(&self.pairs[i].0, &k);
            if key_matches {
                assert(tail[0].0 == k@);
                let ghost out_before = out@;
                out.push((clone_bytes(&k), clone_bytes(&v)));
                done = true;
                assert(spec_insert(tail, k@, v@) == seq![(k@, v@)] + tail.skip(1));
                assert(pairs_view(out@) =~= pairs_view(out_before).push((k@, v@)));
                assert(pairs_view(out@) + orig.skip(i as int + 1)
                    =~= spec_insert(orig, k@, v@));
            } else {
                let pk = clone_bytes(&self.pairs[i].0);
                let pv = clone_bytes(&self.pairs[i].1);
                let ghost out_before = out@;
                out.push((pk, pv));
                assert(pairs_view(out@) =~= pairs_view(out_before).push(orig[i as int]));
                if done {
                    assert(tail =~= seq![tail[0]] + tail.skip(1));
                    assert(pairs_view(out@) + orig.skip(i as int + 1)
                        =~= spec_insert(orig, k@, v@));
                } else {
                    assert(tail[0].0 != k@);
                    assert(spec_insert(tail, k@, v@)
                        == seq![tail[0]] + spec_insert(tail.skip(1), k@, v@));
                    assert(pairs_view(out@) + spec_insert(orig.skip(i as int + 1), k@, v@)
                        =~= spec_insert(orig, k@, v@));
                }
            }
            i = i + 1;
        }
        assert(orig.skip(orig.len() as int) =~= Seq::<(Seq<u8>, Seq<u8>)>::empty());
        if !done {
            out.push((k, v));
            assert(spec_insert(Seq::<(Seq<u8>, Seq<u8>)>::empty(), k@, v@) =~= seq![(k@, v@)]);
            assert(pairs_view(out@) =~= spec_insert(orig, k@, v@));
        } else {
            assert(pairs_view(out@) =~= spec_insert(orig, k@, v@));
        }
        self.pairs = out;
        proof {
            if keys_unique(orig) {
                lemma_insert_unique(orig, k@, v@);
            }
        }
    }

    /// Looks `k` up: the value of the first pair keyed `k`, if any.
    pub fn get(&self, k: &Vec<u8>) -> (r: Option<&Vec<u8>>)
        ensures
            match r {
                Some(v) => spec_lookup(self@, k@) == Some(v@),
                None => spec_lookup(self@, k@) is None,
            },
    {
        let mut i: usize = 0;
        assert(self@.skip(0) =~= self@);
        while i < self.pairs.len()
            invariant
                i <= self.pairs.len(),
                self@.len() == self.pairs@.len(),
                spec_lookup(self@.skip(i as int), k@) == spec_lookup(self@, k@),
            decreases self.pairs.len() - i,
        {
            let ghost tail = self@.skip(i as int);
            assert(tail[0] == self@[i as int]);
            assert(tail.skip(1) =~= self@.skip(i as int + 1));
            if bytes_eq(&self.pairs[i].0, k) {
                return Some(&self.pairs[i].1);
            }
            i = i + 1;
        }
        assert(self@.skip(self@.len() as int) =~= Seq::<(Seq<u8>, Seq<u8>)>::empty());
        None
    }

    /// Moves every pair of `secrets` into this mapping, in order: a secret
    /// overwrites the value of a pair with the same key.
    pub fn merge(&mut self, secrets: VarMap)
        ensures
            final(self)@ == spec_merge(old(self)@, secrets@),
            old(self).wf() ==> final(self).wf(),
    {
        let ghost orig = self@;
        let ghost qs = secrets@;
        let mut i: usize = 0;
        assert(qs.skip(0) =~= qs);
        while i < secrets.pairs.len()
            invariant
                i <= secrets.pairs.len(),
                qs.len() == secrets.pairs@.len(),
                qs == secrets@,
                spec_merge(self@, qs.skip(i as int)) == spec_merge(orig, qs),
                keys_unique(orig) ==> keys_unique(self@),
            decreases secrets.pairs.len() - i,
        {
            let ghost tail = qs.skip(i as int);
            assert(tail[0] == qs[i as int]);
            assert(tail.skip(1) =~= qs.skip(i as int + 1));
            let sk = clone_bytes(&secrets.pairs[i].0);
            let sv = clone_bytes(&secrets.pairs[i].1);
            self.insert(sk, sv);
            i = i + 1;
        }
        assert(qs.skip(qs.len() as int) =~= Seq::<(Seq<u8>, Seq<u8>)>::empty());
    }
}

/// Inserting keeps keys unique.
proof fn lemma_insert_unique(ps: Seq<(Seq<u8>, Seq<u8>)>, k: Seq<u8>, v: Seq<u8>)
    requires
        keys_unique(ps),
    ensures
        keys_unique(spec_insert(ps, k, v)),
    decreases ps.len(),
{
    let out = spec_insert(ps, k, v);
    if ps.len() == 0 {
        assert(out[0] == (k, v));
        assert(out.skip(1) =~= Seq::<(Seq<u8>, Seq<u8>)>::empty());
        assert(keys_unique(out.skip(1)));
    } else if ps[0].0 == k {
        assert(out[0] == (k, v));
        assert(out.skip(1) =~= ps.skip(1));
        assert(spec_lookup(out.skip(1), out[0].0) is None);
    } else {
        lemma_insert_unique(ps.skip(1), k, v);
        lemma_lookup_insert_other(ps.skip(1), k, v, ps[0].0);
        assert(out[0] == ps[0]);
        assert(out.skip(1) =~= spec_insert(ps.skip(1), k, v));
        assert(spec_lookup(out.skip(1), out[0].0) is None);
    }
}

/// Looking up the inserted key finds the inserted value.
pub proof fn lemma_lookup_insert_same(ps: Seq<(Seq<u8>, Seq<u8>)>, k: Seq<u8>, v: Seq<u8>)
    ensures
        spec_lookup(spec_insert(ps, k, v), k) == Some(v),
    decreases ps.len(),
{
    let out = spec_insert(ps, k, v);
    if ps.len() == 0 {
    } else if ps[0].0 == k {
        assert(out[0] == (k, v));
    } else {
        lemma_lookup_insert_same(ps.skip(1), k, v);
        assert(out[0] == ps[0]);
        assert(out.skip(1) =~= spec_insert(ps.skip(1), k, v));
    }
}

/// Looking up any other key is unchanged by an insertion.
pub proof fn lemma_lookup_insert_other(
    ps: Seq<(Seq<u8>, Seq<u8>)>,
    k: Seq<u8>,
    v: Seq<u8>,
    k2: Seq<u8>,
)
    requires
        k2 != k,
    ensures
        spec_lookup(spec_insert(ps, k, v), k2) == spec_lookup(ps, k2),
    decreases ps.len(),
{
    let out = spec_insert(ps, k, v);
    if ps.len() == 0 {
        assert(out[0] == (k, v));
        assert(out.skip(1) =~= Seq::<(Seq<u8>, Seq<u8>)>::empty());
        assert(spec_lookup(out.skip(1), k2) is None);
        assert(spec_lookup(out, k2) is None);
    } else if ps[0].0 == k {
        assert(out[0] == (k, v));
        assert(out.skip(1) =~= ps.skip(1));
        assert(spec_lookup(out, k2) == spec_lookup(ps.skip(1), k2));
        assert(spec_lookup(ps, k2) == spec_lookup(ps.skip(1), k2));
    } else {
        lemma_lookup_insert_other(ps.skip(1), k, v, k2);
        assert(out[0] == ps[0]);
        assert(out.skip(1) =~= spec_insert(ps.skip(1), k, v));
        assert(spec_lookup(out, k2) == spec_lookup(ps, k2));
    }
}

/// Re-binding a key to the value it already holds changes nothing.
pub proof fn lemma_insert_same_value(ps: Seq<(Seq<u8>, Seq<u8>)>, k: Seq<u8>, v: Seq<u8>)
    requires
        spec_lookup(ps, k) == Some(v),
    ensures
        spec_insert(ps, k, v) == ps,
    decreases ps.len(),
{
    if ps.len() == 0 {
    } else if ps[0].0 == k {
        assert(ps[0].1 == v);
        assert(spec_insert(ps, k, v) =~= ps);
    } else {
        lemma_insert_same_value(ps.skip(1), k, v);
        assert(spec_insert(ps, k, v) =~= ps);
    }
}

/// In a merged mapping a key of the second table resolves to the second
/// table's value — secrets overwrite variables — and every other key keeps
/// the first table's value.
pub proof fn lemma_merge_lookup(
    ps: Seq<(Seq<u8>, Seq<u8>)>,
    qs: Seq<(Seq<u8>, Seq<u8>)>,
    k: Seq<u8>,
)
    requires
        keys_unique(qs),
    ensures
        spec_lookup(spec_merge(ps, qs), k) == match spec_lookup(qs, k) {
            Some(v) => Some(v),
            None => spec_lookup(ps, k),
        },
    decreases qs.len(),
{
    if qs.len() == 0 {
    } else {
        let ps1 = spec_insert(ps, qs[0].0, qs[0].1);
        lemma_merge_lookup(ps1, qs.skip(1), k);
        if k == qs[0].0 {
            lemma_lookup_insert_same(ps, qs[0].0, qs[0].1);
        } else {
            lemma_lookup_insert_other(ps, qs[0].0, qs[0].1, k);
        }
    }
}

/// Unmatched tokens pass through: text in which no mapped name's token
/// occurs is left untouched by substitution.
pub proof fn lemma_unmatched_tokens_unchanged(text: Seq<u8>, ps: Seq<(Seq<u8>, Seq<u8>)>)
    requires
        forall|i: int|
            0 <= i < ps.len() ==> !crate::text::spec_occurs(
                text,
                spec_token(#[trigger] ps[i].0),
            ),
    ensures
        spec_subst(text, ps) == text,
    decreases ps.len(),
{
    if ps.len() > 0 {
        crate::text::lemma_replace_absent(text, spec_token(ps[0].0), ps[0].1);
        assert(forall|i: int| 0 <= i < ps.skip(1).len() ==> ps.skip(1)[i] == ps[i + 1]);
        lemma_unmatched_tokens_unchanged(text, ps.skip(1));
    }
}

/// Builds the token `{{ name }}` that marks `name` in template text.
pub fn token_bytes(name: &Vec<u8>) -> (t: Vec<u8>)
    ensures
        t@ == spec_token(name@),
{
    let mut t: Vec<u8> = Vec::new();
    t.push(123u8);
    t.push(123u8);
    t.push(32u8);
    crate::text::append_bytes(&mut t, name);
    t.push(32u8);
    t.push(125u8);
    t.push(125u8);
    assert(t@ =~= spec_token(name@));
    t
}

/// Applies the mapping to template text: pair by pair, in the mapping's
/// order, every occurrence of `{{ name }}` is replaced by the pair's value.
/// Unmatched tokens pass through unchanged; substitution never fails.
pub fn substitute_variables(content: Vec<u8>, variables: &VarMap) -> (r: Vec<u8>)
    ensures
        r@ == spec_subst(content@, variables@),
{
    let ghost orig = content@;
    let ghost vs = variables@;
    let mut cur = content;
    let mut i: usize = 0;
    assert(vs.skip(0) =~= vs);
    while i < variables.pairs.len()
        invariant
            i <= variables.pairs.len(),
            vs.len() == variables.pairs@.len(),
            vs == variables@,
            spec_subst(cur@, vs.skip(i as int)) == spec_subst(orig, vs),
        decreases variables.pairs.len() - i,
    {
        let ghost tail = vs.skip(i as int);
        assert(tail[0] == vs[i as int]);
        assert(tail.skip(1) =~= vs.skip(i as int + 1));
        let token = token_bytes(&variables.pairs[i].0);
        cur = replace_bytes(&cur, &token, &variables.pairs[i].1);
        i = i + 1;
    }
    assert(vs.skip(vs.len() as int) =~= Seq::<(Seq<u8>, Seq<u8>)>::empty());
    cur
}

} // verus!
