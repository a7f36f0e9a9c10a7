//! Path arithmetic on byte strings: home-directory expansion, parent
//! directories, and the cache-mirror join that keeps an absolute target
//! inside the cache root.
use vstd::prelude::*;

use crate::text::append_bytes;

verus! {

/// The byte `/`, the path separator.
pub const SLASH: u8 = 47;

/// The byte `~`, the home-directory marker.
pub const TILDE: u8 = 126;

/// Why a configured string could not be interpreted as a path.
#[derive(Clone, Copy, PartialEq, Eq, Structural, Debug)]
pub enum PathError {
    /// The configured string was empty.
    Empty,
}

/// The resolved form of a raw configured path: `~` alone becomes the home
/// directory, a leading `~/` is replaced by the home directory, anything
/// else is kept as written. An empty string resolves to nothing.
pub open spec fn spec_resolve(raw: Seq<u8>, home: Seq<u8>) -> Option<Seq<u8>> {
    if raw.len() == 0 {
        None
    } else if raw == seq![TILDE] {
        Some(home)
    } else if raw.len() >= 2 && raw[0] == TILDE && raw[1] == SLASH {
        Some(home + raw.skip(1))
    } else {
        Some(raw)
    }
}

/// Interprets a raw configured path, expanding a leading `~` into the
/// given home directory. Only an empty string is rejected.
pub fn resolve_path(raw: &Vec<u8>, home: &Vec<u8>) -> (r: Result<Vec<u8>, PathError>)
    ensures
        match r {
            Ok(p) => spec_resolve(raw@, home@) == Some(p@),
            Err(e) => spec_resolve(raw@, home@) is None && e == PathError::Empty,
        },
{
    if raw.len() == 0 {
        return Err(PathError::Empty);
    }
    if raw[0] == TILDE && (raw.len() == 1 || raw[1] == SLASH) {
        let mut out: Vec<u8> = Vec::new();
        append_bytes(&mut out, home);
        let mut j: usize = 1;
        while j < raw.len()
            invariant
                1 <= j <= raw.len(),
                out@ == home@ + raw@.subrange(1, j as int),
            decreases raw.len() - j,
        {
            out.push(raw[j]);
            j = j + 1;
            assert(out@ =~= home@ + raw@.subrange(1, j as int));
        }
        if raw.len() == 1 {
            assert(raw@ =~= seq![TILDE]);
            assert(out@ =~= home@);
        } else {
            assert(raw@ != seq![TILDE]);
            assert(raw@.subrange(1, raw@.len() as int) =~= raw@.skip(1));
        }
        Ok(out)
    } else {
        assert(raw@ != seq![TILDE]);
        let out = crate::text::clone_bytes(raw);
        Ok(out)
    }
}

/// The path without its last component: everything before the final `/`.
/// The parent of a path with no `/` is empty; the parent of a top-level
/// absolute path is `/`; the root and the empty path are their own parent.
pub open spec fn spec_parent(p: Seq<u8>) -> Seq<u8>
    decreases p.len(),
{
    if p.len() == 0 {
        p
    } else if p.last() == SLASH {
        if p.len() == 1 {
            p
        } else {
            p.take(p.len() - 1)
        }
    } else {
        spec_parent(p.take(p.len() - 1))
    }
}

/// The directory that must exist before `p` can be created: `spec_parent`
/// of `p`, computed by scanning back to the final `/`.
pub fn parent_of(p: &Vec<u8>) -> (r: Vec<u8>)
    ensures
        r@ == spec_parent(p@),
{
    let mut j: usize = p.len();
    assert(p@.take(p@.len() as int) =~= p@);
    while j > 0
        invariant
            j <= p.len(),
            spec_parent(p@.take(j as int)) == spec_parent(p@),
            forall|k: int| j <= k < p.len() ==> p@[k] != SLASH,
        ensures
            j == 0 || (j <= p.len() && p@[j as int - 1] == SLASH),
            spec_parent(p@.take(j as int)) == spec_parent(p@),
        decreases j,
    {
        let ghost pre = p@.take(j as int);
        if p[j - 1] == SLASH {
            break;
        }
        assert(pre.last() != SLASH);
        assert(pre.take(pre.len() - 1) =~= p@.take(j as int - 1));
        j = j - 1;
    }
    if j == 0 {
        assert(p@.take(0) =~= Seq::<u8>::empty());
        let out: Vec<u8> = Vec::new();
        assert(out@ =~= spec_parent(p@));
        out
    } else if j == 1 {
        let ghost pre = p@.take(1);
        assert(pre.last() == SLASH && pre.len() == 1);
        let mut out: Vec<u8> = Vec::new();
        out.push(SLASH);
        assert(out@ =~= pre);
        out
    } else {
        let ghost pre = p@.take(j as int);
        assert(pre.last() == SLASH && pre.len() >= 2);
        assert(spec_parent(pre) == pre.take(pre.len() - 1));
        let mut out: Vec<u8> = Vec::new();
        let mut i: usize = 0;
        while i < j - 1
            invariant
                i <= j - 1,
                j <= p.len(),
                out@ == p@.subrange(0, i as int),
            decreases j - 1 - i,
        {
            out.push(p[i]);
            i = i + 1;
            assert(out@ =~= p@.subrange(0, i as int));
        }
        assert(out@ =~= pre.take(pre.len() - 1));
        out
    }
}

/// The target path without its leading `/` bytes: the non-absolute
/// remainder that is joined under the cache root.
pub open spec fn spec_strip_root(p: Seq<u8>) -> Seq<u8>
    decreases p.len(),
{
    if p.len() > 0 && p[0] == SLASH {
        spec_strip_root(p.skip(1))
    } else {
        p
    }
}

/// The cache-mirrored location of a target: the cache root, a separator
/// unless the root already ends in one, then the target's non-absolute
/// remainder. An absolute target never escapes the cache root.
pub open spec fn spec_cache_mirror(root: Seq<u8>, target: Seq<u8>) -> Seq<u8> {
    if root.len() > 0 && root.last() == SLASH {
        root + spec_strip_root(target)
    } else {
        root + seq![SLASH] + spec_strip_root(target)
    }
}

/// Joins `target` under `root`, stripping `target`'s leading root marker
/// first, so that an absolute target stays inside the cache root.
pub fn cache_mirror(root: &Vec<u8>, target: &Vec<u8>) -> (r: Vec<u8>)
    ensures
        r@ == spec_cache_mirror(root@, target@),
{
    let mut j: usize = 0;
    assert(target@.skip(0) =~= target@);
    while j < target.len() && target[j] == SLASH
        invariant
            j <= target.len(),
            spec_strip_root(target@.skip(j as int)) == spec_strip_root(target@),
            forall|k: int| 0 <= k < j ==> target@[k] == SLASH,
        decreases target.len() - j,
    {
        let ghost tail = target@.skip(j as int);
        assert(tail[0] == SLASH);
        assert(tail.skip(1) =~= target@.skip(j as int + 1));
        j = j + 1;
    }
    let ghost tail = target@.skip(j as int);
    assert(spec_strip_root(tail) == tail);
    let mut out: Vec<u8> = Vec::new();
    append_bytes(&mut out, root);
    if !(root.len() > 0 && root[root.len() - 1] == SLASH) {
        out.push(SLASH);
    }
    let ghost mid = out@;
    let mut i: usize = j;
    while i < target.len()
        invariant
            j <= i <= target.len(),
            out@ == mid + target@.subrange(j as int, i as int),
        decreases target.len() - i,
    {
        out.push(target[i]);
        i = i + 1;
        assert(out@ =~= mid + target@.subrange(j as int, i as int));
    }
    assert(target@.subrange(j as int, target@.len() as int) =~= target@.skip(j as int));
    assert(out@ =~= spec_cache_mirror(root@, target@));
    out
}

/// The stripped remainder never starts with `/`: joining it under the
/// cache root cannot produce a second absolute root.
pub proof fn lemma_strip_root_relative(p: Seq<u8>)
    ensures
        spec_strip_root(p).len() == 0 || spec_strip_root(p)[0] != SLASH,
        spec_strip_root(p).len() <= p.len(),
    decreases p.len(),
{
    if p.len() > 0 && p[0] == SLASH {
        lemma_strip_root_relative(p.skip(1));
    }
}

/// Cache path containment: the mirrored path begins with the cache root,
/// continues with a separator, and its remainder holds no leading root
/// marker, so an absolute target never escapes the cache root.
pub proof fn lemma_cache_containment(root: Seq<u8>, target: Seq<u8>)
    requires
        root.len() == 0 || root.last() != SLASH,
    ensures
        spec_cache_mirror(root, target).take(root.len() as int) == root,
        spec_cache_mirror(root, target)[root.len() as int] == SLASH,
        spec_cache_mirror(root, target).skip(root.len() as int + 1) == spec_strip_root(target),
        spec_strip_root(target).len() == 0 || spec_strip_root(target)[0] != SLASH,
{
    lemma_strip_root_relative(target);
    let m = spec_cache_mirror(root, target);
    assert(m.take(root.len() as int) =~= root);
    assert(m.skip(root.len() as int + 1) =~= spec_strip_root(target));
}

} // verus!
