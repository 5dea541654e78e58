//! The flat directory: a sequence of descriptors encoding a tree by a
//! pre-order walk, where every directory descriptor owns the next
//! `content_size` descriptors.
//!
//! Path lookup, insertion with parent auto-creation, removal with parent
//! demotion, consistency checking and tree rendering all walk this
//! sequence; their traversals are stated as spec functions and the
//! executable walks are proved to compute them.

use vstd::prelude::*;

use vstd::string::StringSliceAdditionalSpecFns;
use vstd::string::StringExecFns;

use crate::records::Descriptor;

verus! {

/// Is this byte a path separator? Both `/` and `\` are accepted.
pub open spec fn is_sep(b: u8) -> bool {
    b == 47 || b == 92
}

/// Matches a descriptor name against the head of a path.
///
/// Returns the path after the name and one separator, the empty tail on an
/// exact match, or nothing when the head of the path is not this name.
pub open spec fn match_name(name: Seq<u8>, path: Seq<u8>) -> Option<Seq<u8>> {
    if path.len() == name.len() && path == name {
        Some(Seq::<u8>::empty())
    } else if path.len() > name.len() && path.subrange(0, name.len() as int) == name && is_sep(
        path[name.len() as int],
    ) {
        Some(path.skip(name.len() as int + 1))
    } else {
        None
    }
}

/// Index of the next sibling of the descriptor at `i` within a window
/// ending at `end`: a directory skips its children, with the child count
/// clamped to the window to tolerate corrupt descriptors.
pub open spec fn spec_next_sibling(d: Descriptor, i: int, end: int) -> int {
    if d.spec_is_dir() {
        i + 1 + vstd::math::min(end - (i + 1), d.content_size as int)
    } else {
        i + 1
    }
}

/// Pre-order lookup of a path inside the window `[i, end)`: returns the
/// index range of the found descriptor and its subtree.
///
/// On a name match with a remaining tail, a directory is entered; a file
/// is skipped, so a directory later in the sibling list can still match
/// the same name.
pub open spec fn spec_find_in(dir: Seq<Descriptor>, path: Seq<u8>, i: int, end: int) -> Option<
    (int, int),
>
    recommends
        0 <= i,
        end <= dir.len(),
    decreases end - i,
{
    if i < 0 || i >= end || end > dir.len() {
        None
    } else {
        let d = dir[i];
        let next = spec_next_sibling(d, i, end);
        match match_name(d.spec_name(), path) {
            Some(tail) => if tail.len() == 0 {
                Some((i, next))
            } else if d.spec_is_dir() {
                spec_find_in(dir, tail, i + 1, next)
            } else {
                spec_find_in(dir, path, next, end)
            },
            None => spec_find_in(dir, path, next, end),
        }
    }
}

/// Lookup of a path in the whole directory; the empty path finds nothing.
pub open spec fn spec_find(dir: Seq<Descriptor>, path: Seq<u8>) -> Option<(int, int)> {
    if path.len() == 0 {
        None
    } else {
        spec_find_in(dir, path, 0, dir.len() as int)
    }
}

/// A found range lies inside the searched window and is never empty.
pub proof fn lemma_find_in_range(dir: Seq<Descriptor>, path: Seq<u8>, i: int, end: int)
    requires
        0 <= i,
        end <= dir.len(),
    ensures
        spec_find_in(dir, path, i, end) matches Some(r) ==> i <= r.0 < r.1 <= end,
    decreases end - i,
{
    if 0 <= i < end {
        let d = dir[i];
        let next = spec_next_sibling(d, i, end);
        match match_name(d.spec_name(), path) {
            Some(tail) => {
                if tail.len() == 0 {
                } else if d.spec_is_dir() {
                    lemma_find_in_range(dir, tail, i + 1, next);
                } else {
                    lemma_find_in_range(dir, path, next, end);
                }
            },
            None => {
                lemma_find_in_range(dir, path, next, end);
            },
        }
    }
}

/// Compares the next component of the path with the descriptor's name.
///
/// Returns the path with the name (and one separator) removed, or nothing
/// if the path does not start with this name.
pub fn name_eq<'a>(desc: &Descriptor, path: &'a [u8]) -> (r: Option<&'a [u8]>)
    ensures
        r is Some == match_name(desc.spec_name(), path@) is Some,
        r matches Some(t) ==> match_name(desc.spec_name(), path@) == Some(t@),
{
    let name = desc.name();
    let ghost n = desc.spec_name();
    let mut i: usize = 0;
    loop
        invariant
            n == desc.spec_name(),
            name@ == n,
            i <= name@.len(),
            i <= path@.len(),
            forall|k: int| 0 <= k < i ==> name@[k] == path@[k],
        decreases name@.len() - i,
    {
        if name.len() == i {
            if path.len() == i {
                proof {
                    assert(path@ =~= n);
                }
                return Some(vstd::slice::slice_subrange(path, i, i));
            }
            if path[i] == 47 || path[i] == 92 {
                proof {
                    assert(path@.subrange(0, i as int) =~= n);
                    assert(path@.skip(i as int + 1) =~= path@.subrange(
                        i as int + 1,
                        path@.len() as int,
                    ));
                }
                return Some(vstd::slice::slice_subrange(path, i + 1, path.len()));
            }
            proof {
                if path@.len() == n.len() {
                    assert(path@.len() == i);
                }
                if path@.len() > n.len() {
                    assert(path@.subrange(0, i as int) =~= n);
                    assert(!is_sep(path@[i as int]));
                }
            }
            return None;
        }
        if path.len() == i || name[i] != path[i] {
            proof {
                if path@.len() == n.len() && path@ == n {
                    assert(path@[i as int] == n[i as int]);
                }
                if path@.len() > n.len() && path@.subrange(0, n.len() as int) == n {
                    assert(path@.subrange(0, n.len() as int)[i as int] == n[i as int]);
                }
            }
            return None;
        }
        i += 1;
    }
}

/// Next sibling index of the descriptor at `i` in a window ending at `end`.
///
/// A directory descriptor's children are skipped; a corrupt child count is
/// clamped to the window.
pub fn next_sibling(desc: &Descriptor, i: usize, end: usize) -> (r: usize)
    requires
        i < end,
    ensures
        r == spec_next_sibling(*desc, i as int, end as int),
        i < r <= end,
{
    if desc.is_dir() {
        let max_size = end - (i + 1);
        let min_size = if (desc.content_size as usize) < max_size {
            desc.content_size as usize
        } else {
            max_size
        };
        i + 1 + min_size
    } else {
        i + 1
    }
}

/// Traverses the directory with the given path.
///
/// Returns the empty slice if no descriptor was found (or the path is
/// empty); otherwise the slice holding the found descriptor followed by
/// its whole subtree.
pub fn find<'a>(dir: &'a [Descriptor], path: &[u8]) -> (r: &'a [Descriptor])
    ensures
        match spec_find(dir@, path@) {
            Some(range) => r@ == dir@.subrange(range.0, range.1),
            None => r@.len() == 0,
        },
{
    if path.len() == 0 {
        return vstd::slice::slice_subrange(dir, 0, 0);
    }
    let mut i: usize = 0;
    let mut end: usize = dir.len();
    let mut p: &[u8] = path;
    while i < end
        invariant
            i <= end,
            end <= dir@.len(),
            path@.len() != 0,
            spec_find_in(dir@, path@, 0, dir@.len() as int) == spec_find_in(
                dir@,
                p@,
                i as int,
                end as int,
            ),
        decreases end - i,
    {
        let desc = &dir[i];
        let next_i = next_sibling(desc, i, end);
        match name_eq(desc, p) {
            Some(tail) => {
                if tail.len() == 0 {
                    return vstd::slice::slice_subrange(dir, i, next_i);
                }
                if desc.is_dir() {
                    p = tail;
                    i = i + 1;
                    end = next_i;
                    continue;
                }
            },
            None => {},
        }
        i = next_i;
    }
    return vstd::slice::slice_subrange(dir, 0, 0);
}

/// Finds the descriptor at the given path.
pub fn find_desc<'a>(dir: &'a [Descriptor], path: &[u8]) -> (r: Option<&'a Descriptor>)
    ensures
        r is Some == spec_find(dir@, path@) is Some,
        r matches Some(d) ==> spec_find(dir@, path@) matches Some(range) && *d == dir@[range.0],
{
    proof {
        if path@.len() > 0 {
            lemma_find_in_range(dir@, path@, 0, dir@.len() as int);
        }
    }
    let f = find(dir, path);
    if f.len() > 0 {
        Some(&f[0])
    } else {
        None
    }
}

/// Finds the child descriptors of the directory at the given path; the
/// empty path names the root, whose children are the whole directory.
pub fn find_dir<'a>(dir: &'a [Descriptor], path: &[u8]) -> (r: Option<&'a [Descriptor]>)
    ensures
        path@.len() == 0 ==> (r matches Some(s) && s@ == dir@),
        path@.len() != 0 ==> (match r {
            Some(s) => spec_find(dir@, path@) matches Some(range) && s@ == dir@.subrange(
                range.0 + 1,
                range.1,
            ),
            None => spec_find(dir@, path@) is None,
        }),
{
    if path.len() == 0 {
        Some(dir)
    } else {
        proof {
            lemma_find_in_range(dir@, path@, 0, dir@.len() as int);
        }
        let f = find(dir, path);
        if f.len() > 0 {
            Some(vstd::slice::slice_subrange(f, 1, f.len()))
        } else {
            None
        }
    }
}

} // verus!

verus! {

// ---------------------------------------------------------------
// The mutating walk shared by create and remove.
// ---------------------------------------------------------------

/// A descriptor with its child count changed by `delta`, modulo 2^32.
pub open spec fn bump(d: Descriptor, delta: u32) -> Descriptor {
    Descriptor {
        content_size: vstd::wrapping::u32_specs::wrapping_add(d.content_size, delta),
        ..d
    }
}

/// The walk along a path that create and remove share: it descends into
/// every directory whose name matches the next path component, changing
/// its child count by `delta` on the way down.
///
/// Returns the walked directory, the index where the walk stopped, the
/// unmatched remainder of the path, and whether the path was found
/// exactly. The walk stops at the first exact match, at a file matching a
/// component with a remainder left (where a sibling directory of the same
/// name would be created), or at the end of the innermost window.
pub open spec fn spec_walk(dir: Seq<Descriptor>, path: Seq<u8>, i: int, end: int, delta: u32) -> (
    Seq<Descriptor>,
    int,
    Seq<u8>,
    bool,
)
    recommends
        0 <= i,
        end <= dir.len(),
    decreases end - i,
{
    if i < 0 || i >= end || end > dir.len() {
        (dir, i, path, false)
    } else {
        let d = dir[i];
        let next = spec_next_sibling(d, i, end);
        match match_name(d.spec_name(), path) {
            Some(tail) => if tail.len() == 0 {
                (dir, i, tail, true)
            } else if d.spec_is_dir() {
                spec_walk(dir.update(i, bump(d, delta)), tail, i + 1, next, delta)
            } else {
                // A file of the matched name blocks the descent: the
                // whole remainder stays, so a sibling directory of the
                // same name gets created.
                (dir, i, path, false)
            },
            None => spec_walk(dir, path, next, end, delta),
        }
    }
}

/// Frame of the walk: it keeps the length, stops inside the window, leaves
/// everything outside `[i, end)` alone, and the descriptor it finds is
/// untouched.
pub proof fn lemma_walk_frame(dir: Seq<Descriptor>, path: Seq<u8>, i: int, end: int, delta: u32)
    requires
        0 <= i,
        end <= dir.len(),
    ensures
        ({
            let w = spec_walk(dir, path, i, end, delta);
            &&& w.0.len() == dir.len()
            &&& (i <= end ==> i <= w.1 <= end)
            &&& (w.3 ==> i <= w.1 < end && w.2.len() == 0 && w.0[w.1] == dir[w.1])
            &&& w.2.len() <= path.len()
            &&& forall|j: int| 0 <= j < dir.len() && !(i <= j < end) ==> w.0[j] == dir[j]
        }),
    decreases end - i,
{
    if 0 <= i < end {
        let d = dir[i];
        let next = spec_next_sibling(d, i, end);
        match match_name(d.spec_name(), path) {
            Some(tail) => {
                if tail.len() == 0 {
                } else if d.spec_is_dir() {
                    let dir2 = dir.update(i, bump(d, delta));
                    lemma_walk_frame(dir2, tail, i + 1, next, delta);
                    let w = spec_walk(dir2, tail, i + 1, next, delta);
                    assert(i + 1 <= next <= end);
                    assert(w.3 ==> w.0[w.1] == dir2[w.1] && dir2[w.1] == dir[w.1]);
                    assert forall|j: int|
                        0 <= j < dir.len() && !(i <= j < end) implies w.0[j] == dir[j] by {
                        assert(w.0[j] == dir2[j]);
                        assert(dir2[j] == dir[j]);
                    }
                } else {
                }
            },
            None => {
                lemma_walk_frame(dir, path, next, end, delta);
            },
        }
    }
}

/// The index, remainder and verdict of the walk do not depend on `delta`,
/// nor on the parts of the directory outside the window.
pub proof fn lemma_walk_agree(
    dira: Seq<Descriptor>,
    dirb: Seq<Descriptor>,
    path: Seq<u8>,
    i: int,
    end: int,
    da: u32,
    db: u32,
)
    requires
        0 <= i,
        end <= dira.len(),
        dira.len() == dirb.len(),
        forall|j: int| i <= j < end ==> dira[j] == dirb[j],
    ensures
        ({
            let wa = spec_walk(dira, path, i, end, da);
            let wb = spec_walk(dirb, path, i, end, db);
            wa.1 == wb.1 && wa.2 == wb.2 && wa.3 == wb.3
        }),
    decreases end - i,
{
    if 0 <= i < end {
        let d = dira[i];
        let next = spec_next_sibling(d, i, end);
        match match_name(d.spec_name(), path) {
            Some(tail) => {
                if tail.len() == 0 {
                } else if d.spec_is_dir() {
                    let dira2 = dira.update(i, bump(d, da));
                    let dirb2 = dirb.update(i, bump(d, db));
                    lemma_walk_agree(dira2, dirb2, tail, i + 1, next, da, db);
                } else {
                }
            },
            None => {
                lemma_walk_agree(dira, dirb, path, next, end, da, db);
            },
        }
    }
}

/// A walk with `delta == 0` writes every descriptor back unchanged.
pub proof fn lemma_walk_zero(dir: Seq<Descriptor>, path: Seq<u8>, i: int, end: int)
    requires
        0 <= i,
        end <= dir.len(),
    ensures
        spec_walk(dir, path, i, end, 0).0 =~= dir,
    decreases end - i,
{
    if 0 <= i < end {
        let d = dir[i];
        let next = spec_next_sibling(d, i, end);
        match match_name(d.spec_name(), path) {
            Some(tail) => {
                if tail.len() == 0 {
                } else if d.spec_is_dir() {
                    assert(bump(d, 0) == d);
                    let dir2 = dir.update(i, bump(d, 0));
                    assert(dir2 =~= dir);
                    lemma_walk_zero(dir2, tail, i + 1, next);
                    lemma_walk_agree(dir2, dir, tail, i + 1, next, 0, 0);
                    assert(spec_walk(dir2, tail, i + 1, next, 0).0 =~= dir2);
                } else {
                }
            },
            None => {
                lemma_walk_zero(dir, path, next, end);
            },
        }
    }
}

/// Walks the directory along a path, changing the child count of every
/// matched parent directory by `delta` on the way down.
///
/// Returns the index where the walk stopped, the unmatched remainder of
/// the path, and whether the path was found exactly.
fn walk<'p>(dir: &mut Vec<Descriptor>, path: &'p [u8], delta: u32) -> (r: (usize, &'p [u8], bool))
    ensures
        ({
            let w = spec_walk(old(dir)@, path@, 0, old(dir)@.len() as int, delta);
            &&& final(dir)@ == w.0
            &&& r.0 as int == w.1
            &&& r.1@ == w.2
            &&& r.2 == w.3
        }),
{
    let ghost orig = dir@;
    let mut i: usize = 0;
    let mut end: usize = dir.len();
    let mut p: &[u8] = path;
    while i < end
        invariant
            i <= end,
            end <= dir@.len(),
            dir@.len() == orig.len(),
            orig == old(dir)@,
            spec_walk(orig, path@, 0, orig.len() as int, delta) == spec_walk(
                dir@,
                p@,
                i as int,
                end as int,
                delta,
            ),
        decreases end - i,
    {
        let desc = dir[i];
        let next_i = next_sibling(&desc, i, end);
        match name_eq(&desc, p) {
            Some(tail) => {
                if tail.len() == 0 {
                    return (i, tail, true);
                }
                if desc.is_dir() {
                    let nd = Descriptor {
                        content_size: desc.content_size.wrapping_add(delta),
                        ..desc
                    };
                    proof {
                        assert(nd == bump(desc, delta));
                    }
                    dir[i] = nd;
                    p = tail;
                    i = i + 1;
                    end = next_i;
                    continue;
                }
                return (i, p, false);
            },
            None => {},
        }
        i = next_i;
    }
    (i, p, false)
}

} // verus!

verus! {

// ---------------------------------------------------------------
// Path components: counting and extraction.
// ---------------------------------------------------------------

/// Component count of the remainder of a path from position `i`, with
/// `acc` components already counted. A separator in last position ends
/// the count without a further component.
pub open spec fn components_from(path: Seq<u8>, i: int, acc: int) -> int
    decreases path.len() - i,
{
    if i < 0 || i >= path.len() {
        acc + 1
    } else if is_sep(path[i]) {
        if i + 1 == path.len() {
            acc
        } else {
            components_from(path, i + 1, acc + 1)
        }
    } else {
        components_from(path, i + 1, acc)
    }
}

/// Number of descriptors that creating this path remainder must insert:
/// its component count, with the empty remainder needing none.
pub open spec fn spec_components(path: Seq<u8>) -> int {
    if path.len() == 0 {
        0
    } else {
        components_from(path, 0, 0)
    }
}

/// The count never falls below what was already accumulated, and grows at
/// most by one per remaining byte.
pub proof fn lemma_components_from_bounds(path: Seq<u8>, i: int, acc: int)
    requires
        0 <= i <= path.len(),
    ensures
        acc <= components_from(path, i, acc) <= acc + path.len() - i + 1,
        path.len() > i ==> components_from(path, i, acc) <= acc + path.len() - i,
    decreases path.len() - i,
{
    if i < path.len() {
        if is_sep(path[i]) {
            if i + 1 < path.len() {
                lemma_components_from_bounds(path, i + 1, acc + 1);
            }
        } else {
            lemma_components_from_bounds(path, i + 1, acc);
        }
    }
}

/// Position of the first separator in a path, or its length.
pub open spec fn sep_pos_from(path: Seq<u8>, i: int) -> int
    decreases path.len() - i,
{
    if i < 0 || i >= path.len() {
        path.len() as int
    } else if is_sep(path[i]) {
        i
    } else {
        sep_pos_from(path, i + 1)
    }
}

/// First path component: everything before the first separator.
pub open spec fn comp_head(path: Seq<u8>) -> Seq<u8> {
    path.subrange(0, sep_pos_from(path, 0))
}

/// The path after its first component and separator; empty if the path
/// has no separator.
pub open spec fn comp_rest(path: Seq<u8>) -> Seq<u8> {
    if sep_pos_from(path, 0) == path.len() {
        Seq::<u8>::empty()
    } else {
        path.skip(sep_pos_from(path, 0) + 1)
    }
}

/// The `k`-th path component.
pub open spec fn component(path: Seq<u8>, k: int) -> Seq<u8>
    decreases k,
{
    if k <= 0 {
        comp_head(path)
    } else {
        component(comp_rest(path), k - 1)
    }
}

pub proof fn lemma_sep_pos_bounds(path: Seq<u8>, i: int)
    requires
        0 <= i <= path.len(),
    ensures
        i <= sep_pos_from(path, i) <= path.len(),
        sep_pos_from(path, i) < path.len() ==> is_sep(path[sep_pos_from(path, i)]),
        forall|l: int| i <= l < sep_pos_from(path, i) ==> !is_sep(path[l]),
    decreases path.len() - i,
{
    if i < path.len() && !is_sep(path[i]) {
        lemma_sep_pos_bounds(path, i + 1);
    }
}

/// Counts the number of path components as `spec_components` does.
fn flenck(path: &[u8]) -> (r: usize)
    ensures
        r as int == spec_components(path@),
        r <= path@.len(),
{
    if path.len() == 0 {
        return 0;
    }
    let mut components: usize = 0;
    let mut i: usize = 0;
    while i < path.len()
        invariant
            path@.len() >= 1,
            i <= path@.len(),
            components <= i,
            components + 1 <= path@.len(),
            spec_components(path@) == components_from(path@, i as int, components as int),
        decreases path@.len() - i,
    {
        if path[i] == 47 || path[i] == 92 {
            if i + 1 == path.len() {
                proof {
                    lemma_components_from_bounds(path@, i as int, components as int);
                }
                return components;
            }
            components += 1;
        }
        i += 1;
    }
    proof {
        lemma_components_from_bounds(path@, path@.len() as int, components as int);
    }
    return components + 1;
}

// ---------------------------------------------------------------
// Insertion and removal.
// ---------------------------------------------------------------

/// One descriptor of a freshly created chain: a directory named by the
/// given bytes (cut to the name buffer), with `count` children and zero
/// sections.
pub open spec fn is_chain_desc(d: Descriptor, name: Seq<u8>, count: int) -> bool {
    &&& d.content_type == 0
    &&& d.content_size == count
    &&& d.section == crate::records::spec_zero_section()
    &&& d.meta == crate::records::spec_zero_section()
    &&& d.name.spec_len() == vstd::math::min(name.len() as int, (crate::records::NAME_BUF_LEN
        - 1) as int)
    &&& d.spec_name() == name.subrange(0, d.name.spec_len())
    &&& forall|j: int|
        d.name.spec_len() <= j < crate::records::NAME_BUF_LEN - 1 ==> d.name.buffer[j] == 0u8
}

/// The descriptors inserted for a path remainder of `n` components:
/// the `k`-th is a directory named by component `k` that owns the
/// `n - 1 - k` descriptors after it.
pub open spec fn chain_ok(s: Seq<Descriptor>, tail: Seq<u8>, n: int) -> bool {
    &&& s.len() == n
    &&& forall|k: int| 0 <= k < n ==> is_chain_desc(#[trigger] s[k], component(tail, k), n - 1 - k)
}

/// Creates a descriptor at the given path, creating missing parent
/// directories on the way and adding the inserted count to every matched
/// parent's child count.
///
/// Returns the index of the found or created descriptor. An existing
/// path returns its descriptor's index and changes nothing. Nothing is
/// created for the empty path, or for a remainder whose component count
/// is zero (a lone trailing separator): the directory is unchanged and
/// `None` is returned.
pub fn create(dir: &mut Vec<Descriptor>, path: &[u8]) -> (r: Option<usize>)
    requires
        old(dir)@.len() + path@.len() < usize::MAX,
        path@.len() < 0xFFFF_FFFFusize,
    ensures
        ({
            let w0 = spec_walk(old(dir)@, path@, 0, old(dir)@.len() as int, 0);
            let inc = spec_components(w0.2);
            if w0.3 {
                &&& r matches Some(x) && x as int == w0.1
                &&& final(dir)@ =~= old(dir)@
            } else if inc == 0 {
                &&& r is None
                &&& final(dir)@ =~= old(dir)@
            } else {
                let w1 = spec_walk(old(dir)@, path@, 0, old(dir)@.len() as int, inc as u32);
                &&& r matches Some(x) && x as int == w0.1 + inc - 1
                &&& final(dir)@.len() == old(dir)@.len() + inc
                &&& final(dir)@.subrange(0, w0.1) =~= w1.0.subrange(0, w0.1)
                &&& final(dir)@.subrange(w0.1 + inc, final(dir)@.len() as int) =~= w1.0.subrange(
                    w0.1,
                    old(dir)@.len() as int,
                )
                &&& chain_ok(final(dir)@.subrange(w0.1, w0.1 + inc), w0.2, inc)
            }
        }),
{
    let ghost orig = dir@;
    let (i, tail, found) = walk(dir, path, 0);
    proof {
        lemma_walk_zero(orig, path@, 0, orig.len() as int);
        lemma_walk_frame(orig, path@, 0, orig.len() as int, 0);
        assert(dir@ =~= orig);
    }
    if found {
        return Some(i);
    }
    let inc = flenck(tail);
    if inc == 0 {
        return None;
    }
    let ghost w1 = spec_walk(orig, path@, 0, orig.len() as int, inc as u32);
    let _r1 = walk(dir, path, inc as u32);
    proof {
        lemma_walk_agree(orig, orig, path@, 0, orig.len() as int, 0, inc as u32);
        lemma_walk_frame(orig, path@, 0, orig.len() as int, inc as u32);
        assert(dir@ == w1.0);
        assert(dir@.len() == orig.len());
    }
    let ghost tail0 = tail@;
    let mut t: &[u8] = tail;
    let mut k: usize = 0;
    while k < inc
        invariant
            k <= inc,
            1 <= inc <= tail0.len(),
            tail0.len() <= path@.len(),
            path@.len() < 0xFFFF_FFFFusize,
            orig.len() + path@.len() < usize::MAX,
            i <= orig.len(),
            w1 == spec_walk(orig, path@, 0, orig.len() as int, inc as u32),
            w1.0.len() == orig.len(),
            dir@.len() == w1.0.len() + k,
            dir@.subrange(0, i as int) =~= w1.0.subrange(0, i as int),
            dir@.subrange(i + k, dir@.len() as int) =~= w1.0.subrange(
                i as int,
                w1.0.len() as int,
            ),
            forall|m: int|
                0 <= m < k ==> is_chain_desc(
                    #[trigger] dir@[i + m],
                    component(tail0, m),
                    inc - 1 - m,
                ),
            forall|m: int| 0 <= m <= inc - k ==> component(tail0, k + m) == component(t@, m),
        decreases inc - k,
    {
        let mut j: usize = 0;
        while j < t.len() && t[j] != 47 && t[j] != 92
            invariant
                j <= t@.len(),
                forall|l: int| 0 <= l < j ==> !is_sep(t@[l]),
            decreases t@.len() - j,
        {
            j += 1;
        }
        proof {
            lemma_sep_pos_bounds(t@, 0);
            assert(sep_pos_from(t@, 0) == j as int) by {
                if sep_pos_from(t@, 0) < j {
                    assert(!is_sep(t@[sep_pos_from(t@, 0)]));
                }
                if sep_pos_from(t@, 0) > j {
                    assert(j < t@.len());
                    assert(is_sep(t@[j as int]));
                }
            }
        }
        let name = vstd::slice::slice_subrange(t, 0, j);
        let d = Descriptor::dir(name, (inc - 1 - k) as u32);
        proof {
            assert(component(tail0, k + 0) == component(t@, 0));
            assert(name@ == comp_head(t@));
            assert(is_chain_desc(d, component(tail0, k as int), inc - 1 - k));
        }
        let ghost before = dir@;
        let ghost t_old = t@;
        dir.insert(i + k, d);
        proof {
            assert(dir@.subrange(0, i as int) =~= before.subrange(0, i as int));
            assert(dir@.subrange(i + k + 1, dir@.len() as int) =~= before.subrange(
                i + k,
                before.len() as int,
            ));
            assert forall|m: int| 0 <= m < k + 1 implies is_chain_desc(
                #[trigger] dir@[i + m],
                component(tail0, m),
                inc - 1 - m,
            ) by {
                if m < k {
                    assert(dir@[i + m] == before[i + m]);
                } else {
                    assert(dir@[i + m] == d);
                }
            }
        }
        t = if j == t.len() {
            vstd::slice::slice_subrange(t, j, j)
        } else {
            vstd::slice::slice_subrange(t, j + 1, t.len())
        };
        proof {
            assert(t@ =~= comp_rest(t_old));
            assert forall|m: int| 0 <= m <= inc - (k + 1) implies component(tail0, (k + 1) + m)
                == component(t@, m) by {
                assert(component(tail0, k + (m + 1)) == component(t_old, m + 1));
                assert(component(t_old, m + 1) == component(comp_rest(t_old), m));
            }
        }
        k += 1;
    }
    proof {
        assert forall|m: int| 0 <= m < inc implies is_chain_desc(
            #[trigger] dir@.subrange(i as int, i + inc)[m],
            component(tail0, m),
            inc - 1 - m,
        ) by {
            assert(dir@.subrange(i as int, i + inc)[m] == dir@[i + m]);
        }
        assert(chain_ok(dir@.subrange(i as int, i + inc), tail0, inc as int));
    }
    Some(i + inc - 1)
}

/// Removes the descriptor at the given path.
///
/// Returns nothing, and changes nothing, if no descriptor is at the path.
/// Otherwise the matched descriptor is removed and returned, every
/// ancestor's child count is reduced by one, and the children of a
/// removed directory stay behind, now owned by its parent.
pub fn remove(dir: &mut Vec<Descriptor>, path: &[u8]) -> (r: Option<Descriptor>)
    ensures
        ({
            let w0 = spec_walk(old(dir)@, path@, 0, old(dir)@.len() as int, 0);
            if !w0.3 {
                r is None && final(dir)@ =~= old(dir)@
            } else {
                let w1 = spec_walk(old(dir)@, path@, 0, old(dir)@.len() as int, 0xFFFF_FFFFu32);
                r == Some(old(dir)@[w0.1]) && final(dir)@ =~= w1.0.remove(w0.1)
            }
        }),
{
    let ghost orig = dir@;
    let (i, _tail, found) = walk(dir, path, 0);
    proof {
        lemma_walk_zero(orig, path@, 0, orig.len() as int);
        lemma_walk_frame(orig, path@, 0, orig.len() as int, 0);
        assert(dir@ =~= orig);
    }
    if !found {
        return None;
    }
    let (i2, _tail2, _found2) = walk(dir, path, 0xFFFF_FFFF);
    proof {
        lemma_walk_agree(orig, orig, path@, 0, orig.len() as int, 0, 0xFFFF_FFFFu32);
        lemma_walk_frame(orig, path@, 0, orig.len() as int, 0xFFFF_FFFFu32);
    }
    let d = dir.remove(i2);
    Some(d)
}

} // verus!

verus! {

// ---------------------------------------------------------------
// Consistency check.
// ---------------------------------------------------------------

/// Name checks of one descriptor: the length byte fits the buffer and the
/// name bytes are valid UTF-8.
pub open spec fn fsck_name_ok(d: Descriptor) -> bool {
    &&& d.name.buffer[crate::records::NAME_BUF_LEN - 1] < crate::records::NAME_BUF_LEN as u8
    &&& vstd::utf8::valid_utf8(d.spec_name())
}

/// File checks of one descriptor: the section lies between the header and
/// the high mark and is large enough for the content size.
pub open spec fn fsck_file_ok(d: Descriptor, high_mark: u32) -> bool {
    &&& d.section.offset >= crate::records::HEADER_BLOCKS as u32
    &&& d.section.size <= high_mark
    &&& d.section.offset as int + d.section.size as int <= high_mark as int
    &&& crate::records::spec_bytes2blocks(d.content_size) <= d.section.size
}

/// The consistency verdict over a window of sibling descriptors.
///
/// A directory descriptor whose child count exceeds the remaining window
/// is irrecoverable: the walk stops there and the verdict is false.
pub open spec fn spec_fsck(dir: Seq<Descriptor>, high_mark: u32) -> bool
    decreases dir.len(),
{
    if dir.len() == 0 {
        true
    } else {
        let d = dir[0];
        if !d.spec_is_dir() {
            fsck_name_ok(d) && fsck_file_ok(d, high_mark) && spec_fsck(dir.skip(1), high_mark)
        } else if d.content_size as int > dir.len() - 1 {
            false
        } else {
            fsck_name_ok(d) && spec_fsck(dir.subrange(1, 1 + d.content_size as int), high_mark)
                && spec_fsck(dir.skip(1 + d.content_size as int), high_mark)
        }
    }
}

/// Relies on str::from_utf8: it succeeds exactly on valid UTF-8 and the
/// returned text has the same bytes.
#[verifier::external_body]
fn try_utf8<'a>(bytes: &'a [u8]) -> (r: Option<&'a str>)
    ensures
        r is Some == vstd::utf8::valid_utf8(bytes@),
        r matches Some(t) ==> t.spec_bytes() == bytes@,
{
    core::str::from_utf8(bytes).ok()
}

/// Relies on String::from_utf8_lossy for log text only; nothing is
/// promised of the result.
#[verifier::external_body]
fn lossy_utf8(bytes: &[u8]) -> String {
    String::from_utf8_lossy(bytes).into_owned()
}

/// Appends one error line: the parent prefix, a slash, the descriptor's
/// name and the message.
fn fsck_log(log: &mut String, prefix: &String, d: &Descriptor, msg: &str)
    ensures
        old(log)@.is_prefix_of(final(log)@),
{
    let ghost start = log@;
    log.append(prefix.as_str());
    log.append("/");
    let name = lossy_utf8(d.name());
    log.append(name.as_str());
    log.append(": ");
    log.append(msg);
    log.append("\n");
    proof {
        assert(start.is_prefix_of(log@));
    }
}

/// Checks one window of siblings, logging errors under the given parent
/// path prefix, and returns the window's consistency verdict.
fn fsck_rec(dir: &[Descriptor], high_mark: u32, prefix: &String, log: &mut String) -> (r: bool)
    ensures
        r == spec_fsck(dir@, high_mark),
        old(log)@.is_prefix_of(final(log)@),
    decreases dir@.len(),
{
    let ghost log0 = log@;
    let mut success = true;
    let mut i: usize = 0;
    proof {
        assert(dir@.skip(0) =~= dir@);
    }
    while i < dir.len()
        invariant
            i <= dir@.len(),
            log0 == old(log)@,
            log0.is_prefix_of(log@),
            spec_fsck(dir@, high_mark) == (success && spec_fsck(dir@.skip(i as int), high_mark)),
        decreases dir@.len() - i,
    {
        let ghost win = dir@.skip(i as int);
        let desc = &dir[i];
        proof {
            assert(win[0] == dir@[i as int]);
        }

        let mut this_ok = true;
        if desc.name.buffer[crate::records::NAME_BUF_LEN - 1] >= crate::records::NAME_BUF_LEN
            as u8 {
            fsck_log(log, prefix, desc, "invalid name length");
            this_ok = false;
        }
        let name_text = try_utf8(desc.name());
        if name_text.is_none() {
            fsck_log(log, prefix, desc, "invalid name");
            this_ok = false;
        }
        proof {
            assert(this_ok == fsck_name_ok(dir@[i as int]));
        }

        if desc.is_file() {
            if desc.section.offset < crate::records::HEADER_BLOCKS as u32 {
                fsck_log(log, prefix, desc, "invalid file section: overlaps the header");
                this_ok = false;
            }
            if desc.section.size > high_mark {
                fsck_log(log, prefix, desc, "invalid file section: size too large");
                this_ok = false;
            } else if desc.section.offset > high_mark - desc.section.size {
                fsck_log(log, prefix, desc, "invalid file section: overlaps the directory");
                this_ok = false;
            }
            if crate::records::bytes2blocks(desc.content_size) > desc.section.size {
                fsck_log(log, prefix, desc, "invalid content size: larger than its section");
                this_ok = false;
            }
            proof {
                assert(this_ok == (fsck_name_ok(dir@[i as int]) && fsck_file_ok(
                    dir@[i as int],
                    high_mark,
                )));
                assert(win.skip(1) =~= dir@.skip(i as int + 1));
            }
            success = success && this_ok;
            i += 1;
        } else {
            let max_len = dir.len() - (i + 1);
            if desc.content_size as usize > max_len {
                fsck_log(log, prefix, desc, "invalid directory: too many children");
                proof {
                    assert(!spec_fsck(win, high_mark));
                }
                success = false;
                return success;
            }
            let cs = desc.content_size as usize;
            let children = vstd::slice::slice_subrange(dir, i + 1, i + 1 + cs);
            let mut child_prefix = String::new();
            child_prefix.append(prefix.as_str());
            child_prefix.append("/");
            let name = lossy_utf8(desc.name());
            child_prefix.append(name.as_str());
            let child_ok = fsck_rec(children, high_mark, &child_prefix, log);
            proof {
                assert(children@ =~= win.subrange(1, 1 + cs as int));
                assert(win.skip(1 + cs as int) =~= dir@.skip(i as int + 1 + cs as int));
            }
            success = success && this_ok && child_ok;
            i += 1 + cs;
        }
    }
    proof {
        assert(dir@.skip(dir@.len() as int) =~= Seq::<Descriptor>::empty());
    }
    success
}

/// Checks the whole directory for structural consistency against the
/// given high mark. Errors are described in the log; the verdict is
/// returned.
pub fn fsck(dir: &[Descriptor], high_mark: u32, log: &mut String) -> (r: bool)
    ensures
        r == spec_fsck(dir@, high_mark),
        old(log)@.is_prefix_of(final(log)@),
{
    let prefix = String::new();
    fsck_rec(dir, high_mark, &prefix, log)
}

} // verus!

verus! {

// ---------------------------------------------------------------
// Tree rendering.
// ---------------------------------------------------------------

/// Art used to render the directory listing.
#[derive(Clone, Copy, Debug)]
pub struct Art<'a> {
    pub margin_open: &'a str,
    pub margin_closed: &'a str,
    pub dir_entry: &'a str,
    pub dir_last: &'a str,
    pub file_entry: &'a str,
    pub file_last: &'a str,
}

/// The plain-ASCII art values.
pub open spec fn spec_art_ascii() -> Art<'static> {
    Art {
        margin_open: "   ",
        margin_closed: "|  ",
        dir_entry: "+- ",
        dir_last: "`- ",
        file_entry: "|  ",
        file_last: "`  ",
    }
}

/// The box-drawing art values.
pub open spec fn spec_art_unicode() -> Art<'static> {
    Art {
        margin_open: "   ",
        margin_closed: "\u{2502}  ",
        dir_entry: "\u{251c}\u{2500} ",
        dir_last: "\u{2514}\u{2500} ",
        file_entry: "\u{2502}  ",
        file_last: "\u{2514}  ",
    }
}

/// Plain-ASCII rendering art.
pub fn art_ascii() -> (r: Art<'static>)
    ensures
        r == spec_art_ascii(),
{
    Art {
        margin_open: "   ",
        margin_closed: "|  ",
        dir_entry: "+- ",
        dir_last: "`- ",
        file_entry: "|  ",
        file_last: "`  ",
    }
}

/// Box-drawing rendering art.
pub fn art_unicode() -> (r: Art<'static>)
    ensures
        r == spec_art_unicode(),
{
    Art {
        margin_open: "   ",
        margin_closed: "\u{2502}  ",
        dir_entry: "\u{251c}\u{2500} ",
        dir_last: "\u{2514}\u{2500} ",
        file_entry: "\u{2502}  ",
        file_last: "\u{2514}  ",
    }
}

/// The margin glyphs of one line: one open or closed column per depth
/// level, selected by the margin bits.
pub open spec fn margin_chars(margin: u32, depth: int, i: int, art: Art<'static>) -> Seq<char>
    decreases depth - i,
{
    if i < 0 || i >= depth {
        Seq::<char>::empty()
    } else {
        (if margin & (1u32 << (i as u32)) != 0 {
            art.margin_open@
        } else {
            art.margin_closed@
        }) + margin_chars(margin, depth, i + 1, art)
    }
}

/// The displayed name of a descriptor: its UTF-8 decoding, or a fixed
/// placeholder when the bytes are not valid UTF-8.
pub open spec fn name_chars(d: Descriptor) -> Seq<char> {
    if vstd::utf8::valid_utf8(d.spec_name()) {
        vstd::utf8::decode_utf8(d.spec_name())
    } else {
        "err"@
    }
}

/// The line prefix of one entry.
pub open spec fn entry_prefix(is_last: bool, is_dir: bool, art: Art<'static>) -> Seq<char> {
    if is_last {
        if is_dir {
            art.dir_last@
        } else {
            art.file_last@
        }
    } else {
        if is_dir {
            art.dir_entry@
        } else {
            art.file_entry@
        }
    }
}

/// The rendering of a window of descriptors at a nesting depth; nothing
/// is rendered below 31 levels.
pub open spec fn spec_tree(dir: Seq<Descriptor>, margin: u32, depth: u32, art: Art<'static>) -> Seq<
    char,
>
    decreases dir.len(), 1int,
{
    if depth >= 31 {
        Seq::<char>::empty()
    } else {
        spec_tree_items(dir, margin, depth, art, 0, false)
    }
}

/// The non-recursive text of one entry: optional spacer line, margin,
/// prefix and name, with the line ending that its kind calls for.
pub open spec fn entry_head_chars(
    dir: Seq<Descriptor>,
    margin: u32,
    depth: u32,
    art: Art<'static>,
    i: int,
    was_dir: bool,
) -> Seq<char> {
    let d = dir[i];
    let next = spec_next_sibling(d, i, dir.len() as int);
    let spacer = if i != 0 && (d.spec_is_dir() || was_dir) {
        margin_chars(margin, depth + 1, 0, art) + "\n"@
    } else {
        Seq::<char>::empty()
    };
    let head = margin_chars(margin, depth as int, 0, art);
    let is_last = next == dir.len();
    let pfx = entry_prefix(is_last, d.spec_is_dir(), art);
    let nm = name_chars(d);
    let ending = if d.spec_is_dir() {
        "/\n"@
    } else {
        "\n"@
    };
    spacer + head + pfx + nm + ending
}

/// The rendering of the entries of a window from position `i` on: each
/// entry's own line, then for directories the recursive rendering of the
/// children, then the following siblings.
pub open spec fn spec_tree_items(
    dir: Seq<Descriptor>,
    margin: u32,
    depth: u32,
    art: Art<'static>,
    i: int,
    was_dir: bool,
) -> Seq<char>
    recommends
        depth < 31,
    decreases dir.len() - i, 0int,
{
    if i < 0 || i >= dir.len() {
        Seq::<char>::empty()
    } else {
        let d = dir[i];
        let next = spec_next_sibling(d, i, dir.len() as int);
        let child = if d.spec_is_dir() {
            spec_tree(
                dir.subrange(i + 1, next),
                margin | ((if next == dir.len() {
                    1u32
                } else {
                    0u32
                }) << depth),
                (depth + 1) as u32,
                art,
            )
        } else {
            Seq::<char>::empty()
        };
        entry_head_chars(dir, margin, depth, art, i, was_dir) + child + spec_tree_items(
            dir,
            margin,
            depth,
            art,
            next,
            d.spec_is_dir(),
        )
    }
}

/// Appends the margin glyphs of one line.
fn push_margin(out: &mut String, margin: u32, depth: u32, art: &Art<'static>)
    requires
        depth <= 31,
    ensures
        final(out)@ == old(out)@ + margin_chars(margin, depth as int, 0, *art),
{
    let ghost start = out@;
    let mut i: u32 = 0;
    while i < depth
        invariant
            i <= depth,
            depth <= 31,
            out@ + margin_chars(margin, depth as int, i as int, *art) == start + margin_chars(
                margin,
                depth as int,
                0,
                *art,
            ),
        decreases depth - i,
    {
        if margin & (1u32 << i) != 0 {
            out.append(art.margin_open);
        } else {
            out.append(art.margin_closed);
        }
        i += 1;
    }
    proof {
        assert(out@ + margin_chars(margin, depth as int, depth as int, *art) =~= out@);
    }
}

/// Appends the non-recursive text of the entry at `i`.
#[verifier::rlimit(100)]
fn render_entry_head(
    dir: &[Descriptor],
    i: usize,
    margin: u32,
    depth: u32,
    was_dir: bool,
    art: &Art<'static>,
    out: &mut String,
) -> (next_i: usize)
    requires
        i < dir@.len(),
        depth < 31,
    ensures
        final(out)@ == old(out)@ + entry_head_chars(dir@, margin, depth, *art, i as int, was_dir),
        next_i as int == spec_next_sibling(dir@[i as int], i as int, dir@.len() as int),
        i < next_i <= dir@.len(),
{
    let ghost out0 = out@;
    let desc = &dir[i];
    if i != 0 && (desc.is_dir() || was_dir) {
        push_margin(out, margin, depth + 1, art);
        out.append("\n");
    }
    push_margin(out, margin, depth, art);

    let next_i = next_sibling(desc, i, dir.len());
    let is_last = dir.len() == next_i;
    let prefix = if is_last {
        if desc.is_dir() {
            art.dir_last
        } else {
            art.file_last
        }
    } else {
        if desc.is_dir() {
            art.dir_entry
        } else {
            art.file_entry
        }
    };
    out.append(prefix);

    match try_utf8(desc.name()) {
        Some(name) => {
            proof {
                vstd::utf8::encode_utf8_decode_utf8(name@);
            }
            out.append(name);
        },
        None => {
            out.append("err");
        },
    }

    if desc.is_dir() {
        out.append("/\n");
    } else {
        out.append("\n");
    }
    proof {
        assert(out@ =~= out0 + entry_head_chars(dir@, margin, depth, *art, i as int, was_dir));
    }
    next_i
}

/// Appends the rendering of a window of descriptors.
fn tree_rec(dir: &[Descriptor], margin: u32, depth: u32, art: &Art<'static>, out: &mut String)
    ensures
        final(out)@ == old(out)@ + spec_tree(dir@, margin, depth, *art),
    decreases dir@.len(),
{
    let ghost start = out@;
    if depth >= 31 {
        proof {
            assert(start + spec_tree(dir@, margin, depth, *art) =~= start);
        }
        return;
    }
    let mut was_dir = false;
    let mut i: usize = 0;
    while i < dir.len()
        invariant
            i <= dir@.len(),
            depth < 31,
            start == old(out)@,
            out@ + spec_tree_items(dir@, margin, depth, *art, i as int, was_dir) == start
                + spec_tree(dir@, margin, depth, *art),
        decreases dir@.len() - i,
    {
        let ghost items_here = spec_tree_items(dir@, margin, depth, *art, i as int, was_dir);
        let ghost out0 = out@;
        let ghost d = dir@[i as int];

        let is_dir_entry = dir[i].is_dir();
        let next_i = render_entry_head(dir, i, margin, depth, was_dir, art, out);
        let is_last = dir.len() == next_i;

        if is_dir_entry {
            let new_margin = margin | ((if is_last {
                1u32
            } else {
                0u32
            }) << depth);
            let children = vstd::slice::slice_subrange(dir, i + 1, next_i);
            proof {
                assert(children@ =~= dir@.subrange(i as int + 1, next_i as int));
            }
            tree_rec(children, new_margin, depth + 1, art, out);
        }
        proof {
            let headc = entry_head_chars(dir@, margin, depth, *art, i as int, was_dir);
            let childc = if d.spec_is_dir() {
                spec_tree(
                    dir@.subrange(i as int + 1, next_i as int),
                    margin | ((if is_last {
                        1u32
                    } else {
                        0u32
                    }) << depth),
                    (depth + 1) as u32,
                    *art,
                )
            } else {
                Seq::<char>::empty()
            };
            let rest = spec_tree_items(dir@, margin, depth, *art, next_i as int, d.spec_is_dir());
            assert(items_here == headc + childc + rest);
            assert(out@ =~= out0 + headc + childc);
            assert(out@ + rest =~= out0 + items_here);
        }
        was_dir = is_dir_entry;
        i = next_i;
    }
    proof {
        assert(out@ + spec_tree_items(dir@, margin, depth, *art, dir@.len() as int, was_dir)
            =~= out@);
    }
}

/// Whether the root label already ends in a slash.
pub open spec fn ends_slash(root: &str) -> bool {
    root.spec_bytes().len() > 0 && root.spec_bytes()[root.spec_bytes().len() - 1] == 47
}

/// The full listing: the root label, a slash unless it already ends in
/// one, and the rendered tree.
pub open spec fn spec_display(root: &str, dir: Seq<Descriptor>, art: Art<'static>) -> Seq<char> {
    root@ + (if ends_slash(root) {
        "\n"@
    } else {
        "/\n"@
    }) + spec_tree(dir, 0, 0, art)
}

/// Formats the directory structure as a listing, one line per entry.
pub fn to_string(root: &str, dir: &[Descriptor], art: &Art<'static>) -> (r: String)
    ensures
        r@ == spec_display(root, dir@, *art),
{
    let mut out = String::new();
    out.append(root);
    let rb = root.as_bytes();
    if rb.len() > 0 && rb[rb.len() - 1] == 47 {
        out.append("\n");
    } else {
        out.append("/\n");
    }
    tree_rec(dir, 0, 0, art, &mut out);
    out
}

/// A directory listing bundled with its root label and art, ready to
/// render.
pub struct Fmt<'a> {
    pub root: &'a str,
    pub dir: &'a [Descriptor],
    pub art: &'a Art<'static>,
}

impl<'a> Fmt<'a> {
    /// Bundles a root label, a directory window and rendering art.
    pub fn new(root: &'a str, dir: &'a [Descriptor], art: &'a Art<'static>) -> (r: Fmt<'a>)
        ensures
            r.root == root,
            r.dir == dir,
            r.art == art,
    {
        Fmt { root, dir, art }
    }

    /// Renders the listing.
    pub fn render(&self) -> (r: String)
        ensures
            r@ == spec_display(self.root, self.dir@, *self.art),
    {
        to_string(self.root, self.dir, self.art)
    }
}

} // verus!

verus! {

// ---------------------------------------------------------------
// Separator interchangeability.
// ---------------------------------------------------------------

/// Two paths that agree everywhere except that either may use `/` where
/// the other uses `\`.
pub open spec fn sep_equiv(a: Seq<u8>, b: Seq<u8>) -> bool {
    &&& a.len() == b.len()
    &&& forall|i: int| 0 <= i < a.len() ==> (a[i] == b[i] || (is_sep(a[i]) && is_sep(#[trigger] b[i])))
}

/// No descriptor name in the directory contains a path separator.
pub open spec fn no_sep_names(dir: Seq<Descriptor>) -> bool {
    forall|k: int, j: int|
        0 <= k < dir.len() && 0 <= j < dir[k].spec_name().len() ==> !is_sep(
            #[trigger] dir[k].spec_name()[j],
        )
}

/// Matching a separator-free name treats equivalent paths alike, and the
/// remaining tails are again equivalent.
proof fn lemma_match_name_sep_equiv(name: Seq<u8>, a: Seq<u8>, b: Seq<u8>)
    requires
        sep_equiv(a, b),
        forall|j: int| 0 <= j < name.len() ==> !is_sep(#[trigger] name[j]),
    ensures
        match_name(name, a) is Some == match_name(name, b) is Some,
        match_name(name, a) is Some ==> sep_equiv(
            match_name(name, a).unwrap(),
            match_name(name, b).unwrap(),
        ),
{
    let l = name.len() as int;
    if a.len() == name.len() && a == name {
        assert forall|i: int| 0 <= i < b.len() implies b[i] == name[i] by {
            assert(!is_sep(a[i]));
        }
        assert(b =~= name);
    }
    if b.len() == name.len() && b == name {
        assert forall|i: int| 0 <= i < a.len() implies a[i] == name[i] by {
            assert(!is_sep(b[i]));
        }
        assert(a =~= name);
    }
    if a.len() > name.len() && a.subrange(0, l) == name {
        assert forall|i: int| 0 <= i < l implies b[i] == name[i] by {
            assert(a.subrange(0, l)[i] == a[i]);
            assert(!is_sep(a[i]));
        }
        assert(b.subrange(0, l) =~= name);
        assert(is_sep(a[l]) ==> is_sep(b[l]));
    }
    if b.len() > name.len() && b.subrange(0, l) == name {
        assert forall|i: int| 0 <= i < l implies a[i] == name[i] by {
            assert(b.subrange(0, l)[i] == b[i]);
            assert(!is_sep(b[i]));
        }
        assert(a.subrange(0, l) =~= name);
        assert(is_sep(b[l]) ==> is_sep(a[l]));
    }
    if match_name(name, a) is Some && match_name(name, b) is Some {
        let ta = match_name(name, a).unwrap();
        let tb = match_name(name, b).unwrap();
        if a.len() == name.len() {
            assert(ta =~= Seq::<u8>::empty() && tb =~= Seq::<u8>::empty());
        } else {
            assert(ta =~= a.skip(l + 1) && tb =~= b.skip(l + 1));
            assert forall|i: int| 0 <= i < ta.len() implies (ta[i] == tb[i] || (is_sep(ta[i])
                && is_sep(#[trigger] tb[i]))) by {
                assert(ta[i] == a[l + 1 + i] && tb[i] == b[l + 1 + i]);
            }
        }
    }
}

/// Lookup treats `/` and `\` as interchangeable separators at every
/// level, as long as the descriptor names themselves contain neither.
pub proof fn lemma_find_in_sep_equiv(dir: Seq<Descriptor>, a: Seq<u8>, b: Seq<u8>, i: int, end: int)
    requires
        sep_equiv(a, b),
        no_sep_names(dir),
        0 <= i,
        end <= dir.len(),
    ensures
        spec_find_in(dir, a, i, end) == spec_find_in(dir, b, i, end),
    decreases end - i,
{
    if 0 <= i < end {
        let d = dir[i];
        let next = spec_next_sibling(d, i, end);
        lemma_match_name_sep_equiv(d.spec_name(), a, b);
        match match_name(d.spec_name(), a) {
            Some(ta) => {
                let tb = match_name(d.spec_name(), b).unwrap();
                assert(ta.len() == tb.len());
                if ta.len() == 0 {
                } else if d.spec_is_dir() {
                    lemma_find_in_sep_equiv(dir, ta, tb, i + 1, next);
                } else {
                    lemma_find_in_sep_equiv(dir, a, b, next, end);
                }
            },
            None => {
                lemma_find_in_sep_equiv(dir, a, b, next, end);
            },
        }
    }
}

/// The separators `/` and `\` are interchangeable in lookup paths: two
/// paths that differ only in their choice of separators find the same
/// descriptor, in any directory whose names hold no separator.
pub proof fn lemma_find_sep_equiv(dir: Seq<Descriptor>, a: Seq<u8>, b: Seq<u8>)
    requires
        sep_equiv(a, b),
        no_sep_names(dir),
    ensures
        spec_find(dir, a) == spec_find(dir, b),
{
    if a.len() != 0 {
        lemma_find_in_sep_equiv(dir, a, b, 0, dir.len() as int);
    }
}

} // verus!

verus! {

// ---------------------------------------------------------------
// The subtree-count invariant.
// ---------------------------------------------------------------

/// The subtree-count invariant of a window of siblings: every directory
/// descriptor owns exactly the next `content_size` descriptors, whose own
/// subtrees nest inside that window, and nothing runs past the end.
pub open spec fn wf_seq(s: Seq<Descriptor>) -> bool
    decreases s.len(),
{
    if s.len() == 0 {
        true
    } else {
        let d = s[0];
        let k = if d.spec_is_dir() {
            d.content_size as int
        } else {
            0
        };
        &&& 1 + k <= s.len()
        &&& wf_seq(s.subrange(1, 1 + k))
        &&& wf_seq(s.skip(1 + k))
    }
}

/// A freshly created chain of nested directories satisfies the
/// subtree-count invariant: the `k`-th element owns exactly the
/// `n - 1 - k` elements after it.
pub proof fn lemma_chain_wf(s: Seq<Descriptor>, tail: Seq<u8>, n: int)
    requires
        chain_ok(s, tail, n),
    ensures
        wf_seq(s),
    decreases n,
{
    if n > 0 {
        let d = s[0];
        assert(is_chain_desc(d, component(tail, 0), n - 1));
        assert(s.subrange(1, n) =~= s.skip(1));
        assert forall|k: int| 0 <= k < n - 1 implies is_chain_desc(
            #[trigger] s.subrange(1, n)[k],
            component(comp_rest(tail), k),
            n - 2 - k,
        ) by {
            assert(s.subrange(1, n)[k] == s[k + 1]);
            assert(is_chain_desc(s[k + 1], component(tail, k + 1), n - 1 - (k + 1)));
            assert(component(tail, k + 1) == component(comp_rest(tail), k));
        }
        assert(chain_ok(s.subrange(1, n), comp_rest(tail), n - 1));
        lemma_chain_wf(s.subrange(1, n), comp_rest(tail), n - 1);
        assert(s.skip(1 + (n - 1)) =~= Seq::<Descriptor>::empty());
        assert(wf_seq(Seq::<Descriptor>::empty()));
    }
}

/// Checks the subtree-count invariant of a window of siblings.
pub fn wf_check(s: &[Descriptor]) -> (r: bool)
    ensures
        r == wf_seq(s@),
    decreases s@.len(),
{
    if s.len() == 0 {
        return true;
    }
    let d = &s[0];
    let k: usize = if d.is_dir() {
        d.content_size as usize
    } else {
        0
    };
    if k > s.len() - 1 {
        return false;
    }
    let children = vstd::slice::slice_subrange(s, 1, 1 + k);
    let rest = vstd::slice::slice_subrange(s, 1 + k, s.len());
    proof {
        assert(children@ =~= s@.subrange(1, 1 + k as int));
        assert(rest@ =~= s@.skip(1 + k as int));
    }
    let a = wf_check(children);
    let b = wf_check(rest);
    a && b
}

} // verus!

verus! {

/// The subtree-count invariant over a window `[i, end)` of the flat
/// sequence: each directory owns exactly the next `content_size`
/// descriptors and no subtree runs past the window.
pub open spec fn wf_win(dir: Seq<Descriptor>, i: int, end: int) -> bool
    recommends
        0 <= i,
        end <= dir.len(),
    decreases end - i,
{
    if i >= end {
        true
    } else {
        let d = dir[i];
        let k = if d.spec_is_dir() {
            d.content_size as int
        } else {
            0
        };
        &&& i + 1 + k <= end
        &&& wf_win(dir, i + 1, i + 1 + k)
        &&& wf_win(dir, i + 1 + k, end)
    }
}

/// The whole directory's subtree-count invariant.
pub open spec fn dir_wf(dir: Seq<Descriptor>) -> bool {
    wf_win(dir, 0, dir.len() as int)
}

/// Whether a window is well formed depends only on the window.
pub proof fn lemma_wf_win_frame(a: Seq<Descriptor>, b: Seq<Descriptor>, i: int, end: int)
    requires
        0 <= i <= end,
        end <= a.len(),
        end <= b.len(),
        a.subrange(i, end) == b.subrange(i, end),
    ensures
        wf_win(a, i, end) == wf_win(b, i, end),
    decreases end - i,
{
    if i < end {
        assert(a.subrange(i, end)[0] == a[i]);
        assert(b.subrange(i, end)[0] == b[i]);
        let d = a[i];
        let k = if d.spec_is_dir() {
            d.content_size as int
        } else {
            0
        };
        if i + 1 + k <= end {
            assert(a.subrange(i + 1, end) =~= b.subrange(i + 1, end)) by {
                assert forall|m: int| 0 <= m < end - (i + 1) implies #[trigger] a.subrange(
                    i + 1,
                    end,
                )[m] == b.subrange(i + 1, end)[m] by {
                    assert(a.subrange(i + 1, end)[m] == a.subrange(i, end)[m + 1]);
                    assert(b.subrange(i + 1, end)[m] == b.subrange(i, end)[m + 1]);
                }
            }
            assert(a.subrange(i + 1, i + 1 + k) =~= b.subrange(i + 1, i + 1 + k)) by {
                assert forall|m: int| 0 <= m < k implies #[trigger] a.subrange(
                    i + 1,
                    i + 1 + k,
                )[m] == b.subrange(i + 1, i + 1 + k)[m] by {
                    assert(a.subrange(i + 1, i + 1 + k)[m] == a.subrange(i, end)[m + 1]);
                    assert(b.subrange(i + 1, i + 1 + k)[m] == b.subrange(i, end)[m + 1]);
                }
            }
            assert(a.subrange(i + 1 + k, end) =~= b.subrange(i + 1 + k, end)) by {
                assert forall|m: int| 0 <= m < end - (i + 1 + k) implies #[trigger] a.subrange(
                    i + 1 + k,
                    end,
                )[m] == b.subrange(i + 1 + k, end)[m] by {
                    assert(a.subrange(i + 1 + k, end)[m] == a.subrange(i, end)[m + 1 + k]);
                    assert(b.subrange(i + 1 + k, end)[m] == b.subrange(i, end)[m + 1 + k]);
                }
            }
            lemma_wf_win_frame(a, b, i + 1, i + 1 + k);
            lemma_wf_win_frame(a, b, i + 1 + k, end);
        }
    }
}

/// Two adjacent well-formed windows make one well-formed window.
pub proof fn lemma_wf_win_concat(dir: Seq<Descriptor>, a: int, b: int, c: int)
    requires
        a <= b <= c <= dir.len(),
        0 <= a,
        wf_win(dir, a, b),
        wf_win(dir, b, c),
    ensures
        wf_win(dir, a, c),
    decreases b - a,
{
    if a < b {
        let d = dir[a];
        let k = if d.spec_is_dir() {
            d.content_size as int
        } else {
            0
        };
        lemma_wf_win_concat(dir, a + 1 + k, b, c);
    }
}

/// Removing an element before a window shifts the window's contents down
/// by one without changing its well-formedness.
pub proof fn lemma_wf_win_remove_shift(dir: Seq<Descriptor>, p: int, i: int, end: int)
    requires
        0 <= p <= i,
        p < dir.len(),
        end <= dir.len(),
    ensures
        wf_win(dir.remove(p), i, end - 1) == wf_win(dir, i + 1, end),
    decreases end - i,
{
    if i + 1 < end {
        let d = dir[i + 1];
        assert(dir.remove(p)[i] == dir[i + 1]);
        let k = if d.spec_is_dir() {
            d.content_size as int
        } else {
            0
        };
        if i + 1 + 1 + k <= end {
            lemma_wf_win_remove_shift(dir, p, i + 1, i + 1 + k + 1);
            lemma_wf_win_remove_shift(dir, p, i + 1 + k, end);
        }
    }
}

/// Removing an exactly found path keeps the directory well formed inside
/// the searched window: every ancestor on the way down loses one from
/// its count, the found descriptor leaves, and its children stay behind
/// in its parent.
proof fn lemma_remove_wf_win(dir: Seq<Descriptor>, path: Seq<u8>, i: int, end: int)
    requires
        0 <= i <= end <= dir.len(),
        wf_win(dir, i, end),
        spec_walk(dir, path, i, end, 0xFFFF_FFFFu32).3,
    ensures
        ({
            let w = spec_walk(dir, path, i, end, 0xFFFF_FFFFu32);
            &&& wf_win(w.0.remove(w.1), i, end - 1)
            &&& w.0.len() == dir.len()
            &&& i <= w.1 < end
            &&& forall|j: int| 0 <= j < dir.len() && !(i <= j < end) ==> w.0[j] == dir[j]
        }),
    decreases end - i,
{
    lemma_walk_frame(dir, path, i, end, 0xFFFF_FFFFu32);
    let w = spec_walk(dir, path, i, end, 0xFFFF_FFFFu32);
    let d = dir[i];
    let next = spec_next_sibling(d, i, end);
    let k = if d.spec_is_dir() {
        d.content_size as int
    } else {
        0
    };
    assert(i + 1 + k <= end);
    assert(next == i + 1 + k);
    match match_name(d.spec_name(), path) {
        Some(tail) => {
            if tail.len() == 0 {
                // Exact match at `i`: drop it; its children join the
                // enclosing window.
                assert(w == (dir, i, tail, true));
                lemma_wf_win_concat(dir, i + 1, i + 1 + k, end);
                lemma_wf_win_remove_shift(dir, i, i, end);
                assert(wf_win(dir.remove(i), i, end - 1));
            } else if d.spec_is_dir() {
                // Descend: the matched directory loses one child.
                let dir2 = dir.update(i, bump(d, 0xFFFF_FFFFu32));
                assert(w == spec_walk(dir2, tail, i + 1, next, 0xFFFF_FFFFu32));
                assert(dir.subrange(i + 1, next) =~= dir2.subrange(i + 1, next)) by {
                    assert forall|m: int| 0 <= m < next - (i + 1) implies #[trigger] dir.subrange(
                        i + 1,
                        next,
                    )[m] == dir2.subrange(i + 1, next)[m] by {
                        assert(dir.subrange(i + 1, next)[m] == dir[i + 1 + m]);
                        assert(dir2.subrange(i + 1, next)[m] == dir2[i + 1 + m]);
                    }
                }
                lemma_wf_win_frame(dir, dir2, i + 1, next);
                lemma_remove_wf_win(dir2, tail, i + 1, next);
                let wi = spec_walk(dir2, tail, i + 1, next, 0xFFFF_FFFFu32);
                let idx = wi.1;
                let res = wi.0.remove(idx);
                // The found index lies inside the subtree, so the count
                // was at least one and the decrement does not wrap.
                assert(i + 1 <= idx < next);
                assert(k >= 1);
                assert(bump(d, 0xFFFF_FFFFu32).content_size as int == k - 1);
                // The element at `i` survives with count `k - 1`.
                assert(wi.0[i] == dir2[i]);
                assert(res[i] == wi.0[i]);
                // Children window of the result.
                assert(wf_win(res, i + 1, next - 1));
                // Remaining siblings shift down by one and stay well
                // formed.
                lemma_wf_win_remove_shift(wi.0, idx, next - 1, end);
                assert(wf_win(wi.0, next, end) == wf_win(dir, next, end)) by {
                    assert(wi.0.subrange(next, end) =~= dir.subrange(next, end)) by {
                        assert forall|m: int| 0 <= m < end - next implies #[trigger] wi.0.subrange(
                            next,
                            end,
                        )[m] == dir.subrange(next, end)[m] by {
                            assert(wi.0.subrange(next, end)[m] == wi.0[next + m]);
                            assert(dir.subrange(next, end)[m] == dir[next + m]);
                            assert(wi.0[next + m] == dir2[next + m]);
                            assert(dir2[next + m] == dir[next + m]);
                        }
                    }
                    lemma_wf_win_frame(wi.0, dir, next, end);
                }
                assert(wf_win(res, next - 1, end - 1));
                // Assemble the window at `i`.
                assert(wf_win(res, i, end - 1));
            } else {
                assert(false);
            }
        },
        None => {
            // No match here: skip this whole subtree.
            assert(w == spec_walk(dir, path, next, end, 0xFFFF_FFFFu32));
            lemma_remove_wf_win(dir, path, next, end);
            let wi = spec_walk(dir, path, next, end, 0xFFFF_FFFFu32);
            let idx = wi.1;
            let res = wi.0.remove(idx);
            assert(next <= idx < end);
            // The skipped subtree is untouched and unshifted.
            assert(wf_win(res, i, next)) by {
                assert(res.subrange(i, next) =~= dir.subrange(i, next)) by {
                    assert forall|m: int| 0 <= m < next - i implies #[trigger] res.subrange(
                        i,
                        next,
                    )[m] == dir.subrange(i, next)[m] by {
                        assert(res.subrange(i, next)[m] == res[i + m]);
                        assert(dir.subrange(i, next)[m] == dir[i + m]);
                        assert(res[i + m] == wi.0[i + m]);
                        assert(wi.0[i + m] == dir[i + m]);
                    }
                }
                lemma_wf_win_frame(res, dir, i, next);
                assert(wf_win(dir, i, next)) by {
                    assert(wf_win(dir, next, next));
                    lemma_wf_win_concat(dir, i + 1 + k, next, next);
                }
            }
            lemma_wf_win_concat(res, i, next, end - 1);
        },
    }
}

/// Removal preserves the subtree-count invariant: in a well-formed
/// directory, removing any path leaves a well-formed directory, whether
/// or not the path was found.
pub proof fn lemma_remove_preserves_wf(dir: Seq<Descriptor>, path: Seq<u8>)
    requires
        dir_wf(dir),
    ensures
        ({
            let w0 = spec_walk(dir, path, 0, dir.len() as int, 0);
            let w1 = spec_walk(dir, path, 0, dir.len() as int, 0xFFFF_FFFFu32);
            w0.3 ==> dir_wf(w1.0.remove(w0.1))
        }),
{
    let w0 = spec_walk(dir, path, 0, dir.len() as int, 0);
    if w0.3 {
        lemma_walk_agree(dir, dir, path, 0, dir.len() as int, 0, 0xFFFF_FFFFu32);
        lemma_remove_wf_win(dir, path, 0, dir.len() as int);
    }
}

} // verus!

verus! {



} // verus!

verus! {

/// Window well-formedness is the sequence well-formedness of the window's
/// contents.
pub proof fn lemma_wf_win_is_wf_seq(s: Seq<Descriptor>, i: int, end: int)
    requires
        0 <= i <= end,
        end <= s.len(),
    ensures
        wf_win(s, i, end) == wf_seq(s.subrange(i, end)),
    decreases end - i,
{
    if i < end {
        let sub = s.subrange(i, end);
        assert(sub[0] == s[i]);
        let d = s[i];
        let k = if d.spec_is_dir() {
            d.content_size as int
        } else {
            0
        };
        if i + 1 + k <= end {
            lemma_wf_win_is_wf_seq(s, i + 1, i + 1 + k);
            lemma_wf_win_is_wf_seq(s, i + 1 + k, end);
            assert(sub.subrange(1, 1 + k) =~= s.subrange(i + 1, i + 1 + k)) by {
                assert forall|m: int| 0 <= m < k implies #[trigger] sub.subrange(1, 1 + k)[m]
                    == s.subrange(i + 1, i + 1 + k)[m] by {
                    assert(sub.subrange(1, 1 + k)[m] == sub[1 + m]);
                    assert(s.subrange(i + 1, i + 1 + k)[m] == s[i + 1 + m]);
                }
            }
            assert(sub.skip(1 + k) =~= s.subrange(i + 1 + k, end)) by {
                assert forall|m: int| 0 <= m < end - (i + 1 + k) implies #[trigger] sub.skip(
                    1 + k,
                )[m] == s.subrange(i + 1 + k, end)[m] by {
                    assert(sub.skip(1 + k)[m] == sub[1 + k + m]);
                    assert(s.subrange(i + 1 + k, end)[m] == s[i + 1 + k + m]);
                }
            }
            assert(wf_seq(sub.subrange(1, 1 + k)) == wf_seq(s.subrange(i + 1, i + 1 + k)));
            assert(wf_seq(sub.skip(1 + k)) == wf_seq(s.subrange(i + 1 + k, end)));
        }
    } else {
        assert(s.subrange(i, end) =~= Seq::<Descriptor>::empty());
    }
}

/// Splicing a freshly created chain at the point where a create walk
/// stopped keeps the window well formed: every matched ancestor's count
/// grew by exactly the chain's length, and the chain is internally
/// nested.
proof fn lemma_create_wf_win(
    dir: Seq<Descriptor>,
    path: Seq<u8>,
    i: int,
    end: int,
    inc: int,
    c: Seq<Descriptor>,
)
    requires
        0 <= i <= end <= dir.len(),
        wf_win(dir, i, end),
        1 <= inc,
        dir.len() + inc < 0x1_0000_0000,
        !spec_walk(dir, path, i, end, inc as u32).3,
        chain_ok(c, spec_walk(dir, path, i, end, inc as u32).2, inc),
    ensures
        ({
            let w = spec_walk(dir, path, i, end, inc as u32);
            let spl = w.0.subrange(0, w.1) + c + w.0.subrange(w.1, w.0.len() as int);
            &&& spl.len() == dir.len() + inc
            &&& wf_win(spl, i, end + inc)
            &&& (forall|j: int| 0 <= j < i ==> #[trigger] spl[j] == dir[j])
            &&& (forall|j: int| end + inc <= j < spl.len() ==> #[trigger] spl[j] == dir[j - inc])
        }),
    decreases end - i,
{
    lemma_walk_frame(dir, path, i, end, inc as u32);
    let w = spec_walk(dir, path, i, end, inc as u32);
    let spl = w.0.subrange(0, w.1) + c + w.0.subrange(w.1, w.0.len() as int);
    lemma_chain_wf(c, w.2, inc);
    if i >= end {
        // Empty window: the chain is the whole new window.
        assert(w == (dir, i, path, false));
        assert(spl.subrange(i, i + inc) =~= c) by {
            assert forall|m: int| 0 <= m < inc implies #[trigger] spl.subrange(i, i + inc)[m]
                == c[m] by {
                assert(spl.subrange(i, i + inc)[m] == spl[i + m]);
            }
        }
        lemma_wf_win_is_wf_seq(spl, i, i + inc);
        assert(wf_seq(spl.subrange(i, i + inc)) == wf_seq(c));
        assert forall|j: int| 0 <= j < i implies #[trigger] spl[j] == dir[j] by {}
        assert forall|j: int| end + inc <= j < spl.len() implies #[trigger] spl[j] == dir[
            j - inc
        ] by {}
    } else {
        let d = dir[i];
        let next = spec_next_sibling(d, i, end);
        let k = if d.spec_is_dir() {
            d.content_size as int
        } else {
            0
        };
        assert(i + 1 + k <= end);
        assert(next == i + 1 + k);
        match match_name(d.spec_name(), path) {
            Some(tail) => {
                if tail.len() == 0 {
                    assert(false);
                } else if d.spec_is_dir() {
                    // Descend: this directory's count grows by the chain
                    // length, and the chain lands in its subtree.
                    let dir2 = dir.update(i, bump(d, inc as u32));
                    assert(w == spec_walk(dir2, tail, i + 1, next, inc as u32));
                    assert(wf_win(dir2, i + 1, next)) by {
                        assert(dir2.subrange(i + 1, next) =~= dir.subrange(i + 1, next)) by {
                            assert forall|m: int| 0 <= m < next - (i + 1) implies #[trigger]
                            dir2.subrange(i + 1, next)[m] == dir.subrange(i + 1, next)[m] by {
                                assert(dir2.subrange(i + 1, next)[m] == dir2[i + 1 + m]);
                                assert(dir.subrange(i + 1, next)[m] == dir[i + 1 + m]);
                            }
                        }
                        lemma_wf_win_frame(dir2, dir, i + 1, next);
                    }
                    lemma_create_wf_win(dir2, tail, i + 1, next, inc, c);
                    lemma_walk_frame(dir2, tail, i + 1, next, inc as u32);
                    // The splice is the same sequence, whichever call
                    // names it.
                    assert(i + 1 <= w.1 <= next);
                    assert(spl[i] == dir2[i]);
                    assert(bump(d, inc as u32).content_size as int == k + inc);
                    assert(wf_win(spl, i + 1, next + inc));
                    // Siblings after the subtree sit `inc` later,
                    // unchanged.
                    assert(wf_win(spl, next + inc, end + inc)) by {
                        assert(spl.subrange(next + inc, end + inc) =~= dir.subrange(next, end))
                            by {
                            assert forall|m: int| 0 <= m < end - next implies #[trigger]
                            spl.subrange(next + inc, end + inc)[m] == dir.subrange(
                                next,
                                end,
                            )[m] by {
                                assert(spl.subrange(next + inc, end + inc)[m] == spl[next + inc
                                    + m]);
                                assert(dir.subrange(next, end)[m] == dir[next + m]);
                                assert(spl[next + inc + m] == dir2[next + m]);
                                assert(dir2[next + m] == dir[next + m]);
                            }
                        }
                        lemma_wf_win_is_wf_seq(spl, next + inc, end + inc);
                        lemma_wf_win_is_wf_seq(dir, next, end);
                        assert(wf_seq(spl.subrange(next + inc, end + inc)) == wf_seq(
                            dir.subrange(next, end),
                        ));
                    }
                    assert(i + 1 + (k + inc) == next + inc);
                    assert(wf_win(spl, i, end + inc));
                    assert forall|j: int| 0 <= j < i implies #[trigger] spl[j] == dir[j] by {
                        assert(spl[j] == dir2[j]);
                    }
                    assert forall|j: int| end + inc <= j < spl.len() implies #[trigger] spl[j]
                        == dir[j - inc] by {
                        assert(spl[j] == dir2[j - inc]);
                    }
                } else {
                    // A file of the matched name: the chain becomes its
                    // sibling, right before it.
                    assert(w == (dir, i, path, false));
                    assert(spl.subrange(i, i + inc) =~= c) by {
                        assert forall|m: int| 0 <= m < inc implies #[trigger] spl.subrange(
                            i,
                            i + inc,
                        )[m] == c[m] by {
                            assert(spl.subrange(i, i + inc)[m] == spl[i + m]);
                        }
                    }
                    lemma_wf_win_is_wf_seq(spl, i, i + inc);
                    assert(wf_seq(spl.subrange(i, i + inc)) == wf_seq(c));
                    assert(wf_win(spl, i + inc, end + inc)) by {
                        assert(spl.subrange(i + inc, end + inc) =~= dir.subrange(i, end)) by {
                            assert forall|m: int| 0 <= m < end - i implies #[trigger]
                            spl.subrange(i + inc, end + inc)[m] == dir.subrange(i, end)[m] by {
                                assert(spl.subrange(i + inc, end + inc)[m] == spl[i + inc + m]);
                                assert(dir.subrange(i, end)[m] == dir[i + m]);
                            }
                        }
                        lemma_wf_win_is_wf_seq(spl, i + inc, end + inc);
                        lemma_wf_win_is_wf_seq(dir, i, end);
                        assert(wf_seq(spl.subrange(i + inc, end + inc)) == wf_seq(
                            dir.subrange(i, end),
                        ));
                    }
                    lemma_wf_win_concat(spl, i, i + inc, end + inc);
                    assert forall|j: int| 0 <= j < i implies #[trigger] spl[j] == dir[j] by {}
                    assert forall|j: int| end + inc <= j < spl.len() implies #[trigger] spl[j]
                        == dir[j - inc] by {}
                }
            },
            None => {
                // No match: this whole subtree stays put; the chain goes
                // in among the later siblings.
                assert(w == spec_walk(dir, path, next, end, inc as u32));
                assert(wf_win(dir, next, end)) by {
                    lemma_wf_win_concat(dir, i + 1 + k, next, next);
                }
                lemma_create_wf_win(dir, path, next, end, inc, c);
                lemma_walk_frame(dir, path, next, end, inc as u32);
                assert(next <= w.1 <= end);
                assert(wf_win(spl, next, end + inc));
                assert(wf_win(spl, i, next)) by {
                    assert(spl.subrange(i, next) =~= dir.subrange(i, next)) by {
                        assert forall|m: int| 0 <= m < next - i implies #[trigger] spl.subrange(
                            i,
                            next,
                        )[m] == dir.subrange(i, next)[m] by {
                            assert(spl.subrange(i, next)[m] == spl[i + m]);
                            assert(dir.subrange(i, next)[m] == dir[i + m]);
                            assert(spl[i + m] == dir[i + m]);
                        }
                    }
                    lemma_wf_win_is_wf_seq(spl, i, next);
                    lemma_wf_win_is_wf_seq(dir, i, next);
                    assert(wf_seq(spl.subrange(i, next)) == wf_seq(dir.subrange(i, next)));
                    assert(wf_win(dir, i, next)) by {
                        assert(wf_win(dir, next, next));
                        lemma_wf_win_concat(dir, i + 1 + k, next, next);
                    }
                }
                lemma_wf_win_concat(spl, i, next, end + inc);
                assert forall|j: int| 0 <= j < i implies #[trigger] spl[j] == dir[j] by {}
            },
        }
    }
}

/// Creation preserves the subtree-count invariant: splicing the created
/// chain where the walk stopped, after adding the chain's length to
/// every matched ancestor's count, leaves a well-formed directory.
pub proof fn lemma_create_preserves_wf(dir: Seq<Descriptor>, path: Seq<u8>, c: Seq<Descriptor>)
    requires
        dir_wf(dir),
        dir.len() + spec_components(spec_walk(dir, path, 0, dir.len() as int, 0).2)
            < 0x1_0000_0000,
        !spec_walk(dir, path, 0, dir.len() as int, 0).3,
        spec_components(spec_walk(dir, path, 0, dir.len() as int, 0).2) >= 1,
        chain_ok(
            c,
            spec_walk(dir, path, 0, dir.len() as int, 0).2,
            spec_components(spec_walk(dir, path, 0, dir.len() as int, 0).2),
        ),
    ensures
        ({
            let w0 = spec_walk(dir, path, 0, dir.len() as int, 0);
            let inc = spec_components(w0.2);
            let w1 = spec_walk(dir, path, 0, dir.len() as int, inc as u32);
            dir_wf(w1.0.subrange(0, w1.1) + c + w1.0.subrange(w1.1, w1.0.len() as int))
        }),
{
    let w0 = spec_walk(dir, path, 0, dir.len() as int, 0);
    let inc = spec_components(w0.2);
    lemma_walk_agree(dir, dir, path, 0, dir.len() as int, 0, inc as u32);
    lemma_create_wf_win(dir, path, 0, dir.len() as int, inc, c);
    lemma_walk_frame(dir, path, 0, dir.len() as int, inc as u32);
}

} // verus!

verus! {

// ---------------------------------------------------------------
// The create / find round trip.
// ---------------------------------------------------------------

/// A path remainder that creation consumes exactly: `n` components, each
/// short enough for a name buffer, with no trailing separator.
pub open spec fn clean_path(t: Seq<u8>, n: int) -> bool
    decreases n,
{
    if n <= 0 {
        false
    } else if n == 1 {
        0 < t.len() <= 39 && sep_pos_from(t, 0) == t.len()
    } else {
        &&& sep_pos_from(t, 0) < t.len()
        &&& sep_pos_from(t, 0) <= 39
        &&& clean_path(comp_rest(t), n - 1)
    }
}

/// Looking a clean path up inside its freshly created chain finds the
/// chain's last element.
proof fn lemma_chain_find(s: Seq<Descriptor>, c: Seq<Descriptor>, t: Seq<u8>, j: int, n: int)
    requires
        chain_ok(c, t, n),
        clean_path(t, n),
        0 <= j,
        j + n <= s.len(),
        forall|m: int| 0 <= m < n ==> #[trigger] s[j + m] == c[m],
    ensures
        spec_find_in(s, t, j, j + n) == Some(((j + n - 1) as int, (j + n) as int)),
    decreases n,
{
    lemma_sep_pos_bounds(t, 0);
    let pos = sep_pos_from(t, 0);
    let d = s[j];
    assert(s[j + 0] == c[0]);
    assert(d == c[0]);
    assert(is_chain_desc(c[0], component(t, 0), n - 1));
    assert(component(t, 0) == comp_head(t));
    assert(comp_head(t).len() == pos);
    assert(d.name.spec_len() == vstd::math::min(comp_head(t).len() as int, 39));
    if n == 1 {
        // The whole remainder is the name: an exact match.
        assert(d.spec_name() =~= t) by {
            assert(comp_head(t) =~= t);
            assert(d.spec_name() == comp_head(t).subrange(0, t.len() as int));
            assert(comp_head(t).subrange(0, t.len() as int) =~= comp_head(t));
        }
        assert(match_name(d.spec_name(), t) == Some(Seq::<u8>::empty()));
        assert(spec_next_sibling(d, j, j + 1) == j + 1);
    } else {
        // The head component matches and lookup descends into the rest
        // of the chain.
        assert(d.name.spec_len() == pos);
        assert(d.spec_name() =~= comp_head(t)) by {
            assert(d.spec_name() == comp_head(t).subrange(0, pos));
            assert(comp_head(t).subrange(0, pos) =~= comp_head(t));
        }
        assert(t.subrange(0, pos) == d.spec_name()) by {
            assert(t.subrange(0, pos) =~= comp_head(t));
        }
        assert(is_sep(t[pos]));
        assert(t.len() != d.spec_name().len());
        assert(match_name(d.spec_name(), t) == Some(t.skip(pos + 1)));
        assert(t.skip(pos + 1) =~= comp_rest(t));
        assert(t.skip(pos + 1) == comp_rest(t));
        let t1 = comp_rest(t);
        assert(t1.len() > 0) by {
            assert(clean_path(t1, n - 1));
            if n - 1 == 1 {
            } else {
                lemma_sep_pos_bounds(t1, 0);
            }
        }
        assert(d.spec_is_dir() && d.content_size == n - 1);
        assert(spec_next_sibling(d, j, j + n) == j + n);
        let c1 = c.subrange(1, n);
        assert forall|k: int| 0 <= k < n - 1 implies is_chain_desc(
            #[trigger] c1[k],
            component(t1, k),
            n - 2 - k,
        ) by {
            assert(c1[k] == c[k + 1]);
            assert(is_chain_desc(c[k + 1], component(t, k + 1), n - 1 - (k + 1)));
            assert(component(t, k + 1) == component(t1, k));
        }
        assert(chain_ok(c1, t1, n - 1));
        assert forall|m: int| 0 <= m < n - 1 implies #[trigger] s[j + 1 + m] == c1[m] by {
            let mm = 1 + m;
            assert(s[j + mm] == c[mm]);
            assert(j + 1 + m == j + mm);
        }
        lemma_chain_find(s, c1, t1, j + 1, n - 1);
    }
}

/// When the walk finds an exact match, lookup finds the same descriptor.
proof fn lemma_walk_found_find(dir: Seq<Descriptor>, path: Seq<u8>, i: int, end: int)
    requires
        0 <= i <= end <= dir.len(),
        spec_walk(dir, path, i, end, 0).3,
    ensures
        ({
            let w = spec_walk(dir, path, i, end, 0);
            spec_find_in(dir, path, i, end) matches Some(rg) && rg.0 == w.1
        }),
    decreases end - i,
{
    let w = spec_walk(dir, path, i, end, 0);
    let d = dir[i];
    let next = spec_next_sibling(d, i, end);
    match match_name(d.spec_name(), path) {
        Some(tail) => {
            if tail.len() == 0 {
            } else if d.spec_is_dir() {
                let dir2 = dir.update(i, bump(d, 0));
                assert(bump(d, 0) == d);
                assert(dir2 =~= dir);
                assert(dir2 == dir);
                lemma_walk_found_find(dir, tail, i + 1, next);
            } else {
                assert(false);
            }
        },
        None => {
            lemma_walk_found_find(dir, path, next, end);
        },
    }
}

/// Directory round trip: looking up a path right after creating it finds
/// the descriptor that creation produced, at the index creation reported.
///
/// The path's unmatched remainder must be clean: exactly the components
/// the creation consumed, each short enough for a name buffer, with no
/// trailing separator. A component longer than 39 bytes is cut off when
/// stored, so the full path would no longer match it.
proof fn lemma_create_find_win(
    dir: Seq<Descriptor>,
    path: Seq<u8>,
    i: int,
    end: int,
    inc: int,
    c: Seq<Descriptor>,
)
    requires
        0 <= i <= end <= dir.len(),
        wf_win(dir, i, end),
        1 <= inc,
        dir.len() + inc < 0x1_0000_0000,
        !spec_walk(dir, path, i, end, inc as u32).3,
        chain_ok(c, spec_walk(dir, path, i, end, inc as u32).2, inc),
        clean_path(spec_walk(dir, path, i, end, inc as u32).2, inc),
        path.len() > 0,
    ensures
        ({
            let w = spec_walk(dir, path, i, end, inc as u32);
            let spl = w.0.subrange(0, w.1) + c + w.0.subrange(w.1, w.0.len() as int);
            spec_find_in(spl, path, i, end + inc) matches Some(rg) && rg.0 == w.1 + inc - 1
        }),
    decreases end - i,
{
    lemma_walk_frame(dir, path, i, end, inc as u32);
    let w = spec_walk(dir, path, i, end, inc as u32);
    let spl = w.0.subrange(0, w.1) + c + w.0.subrange(w.1, w.0.len() as int);
    if i >= end {
        // Empty window: the chain alone fills it.
        assert(w == (dir, i, path, false));
        assert forall|m: int| 0 <= m < inc implies #[trigger] spl[i + m] == c[m] by {}
        lemma_chain_find(spl, c, path, i, inc);
    } else {
        let d = dir[i];
        let next = spec_next_sibling(d, i, end);
        let k = if d.spec_is_dir() {
            d.content_size as int
        } else {
            0
        };
        assert(i + 1 + k <= end);
        assert(next == i + 1 + k);
        match match_name(d.spec_name(), path) {
            Some(tail) => {
                if tail.len() == 0 {
                    assert(false);
                } else if d.spec_is_dir() {
                    // The walk descended; lookup descends the same way
                    // into the grown subtree.
                    let dir2 = dir.update(i, bump(d, inc as u32));
                    assert(w == spec_walk(dir2, tail, i + 1, next, inc as u32));
                    assert(wf_win(dir2, i + 1, next)) by {
                        assert(dir2.subrange(i + 1, next) =~= dir.subrange(i + 1, next)) by {
                            assert forall|m: int| 0 <= m < next - (i + 1) implies #[trigger]
                            dir2.subrange(i + 1, next)[m] == dir.subrange(i + 1, next)[m] by {
                                assert(dir2.subrange(i + 1, next)[m] == dir2[i + 1 + m]);
                                assert(dir.subrange(i + 1, next)[m] == dir[i + 1 + m]);
                            }
                        }
                        lemma_wf_win_frame(dir2, dir, i + 1, next);
                    }
                    assert(tail.len() > 0) by {
                        if inc == 1 {
                        } else {
                            lemma_sep_pos_bounds(tail, 0);
                        }
                    }
                    lemma_create_find_win(dir2, tail, i + 1, next, inc, c);
                    lemma_walk_frame(dir2, tail, i + 1, next, inc as u32);
                    assert(i + 1 <= w.1 <= next);
                    assert(spl[i] == w.0[i]);
                    assert(w.0[i] == dir2[i]);
                    assert(spl[i] == bump(d, inc as u32));
                    assert(spl[i].spec_name() == d.spec_name());
                    assert(match_name(spl[i].spec_name(), path) == Some(tail));
                    assert(spl[i].spec_is_dir());
                    assert(spl[i].content_size as int == k + inc);
                    assert(spec_next_sibling(spl[i], i, end + inc) == i + 1 + k + inc);
                    assert(spec_find_in(spl, path, i, end + inc) == spec_find_in(
                        spl,
                        tail,
                        i + 1,
                        next + inc,
                    ));
                } else {
                    // A file of the matched name: the chain sits right
                    // before it and lookup hits the chain first.
                    assert(w == (dir, i, path, false));
                    assert forall|m: int| 0 <= m < inc implies #[trigger] spl[i + m] == c[m] by {}
                    lemma_chain_find(spl, c, path, i, inc);
                    // The narrow window holding the chain is well
                    // formed, so the match survives widening the window
                    // to the whole spliced range.
                    assert(wf_win(spl, i, i + inc)) by {
                        lemma_chain_wf(c, path, inc);
                        assert(spl.subrange(i, i + inc) =~= c) by {
                            assert forall|m: int| 0 <= m < inc implies #[trigger] spl.subrange(
                                i,
                                i + inc,
                            )[m] == c[m] by {
                                assert(spl.subrange(i, i + inc)[m] == spl[i + m]);
                            }
                        }
                        lemma_wf_win_is_wf_seq(spl, i, i + inc);
                        assert(wf_seq(spl.subrange(i, i + inc)) == wf_seq(c));
                    }
                    lemma_find_in_widen(spl, path, i, i + inc, end + inc);
                }
            },
            None => {
                // No match here: the untouched subtree is skipped, in
                // the spliced directory as in the old one.
                assert(w == spec_walk(dir, path, next, end, inc as u32));
                assert(wf_win(dir, next, end)) by {
                    lemma_wf_win_concat(dir, i + 1 + k, next, next);
                }
                lemma_create_find_win(dir, path, next, end, inc, c);
                lemma_walk_frame(dir, path, next, end, inc as u32);
                assert(next <= w.1 <= end);
                assert(spl[i] == w.0[i]);
                assert(w.0[i] == dir[i]);
                assert(match_name(spl[i].spec_name(), path) is None);
                assert(spec_next_sibling(spl[i], i, end + inc) == i + 1 + k) by {
                    assert(spl[i] == d);
                }
                assert(spec_find_in(spl, path, i, end + inc) == spec_find_in(
                    spl,
                    path,
                    next,
                    end + inc,
                ));
            },
        }
    }
}

/// A successful lookup in a window is still successful, with the same
/// result, in any wider window that ends later, as long as the found
/// range lies strictly inside the narrow window's span of full subtrees.
proof fn lemma_find_in_widen(s: Seq<Descriptor>, path: Seq<u8>, i: int, end: int, wide: int)
    requires
        0 <= i <= end <= wide <= s.len(),
        spec_find_in(s, path, i, end) is Some,
        wf_win(s, i, end),
    ensures
        spec_find_in(s, path, i, wide) == spec_find_in(s, path, i, end),
    decreases end - i,
{
    let d = s[i];
    let k = if d.spec_is_dir() {
        d.content_size as int
    } else {
        0
    };
    assert(i < end);
    assert(i + 1 + k <= end);
    let next = spec_next_sibling(d, i, end);
    assert(next == i + 1 + k);
    assert(spec_next_sibling(d, i, wide) == i + 1 + k);
    match match_name(d.spec_name(), path) {
        Some(tail) => {
            if tail.len() == 0 {
            } else if d.spec_is_dir() {
                // Lookup descends into the same subtree window either
                // way.
            } else {
                assert(wf_win(s, next, end)) by {
                    lemma_wf_win_concat(s, i + 1 + k, next, next);
                }
                lemma_find_in_widen(s, path, next, end, wide);
            }
        },
        None => {
            assert(wf_win(s, next, end)) by {
                lemma_wf_win_concat(s, i + 1 + k, next, next);
            }
            lemma_find_in_widen(s, path, next, end, wide);
        },
    }
}

/// Directory round trip, whole-directory form: creating a path and then
/// looking it up finds the descriptor that creation reported, whether
/// the path already existed or a clean remainder was freshly created.
pub proof fn lemma_create_then_find(dir: Seq<Descriptor>, path: Seq<u8>, c: Seq<Descriptor>)
    requires
        dir_wf(dir),
        path.len() > 0,
        ({
            let w0 = spec_walk(dir, path, 0, dir.len() as int, 0);
            let inc = spec_components(w0.2);
            w0.3 || (1 <= inc && dir.len() + inc < 0x1_0000_0000 && chain_ok(c, w0.2, inc)
                && clean_path(w0.2, inc))
        }),
    ensures
        ({
            let w0 = spec_walk(dir, path, 0, dir.len() as int, 0);
            let inc = spec_components(w0.2);
            if w0.3 {
                spec_find(dir, path) matches Some(rg) && rg.0 == w0.1
            } else {
                let w1 = spec_walk(dir, path, 0, dir.len() as int, inc as u32);
                let spl = w1.0.subrange(0, w1.1) + c + w1.0.subrange(w1.1, w1.0.len() as int);
                spec_find(spl, path) matches Some(rg) && rg.0 == w0.1 + inc - 1
            }
        }),
{
    let w0 = spec_walk(dir, path, 0, dir.len() as int, 0);
    let inc = spec_components(w0.2);
    if w0.3 {
        lemma_walk_found_find(dir, path, 0, dir.len() as int);
    } else {
        lemma_walk_agree(dir, dir, path, 0, dir.len() as int, 0, inc as u32);
        lemma_create_find_win(dir, path, 0, dir.len() as int, inc, c);
        let w1 = spec_walk(dir, path, 0, dir.len() as int, inc as u32);
        lemma_walk_frame(dir, path, 0, dir.len() as int, inc as u32);
        let spl = w1.0.subrange(0, w1.1) + c + w1.0.subrange(w1.1, w1.0.len() as int);
        assert(spl.len() == dir.len() + inc);
    }
}

} // verus!
