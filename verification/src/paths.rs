//! A component-level model of path strings.
//!
//! A path is read as a sequence of components: the maximal runs of characters
//! between `/` separators.  Empty runs (a leading `/`, doubled separators, a
//! trailing `/`) contribute no component, so `/x/y`, `x/y` and `x/y/` all have
//! two components.  Every component is located by its character bounds in the
//! original string, which lets the rename planner emit paths that are literal
//! prefixes of the strings it was given.

use vstd::prelude::*;

verus! {

/// The path separator.
pub const SEP: char = '/';

/// Index just past the separator-free run that starts at `i`: the first
/// position at or after `i` that is out of range or holds a separator.
pub open spec fn run_end(s: Seq<char>, i: int) -> int
    decreases s.len() - i,
{
    if i < 0 || i >= s.len() || s[i] == SEP {
        i
    } else {
        run_end(s, i + 1)
    }
}

pub proof fn lemma_run_end_bounds(s: Seq<char>, i: int)
    requires
        0 <= i <= s.len(),
    ensures
        i <= run_end(s, i) <= s.len(),
    decreases s.len() - i,
{
    if i < s.len() && s[i] != SEP {
        lemma_run_end_bounds(s, i + 1);
    }
}

/// `run_end` lands on the first separator at or after `i` (or on the end of
/// the string), and everything before it is separator-free.
pub proof fn lemma_run_end_props(s: Seq<char>, i: int)
    requires
        0 <= i <= s.len(),
    ensures
        i <= run_end(s, i) <= s.len(),
        run_end(s, i) < s.len() ==> s[run_end(s, i)] == SEP,
        forall|j: int| i <= j < run_end(s, i) ==> s[j] != SEP,
    decreases s.len() - i,
{
    if i < s.len() && s[i] != SEP {
        lemma_run_end_props(s, i + 1);
    }
}

/// Conversely, a separator-free stretch that ends at a separator or at the
/// end of the string pins `run_end` down exactly.
pub proof fn lemma_run_end_exact(s: Seq<char>, i: int, j: int)
    requires
        0 <= i <= j <= s.len(),
        forall|k: int| i <= k < j ==> s[k] != SEP,
        j == s.len() || s[j] == SEP,
    ensures
        run_end(s, i) == j,
    decreases j - i,
{
    if i < j {
        lemma_run_end_exact(s, i + 1, j);
    }
}

/// The component bounds of `s` at or after position `i`: for each component,
/// the index of its first character and the index just past its last.
pub open spec fn comp_bounds_from(s: Seq<char>, i: int) -> Seq<(int, int)>
    decreases s.len() - i,
        via comp_bounds_from_decreases
{
    if i < 0 || i >= s.len() {
        Seq::empty()
    } else if s[i] == SEP {
        comp_bounds_from(s, i + 1)
    } else {
        seq![(i, run_end(s, i))] + comp_bounds_from(s, run_end(s, i))
    }
}

#[via_fn]
proof fn comp_bounds_from_decreases(s: Seq<char>, i: int) {
    if 0 <= i < s.len() && s[i] != SEP {
        lemma_run_end_bounds(s, i + 1);
    }
}

/// The component bounds of the whole of `s`.
pub open spec fn comp_bounds(s: Seq<char>) -> Seq<(int, int)> {
    comp_bounds_from(s, 0)
}

/// How many components `s` has.
pub open spec fn depth(s: Seq<char>) -> nat {
    comp_bounds(s).len()
}

/// The `i`-th component of `s`, as the characters between its bounds.
pub open spec fn component(s: Seq<char>, i: int) -> Seq<char> {
    s.subrange(comp_bounds(s)[i].0, comp_bounds(s)[i].1)
}

/// A well-formed component bound of `s`: it brackets a non-empty,
/// separator-free, maximal run (bordered by separators or the ends of the
/// string).
pub open spec fn bound_ok(s: Seq<char>, b: (int, int)) -> bool {
    &&& 0 <= b.0 < b.1 <= s.len()
    &&& (forall|j: int| b.0 <= j < b.1 ==> s[j] != SEP)
    &&& (b.1 < s.len() ==> s[b.1] == SEP)
    &&& (b.0 == 0 || s[b.0 - 1] == SEP)
}

pub proof fn lemma_comp_bound_at(s: Seq<char>, i: int, k: int)
    requires
        0 <= i <= s.len(),
        0 <= k < comp_bounds_from(s, i).len(),
    ensures
        ({
            let b = comp_bounds_from(s, i)[k];
            &&& i <= b.0 < b.1 <= s.len()
            &&& (forall|j: int| b.0 <= j < b.1 ==> s[j] != SEP)
            &&& (b.1 < s.len() ==> s[b.1] == SEP)
            &&& (b.0 == i || s[b.0 - 1] == SEP)
        }),
    decreases s.len() - i,
{
    if s[i] == SEP {
        lemma_comp_bound_at(s, i + 1, k);
    } else {
        let e = run_end(s, i);
        lemma_run_end_props(s, i);
        if k == 0 {
            assert(comp_bounds_from(s, i)[0] == (i, e));
        } else {
            assert(comp_bounds_from(s, i)[k] == comp_bounds_from(s, e)[k - 1]);
            lemma_comp_bound_at(s, e, k - 1);
        }
    }
}

pub proof fn lemma_comp_bounds_adjacent(s: Seq<char>, i: int, k: int)
    requires
        0 <= i <= s.len(),
        0 <= k,
        k + 1 < comp_bounds_from(s, i).len(),
    ensures
        comp_bounds_from(s, i)[k].1 < comp_bounds_from(s, i)[k + 1].0,
    decreases s.len() - i,
{
    if s[i] == SEP {
        lemma_comp_bounds_adjacent(s, i + 1, k);
    } else {
        let e = run_end(s, i);
        lemma_run_end_props(s, i);
        if k == 0 {
            assert(comp_bounds_from(s, i)[1] == comp_bounds_from(s, e)[0]);
            lemma_comp_bound_at(s, e, 0);
            assert(s[e] == SEP);
            assert(comp_bounds_from(s, e) == comp_bounds_from(s, e + 1));
            lemma_comp_bound_at(s, e + 1, 0);
        } else {
            lemma_comp_bounds_adjacent(s, e, k - 1);
        }
    }
}

/// Every component bound of `s` is well-formed.
pub proof fn lemma_comp_bounds_ok(s: Seq<char>)
    ensures
        forall|k: int|
            0 <= k < comp_bounds(s).len() ==> bound_ok(s, #[trigger] comp_bounds(s)[k]),
        forall|k: int|
            0 <= k && k + 1 < comp_bounds(s).len() ==> (#[trigger] comp_bounds(s)[k]).1
                < comp_bounds(s)[k + 1].0,
{
    assert forall|k: int| 0 <= k < comp_bounds(s).len() implies bound_ok(
        s,
        #[trigger] comp_bounds(s)[k],
    ) by {
        lemma_comp_bound_at(s, 0, k);
    }
    assert forall|k: int| 0 <= k && k + 1 < comp_bounds(s).len() implies (
    #[trigger] comp_bounds(s)[k]).1 < comp_bounds(s)[k + 1].0 by {
        lemma_comp_bounds_adjacent(s, 0, k);
    }
}

/// The view of a vector of bounds, for relating executable scans to
/// `comp_bounds`.
pub open spec fn bounds_view(v: Seq<(usize, usize)>) -> Seq<(int, int)> {
    v.map_values(|b: (usize, usize)| (b.0 as int, b.1 as int))
}

/// First position at or after `from` holding a separator, or the length of
/// `s` if there is none.
fn find_run_end(s: &str, from: usize) -> (r: usize)
    requires
        from <= s@.len(),
    ensures
        r as int == run_end(s@, from as int),
        from <= r <= s@.len(),
    decreases s@.len() - from,
{
    let n = s.unicode_len();
    if from == n {
        from
    } else if s.get_char(from) == SEP {
        from
    } else {
        find_run_end(s, from + 1)
    }
}

/// Scan `s` for its component bounds.
pub fn path_bounds(s: &str) -> (r: Vec<(usize, usize)>)
    ensures
        bounds_view(r@) == comp_bounds(s@),
{
    let n = s.unicode_len();
    let mut r: Vec<(usize, usize)> = Vec::new();
    let mut i: usize = 0;
    while i < n
        invariant
            i <= n,
            n == s@.len(),
            comp_bounds(s@) == bounds_view(r@) + comp_bounds_from(s@, i as int),
        decreases n - i,
    {
        if s.get_char(i) == SEP {
            i = i + 1;
        } else {
            let e = find_run_end(s, i);
            proof {
                lemma_run_end_props(s@, i as int);
                assert(bounds_view(r@.push((i, e))) =~= bounds_view(r@) + seq![
                    (i as int, e as int),
                ]);
            }
            r.push((i, e));
            assert(i < e) by {
                assert(s@[i as int] != SEP);
            }
            i = e;
        }
        proof {
            assert(comp_bounds(s@) == bounds_view(r@) + comp_bounds_from(s@, i as int));
        }
    }
    proof {
        assert(comp_bounds(s@) =~= bounds_view(r@));
    }
    r
}

/// A parent prefix: empty, or ending in a separator, so that appending a
/// name to it starts a new component.
pub open spec fn seg_parent(p: Seq<char>) -> bool {
    p.len() == 0 || p[p.len() - 1] == SEP
}

/// A single path component: non-empty and separator-free.
pub open spec fn seg_name(a: Seq<char>) -> bool {
    a.len() > 0 && forall|j: int| 0 <= j < a.len() ==> a[j] != SEP
}

/// Appending one name to a parent prefix appends exactly one component
/// bound: the name's own characters.
pub proof fn lemma_comp_bounds_append_from(p: Seq<char>, a: Seq<char>, i: int)
    requires
        0 <= i <= p.len(),
        seg_parent(p),
        seg_name(a),
    ensures
        comp_bounds_from(p + a, i) == comp_bounds_from(p, i).push(
            (p.len() as int, p.len() + a.len() as int),
        ),
    decreases p.len() - i,
{
    let s = p + a;
    let e2 = p.len() + a.len() as int;
    if i == p.len() {
        assert(s[i] == a[i - p.len()]);
        assert forall|k: int| i <= k < s.len() implies s[k] != SEP by {
            assert(s[k] == a[k - p.len()]);
        }
        lemma_run_end_exact(s, i, s.len() as int);
        assert(comp_bounds_from(s, i) == seq![(i, s.len() as int)] + comp_bounds_from(
            s,
            s.len() as int,
        ));
        assert(comp_bounds_from(s, i) =~= comp_bounds_from(p, i).push((p.len() as int, e2)));
    } else {
        assert(s[i] == p[i]);
        if p[i] == SEP {
            lemma_comp_bounds_append_from(p, a, i + 1);
        } else {
            let e = run_end(p, i);
            lemma_run_end_props(p, i);
            assert(e < p.len()) by {
                if e == p.len() {
                    assert(p[p.len() - 1] != SEP);
                }
            }
            assert(p[e] == SEP);
            assert forall|k: int| i <= k < e implies s[k] != SEP by {
                assert(s[k] == p[k]);
            }
            assert(s[e] == p[e]);
            lemma_run_end_exact(s, i, e);
            lemma_comp_bounds_append_from(p, a, e);
            assert(comp_bounds_from(s, i) == seq![(i, e)] + comp_bounds_from(s, e));
            assert(comp_bounds_from(p, i) == seq![(i, e)] + comp_bounds_from(p, e));
            assert((seq![(i, e)] + comp_bounds_from(p, e)).push((p.len() as int, e2)) =~= seq![
                (i, e),
            ] + comp_bounds_from(p, e).push((p.len() as int, e2)));
        }
    }
}

/// A child path `p + a` has the components of `p` plus the name `a` at the
/// end; the components below the last are those of `p`, at the same bounds.
pub proof fn lemma_parent_child_bounds(p: Seq<char>, a: Seq<char>)
    requires
        seg_parent(p),
        seg_name(a),
    ensures
        comp_bounds(p + a) == comp_bounds(p).push((p.len() as int, p.len() + a.len() as int)),
        depth(p + a) == depth(p) + 1,
        component(p + a, depth(p) as int) == a,
        forall|k: int|
            0 <= k < depth(p) ==> #[trigger] comp_bounds(p + a)[k] == comp_bounds(p)[k],
        forall|k: int|
            0 <= k < depth(p) ==> #[trigger] component(p + a, k) == component(p, k),
{
    lemma_comp_bounds_append_from(p, a, 0);
    let s = p + a;
    let d = depth(p) as int;
    assert(comp_bounds(s)[d] == (p.len() as int, p.len() + a.len() as int));
    assert(component(s, d) =~= a);
    lemma_comp_bounds_ok(p);
    assert forall|k: int| 0 <= k < depth(p) implies #[trigger] component(s, k) == component(
        p,
        k,
    ) by {
        assert(comp_bounds(s)[k] == comp_bounds(p)[k]);
        assert(bound_ok(p, comp_bounds(p)[k]));
        assert(component(s, k) =~= component(p, k));
    }
}

/// `p` with its final component replaced by `name`; a path without
/// components keeps all its characters (they are separators) and gains
/// `name` at the end.
pub open spec fn spec_replace_filename(p: Seq<char>, name: Seq<char>) -> Seq<char> {
    if depth(p) == 0 {
        p + name
    } else {
        p.subrange(0, comp_bounds(p)[depth(p) as int - 1].0) + name
    }
}

/// Replace the final component of `file_path` by `name`, keeping the
/// directory part.
pub fn replace_filename(file_path: &str, name: &str) -> (r: String)
    ensures
        r@ == spec_replace_filename(file_path@, name@),
{
    let b = path_bounds(file_path);
    if b.len() == 0 {
        String::from_str(file_path).concat(name)
    } else {
        let (s0, _s1) = b[b.len() - 1];
        proof {
            lemma_comp_bounds_ok(file_path@);
            assert(bounds_view(b@)[b@.len() - 1] == (s0 as int, _s1 as int));
        }
        String::from_str(file_path.substring_char(0, s0)).concat(name)
    }
}

/// Replacing the final component of a child path `p + a` keeps the parent:
/// the result is `p + name`.
pub proof fn lemma_replace_filename_child(p: Seq<char>, a: Seq<char>, name: Seq<char>)
    requires
        seg_parent(p),
        seg_name(a),
    ensures
        spec_replace_filename(p + a, name) == p + name,
{
    lemma_parent_child_bounds(p, a);
    let s = p + a;
    assert(comp_bounds(s)[depth(s) as int - 1].0 == p.len());
    assert(s.subrange(0, p.len() as int) =~= p);
}

} // verus!
