//! The atomic rename operation and the path-pair decomposer.
//!
//! A `(from, to)` pair handed to the planner may differ not only in its final
//! name but in any ancestor component.  The decomposer turns one such pair
//! into the minimal ordered list of single-component renames, deepest first:
//! at each depth where the two paths' components differ it emits a rename
//! whose paths are built from the original, not-yet-renamed prefix of `from`.
//! Executing the deepest difference first keeps every later path valid,
//! because renaming an ancestor never invalidates the paths already executed
//! below it.  Pairs whose paths have different depths cannot be expressed as
//! such a chain and are rejected as structurally incompatible.

use vstd::prelude::*;

use crate::hash::{combined_key, hash_str};
use crate::paths::{
    bound_ok, bounds_view, comp_bounds, component, depth, lemma_comp_bounds_ok, path_bounds,
};

verus! {

/// A view of a rename: the `from` and `to` paths as character sequences.
pub type PathPair = (Seq<char>, Seq<char>);

/// An atomic rename: move the file or directory at `from` to `to`.
#[derive(Debug)]
pub struct Rename {
    pub from: String,
    pub to: String,
}

impl View for Rename {
    type V = PathPair;

    open spec fn view(&self) -> PathPair {
        (self.from@, self.to@)
    }
}

impl PartialEq for Rename {
    fn eq(&self, other: &Rename) -> (r: bool) {
        self.from.eq(&other.from) && self.to.eq(&other.to)
    }
}

impl vstd::std_specs::cmp::PartialEqSpecImpl for Rename {
    open spec fn obeys_eq_spec() -> bool {
        true
    }

    open spec fn eq_spec(&self, other: &Rename) -> bool {
        self@ == other@
    }
}

impl Clone for Rename {
    fn clone(&self) -> (r: Self)
        ensures
            r@ == self@,
    {
        Rename { from: self.from.clone(), to: self.to.clone() }
    }
}

/// The views of a list of renames.
pub open spec fn views(rs: Seq<Rename>) -> Seq<PathPair> {
    rs.map_values(|r: Rename| r@)
}

/// Why a batch could not be planned.
#[derive(Debug)]
pub enum RenameError {
    /// The two input lists differ in length.
    LengthMismatch,
    /// A pair's paths have different depths, so no component-wise rename
    /// chain can turn one into the other.
    IncompatiblePaths { from: String, to: String },
}

impl RenameError {
    /// A human-readable description of the error.
    pub fn message(&self) -> (r: String)
        ensures
            self is LengthMismatch ==> r@
                == "Error: renamed files does not match original files in length"@,
            self matches RenameError::IncompatiblePaths { from, to } ==> r@
                == "Incompatible paths for renaming: "@ + from@ + " -> "@ + to@,
    {
        match self {
            RenameError::LengthMismatch => String::from_str(
                "Error: renamed files does not match original files in length",
            ),
            RenameError::IncompatiblePaths { from, to } => String::from_str(
                "Incompatible paths for renaming: ",
            ).concat(from.as_str()).concat(" -> ").concat(to.as_str()),
        }
    }
}

/// Whether a pair can be decomposed at all: the paths have equal depth.
pub open spec fn compatible(f: Seq<char>, t: Seq<char>) -> bool {
    depth(f) == depth(t)
}

/// The rename emitted for depth `i`: the prefix of `from` through its `i`-th
/// component, moved to the same prefix with the `i`-th component of `to` in
/// its place.
pub open spec fn decomp_at(f: Seq<char>, t: Seq<char>, i: int) -> PathPair {
    (f.subrange(0, comp_bounds(f)[i].1), f.subrange(0, comp_bounds(f)[i].0) + component(t, i))
}

/// The renames for the components at depths `i` down to `0`, deepest first.
pub open spec fn decompose_from(f: Seq<char>, t: Seq<char>, i: int) -> Seq<PathPair>
    decreases i + 1,
{
    if i < 0 {
        Seq::empty()
    } else if component(f, i) != component(t, i) {
        seq![decomp_at(f, t, i)] + decompose_from(f, t, i - 1)
    } else {
        decompose_from(f, t, i - 1)
    }
}

/// The full decomposition of a compatible pair.
pub open spec fn spec_decompose(f: Seq<char>, t: Seq<char>) -> Seq<PathPair> {
    decompose_from(f, t, depth(f) as int - 1)
}

/// Depths where the components agree contribute no rename.
pub proof fn lemma_decompose_equal_upto(f: Seq<char>, t: Seq<char>, i: int)
    requires
        forall|j: int| 0 <= j <= i ==> #[trigger] component(f, j) == component(t, j),
    ensures
        decompose_from(f, t, i) == Seq::<PathPair>::empty(),
    decreases i + 1,
{
    if i >= 0 {
        lemma_decompose_equal_upto(f, t, i - 1);
    }
}

/// A pair that changes only its final name decomposes into exactly itself:
/// one rename, from the old child path to the new one.
pub proof fn lemma_decompose_single(p: Seq<char>, a: Seq<char>, b: Seq<char>)
    requires
        crate::paths::seg_parent(p),
        crate::paths::seg_name(a),
        crate::paths::seg_name(b),
        a != b,
    ensures
        p + a != p + b,
        compatible(p + a, p + b),
        spec_decompose(p + a, p + b) == seq![(p + a, p + b)],
{
    let f = p + a;
    let t = p + b;
    crate::paths::lemma_parent_child_bounds(p, a);
    crate::paths::lemma_parent_child_bounds(p, b);
    let d = crate::paths::depth(p) as int;
    assert(component(f, d) == a);
    assert(component(t, d) == b);
    if f == t {
        assert(a =~= b);
    }
    assert forall|j: int| 0 <= j <= d - 1 implies #[trigger] component(f, j) == component(
        t,
        j,
    ) by {
        assert(component(f, j) == crate::paths::component(p, j));
        assert(component(t, j) == crate::paths::component(p, j));
    }
    lemma_decompose_equal_upto(f, t, d - 1);
    assert(decomp_at(f, t, d) == (f, t)) by {
        assert(comp_bounds(f)[d] == (p.len() as int, p.len() + a.len() as int));
        assert(f.subrange(0, p.len() + a.len() as int) =~= f);
        assert(f.subrange(0, p.len() as int) =~= p);
    }
    assert(spec_decompose(f, t) =~= seq![(f, t)]);
}

proof fn lemma_decomp_at_distinct(f: Seq<char>, t: Seq<char>, i: int)
    requires
        0 <= i < depth(f),
        0 <= i < depth(t),
        component(f, i) != component(t, i),
    ensures
        decomp_at(f, t, i).0 != decomp_at(f, t, i).1,
{
    lemma_comp_bounds_ok(f);
    lemma_comp_bounds_ok(t);
    let b = comp_bounds(f)[i];
    let ct = component(t, i);
    let fr = f.subrange(0, b.1);
    let to = f.subrange(0, b.0) + ct;
    if fr == to {
        assert(fr.subrange(b.0, fr.len() as int) =~= component(f, i));
        assert(to.subrange(b.0, to.len() as int) =~= ct);
        assert(component(f, i) == ct);
    }
}

/// The decomposer emits no identity rename: every emitted operation changes
/// its path.
pub proof fn lemma_decompose_from_no_identity(f: Seq<char>, t: Seq<char>, i: int)
    requires
        i < depth(f),
        i < depth(t),
    ensures
        forall|k: int|
            0 <= k < decompose_from(f, t, i).len() ==> (#[trigger] decompose_from(f, t, i)[k]).0
                != decompose_from(f, t, i)[k].1,
    decreases i + 1,
{
    if i >= 0 {
        lemma_decompose_from_no_identity(f, t, i - 1);
        if component(f, i) != component(t, i) {
            lemma_decomp_at_distinct(f, t, i);
            assert forall|k: int|
                0 <= k < decompose_from(f, t, i).len() implies (#[trigger] decompose_from(
                f,
                t,
                i,
            )[k]).0 != decompose_from(f, t, i)[k].1 by {
                if k == 0 {
                    assert(decompose_from(f, t, i)[0] == decomp_at(f, t, i));
                } else {
                    assert(decompose_from(f, t, i)[k] == decompose_from(f, t, i - 1)[k - 1]);
                }
            }
        } else {
            assert(decompose_from(f, t, i) == decompose_from(f, t, i - 1));
        }
    }
}

/// Whether the character ranges `[a0, a1)` of `a` and `[b0, b1)` of `b` hold
/// the same characters.
fn eq_range(a: &str, a0: usize, a1: usize, b: &str, b0: usize, b1: usize) -> (r: bool)
    requires
        a0 <= a1 <= a@.len(),
        b0 <= b1 <= b@.len(),
    ensures
        r == (a@.subrange(a0 as int, a1 as int) == b@.subrange(b0 as int, b1 as int)),
{
    let la = a1 - a0;
    let lb = b1 - b0;
    if la != lb {
        assert(a@.subrange(a0 as int, a1 as int).len() != b@.subrange(b0 as int, b1 as int).len());
        return false;
    }
    let mut k: usize = 0;
    while k < la
        invariant
            k <= la,
            la == lb,
            a0 + la == a1 <= a@.len(),
            b0 + lb == b1 <= b@.len(),
            forall|j: int| 0 <= j < k ==> #[trigger] a@[a0 + j] == b@[b0 + j],
        decreases la - k,
    {
        if a.get_char(a0 + k) != b.get_char(b0 + k) {
            assert(a@.subrange(a0 as int, a1 as int)[k as int] != b@.subrange(
                b0 as int,
                b1 as int,
            )[k as int]);
            return false;
        }
        k = k + 1;
    }
    proof {
        assert forall|j: int| 0 <= j < la implies a@.subrange(a0 as int, a1 as int)[j]
            == b@.subrange(b0 as int, b1 as int)[j] by {
            assert(a@[a0 + j] == b@[b0 + j]);
        }
        assert(a@.subrange(a0 as int, a1 as int) =~= b@.subrange(b0 as int, b1 as int));
    }
    true
}

impl Rename {
    /// Build a rename from two path strings.
    pub fn new(from: &str, to: &str) -> (r: Rename)
        ensures
            r@ == (from@, to@),
    {
        Rename { from: String::from_str(from), to: String::from_str(to) }
    }

    /// This rename with its source replaced.
    pub fn with_from(&self, from: &str) -> (r: Rename)
        ensures
            r@ == (from@, self.to@),
    {
        Rename { from: String::from_str(from), to: self.to.clone() }
    }

    /// This rename with its target replaced.
    pub fn with_to(&self, to: &str) -> (r: Rename)
        ensures
            r@ == (self.from@, to@),
    {
        Rename { from: self.from.clone(), to: String::from_str(to) }
    }

    /// The conflict key of this rename (see `crate::hash`).
    pub fn combined_hash(&self) -> (k: u64)
        ensures
            k == combined_key(self.from@, self.to@),
    {
        hash_str(self.from.as_str()).wrapping_add(hash_str(self.to.as_str()))
    }

    /// Decompose one `(from, to)` pair into single-component renames, deepest
    /// first, or report the pair as structurally incompatible.
    pub fn rename_sequence(from: &str, to: &str) -> (r: Result<Vec<Rename>, RenameError>)
        ensures
            r is Ok <==> compatible(from@, to@),
            r is Ok ==> views(r->Ok_0@) == spec_decompose(from@, to@),
            r is Err ==> (r->Err_0 matches RenameError::IncompatiblePaths { from: ef, to: et }
                && ef@ == from@ && et@ == to@),
    {
        let fb = path_bounds(from);
        let tb = path_bounds(to);
        let n = fb.len();
        if n != tb.len() {
            return Err(
                RenameError::IncompatiblePaths {
                    from: String::from_str(from),
                    to: String::from_str(to),
                },
            );
        }
        proof {
            lemma_comp_bounds_ok(from@);
            lemma_comp_bounds_ok(to@);
        }
        let mut renames: Vec<Rename> = Vec::new();
        let mut i: usize = n;
        while i > 0
            invariant
                i <= n,
                n == depth(from@),
                n == depth(to@),
                bounds_view(fb@) == comp_bounds(from@),
                bounds_view(tb@) == comp_bounds(to@),
                fb@.len() == n,
                tb@.len() == n,
                forall|k: int|
                    0 <= k < n ==> bound_ok(from@, #[trigger] comp_bounds(from@)[k]) && bound_ok(
                        to@,
                        #[trigger] comp_bounds(to@)[k],
                    ),
                views(renames@) + decompose_from(from@, to@, i as int - 1) == spec_decompose(
                    from@,
                    to@,
                ),
            decreases i,
        {
            let idx = i - 1;
            let (f0, f1) = fb[idx];
            let (t0, t1) = tb[idx];
            proof {
                assert(bounds_view(fb@)[idx as int] == (f0 as int, f1 as int));
                assert(bounds_view(tb@)[idx as int] == (t0 as int, t1 as int));
            }
            if !eq_range(from, f0, f1, to, t0, t1) {
                let head = from.substring_char(0, f0);
                let full = from.substring_char(0, f1);
                let renamed = String::from_str(head).concat(to.substring_char(t0, t1));
                let r = Rename { from: String::from_str(full), to: renamed };
                proof {
                    assert(r@ == decomp_at(from@, to@, idx as int));
                    assert(views(renames@.push(r)) =~= views(renames@).push(r@));
                    assert(views(renames@.push(r)) + decompose_from(from@, to@, idx as int - 1)
                        =~= views(renames@) + decompose_from(from@, to@, idx as int));
                }
                renames.push(r);
            } else {
                proof {
                    assert(component(from@, idx as int) == component(to@, idx as int));
                    assert(decompose_from(from@, to@, idx as int) == decompose_from(
                        from@,
                        to@,
                        idx as int - 1,
                    ));
                }
            }
            i = idx;
        }
        proof {
            assert(views(renames@) + decompose_from(from@, to@, -1) =~= views(renames@));
        }
        Ok(renames)
    }

    /// The ordered rename chain for one pair (see `rename_sequence`).
    pub fn renames_for(from: &str, to: &str) -> (r: Result<Vec<Rename>, RenameError>)
        ensures
            r is Ok <==> compatible(from@, to@),
            r is Ok ==> views(r->Ok_0@) == spec_decompose(from@, to@),
            r is Err ==> (r->Err_0 matches RenameError::IncompatiblePaths { from: ef, to: et }
                && ef@ == from@ && et@ == to@),
    {
        Rename::rename_sequence(from, to)
    }
}

} // verus!
