//! The conflict resolver and the planning orchestrator.
//!
//! A detected conflicting pair `(x, y)` — typically a swap, where `x.to`
//! is `y.from` and `y.to` is `x.from` — cannot be applied in either order
//! directly.  The resolver breaks the cycle through a temporary hop: it
//! parks `x` under a fresh, collision-free name in `x`'s target directory,
//! lets `y` run unmodified, and then completes `x`'s rename, whose true
//! destination `y` has by then vacated.  The fresh name is a randomly
//! generated unique token, not a counter, so no ordering assumption is
//! needed across runs.
//!
//! The orchestrator `bulk_rename` validates the input lists, decomposes
//! every pair, splits the result into conflicting and non-conflicting
//! renames, resolves the conflicts, and returns the whole plan; applying it
//! to the filesystem is the caller's step, non-conflicting renames first.

use vstd::prelude::*;

use crate::conflict::{
    pair_views, spec_conflict_pairs, spec_non_conflicting, split_by_rename_conflicts,
};
use crate::paths::{replace_filename, spec_replace_filename};
use crate::rename::{compatible, spec_decompose, views, PathPair, Rename, RenameError};

verus! {

/// Whether `c` can appear in a generated temporary token: a lowercase hex
/// digit or a hyphen.  In particular no path separator.
pub open spec fn is_token_char(c: char) -> bool {
    ||| c == '-'
    ||| ('0' as u32) <= (c as u32) <= ('9' as u32)
    ||| ('a' as u32) <= (c as u32) <= ('f' as u32)
}

/// Shape of a generated temporary token: 36 characters, each a lowercase hex
/// digit or a hyphen.
pub open spec fn wf_token(t: Seq<char>) -> bool {
    &&& t.len() == 36
    &&& forall|i: int| 0 <= i < t.len() ==> is_token_char(#[trigger] t[i])
}

/// Every token in the list is well-formed.
pub open spec fn wf_tokens(toks: Seq<Seq<char>>) -> bool {
    forall|i: int| 0 <= i < toks.len() ==> wf_token(#[trigger] toks[i])
}

/// A well-formed token is itself a single path component: non-empty and free
/// of separators, so substituting it for a final path component keeps the
/// directory part intact.
pub proof fn lemma_wf_token_seg_name(t: Seq<char>)
    requires
        wf_token(t),
    ensures
        crate::paths::seg_name(t),
{
    assert forall|j: int| 0 <= j < t.len() implies t[j] != crate::paths::SEP by {
        assert(is_token_char(t[j]));
    }
}

/// Relies on `uuid::Uuid::new_v4` and the `Display` form of `uuid::Uuid`:
/// whatever value the generator returns, its hyphenated rendering is exactly
/// 36 characters, lowercase hex digits and hyphens.  Nothing else is assumed
/// of the random value.
#[verifier::external_body]
fn fresh_token() -> (r: String)
    ensures
        wf_token(r@),
{
    format!("{}", uuid::Uuid::new_v4())
}

/// The three-step breakout for one conflicting pair `(x, y)` with temporary
/// token `tok`: park `x.from` under the token in `x`'s target directory, run
/// `y`, complete the move to `x.to`.
pub open spec fn spec_triple(p: (PathPair, PathPair), tok: Seq<char>) -> Seq<PathPair> {
    let temp = spec_replace_filename(p.0.1, tok);
    seq![(p.0.0, temp), p.1, (temp, p.0.1)]
}

/// The breakout sequences of the first `i` pairs, concatenated in order.
pub open spec fn resolve_upto(
    ps: Seq<(PathPair, PathPair)>,
    toks: Seq<Seq<char>>,
    i: int,
) -> Seq<PathPair>
    decreases i,
{
    if i <= 0 {
        Seq::empty()
    } else {
        resolve_upto(ps, toks, i - 1) + spec_triple(ps[i - 1], toks[i - 1])
    }
}

/// The breakout sequences of all pairs, given one token per pair.
pub open spec fn spec_resolve(ps: Seq<(PathPair, PathPair)>, toks: Seq<Seq<char>>) -> Seq<
    PathPair,
> {
    resolve_upto(ps, toks, ps.len() as int)
}

/// A resolved list holds exactly three renames per pair.
pub proof fn lemma_resolve_len(ps: Seq<(PathPair, PathPair)>, toks: Seq<Seq<char>>, i: int)
    requires
        0 <= i <= ps.len(),
    ensures
        resolve_upto(ps, toks, i).len() == 3 * i,
    decreases i,
{
    if i > 0 {
        lemma_resolve_len(ps, toks, i - 1);
    }
}

proof fn lemma_resolve_upto_push(
    ps: Seq<(PathPair, PathPair)>,
    toks: Seq<Seq<char>>,
    tok: Seq<char>,
    i: int,
)
    requires
        i <= toks.len(),
    ensures
        resolve_upto(ps, toks.push(tok), i) == resolve_upto(ps, toks, i),
    decreases i,
{
    if i > 0 {
        lemma_resolve_upto_push(ps, toks, tok, i - 1);
        assert(toks.push(tok)[i - 1] == toks[i - 1]);
    }
}

/// Turn each conflicting pair into its safe three-step sequence, in pair
/// order, each through a fresh token.
pub fn with_temporary_moves(pairs: &Vec<(Rename, Rename)>) -> (r: Vec<Rename>)
    ensures
        exists|toks: Seq<Seq<char>>|
            toks.len() == pairs@.len() && wf_tokens(toks) && views(r@) == spec_resolve(
                pair_views(pairs@),
                toks,
            ),
{
    let ghost ps = pair_views(pairs@);
    let mut out: Vec<Rename> = Vec::new();
    let ghost mut toks: Seq<Seq<char>> = Seq::empty();
    let mut i: usize = 0;
    while i < pairs.len()
        invariant
            i <= pairs@.len(),
            ps == pair_views(pairs@),
            toks.len() == i,
            wf_tokens(toks),
            views(out@) == resolve_upto(ps, toks, i as int),
        decreases pairs@.len() - i,
    {
        let tok = fresh_token();
        let temp = replace_filename(pairs[i].0.to.as_str(), tok.as_str());
        let first = pairs[i].0.with_to(temp.as_str());
        let second = pairs[i].1.clone();
        let third = pairs[i].0.with_from(temp.as_str());
        proof {
            assert(ps[i as int] == (pairs@[i as int].0@, pairs@[i as int].1@));
            let toks2 = toks.push(tok@);
            lemma_resolve_upto_push(ps, toks, tok@, i as int);
            assert(toks2[i as int] == tok@);
            assert(seq![first@, second@, third@] =~= spec_triple(ps[i as int], tok@));
            assert(views(out@.push(first).push(second).push(third)) =~= views(out@)
                + spec_triple(ps[i as int], tok@));
            assert(resolve_upto(ps, toks2, i as int + 1) == resolve_upto(ps, toks2, i as int)
                + spec_triple(ps[i as int], toks2[i as int]));
            toks = toks2;
        }
        out.push(first);
        out.push(second);
        out.push(third);
        i = i + 1;
    }
    proof {
        assert(views(out@) == spec_resolve(ps, toks));
    }
    out
}

/// A planned batch: the renames free of detected conflicts, to apply first
/// and in order, then the three-step sequences of the resolved conflicting
/// pairs, in order.
#[derive(Debug)]
pub struct RenamePlan {
    pub singles: Vec<Rename>,
    pub resolved: Vec<Rename>,
    pub conflict_pairs: usize,
}

impl RenamePlan {
    /// The reported count when `done_singles` of the non-conflicting renames
    /// succeeded: each resolved conflicting pair counts as two renamed items
    /// (its temporary hop is not user-visible).
    pub fn tally(&self, done_singles: usize) -> (n: i32)
        requires
            done_singles <= self.singles@.len(),
            done_singles as int + 2 * (self.conflict_pairs as int) <= i32::MAX as int,
        ensures
            n as int == done_singles as int + 2 * (self.conflict_pairs as int),
    {
        (done_singles as i32) + 2 * (self.conflict_pairs as i32)
    }

    /// The count when every planned operation succeeds, as a dry run reports.
    pub fn planned_count(&self) -> (n: i32)
        requires
            self.singles@.len() + 2 * (self.conflict_pairs as int) <= i32::MAX as int,
        ensures
            n as int == self.singles@.len() + 2 * (self.conflict_pairs as int),
    {
        let len = self.singles.len();
        self.tally(len)
    }
}

/// The views of a list of path strings.
pub open spec fn all_views(ss: Seq<String>) -> Seq<Seq<char>> {
    ss.map_values(|s: String| s@)
}

/// The concatenated decompositions of the first `i` pairs.
pub open spec fn decompose_all_upto(fs: Seq<Seq<char>>, ts: Seq<Seq<char>>, i: int) -> Seq<
    PathPair,
>
    decreases i,
{
    if i <= 0 {
        Seq::empty()
    } else {
        decompose_all_upto(fs, ts, i - 1) + spec_decompose(fs[i - 1], ts[i - 1])
    }
}

/// The flat candidate list of a batch: every pair's decomposition, in input
/// order.
pub open spec fn spec_decompose_all(fs: Seq<Seq<char>>, ts: Seq<Seq<char>>) -> Seq<PathPair> {
    decompose_all_upto(fs, ts, fs.len() as int)
}

/// Every pair of the batch can be decomposed.
pub open spec fn all_compatible(fs: Seq<Seq<char>>, ts: Seq<Seq<char>>) -> bool {
    forall|j: int| 0 <= j < fs.len() ==> #[trigger] compatible(fs[j], ts[j])
}

/// `j` is the first structurally incompatible pair of the batch.
pub open spec fn first_incompatible(fs: Seq<Seq<char>>, ts: Seq<Seq<char>>, j: int) -> bool {
    &&& 0 <= j < fs.len()
    &&& !compatible(fs[j], ts[j])
    &&& forall|q: int| 0 <= q < j ==> #[trigger] compatible(fs[q], ts[q])
}

/// Plan a whole batch: check the lists' lengths, decompose every pair
/// (aborting on the first structurally incompatible one, before anything
/// could be applied), detect conflicts, and resolve each conflicting pair
/// through a temporary hop.
pub fn bulk_rename(froms: &Vec<String>, tos: &Vec<String>) -> (r: Result<RenamePlan, RenameError>)
    ensures
        (r is Err && r->Err_0 is LengthMismatch) <==> froms@.len() != tos@.len(),
        froms@.len() == tos@.len() ==> (r is Ok <==> all_compatible(
            all_views(froms@),
            all_views(tos@),
        )),
        r is Err ==> (r->Err_0 matches RenameError::IncompatiblePaths { from: ef, to: et }
            ==> exists|j: int|
            #[trigger] first_incompatible(all_views(froms@), all_views(tos@), j) && ef@ == froms@[j]@
                && et@ == tos@[j]@),
        r is Ok ==> ({
            let rsv = spec_decompose_all(all_views(froms@), all_views(tos@));
            let plan = r->Ok_0;
            &&& views(plan.singles@) == spec_non_conflicting(rsv)
            &&& plan.conflict_pairs == spec_conflict_pairs(rsv).len()
            &&& plan.resolved@.len() == 3 * plan.conflict_pairs
            &&& exists|toks: Seq<Seq<char>>|
                toks.len() == plan.conflict_pairs && wf_tokens(toks) && views(plan.resolved@)
                    == spec_resolve(spec_conflict_pairs(rsv), toks)
        }),
{
    let ghost fs = all_views(froms@);
    let ghost ts = all_views(tos@);
    let n = froms.len();
    if n != tos.len() {
        return Err(RenameError::LengthMismatch);
    }
    let mut all: Vec<Rename> = Vec::new();
    let mut i: usize = 0;
    while i < n
        invariant
            i <= n,
            n == froms@.len(),
            n == tos@.len(),
            fs == all_views(froms@),
            ts == all_views(tos@),
            forall|q: int| 0 <= q < i ==> #[trigger] compatible(fs[q], ts[q]),
            views(all@) == decompose_all_upto(fs, ts, i as int),
        decreases n - i,
    {
        proof {
            assert(fs[i as int] == froms@[i as int]@);
            assert(ts[i as int] == tos@[i as int]@);
        }
        match Rename::renames_for(froms[i].as_str(), tos[i].as_str()) {
            Ok(mut rs) => {
                proof {
                    assert(views(all@ + rs@) =~= views(all@) + views(rs@));
                }
                all.append(&mut rs);
            },
            Err(e) => {
                proof {
                    assert(first_incompatible(fs, ts, i as int));
                }
                return Err(e);
            },
        }
        i = i + 1;
    }
    let (conflicting, non_conflicting) = split_by_rename_conflicts(&all);
    let resolved = with_temporary_moves(&conflicting);
    let conflict_pairs = conflicting.len();
    proof {
        assert(views(all@) == spec_decompose_all(fs, ts));
        assert(pair_views(conflicting@) == spec_conflict_pairs(views(all@)));
        let ps = pair_views(conflicting@);
        let toks = choose|toks: Seq<Seq<char>>|
            toks.len() == conflicting@.len() && wf_tokens(toks) && views(resolved@)
                == spec_resolve(ps, toks);
        lemma_resolve_len(ps, toks, ps.len() as int);
    }
    Ok(RenamePlan { singles: non_conflicting, resolved, conflict_pairs })
}

} // verus!
