//! The batch-level guarantees of the planner, stated and proved over the
//! same specification pipeline that the executable functions' contracts use:
//! `spec_decompose_all` (decomposition), `spec_non_conflicting` and
//! `spec_conflict_pairs` (detection), `spec_resolve` (the temporary hop),
//! and `fs_apply` (the file-level filesystem model).

use vstd::prelude::*;

use crate::conflict::{
    keep_non_conflicted, lemma_conflicted_members, lemma_keep_contains, lemma_split_distinct_keys,
    spec_conflict_pairs, spec_key, spec_non_conflicting, spec_split, split_state,
};
use crate::fs_model::{
    appears_as_source, disjoint_batch, fs_apply, fs_rename, lemma_fs_apply_disjoint, FsState,
};
use crate::hash::lemma_combined_key_commutes;
use crate::paths::{
    component, depth, lemma_replace_filename_child, seg_name, seg_parent, spec_replace_filename,
};
use crate::plan::{
    all_compatible, decompose_all_upto, lemma_wf_token_seg_name, resolve_upto, spec_decompose_all,
    spec_resolve, spec_triple, wf_token,
};
use crate::rename::{
    compatible, lemma_decompose_equal_upto, lemma_decompose_single, spec_decompose, PathPair,
};

verus! {

proof fn lemma_decompose_all_singletons(fs: Seq<Seq<char>>, ts: Seq<Seq<char>>, i: int)
    requires
        fs.len() == ts.len(),
        0 <= i <= fs.len(),
        forall|q: int|
            0 <= q < fs.len() ==> #[trigger] spec_decompose(fs[q], ts[q]) == seq![(fs[q], ts[q])],
    ensures
        decompose_all_upto(fs, ts, i) == Seq::new(i as nat, |q: int| (fs[q], ts[q])),
    decreases i,
{
    if i <= 0 {
        assert(Seq::new(0, |q: int| (fs[q], ts[q])) =~= Seq::<PathPair>::empty());
    } else {
        lemma_decompose_all_singletons(fs, ts, i - 1);
        assert(Seq::new(i as nat, |q: int| (fs[q], ts[q])) =~= Seq::new(
            (i - 1) as nat,
            |q: int| (fs[q], ts[q]),
        ) + seq![(fs[i - 1], ts[i - 1])]);
    }
}

/// The atomic rename's invariant: a compatible pair decomposes into
/// operations that each change their path — no identity rename ever reaches
/// the plan from the decomposer.
pub proof fn lemma_no_identity_renames(f: Seq<char>, t: Seq<char>)
    requires
        compatible(f, t),
    ensures
        forall|k: int|
            0 <= k < spec_decompose(f, t).len() ==> (#[trigger] spec_decompose(f, t)[k]).0
                != spec_decompose(f, t)[k].1,
{
    crate::rename::lemma_decompose_from_no_identity(f, t, depth(f) as int - 1);
}

/// A no-op pair contributes nothing to a batch: a pair whose two paths are
/// equal is always compatible and decomposes into zero renames, so planning
/// it adds no operation and applying the plan has no effect for it.
pub proof fn lemma_noop_pair(path: Seq<char>)
    ensures
        compatible(path, path),
        spec_decompose(path, path) == Seq::<PathPair>::empty(),
{
    assert forall|j: int| 0 <= j <= depth(path) as int - 1 implies #[trigger] component(path, j)
        == component(path, j) by {}
    lemma_decompose_equal_upto(path, path, depth(path) as int - 1);
}

/// The detector partitions the batch by value: an input rename stays in the
/// non-conflicting list exactly when its value occurs in no detected
/// conflicting pair — never both, never lost.  Every withheld value occurs in
/// some pair, so nothing disappears from the plan.
pub proof fn lemma_split_partition(rs: Seq<PathPair>)
    ensures
        forall|q: int|
            0 <= q < rs.len() ==> (spec_non_conflicting(rs).contains(#[trigger] rs[q])
                <==> !spec_split(rs).conflicted.contains(rs[q])),
        forall|v: PathPair| #[trigger]
            spec_split(rs).conflicted.contains(v) ==> exists|a: int|
                0 <= a < spec_conflict_pairs(rs).len() && ((#[trigger] spec_conflict_pairs(
                    rs,
                )[a]).0 == v || spec_conflict_pairs(rs)[a].1 == v),
{
    let confl = spec_split(rs).conflicted;
    lemma_keep_contains(rs, confl, 0);
    lemma_conflicted_members(rs, rs.len() as int);
    assert forall|v: PathPair| #[trigger] spec_split(rs).conflicted.contains(v) implies exists|
        a: int,
    |
        0 <= a < spec_conflict_pairs(rs).len() && ((#[trigger] spec_conflict_pairs(rs)[a]).0 == v
            || spec_conflict_pairs(rs)[a].1 == v) by {
        let a = choose|a: int|
            0 <= a < split_state(rs, rs.len() as int).pairs.len() && ((rs[(#[trigger] split_state(
                rs,
                rs.len() as int,
            ).pairs[a]).0] == v) || rs[split_state(rs, rs.len() as int).pairs[a].1] == v);
        assert(spec_conflict_pairs(rs)[a] == (
            rs[spec_split(rs).pairs[a].0],
            rs[spec_split(rs).pairs[a].1],
        ));
    }
}

/// The planning half of `lemma_independent_batch_moves_contents`: for a
/// batch of sibling renames with pairwise distinct conflict keys, the
/// decomposition is the batch itself and the detector withholds nothing.
pub proof fn lemma_independent_batch_plan(
    froms: Seq<Seq<char>>,
    tos: Seq<Seq<char>>,
    parents: Seq<Seq<char>>,
    olds: Seq<Seq<char>>,
    news: Seq<Seq<char>>,
)
    requires
        froms.len() == tos.len(),
        parents.len() == froms.len(),
        olds.len() == froms.len(),
        news.len() == froms.len(),
        forall|i: int| 0 <= i < froms.len() ==> #[trigger] froms[i] == parents[i] + olds[i],
        forall|i: int| 0 <= i < froms.len() ==> #[trigger] tos[i] == parents[i] + news[i],
        forall|i: int| 0 <= i < froms.len() ==> seg_parent(#[trigger] parents[i]),
        forall|i: int|
            0 <= i < froms.len() ==> seg_name(#[trigger] olds[i]) && seg_name(news[i]) && olds[i]
                != news[i],
        forall|i: int, j: int|
            #![trigger spec_key((froms[i], tos[i])), spec_key((froms[j], tos[j]))]
            0 <= i < j < froms.len() ==> spec_key((froms[i], tos[i])) != spec_key(
                (froms[j], tos[j]),
            ),
    ensures
        all_compatible(froms, tos),
        spec_decompose_all(froms, tos) == Seq::new(froms.len(), |i: int| (froms[i], tos[i])),
        spec_conflict_pairs(spec_decompose_all(froms, tos)).len() == 0,
        spec_non_conflicting(spec_decompose_all(froms, tos)) == spec_decompose_all(froms, tos),
{
    let n = froms.len() as int;
    assert forall|q: int| 0 <= q < n implies #[trigger] spec_decompose(froms[q], tos[q]) == seq![
        (froms[q], tos[q]),
    ] && compatible(froms[q], tos[q]) by {
        lemma_decompose_single(parents[q], olds[q], news[q]);
    }
    assert forall|j: int| 0 <= j < froms.len() implies #[trigger] compatible(froms[j], tos[j]) by {
        assert(spec_decompose(froms[j], tos[j]) == seq![(froms[j], tos[j])]);
    }
    lemma_decompose_all_singletons(froms, tos, n);
    let rsv = Seq::new(froms.len(), |i: int| (froms[i], tos[i]));
    assert(spec_decompose_all(froms, tos) == rsv);
    assert forall|a: int, b: int|
        #![trigger spec_key(rsv[a]), spec_key(rsv[b])]
        0 <= a < b < rsv.len() implies spec_key(rsv[a]) != spec_key(rsv[b]) by {
        assert(rsv[a] == (froms[a], tos[a]));
        assert(rsv[b] == (froms[b], tos[b]));
    }
    lemma_split_distinct_keys(rsv);
}

/// For an equal-length batch without path overlaps — every pair renames a
/// child within its directory, all sources and all targets are pairwise
/// distinct and no source is a target, every source exists, no target
/// exists, and no two renames share a conflict key — the planner withholds
/// nothing: the planned list is exactly the input pairs in order, there are
/// no conflicting pairs, and applying the plan to the filesystem model puts
/// each source's former content at its target, removes each source, and
/// leaves every other file untouched.
#[verifier::rlimit(100)]
#[verifier::spinoff_prover]
pub proof fn lemma_independent_batch_moves_contents(
    m: FsState,
    froms: Seq<Seq<char>>,
    tos: Seq<Seq<char>>,
    parents: Seq<Seq<char>>,
    olds: Seq<Seq<char>>,
    news: Seq<Seq<char>>,
)
    requires
        froms.len() == tos.len(),
        parents.len() == froms.len(),
        olds.len() == froms.len(),
        news.len() == froms.len(),
        forall|i: int| 0 <= i < froms.len() ==> #[trigger] froms[i] == parents[i] + olds[i],
        forall|i: int| 0 <= i < froms.len() ==> #[trigger] tos[i] == parents[i] + news[i],
        forall|i: int| 0 <= i < froms.len() ==> seg_parent(#[trigger] parents[i]),
        forall|i: int|
            0 <= i < froms.len() ==> seg_name(#[trigger] olds[i]) && seg_name(news[i]) && olds[i]
                != news[i],
        forall|i: int, j: int|
            #![trigger froms[i], froms[j]]
            0 <= i < j < froms.len() ==> froms[i] != froms[j],
        forall|i: int, j: int| #![trigger tos[i], tos[j]] 0 <= i < j < tos.len() ==> tos[i] != tos[j],
        forall|i: int, j: int|
            #![trigger froms[i], tos[j]]
            0 <= i < froms.len() && 0 <= j < tos.len() ==> froms[i] != tos[j],
        forall|i: int|
            0 <= i < froms.len() ==> m.dom().contains(#[trigger] froms[i]) && !m.dom().contains(
                tos[i],
            ),
        forall|i: int, j: int|
            #![trigger spec_key((froms[i], tos[i])), spec_key((froms[j], tos[j]))]
            0 <= i < j < froms.len() ==> spec_key((froms[i], tos[i])) != spec_key(
                (froms[j], tos[j]),
            ),
    ensures
        all_compatible(froms, tos),
        spec_decompose_all(froms, tos) == Seq::new(froms.len(), |i: int| (froms[i], tos[i])),
        spec_conflict_pairs(spec_decompose_all(froms, tos)).len() == 0,
        spec_non_conflicting(spec_decompose_all(froms, tos)) == spec_decompose_all(froms, tos),
        forall|i: int|
            0 <= i < froms.len() ==> fs_apply(m, spec_decompose_all(froms, tos)).dom().contains(
                #[trigger] tos[i],
            ) && fs_apply(m, spec_decompose_all(froms, tos))[tos[i]] == m[froms[i]],
        forall|i: int|
            0 <= i < froms.len() ==> !fs_apply(m, spec_decompose_all(froms, tos)).dom().contains(
                #[trigger] froms[i],
            ),
        forall|k: Seq<char>|
            m.dom().contains(k) && !appears_as_source(spec_decompose_all(froms, tos), k)
                ==> #[trigger] fs_apply(m, spec_decompose_all(froms, tos)).dom().contains(k)
                && fs_apply(m, spec_decompose_all(froms, tos))[k] == m[k],
{
    let n = froms.len() as int;
    lemma_independent_batch_plan(froms, tos, parents, olds, news);
    let rsv = Seq::new(froms.len(), |i: int| (froms[i], tos[i]));
    assert(spec_decompose_all(froms, tos) == rsv);
    assert(disjoint_batch(rsv)) by {
        assert forall|i: int, j: int|
            #![trigger rsv[i].0, rsv[j].0]
            0 <= i < j < rsv.len() implies rsv[i].0 != rsv[j].0 by {
            assert(rsv[i] == (froms[i], tos[i]) && rsv[j] == (froms[j], tos[j]));
        }
        assert forall|i: int, j: int|
            #![trigger rsv[i].1, rsv[j].1]
            0 <= i < j < rsv.len() implies rsv[i].1 != rsv[j].1 by {
            assert(rsv[i] == (froms[i], tos[i]) && rsv[j] == (froms[j], tos[j]));
        }
        assert forall|i: int, j: int|
            #![trigger rsv[i].0, rsv[j].1]
            0 <= i < rsv.len() && 0 <= j < rsv.len() implies rsv[i].0 != rsv[j].1 by {
            assert(rsv[i] == (froms[i], tos[i]) && rsv[j] == (froms[j], tos[j]));
        }
    }
    assert forall|i: int|
        0 <= i < rsv.len() implies m.dom().contains((#[trigger] rsv[i]).0) && !m.dom().contains(
        rsv[i].1,
    ) by {
        assert(rsv[i] == (froms[i], tos[i]));
    }
    lemma_fs_apply_disjoint(m, rsv);
    assert forall|i: int| 0 <= i < n implies fs_apply(m, rsv).dom().contains(#[trigger] tos[i])
        && fs_apply(m, rsv)[tos[i]] == m[froms[i]] by {
        assert(rsv[i] == (froms[i], tos[i]));
    }
    assert forall|i: int| 0 <= i < n implies !fs_apply(m, rsv).dom().contains(
        #[trigger] froms[i],
    ) by {
        assert(rsv[i] == (froms[i], tos[i]));
    }
}

/// What applying one three-step breakout does, step by step: park `x.0`
/// under the temporary name, run `y`, complete the move to `x.1`.  The
/// hypotheses only keep each step's source alive, so both a swap (where `y`
/// runs between the two halves of `x`) and an unrelated pair satisfy them;
/// each caller simplifies the resulting map to its own shape.
proof fn lemma_triple_application(m: FsState, x: PathPair, y: PathPair, tok: Seq<char>)
    requires
        m.dom().contains(x.0),
        m.dom().contains(y.0),
        y.0 != x.0,
        !m.dom().contains(spec_replace_filename(x.1, tok)),
        spec_replace_filename(x.1, tok) != y.0,
        spec_replace_filename(x.1, tok) != y.1,
    ensures
        ({
            let temp = spec_replace_filename(x.1, tok);
            fs_apply(m, spec_triple((x, y), tok)) == m.remove(x.0).insert(temp, m[x.0]).remove(
                y.0,
            ).insert(y.1, m[y.0]).remove(temp).insert(x.1, m[x.0])
        }),
{
    let temp = spec_replace_filename(x.1, tok);
    let moves = spec_triple((x, y), tok);
    assert(moves == seq![(x.0, temp), (y.0, y.1), (temp, x.1)]);
    let m1 = fs_rename(m, x.0, temp);
    assert(m1 == m.remove(x.0).insert(temp, m[x.0]));
    let m2 = fs_rename(m1, y.0, y.1);
    assert(m1.dom().contains(y.0) && m1[y.0] == m[y.0]);
    assert(m2 == m1.remove(y.0).insert(y.1, m[y.0]));
    let m3 = fs_rename(m2, temp, x.1);
    assert(m2.dom().contains(temp) && m2[temp] == m[x.0]);
    assert(m3 == m2.remove(temp).insert(x.1, m[x.0]));
    let rest1 = moves.subrange(1, 3);
    let rest2 = rest1.subrange(1, 2);
    assert(rest1 =~= seq![(y.0, y.1), (temp, x.1)]);
    assert(rest2 =~= seq![(temp, x.1)]);
    assert(moves[0] == (x.0, temp));
    assert(fs_apply(m, moves) == fs_apply(m1, rest1));
    assert(fs_apply(m1, rest1) == fs_apply(m2, rest2));
    assert(rest2.subrange(1, 1).len() == 0);
    assert(fs_apply(m2, rest2) == fs_apply(m3, rest2.subrange(1, 1)));
    assert(fs_apply(m3, rest2.subrange(1, 1)) == m3);
}

/// The three-step breakout is safe beyond pure swaps: when the detector
/// pairs two renames that do not alias at all (a key collision of two
/// independent renames), the resolved sequence still applies exactly the two
/// renames — the detour through the temporary name changes nothing.
pub proof fn lemma_resolved_pair_applies_both(
    m: FsState,
    x: PathPair,
    y: PathPair,
    tok: Seq<char>,
)
    requires
        m.dom().contains(x.0),
        m.dom().contains(y.0),
        !m.dom().contains(x.1),
        !m.dom().contains(y.1),
        x.0 != y.0,
        x.1 != y.1,
        x.0 != y.1,
        y.0 != x.1,
        !m.dom().contains(spec_replace_filename(x.1, tok)),
        spec_replace_filename(x.1, tok) != x.1,
        spec_replace_filename(x.1, tok) != y.1,
    ensures
        fs_apply(m, spec_triple((x, y), tok)) == m.remove(x.0).remove(y.0).insert(
            x.1,
            m[x.0],
        ).insert(y.1, m[y.0]),
{
    let temp = spec_replace_filename(x.1, tok);
    assert(temp != y.0);
    lemma_triple_application(m, x, y, tok);
    assert(m.remove(x.0).insert(temp, m[x.0]).remove(y.0).insert(y.1, m[y.0]).remove(temp).insert(
        x.1,
        m[x.0],
    ) =~= m.remove(x.0).remove(y.0).insert(x.1, m[x.0]).insert(y.1, m[y.0]));
}

/// A false positive of the detector is harmless end to end: planning a batch
/// of two sibling renames that share a conflict key without aliasing at all
/// withholds both as the one conflicting pair, and the resolved three-step
/// sequence, applied to the filesystem model, still moves both contents to
/// their targets.
pub proof fn lemma_collision_batch_moves_contents(
    m: FsState,
    p1: Seq<char>,
    a1: Seq<char>,
    b1: Seq<char>,
    p2: Seq<char>,
    a2: Seq<char>,
    b2: Seq<char>,
    tok: Seq<char>,
)
    requires
        seg_parent(p1),
        seg_name(a1),
        seg_name(b1),
        a1 != b1,
        seg_parent(p2),
        seg_name(a2),
        seg_name(b2),
        a2 != b2,
        wf_token(tok),
        spec_key((p1 + a1, p1 + b1)) == spec_key((p2 + a2, p2 + b2)),
        (p1 + a1, p1 + b1) != (p2 + a2, p2 + b2),
        m.dom().contains(p1 + a1),
        m.dom().contains(p2 + a2),
        !m.dom().contains(p1 + b1),
        !m.dom().contains(p2 + b2),
        p1 + a1 != p2 + a2,
        p1 + b1 != p2 + b2,
        p1 + a1 != p2 + b2,
        p2 + a2 != p1 + b1,
        !m.dom().contains(p2 + tok),
        p2 + tok != p1 + b1,
        p2 + tok != p2 + b2,
    ensures
        ({
            let x = (p2 + a2, p2 + b2);
            let y = (p1 + a1, p1 + b1);
            let rsv = spec_decompose_all(seq![y.0, x.0], seq![y.1, x.1]);
            &&& rsv == seq![y, x]
            &&& spec_non_conflicting(rsv) == Seq::<PathPair>::empty()
            &&& spec_conflict_pairs(rsv) == seq![(x, y)]
            &&& fs_apply(m, spec_resolve(spec_conflict_pairs(rsv), seq![tok])) == m.remove(
                x.0,
            ).remove(y.0).insert(x.1, m[x.0]).insert(y.1, m[y.0])
        }),
{
    let x = (p2 + a2, p2 + b2);
    let y = (p1 + a1, p1 + b1);
    lemma_wf_token_seg_name(tok);
    lemma_decompose_single(p1, a1, b1);
    lemma_decompose_single(p2, a2, b2);
    let fs0 = seq![y.0, x.0];
    let ts0 = seq![y.1, x.1];
    let rsv = seq![y, x];
    assert(decompose_all_upto(fs0, ts0, 1) == decompose_all_upto(fs0, ts0, 0) + spec_decompose(
        y.0,
        y.1,
    ));
    assert(decompose_all_upto(fs0, ts0, 2) == decompose_all_upto(fs0, ts0, 1) + spec_decompose(
        x.0,
        x.1,
    ));
    assert(spec_decompose_all(fs0, ts0) =~= rsv);
    // The detector files the first rename under the shared key; the second
    // collides, differs, and is recorded as the conflicting pair.
    let st1 = split_state(rsv, 1);
    let st2 = split_state(rsv, 2);
    assert(split_state(rsv, 0).seen == Map::<u64, int>::empty());
    assert(st1.seen == Map::<u64, int>::empty().insert(spec_key(rsv[0]), 0));
    assert(st1.conflicted == Set::<PathPair>::empty());
    assert(st1.pairs == Seq::<(int, int)>::empty());
    assert(spec_key(rsv[1]) == spec_key(rsv[0]));
    assert(st1.seen.dom().contains(spec_key(rsv[1])));
    assert(st1.seen[spec_key(rsv[1])] == 0);
    assert(rsv[1] != rsv[0]);
    assert(st2.conflicted == Set::<PathPair>::empty().insert(rsv[1]).insert(rsv[0]));
    assert(st2.pairs == Seq::<(int, int)>::empty().push((1int, 0int)));
    assert(spec_conflict_pairs(rsv) =~= seq![(x, y)]) by {
        assert(st2.pairs[0] == (1int, 0int));
    }
    assert(st2.conflicted.contains(rsv[0]) && st2.conflicted.contains(rsv[1]));
    assert(keep_non_conflicted(rsv, st2.conflicted, 2) == Seq::<PathPair>::empty());
    assert(keep_non_conflicted(rsv, st2.conflicted, 1) == keep_non_conflicted(
        rsv,
        st2.conflicted,
        2,
    ));
    assert(keep_non_conflicted(rsv, st2.conflicted, 0) == keep_non_conflicted(
        rsv,
        st2.conflicted,
        1,
    ));
    assert(spec_non_conflicting(rsv) == Seq::<PathPair>::empty());
    // The resolver parks the second rename under the token in its target
    // directory and lets the first run unmodified in between.
    let ps = spec_conflict_pairs(rsv);
    let toks = seq![tok];
    let moves = spec_resolve(ps, toks);
    assert(ps[0] == (x, y));
    assert(resolve_upto(ps, toks, 1) == resolve_upto(ps, toks, 0) + spec_triple(ps[0], toks[0]));
    assert(moves =~= spec_triple((x, y), tok));
    lemma_replace_filename_child(p2, b2, tok);
    assert(spec_replace_filename(x.1, tok) == p2 + tok);
    lemma_resolved_pair_applies_both(m, x, y, tok);
}

/// Swap property: planning `froms = [A, B]`, `tos = [B, A]` for two sibling
/// children `A = p + a`, `B = p + b` of one directory detects the swap as
/// the single conflicting pair and withholds both renames from the
/// non-conflicting list; the resolved three-step sequence through the
/// temporary name `p + tok` — `tok` being any token the generator can
/// return, as long as its path does not already exist — applied to the
/// filesystem model, puts the content formerly at `A` at `B` and vice versa,
/// and the temporary name vanishes again.
pub proof fn lemma_swap_moves_both_contents(
    m: FsState,
    p: Seq<char>,
    a: Seq<char>,
    b: Seq<char>,
    tok: Seq<char>,
)
    requires
        seg_parent(p),
        seg_name(a),
        seg_name(b),
        a != b,
        wf_token(tok),
        m.dom().contains(p + a),
        m.dom().contains(p + b),
        !m.dom().contains(p + tok),
    ensures
        ({
            let av = p + a;
            let bv = p + b;
            let rsv = spec_decompose_all(seq![av, bv], seq![bv, av]);
            &&& rsv == seq![(av, bv), (bv, av)]
            &&& spec_non_conflicting(rsv) == Seq::<PathPair>::empty()
            &&& spec_conflict_pairs(rsv) == seq![((bv, av), (av, bv))]
            &&& fs_apply(m, spec_resolve(spec_conflict_pairs(rsv), seq![tok])) == m.insert(
                av,
                m[bv],
            ).insert(bv, m[av])
        }),
{
    let av = p + a;
    let bv = p + b;
    lemma_wf_token_seg_name(tok);
    lemma_decompose_single(p, a, b);
    lemma_decompose_single(p, b, a);
    let fs0 = seq![av, bv];
    let ts0 = seq![bv, av];
    let rsv = seq![(av, bv), (bv, av)];
    assert(decompose_all_upto(fs0, ts0, 1) == decompose_all_upto(fs0, ts0, 0) + spec_decompose(
        av,
        bv,
    ));
    assert(decompose_all_upto(fs0, ts0, 2) == decompose_all_upto(fs0, ts0, 1) + spec_decompose(
        bv,
        av,
    ));
    assert(spec_decompose_all(fs0, ts0) =~= rsv);
    // The detector files the first rename under its key; the reversed rename
    // shares the key, differs, and is recorded as the conflicting pair.
    lemma_combined_key_commutes(av, bv);
    let st1 = split_state(rsv, 1);
    let st2 = split_state(rsv, 2);
    assert(split_state(rsv, 0).seen == Map::<u64, int>::empty());
    assert(st1.seen == Map::<u64, int>::empty().insert(spec_key(rsv[0]), 0));
    assert(st1.conflicted == Set::<PathPair>::empty());
    assert(st1.pairs == Seq::<(int, int)>::empty());
    assert(spec_key(rsv[1]) == spec_key(rsv[0]));
    assert(st1.seen.dom().contains(spec_key(rsv[1])));
    assert(st1.seen[spec_key(rsv[1])] == 0);
    assert(rsv[1] != rsv[0]);
    assert(st2.conflicted == Set::<PathPair>::empty().insert(rsv[1]).insert(rsv[0]));
    assert(st2.pairs == Seq::<(int, int)>::empty().push((1int, 0int)));
    assert(spec_conflict_pairs(rsv) =~= seq![((bv, av), (av, bv))]) by {
        assert(st2.pairs[0] == (1int, 0int));
    }
    assert(st2.conflicted.contains(rsv[0]) && st2.conflicted.contains(rsv[1]));
    assert(keep_non_conflicted(rsv, st2.conflicted, 2) == Seq::<PathPair>::empty());
    assert(keep_non_conflicted(rsv, st2.conflicted, 1) == keep_non_conflicted(
        rsv,
        st2.conflicted,
        2,
    ));
    assert(keep_non_conflicted(rsv, st2.conflicted, 0) == keep_non_conflicted(
        rsv,
        st2.conflicted,
        1,
    ));
    assert(spec_non_conflicting(rsv) == Seq::<PathPair>::empty());
    // The resolved sequence: park B's source under the token, run the other
    // rename, complete the move.
    let ps = spec_conflict_pairs(rsv);
    let toks = seq![tok];
    let temp = p + tok;
    lemma_replace_filename_child(p, a, tok);
    assert(spec_replace_filename(av, tok) == temp);
    let moves = spec_resolve(ps, toks);
    assert(ps[0] == ((bv, av), (av, bv)));
    assert(resolve_upto(ps, toks, 1) == resolve_upto(ps, toks, 0) + spec_triple(ps[0], toks[0]));
    assert(moves =~= spec_triple(((bv, av), (av, bv)), tok));
    // Apply the three renames: here `y` runs between the two halves of `x`.
    assert(av != bv);
    assert(temp != av && temp != bv);
    lemma_triple_application(m, (bv, av), (av, bv), tok);
    assert(m.remove(bv).insert(temp, m[bv]).remove(av).insert(bv, m[av]).remove(temp).insert(
        av,
        m[bv],
    ) =~= m.insert(av, m[bv]).insert(bv, m[av]));
}

} // verus!
