//! The conflict detector.
//!
//! Two renames in one batch conflict when they cannot both be applied
//! independently — above all a swap (`A -> B` together with `B -> A`).  Each
//! rename is keyed by the commutative combined key of its two paths
//! (see `crate::hash`); a single pass keeps the first rename seen with each
//! key, and a second sighting of a key classifies the pair: identical renames
//! are duplicates and pass through, differing ones are recorded as a
//! conflicting pair.  The non-conflicting list then holds exactly the input
//! renames whose value occurs in no detected conflicting pair, in input
//! order — also a later duplicate of a conflicted rename is withheld.
//!
//! Known limitation, kept deliberately: only two-element collisions surfaced
//! by key equality are caught.  Longer cycles (`A -> B`, `B -> C`, `C -> A`)
//! and same-target collisions of three or more renames are not generally
//! detected; the tool's common failure mode is the accidental pairwise swap.
//! A key collision between two structurally unrelated renames is also
//! reported as a conflicting pair; the resolver's three-step breakout applies
//! the two renames correctly in that case too.

use vstd::prelude::*;

use crate::hash::combined_key;
use crate::rename::{views, PathPair, Rename};

verus! {

/// The key under which a rename is filed by the detector.
pub open spec fn spec_key(r: PathPair) -> u64 {
    combined_key(r.0, r.1)
}

/// The detector's state after a number of renames have been scanned: the
/// first rename seen with each key (by index), the rename values withheld as
/// conflicting, and the conflicting pairs in discovery order (later index
/// first, as the scan finds them).
pub struct SplitState {
    pub seen: Map<u64, int>,
    pub conflicted: Set<PathPair>,
    pub pairs: Seq<(int, int)>,
}

/// The detector's state after scanning the first `i` renames of `rs`.
pub open spec fn split_state(rs: Seq<PathPair>, i: int) -> SplitState
    decreases i,
{
    if i <= 0 {
        SplitState { seen: Map::empty(), conflicted: Set::empty(), pairs: Seq::empty() }
    } else {
        let st = split_state(rs, i - 1);
        let k = spec_key(rs[i - 1]);
        if st.seen.dom().contains(k) {
            if rs[i - 1] == rs[st.seen[k]] {
                st
            } else {
                SplitState {
                    seen: st.seen,
                    conflicted: st.conflicted.insert(rs[i - 1]).insert(rs[st.seen[k]]),
                    pairs: st.pairs.push((i - 1, st.seen[k])),
                }
            }
        } else {
            SplitState {
                seen: st.seen.insert(k, i - 1),
                conflicted: st.conflicted,
                pairs: st.pairs,
            }
        }
    }
}

/// The detector's state after scanning all of `rs`.
pub open spec fn spec_split(rs: Seq<PathPair>) -> SplitState {
    split_state(rs, rs.len() as int)
}

/// The conflicting pairs of `rs`, as rename views.
pub open spec fn spec_conflict_pairs(rs: Seq<PathPair>) -> Seq<(PathPair, PathPair)> {
    spec_split(rs).pairs.map_values(|p: (int, int)| (rs[p.0], rs[p.1]))
}

/// The elements of `rs` from position `i` on whose value is not in `confl`,
/// in order.
pub open spec fn keep_non_conflicted(rs: Seq<PathPair>, confl: Set<PathPair>, i: int) -> Seq<
    PathPair,
>
    decreases rs.len() - i,
{
    if i < 0 || i >= rs.len() {
        Seq::empty()
    } else if confl.contains(rs[i]) {
        keep_non_conflicted(rs, confl, i + 1)
    } else {
        seq![rs[i]] + keep_non_conflicted(rs, confl, i + 1)
    }
}

/// The renames of `rs` whose value occurs in no detected conflicting pair,
/// in order.
pub open spec fn spec_non_conflicting(rs: Seq<PathPair>) -> Seq<PathPair> {
    keep_non_conflicted(rs, spec_split(rs).conflicted, 0)
}

/// The views of a list of rename pairs.
pub open spec fn pair_views(ps: Seq<(Rename, Rename)>) -> Seq<(PathPair, PathPair)> {
    ps.map_values(|p: (Rename, Rename)| (p.0@, p.1@))
}

/// Everything the detector's seen map and pair list refer to lies within the
/// scanned prefix: the seen map holds indices of renames with that very key,
/// pair members are in range, and a pair's second member was seen first.
pub proof fn lemma_split_state_wf(rs: Seq<PathPair>, i: int)
    requires
        i <= rs.len(),
    ensures
        forall|k: u64| #[trigger]
            split_state(rs, i).seen.dom().contains(k) ==> 0 <= split_state(rs, i).seen[k] < i
                && spec_key(rs[split_state(rs, i).seen[k]]) == k,
        forall|a: int|
            0 <= a < split_state(rs, i).pairs.len() ==> {
                let p = #[trigger] split_state(rs, i).pairs[a];
                0 <= p.1 < p.0 < i
            },
    decreases i,
{
    if i > 0 {
        lemma_split_state_wf(rs, i - 1);
        let st = split_state(rs, i - 1);
        let st2 = split_state(rs, i);
        let k = spec_key(rs[i - 1]);
        if !st.seen.dom().contains(k) {
            assert(st2.seen == st.seen.insert(k, i - 1));
            assert forall|k2: u64| #[trigger] st2.seen.dom().contains(k2) implies 0 <= st2.seen[k2]
                < i && spec_key(rs[st2.seen[k2]]) == k2 by {
                if k2 != k {
                    assert(st.seen.dom().contains(k2));
                    assert(st2.seen[k2] == st.seen[k2]);
                }
            }
        } else {
            assert(st2.seen == st.seen);
        }
    }
}

/// The withheld values are exactly the members of the detected pairs: every
/// conflicted value occurs in some pair, and both members of every pair are
/// conflicted.
pub proof fn lemma_conflicted_members(rs: Seq<PathPair>, i: int)
    requires
        i <= rs.len(),
    ensures
        forall|v: PathPair| #[trigger]
            split_state(rs, i).conflicted.contains(v) ==> exists|a: int|
                0 <= a < split_state(rs, i).pairs.len() && ((rs[(#[trigger] split_state(
                    rs,
                    i,
                ).pairs[a]).0] == v) || rs[split_state(rs, i).pairs[a].1] == v),
        forall|a: int|
            0 <= a < split_state(rs, i).pairs.len() ==> split_state(rs, i).conflicted.contains(
                rs[(#[trigger] split_state(rs, i).pairs[a]).0],
            ) && split_state(rs, i).conflicted.contains(rs[split_state(rs, i).pairs[a].1]),
    decreases i,
{
    if i > 0 {
        lemma_conflicted_members(rs, i - 1);
        let st = split_state(rs, i - 1);
        let st2 = split_state(rs, i);
        let k = spec_key(rs[i - 1]);
        if st.seen.dom().contains(k) && rs[i - 1] != rs[st.seen[k]] {
            let j = st.seen[k];
            assert(st2.conflicted == st.conflicted.insert(rs[i - 1]).insert(rs[j]));
            assert(st2.pairs == st.pairs.push((i - 1, j)));
            assert forall|v: PathPair| #[trigger] st2.conflicted.contains(v) implies exists|a: int|
                0 <= a < st2.pairs.len() && ((rs[(#[trigger] st2.pairs[a]).0] == v)
                    || rs[st2.pairs[a].1] == v) by {
                if v == rs[i - 1] || v == rs[j] {
                    assert(st2.pairs[st2.pairs.len() - 1] == (i - 1, j));
                } else {
                    assert(st.conflicted.contains(v));
                    let a = choose|a: int|
                        0 <= a < st.pairs.len() && ((rs[(#[trigger] st.pairs[a]).0] == v)
                            || rs[st.pairs[a].1] == v);
                    assert(st2.pairs[a] == st.pairs[a]);
                }
            }
            assert forall|a: int| 0 <= a < st2.pairs.len() implies st2.conflicted.contains(
                rs[(#[trigger] st2.pairs[a]).0],
            ) && st2.conflicted.contains(rs[st2.pairs[a].1]) by {
                if a < st.pairs.len() {
                    assert(st2.pairs[a] == st.pairs[a]);
                } else {
                    assert(st2.pairs[a] == (i - 1, j));
                }
            }
        } else {
            assert(st2.conflicted == st.conflicted);
            assert(st2.pairs == st.pairs);
        }
    }
}

proof fn lemma_split_distinct_keys_upto(rs: Seq<PathPair>, i: int)
    requires
        i <= rs.len(),
        forall|a: int, b: int|
            #![trigger spec_key(rs[a]), spec_key(rs[b])]
            0 <= a < b < rs.len() ==> spec_key(rs[a]) != spec_key(rs[b]),
    ensures
        split_state(rs, i).conflicted == Set::<PathPair>::empty(),
        split_state(rs, i).pairs == Seq::<(int, int)>::empty(),
    decreases i,
{
    if i > 0 {
        lemma_split_distinct_keys_upto(rs, i - 1);
        lemma_split_state_wf(rs, i - 1);
        let st = split_state(rs, i - 1);
        let k = spec_key(rs[i - 1]);
        if st.seen.dom().contains(k) {
            assert(spec_key(rs[st.seen[k]]) == spec_key(rs[i - 1]));
            assert(false);
        }
    }
}

proof fn lemma_keep_all(rs: Seq<PathPair>, i: int)
    requires
        0 <= i <= rs.len(),
    ensures
        keep_non_conflicted(rs, Set::empty(), i) == rs.subrange(i, rs.len() as int),
    decreases rs.len() - i,
{
    if i < rs.len() {
        lemma_keep_all(rs, i + 1);
        assert(seq![rs[i]] + rs.subrange(i + 1, rs.len() as int) =~= rs.subrange(
            i,
            rs.len() as int,
        ));
    } else {
        assert(rs.subrange(i, rs.len() as int) =~= Seq::<PathPair>::empty());
    }
}

/// When no two renames of the batch share a conflict key, the detector finds
/// nothing: no conflicting pairs, and the non-conflicting list is the batch
/// itself, in order.
pub proof fn lemma_split_distinct_keys(rs: Seq<PathPair>)
    requires
        forall|a: int, b: int|
            #![trigger spec_key(rs[a]), spec_key(rs[b])]
            0 <= a < b < rs.len() ==> spec_key(rs[a]) != spec_key(rs[b]),
    ensures
        spec_conflict_pairs(rs).len() == 0,
        spec_non_conflicting(rs) == rs,
{
    lemma_split_distinct_keys_upto(rs, rs.len() as int);
    lemma_keep_all(rs, 0);
    assert(rs.subrange(0, rs.len() as int) =~= rs);
}

/// What the kept list holds: only values outside `confl`, and every element
/// of `rs` (from `i` on) whose value is outside `confl`.
pub proof fn lemma_keep_contains(rs: Seq<PathPair>, confl: Set<PathPair>, i: int)
    requires
        0 <= i <= rs.len(),
    ensures
        forall|v: PathPair| #[trigger]
            keep_non_conflicted(rs, confl, i).contains(v) ==> !confl.contains(v),
        forall|q: int|
            i <= q < rs.len() && !confl.contains(rs[q]) ==> keep_non_conflicted(
                rs,
                confl,
                i,
            ).contains(#[trigger] rs[q]),
    decreases rs.len() - i,
{
    if i < rs.len() {
        lemma_keep_contains(rs, confl, i + 1);
        let kept = keep_non_conflicted(rs, confl, i);
        let rest = keep_non_conflicted(rs, confl, i + 1);
        if !confl.contains(rs[i]) {
            assert forall|v: PathPair| #[trigger] kept.contains(v) implies !confl.contains(v) by {
                let x = choose|x: int| 0 <= x < kept.len() && kept[x] == v;
                if x == 0 {
                    assert(v == rs[i]);
                } else {
                    assert(rest[x - 1] == v);
                    assert(rest.contains(v));
                }
            }
            assert forall|q: int|
                i <= q < rs.len() && !confl.contains(rs[q]) implies kept.contains(
                #[trigger] rs[q],
            ) by {
                if q == i {
                    assert(kept[0] == rs[i]);
                } else {
                    assert(rest.contains(rs[q]));
                    let x = choose|x: int| 0 <= x < rest.len() && rest[x] == rs[q];
                    assert(kept[x + 1] == rs[q]);
                }
            }
        }
    }
}

/// First entry of `seen` with key `k`, if any.
fn find_key(seen: &Vec<(u64, usize)>, k: u64) -> (r: Option<usize>)
    ensures
        match r {
            Some(j) => exists|a: int| 0 <= a < seen@.len() && seen@[a] == (k, j),
            None => forall|a: int| 0 <= a < seen@.len() ==> (#[trigger] seen@[a]).0 != k,
        },
{
    let mut a: usize = 0;
    while a < seen.len()
        invariant
            a <= seen@.len(),
            forall|b: int| 0 <= b < a ==> (#[trigger] seen@[b]).0 != k,
        decreases seen@.len() - a,
    {
        let (key, j) = seen[a];
        if key == k {
            return Some(j);
        }
        a = a + 1;
    }
    None
}

/// Whether `r`'s value occurs in one of the detected pairs.
fn value_in_pairs(pairs: &Vec<(Rename, Rename)>, r: &Rename) -> (found: bool)
    ensures
        found == exists|a: int|
            0 <= a < pairs@.len() && ((#[trigger] pairs@[a]).0@ == r@ || pairs@[a].1@ == r@),
{
    let mut a: usize = 0;
    while a < pairs.len()
        invariant
            a <= pairs@.len(),
            forall|b: int|
                0 <= b < a ==> !((#[trigger] pairs@[b]).0@ == r@ || pairs@[b].1@ == r@),
        decreases pairs@.len() - a,
    {
        if r.eq(&pairs[a].0) || r.eq(&pairs[a].1) {
            proof {
                assert((pairs@[a as int]).0@ == r@ || (pairs@[a as int]).1@ == r@);
            }
            return true;
        }
        a = a + 1;
    }
    false
}

/// Split a batch into its detected conflicting pairs (in discovery order,
/// later rename first in each pair) and the renames whose value occurs in no
/// detected pair (in input order).
pub fn split_by_rename_conflicts(renames: &Vec<Rename>) -> (r: (
    Vec<(Rename, Rename)>,
    Vec<Rename>,
))
    ensures
        pair_views(r.0@) == spec_conflict_pairs(views(renames@)),
        views(r.1@) == spec_non_conflicting(views(renames@)),
{
    let ghost rsv = views(renames@);
    let n = renames.len();
    let mut seen: Vec<(u64, usize)> = Vec::new();
    let mut pairs: Vec<(Rename, Rename)> = Vec::new();
    let mut i: usize = 0;
    while i < n
        invariant
            i <= n,
            n == renames@.len(),
            rsv == views(renames@),
            rsv.len() == n,
            forall|a: int|
                0 <= a < seen@.len() ==> split_state(rsv, i as int).seen.contains_pair(
                    (#[trigger] seen@[a]).0,
                    seen@[a].1 as int,
                ),
            forall|k: u64| #[trigger]
                split_state(rsv, i as int).seen.dom().contains(k) ==> exists|a: int|
                    0 <= a < seen@.len() && (#[trigger] seen@[a]).0 == k,
            pair_views(pairs@) == split_state(rsv, i as int).pairs.map_values(
                |p: (int, int)| (rsv[p.0], rsv[p.1]),
            ),
        decreases n - i,
    {
        let k = renames[i].combined_hash();
        proof {
            lemma_split_state_wf(rsv, i as int);
            assert(rsv[i as int] == renames@[i as int]@);
            assert(spec_key(rsv[i as int]) == k);
        }
        let ghost st = split_state(rsv, i as int);
        let ghost st2 = split_state(rsv, i as int + 1);
        match find_key(&seen, k) {
            None => {
                proof {
                    if st.seen.dom().contains(k) {
                        let a = choose|a: int| 0 <= a < seen@.len() && (#[trigger] seen@[a]).0 == k;
                        assert(false);
                    }
                    assert(st2.seen == st.seen.insert(k, i as int));
                    assert(st2.pairs == st.pairs);
                }
                let ghost seen0 = seen@;
                seen.push((k, i));
                proof {
                    assert(seen@ == seen0.push((k, i)));
                    assert forall|k2: u64| #[trigger] st2.seen.dom().contains(k2) implies exists|
                        a: int,
                    | 0 <= a < seen@.len() && (#[trigger] seen@[a]).0 == k2 by {
                        if k2 == k {
                            assert(seen@[seen@.len() - 1].0 == k2);
                        } else {
                            assert(st.seen.dom().contains(k2));
                            let a = choose|a: int|
                                0 <= a < seen0.len() && (#[trigger] seen0[a]).0 == k2;
                            assert(seen@[a] == seen0[a]);
                            assert(seen@[a].0 == k2);
                        }
                    }
                }
            },
            Some(j) => {
                proof {
                    let a = choose|a: int| 0 <= a < seen@.len() && seen@[a] == (k, j);
                    assert(st.seen.contains_pair(k, j as int));
                    assert(st.seen[k] == j as int);
                    assert(0 <= j < i);
                }
                if renames[i] == renames[j] {
                    proof {
                        assert(rsv[i as int] == rsv[j as int]);
                        assert(st2 == st);
                    }
                } else {
                    proof {
                        assert(rsv[i as int] != rsv[j as int]);
                        assert(st2.seen == st.seen);
                        assert(st2.pairs == st.pairs.push((i as int, j as int)));
                    }
                    let pr = (renames[i].clone(), renames[j].clone());
                    proof {
                        assert(pair_views(pairs@.push(pr)) =~= pair_views(pairs@).push(
                            (rsv[i as int], rsv[j as int]),
                        ));
                        assert(st2.pairs.map_values(|p: (int, int)| (rsv[p.0], rsv[p.1])) =~= st.pairs.map_values(
                            |p: (int, int)| (rsv[p.0], rsv[p.1]),
                        ).push((rsv[i as int], rsv[j as int])));
                    }
                    pairs.push(pr);
                }
            },
        }
        i = i + 1;
    }
    let ghost confl = spec_split(rsv).conflicted;
    let ghost spairs = spec_split(rsv).pairs;
    proof {
        lemma_split_state_wf(rsv, rsv.len() as int);
        lemma_conflicted_members(rsv, rsv.len() as int);
    }
    let mut non_conflicting: Vec<Rename> = Vec::new();
    let mut q: usize = 0;
    #[verifier::loop_isolation(false)]
    while q < n
        invariant
            q <= n,
            views(non_conflicting@) + keep_non_conflicted(rsv, confl, q as int)
                == spec_non_conflicting(rsv),
        decreases n - q,
    {
        let withheld = value_in_pairs(&pairs, &renames[q]);
        proof {
            let v = rsv[q as int];
            assert(v == renames@[q as int]@);
            if withheld {
                let a = choose|a: int|
                    0 <= a < pairs@.len() && ((#[trigger] pairs@[a]).0@ == renames@[q as int]@
                        || pairs@[a].1@ == renames@[q as int]@);
                assert(pair_views(pairs@)[a] == (pairs@[a].0@, pairs@[a].1@));
                assert(pair_views(pairs@)[a] == (rsv[spairs[a].0], rsv[spairs[a].1]));
                assert(confl.contains(v));
            } else {
                if confl.contains(v) {
                    let a = choose|a: int|
                        0 <= a < spairs.len() && ((rsv[(#[trigger] spairs[a]).0] == v)
                            || rsv[spairs[a].1] == v);
                    assert(pair_views(pairs@)[a] == (rsv[spairs[a].0], rsv[spairs[a].1]));
                    assert(pair_views(pairs@)[a] == (pairs@[a].0@, pairs@[a].1@));
                    assert((pairs@[a]).0@ == v || (pairs@[a]).1@ == v);
                    assert(false);
                }
            }
        }
        if !withheld {
            let r = renames[q].clone();
            proof {
                assert(views(non_conflicting@.push(r)) =~= views(non_conflicting@).push(
                    rsv[q as int],
                ));
                assert(views(non_conflicting@).push(rsv[q as int]) + keep_non_conflicted(
                    rsv,
                    confl,
                    q as int + 1,
                ) =~= views(non_conflicting@) + keep_non_conflicted(rsv, confl, q as int));
            }
            non_conflicting.push(r);
        }
        q = q + 1;
    }
    proof {
        assert(views(non_conflicting@) + keep_non_conflicted(rsv, confl, n as int) =~= views(
            non_conflicting@,
        ));
    }
    (pairs, non_conflicting)
}

} // verus!
