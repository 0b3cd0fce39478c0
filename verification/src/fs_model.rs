//! A file-level model of the filesystem, for stating what applying a planned
//! batch does.
//!
//! The filesystem is a map from a path to the identity of the content stored
//! there.  One rename moves the content at `from` to `to` (overwriting `to`)
//! and does nothing when `from` is absent — the per-item tolerance of the
//! execution engine.  A batch is applied in list order.  The model addresses
//! each planned path directly, as the planner's bottom-up decomposition
//! arranges; what it deliberately leaves out is a directory rename carrying
//! its descendants along.

use vstd::prelude::*;

use crate::rename::PathPair;

verus! {

/// The modelled filesystem: path to content identity.
pub type FsState = Map<Seq<char>, nat>;

/// One rename applied to the model: move the content at `from` to `to` if
/// `from` exists, otherwise fail silently and change nothing.
pub open spec fn fs_rename(m: FsState, from: Seq<char>, to: Seq<char>) -> FsState {
    if m.dom().contains(from) {
        m.remove(from).insert(to, m[from])
    } else {
        m
    }
}

/// A batch applied to the model, in list order.
pub open spec fn fs_apply(m: FsState, rs: Seq<PathPair>) -> FsState
    decreases rs.len(),
{
    if rs.len() == 0 {
        m
    } else {
        fs_apply(fs_rename(m, rs[0].0, rs[0].1), rs.subrange(1, rs.len() as int))
    }
}

/// `k` is the source of some rename in the batch.
pub open spec fn appears_as_source(rs: Seq<PathPair>, k: Seq<char>) -> bool {
    exists|j: int| 0 <= j < rs.len() && (#[trigger] rs[j]).0 == k
}

/// `k` is the target of some rename in the batch.
pub open spec fn appears_as_target(rs: Seq<PathPair>, k: Seq<char>) -> bool {
    exists|j: int| 0 <= j < rs.len() && (#[trigger] rs[j]).1 == k
}

/// A batch without path overlaps: sources pairwise distinct, targets
/// pairwise distinct, and no source is also a target.
pub open spec fn disjoint_batch(rs: Seq<PathPair>) -> bool {
    &&& forall|i: int, j: int|
        #![trigger rs[i].0, rs[j].0]
        0 <= i < j < rs.len() ==> rs[i].0 != rs[j].0
    &&& forall|i: int, j: int|
        #![trigger rs[i].1, rs[j].1]
        0 <= i < j < rs.len() ==> rs[i].1 != rs[j].1
    &&& forall|i: int, j: int|
        #![trigger rs[i].0, rs[j].1]
        0 <= i < rs.len() && 0 <= j < rs.len() ==> rs[i].0 != rs[j].1
}

/// Applying a disjoint batch whose sources all exist and whose targets are
/// all fresh moves every source's content to its target, removes every
/// source, and touches nothing else.
pub proof fn lemma_fs_apply_disjoint(m: FsState, rs: Seq<PathPair>)
    requires
        disjoint_batch(rs),
        forall|i: int|
            0 <= i < rs.len() ==> m.dom().contains((#[trigger] rs[i]).0) && !m.dom().contains(
                rs[i].1,
            ),
    ensures
        forall|i: int|
            0 <= i < rs.len() ==> fs_apply(m, rs).dom().contains((#[trigger] rs[i]).1) && fs_apply(
                m,
                rs,
            )[rs[i].1] == m[rs[i].0],
        forall|i: int| 0 <= i < rs.len() ==> !fs_apply(m, rs).dom().contains((#[trigger] rs[i]).0),
        forall|k: Seq<char>|
            m.dom().contains(k) && !appears_as_source(rs, k) ==> #[trigger] fs_apply(
                m,
                rs,
            ).dom().contains(k) && fs_apply(m, rs)[k] == m[k],
        forall|k: Seq<char>|
            !m.dom().contains(k) && !appears_as_target(rs, k) ==> !(#[trigger] fs_apply(
                m,
                rs,
            ).dom().contains(k)),
    decreases rs.len(),
{
    if rs.len() > 0 {
        let r0 = rs[0];
        let rest = rs.subrange(1, rs.len() as int);
        let m1 = fs_rename(m, r0.0, r0.1);
        assert(m1 == m.remove(r0.0).insert(r0.1, m[r0.0]));
        assert forall|i: int|
            0 <= i < rest.len() implies m1.dom().contains((#[trigger] rest[i]).0)
            && !m1.dom().contains(rest[i].1) by {
            assert(rest[i] == rs[i + 1]);
            assert(rs[i + 1].0 != rs[0].0);
            assert(rs[i + 1].0 != rs[0].1);
            assert(rs[i + 1].1 != rs[0].1);
            assert(rs[0].0 != rs[i + 1].1);
        }
        assert(disjoint_batch(rest)) by {
            assert forall|i: int, j: int|
                #![trigger rest[i].0, rest[j].0]
                0 <= i < j < rest.len() implies rest[i].0 != rest[j].0 by {
                assert(rest[i] == rs[i + 1] && rest[j] == rs[j + 1]);
            }
            assert forall|i: int, j: int|
                #![trigger rest[i].1, rest[j].1]
                0 <= i < j < rest.len() implies rest[i].1 != rest[j].1 by {
                assert(rest[i] == rs[i + 1] && rest[j] == rs[j + 1]);
            }
            assert forall|i: int, j: int|
                #![trigger rest[i].0, rest[j].1]
                0 <= i < rest.len() && 0 <= j < rest.len() implies rest[i].0 != rest[j].1 by {
                assert(rest[i] == rs[i + 1] && rest[j] == rs[j + 1]);
            }
        }
        lemma_fs_apply_disjoint(m1, rest);
        let fin = fs_apply(m, rs);
        assert(fin == fs_apply(m1, rest));
        assert forall|i: int|
            0 <= i < rs.len() implies fin.dom().contains((#[trigger] rs[i]).1) && fin[rs[i].1]
            == m[rs[i].0] by {
            if i == 0 {
                assert(m1.dom().contains(r0.1) && m1[r0.1] == m[r0.0]);
                assert(!appears_as_source(rest, r0.1)) by {
                    if appears_as_source(rest, r0.1) {
                        let j = choose|j: int|
                            0 <= j < rest.len() && (#[trigger] rest[j]).0 == r0.1;
                        assert(rs[j + 1].0 == rs[0].1);
                        assert(false);
                    }
                }
            } else {
                assert(rest[i - 1] == rs[i]);
                assert(m1[rs[i].0] == m[rs[i].0]);
            }
        }
        assert forall|i: int|
            0 <= i < rs.len() implies !fin.dom().contains((#[trigger] rs[i]).0) by {
            if i == 0 {
                assert(!m1.dom().contains(r0.0));
                assert(!appears_as_target(rest, r0.0)) by {
                    if appears_as_target(rest, r0.0) {
                        let j = choose|j: int|
                            0 <= j < rest.len() && (#[trigger] rest[j]).1 == r0.0;
                        assert(rs[0].0 != rs[j + 1].1);
                        assert(false);
                    }
                }
            } else {
                assert(rest[i - 1] == rs[i]);
            }
        }
        assert forall|k: Seq<char>|
            m.dom().contains(k) && !appears_as_source(rs, k) implies #[trigger] fin.dom().contains(
            k,
        ) && fin[k] == m[k] by {
            assert(k != r0.0) by {
                assert(rs[0].0 == r0.0);
            }
            assert(k != r0.1);
            assert(m1.dom().contains(k) && m1[k] == m[k]);
            assert(!appears_as_source(rest, k)) by {
                if appears_as_source(rest, k) {
                    let j = choose|j: int| 0 <= j < rest.len() && (#[trigger] rest[j]).0 == k;
                    assert(rs[j + 1].0 == k);
                    assert(false);
                }
            }
        }
        assert forall|k: Seq<char>|
            !m.dom().contains(k) && !appears_as_target(rs, k) implies !(#[trigger] fin.dom().contains(
            k,
        )) by {
            assert(k != r0.1) by {
                assert(rs[0].1 == r0.1);
            }
            assert(!m1.dom().contains(k));
            assert(!appears_as_target(rest, k)) by {
                if appears_as_target(rest, k) {
                    let j = choose|j: int| 0 <= j < rest.len() && (#[trigger] rest[j]).1 == k;
                    assert(rs[j + 1].1 == k);
                    assert(false);
                }
            }
        }
    }
}

} // verus!
