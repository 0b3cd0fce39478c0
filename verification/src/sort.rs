//! Verified ordering of the gathered file listing.
//!
//! The listing handed to the editor can be sorted alphabetically, ascending
//! or descending, or with directories first (each group sorted internally).
//! Strings are compared character by character by code point, which on paths
//! agrees with byte-wise comparison of their UTF-8 encodings.  The
//! directories-first variant takes one flag per entry saying whether it is a
//! directory; reading that off the filesystem is the caller's part.

use vstd::prelude::*;

use vstd::multiset::Multiset;
use vstd::seq_lib::lemma_multiset_commutative;

verus! {

broadcast use vstd::seq_lib::group_to_multiset_ensures;

/// Lexicographic less-or-equal on the suffixes of `a` and `b` from `i` on.
pub open spec fn lex_le_from(a: Seq<char>, b: Seq<char>, i: int) -> bool
    decreases a.len() - i,
{
    if i < 0 || i >= a.len() {
        true
    } else if i >= b.len() {
        false
    } else if a[i] == b[i] {
        lex_le_from(a, b, i + 1)
    } else {
        (a[i] as u32) < (b[i] as u32)
    }
}

/// Lexicographic less-or-equal by code point.
pub open spec fn lex_le(a: Seq<char>, b: Seq<char>) -> bool {
    lex_le_from(a, b, 0)
}

/// Less-or-equal in the requested direction.
pub open spec fn ordered(ascending: bool, a: Seq<char>, b: Seq<char>) -> bool {
    if ascending {
        lex_le(a, b)
    } else {
        lex_le(b, a)
    }
}

/// Every earlier element is ordered before every later one.
pub open spec fn sorted_by(vs: Seq<Seq<char>>, ascending: bool) -> bool {
    forall|i: int, j: int|
        #![trigger vs[i], vs[j]]
        0 <= i < j < vs.len() ==> ordered(ascending, vs[i], vs[j])
}

proof fn lemma_lex_le_total_from(a: Seq<char>, b: Seq<char>, i: int)
    ensures
        lex_le_from(a, b, i) || lex_le_from(b, a, i),
    decreases a.len() - i,
{
    if 0 <= i < a.len() && i < b.len() {
        if a[i] == b[i] {
            lemma_lex_le_total_from(a, b, i + 1);
        } else {
            assert(a[i] as u32 != b[i] as u32) by {
                vstd::utf8::char_u32_cast(a[i], a[i] as u32);
                vstd::utf8::char_u32_cast(b[i], b[i] as u32);
            }
        }
    }
}

/// One of any two strings is ordered before the other.
pub proof fn lemma_ordered_total(ascending: bool, a: Seq<char>, b: Seq<char>)
    ensures
        ordered(ascending, a, b) || ordered(ascending, b, a),
{
    lemma_lex_le_total_from(a, b, 0);
}

proof fn lemma_lex_le_trans_from(a: Seq<char>, b: Seq<char>, c: Seq<char>, i: int)
    requires
        lex_le_from(a, b, i),
        lex_le_from(b, c, i),
    ensures
        lex_le_from(a, c, i),
    decreases a.len() - i,
{
    if 0 <= i < a.len() {
        if i < b.len() && a[i] == b[i] && i < c.len() && b[i] == c[i] {
            lemma_lex_le_trans_from(a, b, c, i + 1);
        }
    }
}

/// The ordering is transitive.
pub proof fn lemma_ordered_trans(ascending: bool, a: Seq<char>, b: Seq<char>, c: Seq<char>)
    requires
        ordered(ascending, a, b),
        ordered(ascending, b, c),
    ensures
        ordered(ascending, a, c),
{
    if ascending {
        lemma_lex_le_trans_from(a, b, c, 0);
    } else {
        lemma_lex_le_trans_from(c, b, a, 0);
    }
}

fn str_le_from(a: &str, b: &str, i: usize) -> (r: bool)
    requires
        i <= a@.len(),
        i <= b@.len(),
    ensures
        r == lex_le_from(a@, b@, i as int),
    decreases a@.len() - i,
{
    let na = a.unicode_len();
    let nb = b.unicode_len();
    if i == na {
        true
    } else if i == nb {
        false
    } else {
        let ca = a.get_char(i);
        let cb = b.get_char(i);
        if ca == cb {
            str_le_from(a, b, i + 1)
        } else {
            (ca as u32) < (cb as u32)
        }
    }
}

/// Compare two strings in the requested direction.
pub fn str_ordered(ascending: bool, a: &str, b: &str) -> (r: bool)
    ensures
        r == ordered(ascending, a@, b@),
{
    if ascending {
        str_le_from(a, b, 0)
    } else {
        str_le_from(b, a, 0)
    }
}

/// The views of a list of strings.
pub open spec fn str_views(ss: Seq<String>) -> Seq<Seq<char>> {
    ss.map_values(|s: String| s@)
}

/// Position at which `f` belongs in the sorted prefix `out`, scanning from
/// `start`: the first index whose element is not ordered before `f`.
fn insert_pos(out: &Vec<String>, f: &String, ascending: bool, start: usize) -> (r: usize)
    requires
        start <= out@.len(),
        forall|q: int| 0 <= q < start ==> ordered(ascending, (#[trigger] out@[q])@, f@),
    ensures
        start <= r <= out@.len(),
        forall|q: int| 0 <= q < r ==> ordered(ascending, (#[trigger] out@[q])@, f@),
        r < out@.len() ==> !ordered(ascending, out@[r as int]@, f@),
    decreases out@.len() - start,
{
    if start == out.len() {
        start
    } else if str_ordered(ascending, out[start].as_str(), f.as_str()) {
        insert_pos(out, f, ascending, start + 1)
    } else {
        start
    }
}

/// What sorting alphabetically promises: the same strings, in sorted order.
pub open spec fn alphabetical_post(
    old_vs: Seq<Seq<char>>,
    new_vs: Seq<Seq<char>>,
    ascending: bool,
) -> bool {
    &&& new_vs.len() == old_vs.len()
    &&& new_vs.to_multiset() == old_vs.to_multiset()
    &&& sorted_by(new_vs, ascending)
}

/// What sorting directories-first promises: the flagged entries come first
/// and each of the two groups holds its own entries in sorted order.
pub open spec fn dirs_first_post(
    old_vs: Seq<Seq<char>>,
    new_vs: Seq<Seq<char>>,
    flags: Seq<bool>,
    ascending: bool,
) -> bool {
    let dvs = spec_select(old_vs, flags, true);
    let fvs = spec_select(old_vs, flags, false);
    &&& new_vs.len() == old_vs.len()
    &&& dvs.len() + fvs.len() == old_vs.len()
    &&& new_vs.take(dvs.len() as int).to_multiset() == dvs.to_multiset()
    &&& new_vs.skip(dvs.len() as int).to_multiset() == fvs.to_multiset()
    &&& sorted_by(new_vs.take(dvs.len() as int), ascending)
    &&& sorted_by(new_vs.skip(dvs.len() as int), ascending)
}

/// Sort a list of path strings by code point, ascending or descending: the
/// result holds the same strings (as a multiset) in sorted order.
pub fn sort_alphabetical(files: &mut Vec<String>, ascending: bool)
    ensures
        alphabetical_post(str_views(old(files)@), str_views(final(files)@), ascending),
{
    let ghost orig = files@;
    let mut out: Vec<String> = Vec::new();
    let mut i: usize = 0;
    while i < files.len()
        invariant
            i <= files@.len(),
            files@ == orig,
            str_views(out@).to_multiset() == str_views(orig.take(i as int)).to_multiset(),
            sorted_by(str_views(out@), ascending),
        decreases files@.len() - i,
    {
        let f = files[i].clone();
        let pos = insert_pos(&out, &f, ascending, 0);
        let ghost out0 = out@;
        out.insert(pos, f);
        proof {
            lemma_insert_keeps_sorted(out0, f, ascending, pos as int);
            lemma_insert_multiset(out0, f, pos as int);
            assert(str_views(orig.take(i + 1)) =~= str_views(orig.take(i as int)).push(
                orig[i as int]@,
            ));
            assert(str_views(orig.take(i as int)).push(f@).to_multiset() =~= str_views(
                orig.take(i as int),
            ).to_multiset().insert(f@));
        }
        i = i + 1;
    }
    proof {
        assert(orig.take(i as int) =~= orig);
        assert(str_views(out@).to_multiset().len() == str_views(out@).len());
        assert(str_views(orig).to_multiset().len() == str_views(orig).len());
    }
    *files = out;
}

/// The views at positions from `i` on whose flag equals `want`, in order.
pub open spec fn select_from(vs: Seq<Seq<char>>, flags: Seq<bool>, want: bool, i: int) -> Seq<
    Seq<char>,
>
    decreases vs.len() - i,
{
    if i < 0 || i >= vs.len() || i >= flags.len() {
        Seq::empty()
    } else if flags[i] == want {
        seq![vs[i]] + select_from(vs, flags, want, i + 1)
    } else {
        select_from(vs, flags, want, i + 1)
    }
}

/// The views whose flag equals `want`, in order.
pub open spec fn spec_select(vs: Seq<Seq<char>>, flags: Seq<bool>, want: bool) -> Seq<Seq<char>> {
    select_from(vs, flags, want, 0)
}

/// Sort a listing with directories first: the entries flagged as directories
/// come before the rest, each group sorted alphabetically in the requested
/// direction.  `is_dir` holds one flag per entry; reading it off the
/// filesystem is the caller's part, and an entry whose metadata cannot be
/// read is flagged as not a directory.
pub fn sort_dirs_first(files: &mut Vec<String>, is_dir: &Vec<bool>, ascending: bool)
    requires
        is_dir@.len() == old(files)@.len(),
    ensures
        dirs_first_post(str_views(old(files)@), str_views(final(files)@), is_dir@, ascending),
{
    let ghost orig = files@;
    let ghost old_vs = str_views(files@);
    let ghost dvs = spec_select(old_vs, is_dir@, true);
    let ghost fvs = spec_select(old_vs, is_dir@, false);
    let mut dirs: Vec<String> = Vec::new();
    let mut others: Vec<String> = Vec::new();
    let mut i: usize = 0;
    while i < files.len()
        invariant
            i <= files@.len(),
            files@ == orig,
            old_vs == str_views(orig),
            is_dir@.len() == orig.len(),
            dirs@.len() + others@.len() == i,
            str_views(dirs@) + select_from(old_vs, is_dir@, true, i as int) == dvs,
            str_views(others@) + select_from(old_vs, is_dir@, false, i as int) == fvs,
        decreases files@.len() - i,
    {
        let f = files[i].clone();
        proof {
            assert(old_vs[i as int] == orig[i as int]@);
        }
        if is_dir[i] {
            proof {
                assert(str_views(dirs@.push(f)) =~= str_views(dirs@) + seq![f@]);
                assert((str_views(dirs@) + seq![old_vs[i as int]]) + select_from(
                    old_vs,
                    is_dir@,
                    true,
                    i as int + 1,
                ) =~= str_views(dirs@) + select_from(old_vs, is_dir@, true, i as int));
            }
            dirs.push(f);
        } else {
            proof {
                assert(str_views(others@.push(f)) =~= str_views(others@) + seq![f@]);
                assert((str_views(others@) + seq![old_vs[i as int]]) + select_from(
                    old_vs,
                    is_dir@,
                    false,
                    i as int + 1,
                ) =~= str_views(others@) + select_from(old_vs, is_dir@, false, i as int));
            }
            others.push(f);
        }
        i = i + 1;
    }
    proof {
        assert(str_views(dirs@) + select_from(old_vs, is_dir@, true, i as int) =~= str_views(
            dirs@,
        ));
        assert(str_views(others@) + select_from(old_vs, is_dir@, false, i as int) =~= str_views(
            others@,
        ));
        assert(str_views(dirs@).len() == dirs@.len());
        assert(str_views(others@).len() == others@.len());
    }
    sort_alphabetical(&mut dirs, ascending);
    sort_alphabetical(&mut others, ascending);
    let ghost dsorted = dirs@;
    let ghost osorted = others@;
    files.clear();
    files.append(&mut dirs);
    files.append(&mut others);
    proof {
        assert(files@ == dsorted + osorted);
        assert(str_views(dsorted + osorted) =~= str_views(dsorted) + str_views(osorted));
        assert(str_views(dsorted).len() == dsorted.len());
        assert(str_views(osorted).len() == osorted.len());
        let new_vs = str_views(files@);
        assert(new_vs.take(dvs.len() as int) =~= str_views(dsorted));
        assert(new_vs.skip(dvs.len() as int) =~= str_views(osorted));
    }
}

proof fn lemma_insert_multiset(out0: Seq<String>, f: String, pos: int)
    requires
        0 <= pos <= out0.len(),
    ensures
        str_views(out0.insert(pos, f)).to_multiset() == str_views(out0).to_multiset().insert(f@),
{
    let left = out0.take(pos);
    let right = out0.skip(pos);
    assert(out0.insert(pos, f) =~= left + (seq![f] + right));
    assert(str_views(left + (seq![f] + right)) =~= str_views(left) + (seq![f@] + str_views(
        right,
    )));
    lemma_multiset_commutative(str_views(left), seq![f@] + str_views(right));
    lemma_multiset_commutative(seq![f@], str_views(right));
    assert(out0 =~= left + right);
    assert(str_views(left + right) =~= str_views(left) + str_views(right));
    lemma_multiset_commutative(str_views(left), str_views(right));
    assert(seq![f@].to_multiset() == Multiset::<Seq<char>>::empty().insert(f@)) by {
        seq![f@].to_multiset_ensures();
        assert(seq![f@] =~= Seq::<Seq<char>>::empty().push(f@));
        Seq::<Seq<char>>::empty().to_multiset_ensures();
    }
    assert(str_views(out0.insert(pos, f)).to_multiset() =~= str_views(
        out0,
    ).to_multiset().insert(f@));
}

proof fn lemma_insert_keeps_sorted(out0: Seq<String>, f: String, ascending: bool, pos: int)
    requires
        0 <= pos <= out0.len(),
        sorted_by(str_views(out0), ascending),
        forall|q: int| 0 <= q < pos ==> ordered(ascending, (#[trigger] out0[q])@, f@),
        pos < out0.len() ==> !ordered(ascending, out0[pos]@, f@),
    ensures
        sorted_by(str_views(out0.insert(pos, f)), ascending),
{
    let s = out0.insert(pos, f);
    let vs0 = str_views(out0);
    let vs = str_views(s);
    assert forall|q: int| pos <= q < out0.len() implies ordered(
        ascending,
        f@,
        (#[trigger] out0[q])@,
    ) by {
        lemma_ordered_total(ascending, out0[pos]@, f@);
        if q > pos {
            assert(vs0[pos] == out0[pos]@ && vs0[q] == out0[q]@);
            assert(ordered(ascending, out0[pos]@, out0[q]@));
            lemma_ordered_trans(ascending, f@, out0[pos]@, out0[q]@);
        }
    }
    assert forall|i: int, j: int|
        #![trigger vs[i], vs[j]]
        0 <= i < j < vs.len() implies ordered(ascending, vs[i], vs[j]) by {
        if i < pos {
            assert(s[i] == out0[i] && vs[i] == out0[i]@);
        } else if i == pos {
            assert(s[i] == f && vs[i] == f@);
        } else {
            assert(s[i] == out0[i - 1] && vs[i] == out0[i - 1]@);
        }
        if j < pos {
            assert(s[j] == out0[j] && vs[j] == out0[j]@);
        } else if j == pos {
            assert(s[j] == f && vs[j] == f@);
        } else {
            assert(s[j] == out0[j - 1] && vs[j] == out0[j - 1]@);
        }
        if j < pos {
            assert(vs0[i] == out0[i]@ && vs0[j] == out0[j]@);
        } else if j == pos {
            assert(ordered(ascending, out0[i]@, f@));
        } else if i < pos {
            assert(vs0[i] == out0[i]@ && vs0[j - 1] == out0[j - 1]@);
            assert(i < j - 1);
        } else if i == pos {
            assert(ordered(ascending, f@, out0[j - 1]@));
        } else {
            assert(vs0[i - 1] == out0[i - 1]@ && vs0[j - 1] == out0[j - 1]@);
        }
    }
}

} // verus!
