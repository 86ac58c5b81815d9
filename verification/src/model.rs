//! The mathematical model of the join engine: rows as integer sequences, the
//! reference nested-loops join over them, and the lemmas every algorithm's
//! correctness proof rests on.

use vstd::prelude::*;
use vstd::seq_lib::lemma_multiset_commutative;
use vstd::multiset::Multiset;
use crate::record::Record;
use crate::record::key_at;

verus! {

/// The rows of a record sequence: each record abstracted to its column values.
pub open spec fn rows_of(rs: Seq<Record>) -> Seq<Seq<i32>> {
    rs.map_values(|r: Record| r@)
}

/// Appending a record appends its row.
pub broadcast proof fn lemma_rows_of_push(rs: Seq<Record>, rec: Record)
    ensures
        #[trigger] rows_of(rs.push(rec)) == rows_of(rs).push(rec@),
{
    assert(rows_of(rs.push(rec)) =~= rows_of(rs).push(rec@));
}

/// Every row has exactly `w` columns.
pub open spec fn uniform_width(rows: Seq<Seq<i32>>, w: int) -> bool {
    forall|i: int| 0 <= i < rows.len() ==> (#[trigger] rows[i]).len() == w
}

/// Whether a left row and a right row satisfy the equi-join predicate on the
/// given column pair.
pub open spec fn rows_match(l: Seq<i32>, r: Seq<i32>, lcol: int, rcol: int) -> bool {
    l[lcol] == r[rcol]
}

/// The merges of one left row with every matching right row, in right-table
/// order.
pub open spec fn matches_of(
    l: Seq<i32>,
    right: Seq<Seq<i32>>,
    lcol: int,
    rcol: int,
) -> Seq<Seq<i32>>
    decreases right.len(),
{
    if right.len() == 0 {
        Seq::empty()
    } else {
        let prev = matches_of(l, right.drop_last(), lcol, rcol);
        if rows_match(l, right.last(), lcol, rcol) {
            prev.push(l + right.last())
        } else {
            prev
        }
    }
}

/// The reference join: for each left row in order, the merges with every
/// matching right row in right-table order. Every algorithm of this crate is
/// proved to emit this sequence, or a reordering of it.
pub open spec fn nl_join(
    left: Seq<Seq<i32>>,
    right: Seq<Seq<i32>>,
    lcol: int,
    rcol: int,
) -> Seq<Seq<i32>>
    decreases left.len(),
{
    if left.len() == 0 {
        Seq::empty()
    } else {
        nl_join(left.drop_last(), right, lcol, rcol)
            + matches_of(left.last(), right, lcol, rcol)
    }
}


/// Cross-algorithm equivalence: any two join runs over the same tables and
/// column pair emit one multiset of merged rows, because each contract ties
/// its output's multiset to the reference join's — whatever window,
/// partition, or chunk parameters produced them.
pub proof fn lemma_cross_algorithm_equivalence(
    out1: Seq<Seq<i32>>,
    out2: Seq<Seq<i32>>,
    left: Seq<Seq<i32>>,
    right: Seq<Seq<i32>>,
    lcol: int,
    rcol: int,
)
    requires
        out1.to_multiset() == nl_join(left, right, lcol, rcol).to_multiset(),
        out2.to_multiset() == nl_join(left, right, lcol, rcol).to_multiset(),
    ensures
        out1.to_multiset() == out2.to_multiset(),
{
}

/// Rows are ordered by their value at column `col`.
pub open spec fn sorted_by_col(rows: Seq<Seq<i32>>, col: int) -> bool {
    forall|i: int, j: int|
        0 <= i <= j < rows.len() ==> key_at(#[trigger] rows[i], col) <= key_at(
            #[trigger] rows[j],
            col,
        )
}

/// Extending the probed prefix of the right table by one row extends the
/// match sequence by the merge exactly when that row matches.
pub proof fn lemma_matches_take_step(
    l: Seq<i32>,
    right: Seq<Seq<i32>>,
    lcol: int,
    rcol: int,
    j: int,
)
    requires
        0 <= j < right.len(),
    ensures
        matches_of(l, right.take(j + 1), lcol, rcol) == if rows_match(l, right[j], lcol, rcol) {
            matches_of(l, right.take(j), lcol, rcol).push(l + right[j])
        } else {
            matches_of(l, right.take(j), lcol, rcol)
        },
{
    assert(right.take(j + 1).drop_last() =~= right.take(j));
    assert(right.take(j + 1).last() == right[j]);
}

/// Extending the scanned prefix of the left table by one row appends that
/// row's matches to the join.
pub proof fn lemma_nl_take_step(
    left: Seq<Seq<i32>>,
    right: Seq<Seq<i32>>,
    lcol: int,
    rcol: int,
    i: int,
)
    requires
        0 <= i < left.len(),
    ensures
        nl_join(left.take(i + 1), right, lcol, rcol) == nl_join(left.take(i), right, lcol, rcol)
            + matches_of(left[i], right, lcol, rcol),
{
    assert(left.take(i + 1).drop_last() =~= left.take(i));
    assert(left.take(i + 1).last() == left[i]);
}

/// One row's matches distribute over concatenation of the right table.
pub proof fn lemma_matches_append(
    l: Seq<i32>,
    r1: Seq<Seq<i32>>,
    r2: Seq<Seq<i32>>,
    lcol: int,
    rcol: int,
)
    ensures
        matches_of(l, r1 + r2, lcol, rcol) == matches_of(l, r1, lcol, rcol) + matches_of(
            l,
            r2,
            lcol,
            rcol,
        ),
    decreases r2.len(),
{
    if r2.len() == 0 {
        assert(r1 + r2 =~= r1);
        assert(matches_of(l, r1, lcol, rcol) + matches_of(l, r2, lcol, rcol) =~= matches_of(
            l,
            r1,
            lcol,
            rcol,
        ));
    } else {
        lemma_matches_append(l, r1, r2.drop_last(), lcol, rcol);
        assert((r1 + r2).drop_last() =~= r1 + r2.drop_last());
        assert((r1 + r2).last() == r2.last());
        if rows_match(l, r2.last(), lcol, rcol) {
            assert(matches_of(l, r1, lcol, rcol) + matches_of(l, r2, lcol, rcol) =~= (matches_of(
                l,
                r1,
                lcol,
                rcol,
            ) + matches_of(l, r2.drop_last(), lcol, rcol)).push(l + r2.last()));
        }
    }
}

/// The join distributes over concatenation of the left table.
pub proof fn lemma_nl_left_append(
    l1: Seq<Seq<i32>>,
    l2: Seq<Seq<i32>>,
    right: Seq<Seq<i32>>,
    lcol: int,
    rcol: int,
)
    ensures
        nl_join(l1 + l2, right, lcol, rcol) == nl_join(l1, right, lcol, rcol) + nl_join(
            l2,
            right,
            lcol,
            rcol,
        ),
    decreases l2.len(),
{
    if l2.len() == 0 {
        assert(l1 + l2 =~= l1);
        assert(nl_join(l1, right, lcol, rcol) + nl_join(l2, right, lcol, rcol) =~= nl_join(
            l1,
            right,
            lcol,
            rcol,
        ));
    } else {
        lemma_nl_left_append(l1, l2.drop_last(), right, lcol, rcol);
        assert((l1 + l2).drop_last() =~= l1 + l2.drop_last());
        assert((l1 + l2).last() == l2.last());
        assert(nl_join(l1, right, lcol, rcol) + nl_join(l2, right, lcol, rcol) =~= (nl_join(
            l1,
            right,
            lcol,
            rcol,
        ) + nl_join(l2.drop_last(), right, lcol, rcol)) + matches_of(l2.last(), right, lcol, rcol));
    }
}

/// Splitting the right table in two reorders the join but preserves its
/// multiset of merged rows.
pub proof fn lemma_nl_right_append_multiset(
    left: Seq<Seq<i32>>,
    r1: Seq<Seq<i32>>,
    r2: Seq<Seq<i32>>,
    lcol: int,
    rcol: int,
)
    ensures
        nl_join(left, r1 + r2, lcol, rcol).to_multiset() == nl_join(
            left,
            r1,
            lcol,
            rcol,
        ).to_multiset().add(nl_join(left, r2, lcol, rcol).to_multiset()),
    decreases left.len(),
{
    broadcast use vstd::multiset::group_multiset_axioms;
    broadcast use vstd::seq_lib::group_to_multiset_ensures;

    if left.len() == 0 {
        assert(nl_join(left, r1 + r2, lcol, rcol).to_multiset() =~= nl_join(
            left,
            r1,
            lcol,
            rcol,
        ).to_multiset().add(nl_join(left, r2, lcol, rcol).to_multiset()));
    } else {
        let dl = left.drop_last();
        let la = left.last();
        let j1 = nl_join(dl, r1, lcol, rcol);
        let j2 = nl_join(dl, r2, lcol, rcol);
        let m1 = matches_of(la, r1, lcol, rcol);
        let m2 = matches_of(la, r2, lcol, rcol);
        lemma_nl_right_append_multiset(dl, r1, r2, lcol, rcol);
        lemma_matches_append(la, r1, r2, lcol, rcol);
        lemma_multiset_commutative(nl_join(dl, r1 + r2, lcol, rcol), matches_of(la, r1 + r2, lcol, rcol));
        lemma_multiset_commutative(m1, m2);
        lemma_multiset_commutative(j1, m1);
        lemma_multiset_commutative(j2, m2);
        assert(nl_join(left, r1 + r2, lcol, rcol).to_multiset() =~= (j1 + m1).to_multiset().add(
            (j2 + m2).to_multiset(),
        ));
    }
}

/// If either table is empty the join is empty.
pub proof fn lemma_empty_join(left: Seq<Seq<i32>>, right: Seq<Seq<i32>>, lcol: int, rcol: int)
    requires
        left.len() == 0 || right.len() == 0,
    ensures
        nl_join(left, right, lcol, rcol) == Seq::<Seq<i32>>::empty(),
    decreases left.len(),
{
    if left.len() != 0 {
        lemma_empty_join(left.drop_last(), right, lcol, rcol);
        assert(nl_join(left, right, lcol, rcol) =~= Seq::<Seq<i32>>::empty());
    }
}

/// When every left row and every right row carry one shared key, the join
/// emits exactly one merge per (left row, right row) pair.
pub proof fn lemma_duplicate_key_completeness(
    left: Seq<Seq<i32>>,
    right: Seq<Seq<i32>>,
    lcol: int,
    rcol: int,
    key: i32,
)
    requires
        forall|i: int| 0 <= i < left.len() ==> (#[trigger] left[i])[lcol] == key,
        forall|j: int| 0 <= j < right.len() ==> (#[trigger] right[j])[rcol] == key,
    ensures
        nl_join(left, right, lcol, rcol).len() == left.len() * right.len(),
    decreases left.len(),
{
    if left.len() == 0 {
    } else {
        let dl = left.drop_last();
        assert forall|i: int| 0 <= i < dl.len() implies (#[trigger] dl[i])[lcol] == key by {
            assert(dl[i] == left[i]);
        }
        lemma_duplicate_key_completeness(dl, right, lcol, rcol, key);
        lemma_matches_all_len(left.last(), right, lcol, rcol, key);
        assert((left.len() - 1) * right.len() + right.len() == left.len() * right.len())
            by (nonlinear_arith);
    }
}

/// When every right row matches the left row, there is one merge per right row.
proof fn lemma_matches_all_len(l: Seq<i32>, right: Seq<Seq<i32>>, lcol: int, rcol: int, key: i32)
    requires
        l[lcol] == key,
        forall|j: int| 0 <= j < right.len() ==> (#[trigger] right[j])[rcol] == key,
    ensures
        matches_of(l, right, lcol, rcol).len() == right.len(),
    decreases right.len(),
{
    if right.len() != 0 {
        let dr = right.drop_last();
        assert forall|j: int| 0 <= j < dr.len() implies (#[trigger] dr[j])[rcol] == key by {
            assert(dr[j] == right[j]);
        }
        lemma_matches_all_len(l, dr, lcol, rcol, key);
        assert(rows_match(l, right.last(), lcol, rcol));
    }
}

/// Filtering keeps rows, so it keeps their shared width.
pub proof fn lemma_filter_uniform(rows: Seq<Seq<i32>>, pred: spec_fn(Seq<i32>) -> bool, w: int)
    requires
        uniform_width(rows, w),
    ensures
        uniform_width(rows.filter(pred), w),
    decreases rows.len(),
{
    reveal_with_fuel(Seq::filter, 2);
    if rows.len() != 0 {
        let dl = rows.drop_last();
        assert forall|i: int| 0 <= i < dl.len() implies (#[trigger] dl[i]).len() == w by {
            assert(dl[i] == rows[i]);
        }
        lemma_filter_uniform(dl, pred, w);
        let sub = dl.filter(pred);
        if pred(rows.last()) {
            assert(rows.filter(pred) == sub.push(rows.last()));
            assert forall|i: int| 0 <= i < rows.filter(pred).len() implies (#[trigger] rows.filter(
                pred,
            )[i]).len() == w by {
                if i < sub.len() {
                    assert(rows.filter(pred)[i] == sub[i]);
                } else {
                    assert(rows.filter(pred)[i] == rows.last());
                    assert(rows.last() == rows[rows.len() - 1]);
                }
            }
        } else {
            assert(rows.filter(pred) == sub);
        }
    }
}


/// The rows carrying key `k` at column `rcol`, in order.
pub open spec fn key_filter(rows: Seq<Seq<i32>>, rcol: int, k: i32) -> Seq<Seq<i32>> {
    rows.filter(|r: Seq<i32>| r[rcol] == k)
}

/// A row's matches are exactly the rows carrying its key, in order, each
/// merged onto it.
pub proof fn lemma_matches_key_filter(l: Seq<i32>, rows: Seq<Seq<i32>>, lcol: int, rcol: int)
    ensures
        matches_of(l, rows, lcol, rcol) == key_filter(rows, rcol, l[lcol]).map_values(
            |r: Seq<i32>| l + r,
        ),
    decreases rows.len(),
{
    reveal_with_fuel(Seq::filter, 2);
    let k = l[lcol];
    let mf = |r: Seq<i32>| l + r;
    if rows.len() == 0 {
        assert(matches_of(l, rows, lcol, rcol) =~= key_filter(rows, rcol, k).map_values(mf));
    } else {
        lemma_matches_key_filter(l, rows.drop_last(), lcol, rcol);
        let sub = key_filter(rows.drop_last(), rcol, k);
        if rows.last()[rcol] == k {
            assert(rows_match(l, rows.last(), lcol, rcol));
            assert(key_filter(rows, rcol, k) == sub.push(rows.last()));
            assert(sub.push(rows.last()).map_values(mf) =~= sub.map_values(mf).push(
                mf(rows.last()),
            ));
        } else {
            assert(!rows_match(l, rows.last(), lcol, rcol));
            assert(key_filter(rows, rcol, k) == sub);
        }
    }
}


/// The rows of a sequence of record windows, concatenated in window order.
pub open spec fn concat_rows(parts: Seq<Vec<Record>>) -> Seq<Seq<i32>>
    decreases parts.len(),
{
    if parts.len() == 0 {
        Seq::empty()
    } else {
        concat_rows(parts.drop_last()) + rows_of(parts.last()@)
    }
}

/// Extending the concatenated prefix by one window appends its rows.
pub proof fn lemma_concat_rows_take_step(parts: Seq<Vec<Record>>, c: int)
    requires
        0 <= c < parts.len(),
    ensures
        concat_rows(parts.take(c + 1)) == concat_rows(parts.take(c)) + rows_of(parts[c]@),
{
    assert(parts.take(c + 1).drop_last() =~= parts.take(c));
    assert(parts.take(c + 1).last() == parts[c]);
}

/// Joining windows one by one and concatenating the results in window order
/// yields the join of the concatenated windows.
pub proof fn lemma_concat_parts_join(
    parts: Seq<Vec<Record>>,
    chunks: Seq<Vec<Record>>,
    right: Seq<Seq<i32>>,
    lcol: int,
    rcol: int,
)
    requires
        parts.len() == chunks.len(),
        forall|c: int| 0 <= c < parts.len() ==> rows_of((#[trigger] parts[c])@) == nl_join(
            rows_of(chunks[c]@),
            right,
            lcol,
            rcol,
        ),
    ensures
        concat_rows(parts) == nl_join(concat_rows(chunks), right, lcol, rcol),
    decreases parts.len(),
{
    if parts.len() == 0 {
        assert(concat_rows(parts) =~= nl_join(concat_rows(chunks), right, lcol, rcol));
    } else {
        let dp = parts.drop_last();
        let dc = chunks.drop_last();
        assert forall|c: int| 0 <= c < dp.len() implies rows_of((#[trigger] dp[c])@) == nl_join(
            rows_of(dc[c]@),
            right,
            lcol,
            rcol,
        ) by {
            assert(dp[c] == parts[c]);
            assert(dc[c] == chunks[c]);
        }
        lemma_concat_parts_join(dp, dc, right, lcol, rcol);
        assert(parts.last() == parts[parts.len() - 1]);
        lemma_nl_left_append(concat_rows(dc), rows_of(chunks.last()@), right, lcol, rcol);
    }
}

/// A row with no matching partner contributes no merges.
pub proof fn lemma_matches_none(l: Seq<i32>, rows: Seq<Seq<i32>>, lcol: int, rcol: int)
    requires
        forall|j: int| 0 <= j < rows.len() ==> !rows_match(l, #[trigger] rows[j], lcol, rcol),
    ensures
        matches_of(l, rows, lcol, rcol) == Seq::<Seq<i32>>::empty(),
    decreases rows.len(),
{
    if rows.len() != 0 {
        let dr = rows.drop_last();
        assert forall|j: int| 0 <= j < dr.len() implies !rows_match(
            l,
            #[trigger] dr[j],
            lcol,
            rcol,
        ) by {
            assert(dr[j] == rows[j]);
        }
        lemma_matches_none(l, dr, lcol, rcol);
        assert(!rows_match(l, rows[rows.len() - 1], lcol, rcol));
    }
}

/// Two tables with no matching pair join to nothing.
pub proof fn lemma_nl_no_matches(
    left: Seq<Seq<i32>>,
    right: Seq<Seq<i32>>,
    lcol: int,
    rcol: int,
)
    requires
        forall|i: int, j: int|
            0 <= i < left.len() && 0 <= j < right.len() ==> !rows_match(
                #[trigger] left[i],
                #[trigger] right[j],
                lcol,
                rcol,
            ),
    ensures
        nl_join(left, right, lcol, rcol) == Seq::<Seq<i32>>::empty(),
    decreases left.len(),
{
    if left.len() != 0 {
        let dl = left.drop_last();
        assert forall|i: int, j: int|
            0 <= i < dl.len() && 0 <= j < right.len() implies !rows_match(
            #[trigger] dl[i],
            #[trigger] right[j],
            lcol,
            rcol,
        ) by {
            assert(dl[i] == left[i]);
        }
        lemma_nl_no_matches(dl, right, lcol, rcol);
        assert(left.last() == left[left.len() - 1]);
        lemma_matches_none(left.last(), right, lcol, rcol);
        assert(nl_join(left, right, lcol, rcol) =~= Seq::<Seq<i32>>::empty());
    }
}

/// Right rows beyond the probed prefix that match nothing on the left can be
/// dropped from the join.
pub proof fn lemma_nl_right_extend_no_match(
    left: Seq<Seq<i32>>,
    right: Seq<Seq<i32>>,
    ext: Seq<Seq<i32>>,
    lcol: int,
    rcol: int,
)
    requires
        forall|i: int, j: int|
            0 <= i < left.len() && 0 <= j < ext.len() ==> !rows_match(
                #[trigger] left[i],
                #[trigger] ext[j],
                lcol,
                rcol,
            ),
    ensures
        nl_join(left, right + ext, lcol, rcol) == nl_join(left, right, lcol, rcol),
    decreases left.len(),
{
    if left.len() != 0 {
        let dl = left.drop_last();
        assert forall|i: int, j: int|
            0 <= i < dl.len() && 0 <= j < ext.len() implies !rows_match(
            #[trigger] dl[i],
            #[trigger] ext[j],
            lcol,
            rcol,
        ) by {
            assert(dl[i] == left[i]);
        }
        lemma_nl_right_extend_no_match(dl, right, ext, lcol, rcol);
        let la = left.last();
        assert(la == left[left.len() - 1]);
        lemma_matches_append(la, right, ext, lcol, rcol);
        lemma_matches_none(la, ext, lcol, rcol);
        assert(matches_of(la, right, lcol, rcol) + Seq::<Seq<i32>>::empty() =~= matches_of(
            la,
            right,
            lcol,
            rcol,
        ));
    }
}


/// For one sequence that reorders another, yields an index of the first
/// sequence's last element in the second such that dropping both leaves
/// reorderings again.
proof fn lemma_perm_remove<A>(s1: Seq<A>, s2: Seq<A>) -> (i: int)
    requires
        s1.to_multiset() == s2.to_multiset(),
        s1.len() > 0,
    ensures
        0 <= i < s2.len(),
        s2[i] == s1.last(),
        s2.remove(i).to_multiset() == s1.drop_last().to_multiset(),
{
    broadcast use vstd::seq_lib::group_to_multiset_ensures;
    broadcast use vstd::multiset::group_multiset_axioms;

    let x = s1.last();
    let dl = s1.drop_last();
    assert(s1 =~= dl.push(x));
    assert(s1.to_multiset() == dl.to_multiset().insert(x));
    assert(s2.to_multiset().count(x) > 0);
    assert(s2.contains(x));
    let i = choose|i: int| 0 <= i < s2.len() && s2[i] == x;
    assert(s2.remove(i).to_multiset() == s2.to_multiset().remove(x));
    assert(s2.remove(i).to_multiset() =~= dl.to_multiset());
    i
}

/// Reordering records reorders their rows.
pub proof fn lemma_rows_of_multiset(s1: Seq<Record>, s2: Seq<Record>)
    requires
        s1.to_multiset() == s2.to_multiset(),
    ensures
        rows_of(s1).to_multiset() == rows_of(s2).to_multiset(),
    decreases s1.len(),
{
    broadcast use vstd::seq_lib::group_to_multiset_ensures;
    broadcast use vstd::multiset::group_multiset_axioms;

    if s1.len() == 0 {
        assert(s1.len() == s1.to_multiset().len());
        assert(s2.len() == s2.to_multiset().len());
        assert(rows_of(s1).to_multiset() =~= rows_of(s2).to_multiset());
    } else {
        let x = s1.last();
        let i = lemma_perm_remove(s1, s2);
        lemma_rows_of_multiset(s1.drop_last(), s2.remove(i));
        assert(s1 =~= s1.drop_last().push(x));
        assert(rows_of(s1) == rows_of(s1.drop_last()).push(x@)) by {
            lemma_rows_of_push(s1.drop_last(), x);
        }
        assert(rows_of(s1).to_multiset() == rows_of(s1.drop_last()).to_multiset().insert(x@));
        assert(rows_of(s2.remove(i)) =~= rows_of(s2).remove(i));
        assert(rows_of(s2).remove(i).to_multiset() == rows_of(s2).to_multiset().remove(
            rows_of(s2)[i],
        ));
        assert(rows_of(s2)[i] == x@);
        assert(rows_of(s2).to_multiset().count(x@) > 0);
        assert(rows_of(s2).to_multiset() =~= rows_of(s2).to_multiset().remove(x@).insert(x@));
        assert(rows_of(s1).to_multiset() =~= rows_of(s2).to_multiset());
    }
}

/// A row's merge multiset is unchanged when the partner table is reordered.
pub proof fn lemma_matches_multiset(
    l: Seq<i32>,
    r1: Seq<Seq<i32>>,
    r2: Seq<Seq<i32>>,
    lcol: int,
    rcol: int,
)
    requires
        r1.to_multiset() == r2.to_multiset(),
    ensures
        matches_of(l, r1, lcol, rcol).to_multiset() == matches_of(l, r2, lcol, rcol).to_multiset(),
    decreases r1.len(),
{
    broadcast use vstd::seq_lib::group_to_multiset_ensures;
    broadcast use vstd::multiset::group_multiset_axioms;

    if r1.len() == 0 {
        assert(r1.len() == r1.to_multiset().len());
        assert(r2.len() == r2.to_multiset().len());
    } else {
        let x = r1.last();
        let i = lemma_perm_remove(r1, r2);
        lemma_matches_multiset(l, r1.drop_last(), r2.remove(i), lcol, rcol);
        // Split the reordered table around the shared row.
        let pre = r2.take(i);
        let post = r2.skip(i + 1);
        let single = seq![x];
        assert(r2 =~= pre + (single + post));
        assert(r2.remove(i) =~= pre + post);
        lemma_matches_append(l, pre, single + post, lcol, rcol);
        lemma_matches_append(l, single, post, lcol, rcol);
        lemma_matches_append(l, pre, post, lcol, rcol);
        assert(single.drop_last() =~= Seq::<Seq<i32>>::empty());
        assert(single.len() == 1 && single.last() == x);
        assert(matches_of(l, single.drop_last(), lcol, rcol) == Seq::<Seq<i32>>::empty());
        assert(matches_of(l, single, lcol, rcol) == if rows_match(l, x, lcol, rcol) {
            Seq::<Seq<i32>>::empty().push(l + x)
        } else {
            Seq::<Seq<i32>>::empty()
        });
        let a = matches_of(l, pre, lcol, rcol);
        let b = matches_of(l, single, lcol, rcol);
        let c = matches_of(l, post, lcol, rcol);
        lemma_multiset_commutative(a, b + c);
        lemma_multiset_commutative(b, c);
        lemma_multiset_commutative(a, c);
        // The first table splits as its prefix, the shared row, and the rest.
        assert(r1 =~= r1.drop_last().push(x));
        if rows_match(l, x, lcol, rcol) {
            assert(matches_of(l, r1, lcol, rcol) == matches_of(
                l,
                r1.drop_last(),
                lcol,
                rcol,
            ).push(l + x));
            assert(b =~= Seq::<Seq<i32>>::empty().push(l + x));
            assert(b.to_multiset() =~= Multiset::<Seq<i32>>::empty().insert(l + x));
            assert(matches_of(l, r1, lcol, rcol).to_multiset() =~= matches_of(
                l,
                r2,
                lcol,
                rcol,
            ).to_multiset());
        } else {
            assert(matches_of(l, r1, lcol, rcol) == matches_of(l, r1.drop_last(), lcol, rcol));
            assert(b.to_multiset() =~= Multiset::<Seq<i32>>::empty());
            assert(matches_of(l, r1, lcol, rcol).to_multiset() =~= matches_of(
                l,
                r2,
                lcol,
                rcol,
            ).to_multiset());
        }
    }
}

/// Reordering the right table reorders the join but preserves its multiset.
pub proof fn lemma_nl_right_permutation(
    left: Seq<Seq<i32>>,
    r1: Seq<Seq<i32>>,
    r2: Seq<Seq<i32>>,
    lcol: int,
    rcol: int,
)
    requires
        r1.to_multiset() == r2.to_multiset(),
    ensures
        nl_join(left, r1, lcol, rcol).to_multiset() == nl_join(left, r2, lcol, rcol).to_multiset(),
    decreases left.len(),
{
    broadcast use vstd::seq_lib::group_to_multiset_ensures;
    broadcast use vstd::multiset::group_multiset_axioms;

    if left.len() != 0 {
        let dl = left.drop_last();
        let la = left.last();
        lemma_nl_right_permutation(dl, r1, r2, lcol, rcol);
        lemma_matches_multiset(la, r1, r2, lcol, rcol);
        lemma_multiset_commutative(nl_join(dl, r1, lcol, rcol), matches_of(la, r1, lcol, rcol));
        lemma_multiset_commutative(nl_join(dl, r2, lcol, rcol), matches_of(la, r2, lcol, rcol));
        assert(nl_join(left, r1, lcol, rcol).to_multiset() =~= nl_join(
            left,
            r2,
            lcol,
            rcol,
        ).to_multiset());
    }
}

/// Reordering the left table reorders the join but preserves its multiset.
pub proof fn lemma_nl_left_permutation(
    l1: Seq<Seq<i32>>,
    l2: Seq<Seq<i32>>,
    right: Seq<Seq<i32>>,
    lcol: int,
    rcol: int,
)
    requires
        l1.to_multiset() == l2.to_multiset(),
    ensures
        nl_join(l1, right, lcol, rcol).to_multiset() == nl_join(l2, right, lcol, rcol).to_multiset(),
    decreases l1.len(),
{
    broadcast use vstd::seq_lib::group_to_multiset_ensures;
    broadcast use vstd::multiset::group_multiset_axioms;

    if l1.len() == 0 {
        assert(l1.len() == l1.to_multiset().len());
        assert(l2.len() == l2.to_multiset().len());
    } else {
        let x = l1.last();
        let i = lemma_perm_remove(l1, l2);
        lemma_nl_left_permutation(l1.drop_last(), l2.remove(i), right, lcol, rcol);
        let pre = l2.take(i);
        let post = l2.skip(i + 1);
        let single = seq![x];
        assert(l2 =~= pre + (single + post));
        assert(l2.remove(i) =~= pre + post);
        lemma_nl_left_append(pre, single + post, right, lcol, rcol);
        lemma_nl_left_append(single, post, right, lcol, rcol);
        lemma_nl_left_append(pre, post, right, lcol, rcol);
        assert(single.drop_last() =~= Seq::<Seq<i32>>::empty());
        assert(single.len() == 1 && single.last() == x);
        assert(nl_join(single.drop_last(), right, lcol, rcol) == Seq::<Seq<i32>>::empty());
        assert(nl_join(single, right, lcol, rcol) =~= matches_of(x, right, lcol, rcol));
        let a = nl_join(pre, right, lcol, rcol);
        let b = matches_of(x, right, lcol, rcol);
        let c = nl_join(post, right, lcol, rcol);
        lemma_multiset_commutative(a, nl_join(single, right, lcol, rcol) + c);
        lemma_multiset_commutative(nl_join(single, right, lcol, rcol), c);
        lemma_multiset_commutative(a, c);
        assert(l1 =~= l1.drop_last().push(x));
        assert(nl_join(l1, right, lcol, rcol) == nl_join(l1.drop_last(), right, lcol, rcol) + b);
        lemma_multiset_commutative(nl_join(l1.drop_last(), right, lcol, rcol), b);
        assert(nl_join(l1, right, lcol, rcol).to_multiset() =~= nl_join(
            l2,
            right,
            lcol,
            rcol,
        ).to_multiset());
    }
}


/// Left rows that match nothing in a right-table prefix can skip it.
pub proof fn lemma_nl_right_prefix_no_match(
    left: Seq<Seq<i32>>,
    pre: Seq<Seq<i32>>,
    right: Seq<Seq<i32>>,
    lcol: int,
    rcol: int,
)
    requires
        forall|i: int, j: int|
            0 <= i < left.len() && 0 <= j < pre.len() ==> !rows_match(
                #[trigger] left[i],
                #[trigger] pre[j],
                lcol,
                rcol,
            ),
    ensures
        nl_join(left, pre + right, lcol, rcol) == nl_join(left, right, lcol, rcol),
    decreases left.len(),
{
    if left.len() != 0 {
        let dl = left.drop_last();
        assert forall|i: int, j: int|
            0 <= i < dl.len() && 0 <= j < pre.len() implies !rows_match(
            #[trigger] dl[i],
            #[trigger] pre[j],
            lcol,
            rcol,
        ) by {
            assert(dl[i] == left[i]);
        }
        lemma_nl_right_prefix_no_match(dl, pre, right, lcol, rcol);
        let la = left.last();
        assert(la == left[left.len() - 1]);
        lemma_matches_append(la, pre, right, lcol, rcol);
        lemma_matches_none(la, pre, lcol, rcol);
        assert(Seq::<Seq<i32>>::empty() + matches_of(la, right, lcol, rcol) =~= matches_of(
            la,
            right,
            lcol,
            rcol,
        ));
    }
}

/// A reordering of rows of one width again has that width.
pub proof fn lemma_uniform_multiset(r1: Seq<Seq<i32>>, r2: Seq<Seq<i32>>, w: int)
    requires
        uniform_width(r1, w),
        r1.to_multiset() == r2.to_multiset(),
    ensures
        uniform_width(r2, w),
{
    broadcast use vstd::seq_lib::group_to_multiset_ensures;

    assert forall|i: int| 0 <= i < r2.len() implies (#[trigger] r2[i]).len() == w by {
        assert(r2.contains(r2[i]));
        assert(r2.to_multiset().count(r2[i]) > 0);
        assert(r1.contains(r2[i]));
        let j = choose|j: int| 0 <= j < r1.len() && r1[j] == r2[i];
        assert(r1[j].len() == w);
    }
}

} // verus!

