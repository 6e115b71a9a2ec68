use vstd::prelude::*;
use crate::tree::{
    FileNodeItem, rows, rows_of, wf, flags_ok, node_at, valid_path, same_except_at, same_mod_count,
    lemma_same_except_trans, lemma_rows_len, lemma_node_at_child,
};
use crate::resolve::{visible, row_of, lemma_rows_visible, lemma_visible_row};
use crate::explorer::{FileExplorerData, ClickAction, click_outcome, with_flags, painted, shows, lemma_node_wf};
use crate::paint::PaintedRow;

verus! {

/// The cached count of every node equals the number of rows that a full
/// traversal of its subtree, skipping closed directories, lists below it;
/// for the workspace, that is the number of rows of the listing. Every
/// operation of `FileExplorerData` keeps this so.
pub proof fn law_cached_counts_match_traversal(e: FileExplorerData, p: Seq<usize>)
    requires
        e.inv(),
        valid_path(e.workspace, p),
    ensures
        node_at(e.workspace, p).children_open_count == rows(node_at(e.workspace, p)).len() - 1,
        e.workspace.children_open_count == rows(e.workspace).len() - 1,
{
    lemma_node_wf(e.workspace, p);
}

/// Resolving the row of a listed node gives back that node.
pub proof fn law_row_round_trip(n: FileNodeItem, p: Seq<usize>)
    requires
        wf(n),
        visible(n, p),
        p.len() > 0,
    ensures
        1 <= row_of(n, p) <= n.children_open_count,
        rows(n)[row_of(n, p)] == p,
        node_at(n, rows(n)[row_of(n, p)]) == node_at(n, p),
{
    lemma_visible_row(n, p);
    if row_of(n, p) == 0 {
        assert(rows(n)[0] == Seq::<usize>::empty());
    }
}

/// Painting rows one to the total, with no naming in progress, lists
/// every visible node but the workspace exactly once, in depth-first
/// order, each at its own row and depth.
pub proof fn law_full_paint_lists_each_node_once(e: FileExplorerData, r: Seq<PaintedRow>)
    requires
        e.inv(),
        e.naming is Idle,
        painted(e, 1, e.workspace.children_open_count as int, r),
    ensures
        r.len() == e.workspace.children_open_count,
        forall|t: int| #![trigger r[t]] 0 <= t < r.len() ==> {
            &&& r[t].row == t + 1
            &&& r[t].path@ == rows(e.workspace)[t + 1]
            &&& r[t].level == r[t].path@.len()
            &&& !r[t].editor
            &&& visible(e.workspace, r[t].path@)
            &&& r[t].path@.len() > 0
        },
        forall|t1: int, t2: int|
            0 <= t1 < r.len() && 0 <= t2 < r.len() && #[trigger] r[t1].path@ == #[trigger] r[t2].path@ ==> t1 == t2,
        forall|p: Seq<usize>|
            visible(e.workspace, p) && p.len() > 0 ==> 1 <= #[trigger] row_of(e.workspace, p) <= r.len() && r[row_of(
                e.workspace,
                p,
            ) - 1].path@ == p,
{
    let n = e.workspace;
    lemma_rows_len(n);
    assert forall|t: int| #![trigger r[t]] 0 <= t < r.len() implies {
        &&& r[t].row == t + 1
        &&& r[t].path@ == rows(n)[t + 1]
        &&& r[t].level == r[t].path@.len()
        &&& !r[t].editor
        &&& visible(n, r[t].path@)
        &&& r[t].path@.len() > 0
    } by {
        assert(shows(r[t], n, e.naming, 1 + t));
        lemma_rows_visible(n, t + 1);
        if rows(n)[t + 1].len() == 0 {
            assert(row_of(n, rows(n)[t + 1]) == 0);
        }
    }
    assert forall|t1: int, t2: int|
        0 <= t1 < r.len() && 0 <= t2 < r.len() && #[trigger] r[t1].path@ == #[trigger] r[t2].path@ implies t1
            == t2 by {
        assert(shows(r[t1], n, e.naming, 1 + t1));
        assert(shows(r[t2], n, e.naming, 1 + t2));
        lemma_rows_visible(n, t1 + 1);
        lemma_rows_visible(n, t2 + 1);
    }
    assert forall|p: Seq<usize>| visible(n, p) && p.len() > 0 implies 1 <= #[trigger] row_of(n, p) <= r.len()
        && r[row_of(n, p) - 1].path@ == p by {
        law_row_round_trip(n, p);
        assert(shows(r[row_of(n, p) - 1], n, e.naming, 1 + row_of(n, p) - 1));
    }
}

/// Siblings whose rows agree one by one have the same rows together.
pub proof fn lemma_rows_of_same(a: Seq<FileNodeItem>, b: Seq<FileNodeItem>)
    requires
        a.len() == b.len(),
        forall|j: int| 0 <= j < a.len() ==> rows(#[trigger] a[j]) == rows(b[j]),
    ensures
        rows_of(a) == rows_of(b),
    decreases a.len(),
{
    if a.len() > 0 {
        assert(rows(a[a.len() - 1]) == rows(b[b.len() - 1]));
        lemma_rows_of_same(a.drop_last(), b.drop_last());
    }
}

/// Trees that differ at most in the cached counts along one path list the
/// same rows.
pub proof fn lemma_rows_same_except_counts(a: FileNodeItem, b: FileNodeItem, p: Seq<usize>)
    requires
        same_except_at(a, b, p),
        same_mod_count(node_at(a, p), node_at(b, p)),
    ensures
        rows(a) == rows(b),
    decreases p.len(),
{
    if p.len() > 0 {
        let k = p[0] as int;
        lemma_rows_same_except_counts(a.children@[k], b.children@[k], p.drop_first());
        assert forall|j: int| 0 <= j < a.children@.len() implies rows(#[trigger] a.children@[j]) == rows(
            b.children@[j],
        ) by {
            if j != k {
                assert(a.children@[j] == b.children@[j]);
            }
        }
        lemma_rows_of_same(a.children@, b.children@);
    } else {
        assert(a.children@ == b.children@);
    }
}

/// Closing a listed directory and opening it again, with nothing else
/// changed in between, gives back the same rows.
pub proof fn law_close_then_open_restores_rows(a: FileNodeItem, b: FileNodeItem, c: FileNodeItem, p: Seq<usize>)
    requires
        wf(a),
        valid_path(a, p),
        node_at(a, p).open,
        same_except_at(a, b, p),
        with_flags(node_at(a, p), node_at(b, p), false, false, false),
        same_except_at(b, c, p),
        with_flags(node_at(b, p), node_at(c, p), true, false, false),
    ensures
        rows(c) == rows(a),
{
    lemma_node_wf(a, p);
    assert(flags_ok(node_at(a, p)));
    lemma_same_except_trans(a, b, c, p);
    lemma_rows_same_except_counts(a, c, p);
}


/// A change at one node leaves whether that node is listed, and its row,
/// as they were.
pub proof fn lemma_row_kept(a: FileNodeItem, b: FileNodeItem, p: Seq<usize>)
    requires
        same_except_at(a, b, p),
    ensures
        visible(a, p) == visible(b, p),
        row_of(a, p) == row_of(b, p),
    decreases p.len(),
{
    if p.len() > 0 {
        let k = p[0] as int;
        lemma_row_kept(a.children@[k], b.children@[k], p.drop_first());
        assert(a.children@.take(k) =~= b.children@.take(k));
    }
}

/// Clicking twice on the row of a listed, open directory closes it and
/// opens it again, and gives back the same rows.
pub proof fn law_click_twice_restores_rows(
    e1: FileExplorerData,
    e2: FileExplorerData,
    e3: FileExplorerData,
    index: usize,
    r1: ClickAction,
    r2: ClickAction,
)
    requires
        e1.inv(),
        e2.inv(),
        1 <= index <= e1.workspace.children_open_count,
        node_at(e1.workspace, rows(e1.workspace)[index as int]).is_dir,
        node_at(e1.workspace, rows(e1.workspace)[index as int]).open,
        click_outcome(e1, e2, index, r1),
        click_outcome(e2, e3, index, r2),
    ensures
        r1 is Toggled,
        r2 is Toggled,
        rows(e3.workspace) == rows(e1.workspace),
{
    let a = e1.workspace;
    let b = e2.workspace;
    let p = rows(a)[index as int];
    lemma_rows_len(a);
    lemma_rows_visible(a, index as int);
    lemma_node_wf(a, p);
    assert(flags_ok(node_at(a, p)));
    lemma_row_kept(a, b, p);
    lemma_visible_row(b, p);
    lemma_rows_len(b);
    assert(rows(b)[index as int] == p);
    law_close_then_open_restores_rows(a, b, e3.workspace, p);
}

/// Applying one directory's listing leaves every node off the path to it
/// as it was: listings of other directories may land in any order.
pub proof fn law_edits_elsewhere_are_kept(a: FileNodeItem, b: FileNodeItem, p: Seq<usize>, q: Seq<usize>, j: int)
    requires
        same_except_at(a, b, p),
        valid_path(a, q),
        0 <= j < q.len(),
        j < p.len(),
        q[j] != p[j],
        q.take(j) == p.take(j),
    ensures
        node_at(b, q) == node_at(a, q),
    decreases j,
{
    if j == 0 {
        let k = q[0] as int;
        assert(b.children@[k] == a.children@[k]);
        lemma_node_at_child(a, q[0], q.drop_first());
        lemma_node_at_child(b, q[0], q.drop_first());
        assert(seq![q[0]] + q.drop_first() =~= q);
    } else {
        let k = p[0] as int;
        assert(q[0] == q.take(j)[0]);
        assert(p[0] == p.take(j)[0]);
        assert(q.drop_first().take(j - 1) =~= q.take(j).drop_first());
        assert(p.drop_first().take(j - 1) =~= p.take(j).drop_first());
        law_edits_elsewhere_are_kept(a.children@[k], b.children@[k], p.drop_first(), q.drop_first(), j - 1);
        lemma_node_at_child(a, q[0], q.drop_first());
        lemma_node_at_child(b, q[0], q.drop_first());
        assert(seq![q[0]] + q.drop_first() =~= q);
    }
}

} // verus!
