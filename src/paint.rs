use vstd::prelude::*;
use crate::tree::{FileNodeItem, rows, rows_of, wf, lemma_rows_of_step, lemma_rows_of_prefix, lemma_rows_of_index};

verus! {

/// A row of the listing handed to the painter: its number, its depth and
/// the path to its node; or, when `editor` is set, the naming editor.
pub struct PaintedRow {
    pub row: usize,
    pub level: usize,
    pub path: Vec<usize>,
    pub editor: bool,
}

/// The first row of `item`'s subtree, counted from `item`, that lies at or
/// after row `min`; `item` stands at row `current`.
pub open spec fn window_lo(current: int, min: int) -> int {
    if min > current { min - current } else { 0 }
}

/// The last row of `item`'s subtree, counted from `item`, that lies at or
/// before row `max`; the subtree has `count` rows below `item`.
pub open spec fn window_hi(current: int, count: int, max: int) -> int {
    if max < current + count { max - current } else { count }
}

/// The number of rows painted from a window.
pub open spec fn window_len(lo: int, hi: int) -> int {
    if lo <= hi { hi - lo + 1 } else { 0 }
}

/// `e` paints row `q` of `item`'s subtree, `item` standing at row
/// `current` and depth `level`, reached by the path `prefix`.
pub open spec fn paints(e: PaintedRow, item: FileNodeItem, level: int, current: int, prefix: Seq<usize>, q: int) -> bool {
    &&& e.row == current + q
    &&& !e.editor
    &&& e.level == level + rows(item)[q].len()
    &&& e.path@ == prefix + rows(item)[q]
}

/// Row `base + 1 + q` of an open node is row `q` of its child `k`, where
/// `base` is the number of rows of the children before `k`.
pub proof fn lemma_child_row(item: FileNodeItem, k: usize, q: int)
    requires
        item.open,
        k < item.children@.len(),
        0 <= q < rows(item.children@[k as int]).len(),
    ensures
        rows_of(item.children@.take(k as int)).len() + 1 + q < rows(item).len(),
        rows(item)[rows_of(item.children@.take(k as int)).len() + 1 + q] == seq![k] + rows(
            item.children@[k as int],
        )[q],
{
    lemma_rows_of_index(item.children@, k, q);
}

/// What the painting of child `k` adds to what was painted before it.
pub proof fn lemma_child_painted(
    item: FileNodeItem,
    k: usize,
    level: int,
    current: int,
    min: int,
    prefix: Seq<usize>,
    prev: Seq<PaintedRow>,
    out: Seq<PaintedRow>,
    n0: int,
    lo: int,
    base: int,
    chi: int,
)
    requires
        item.open,
        k < item.children@.len(),
        base == rows_of(item.children@.take(k as int)).len(),
        lo == window_lo(current, min),
        0 <= n0,
        prev.len() == n0 + window_len(lo, base),
        forall|t: int| 0 <= t < window_len(lo, base) ==> paints(
            #[trigger] prev[n0 + t],
            item,
            level,
            current,
            prefix,
            lo + t,
        ),
        -1 <= chi < rows(item.children@[k as int]).len(),
        out.len() == prev.len() + window_len(window_lo(current + base + 1, min), chi),
        out.take(prev.len() as int) == prev,
        forall|t: int| 0 <= t < window_len(window_lo(current + base + 1, min), chi) ==> paints(
            #[trigger] out[prev.len() + t],
            item.children@[k as int],
            level + 1,
            current + base + 1,
            prefix.push(k),
            window_lo(current + base + 1, min) + t,
        ),
    ensures
        out.len() == n0 + window_len(lo, base + 1 + chi),
        out.take(n0) == prev.take(n0),
        forall|t: int| 0 <= t < window_len(lo, base + 1 + chi) ==> paints(
            #[trigger] out[n0 + t],
            item,
            level,
            current,
            prefix,
            lo + t,
        ),
{
    let child = item.children@[k as int];
    let clo = window_lo(current + base + 1, min);
    let w = window_len(lo, base);
    assert(clo == if lo > base + 1 { lo - base - 1 } else { 0 });
    assert(out.take(n0) =~= prev.take(n0)) by {
        assert forall|j: int| 0 <= j < n0 implies out[j] == prev[j] by {
            assert(out.take(prev.len() as int)[j] == out[j]);
        }
    }
    assert forall|t: int| 0 <= t < window_len(lo, base + 1 + chi) implies paints(
        #[trigger] out[n0 + t],
        item,
        level,
        current,
        prefix,
        lo + t,
    ) by {
        if t < w {
            assert(out.take(prev.len() as int)[n0 + t] == out[n0 + t]);
            assert(prev[n0 + t] == out[n0 + t]);
        } else {
            let u = t - w;
            let q = lo + t - base - 1;
            assert(q == clo + u);
            assert(0 <= u < window_len(clo, chi));
            assert(paints(out[prev.len() + u], child, level + 1, current + base + 1, prefix.push(k), clo + u));
            lemma_child_row(item, k, q);
            assert(prefix.push(k) + rows(child)[q] =~= prefix + (seq![k] + rows(child)[q]));
        }
    }
}

/// A copy of a path.
pub fn copy_path(p: &Vec<usize>) -> (r: Vec<usize>)
    ensures
        r@ == p@,
{
    let mut r: Vec<usize> = Vec::new();
    let mut k: usize = 0;
    while k < p.len()
        invariant
            0 <= k <= p@.len(),
            r@ == p@.take(k as int),
        decreases p@.len() - k,
    {
        r.push(p[k]);
        proof {
            assert(r@ =~= p@.take(k as int + 1));
        }
        k = k + 1;
    }
    proof {
        assert(p@.take(k as int) =~= p@);
    }
    r
}

/// Paints the rows of `item`'s subtree that lie in `[min, max]`, `item`
/// standing at row `current` and depth `level`, reached by the path `path`.
///
/// Subtrees wholly before `min` are skipped by their cached counts, and the
/// walk stops once it is past `max`. Returns the last row of the subtree
/// when that is at most `max`; `current` when the walk starts past `max`;
/// and otherwise, for a nonempty range, `max + 1`.
pub fn paint_file_node_item(
    item: &FileNodeItem,
    min: usize,
    max: usize,
    level: usize,
    current: usize,
    path: &mut Vec<usize>,
    out: &mut Vec<PaintedRow>,
) -> (r: usize)
    requires
        wf(*item),
        current + item.children_open_count <= usize::MAX,
        level + rows(*item).len() <= usize::MAX,
    ensures
        final(path)@ == old(path)@,
        current + item.children_open_count <= max ==> r == current + item.children_open_count,
        current + item.children_open_count > max ==> r > max,
        current > max ==> r == current,
        current <= max && current + item.children_open_count > max && min <= max ==> r == max + 1,
        ({
            let lo = window_lo(current as int, min as int);
            let hi = window_hi(current as int, item.children_open_count as int, max as int);
            let n0 = old(out)@.len();
            &&& final(out)@.len() == n0 + window_len(lo, hi)
            &&& final(out)@.take(n0 as int) == old(out)@
            &&& forall|t: int| 0 <= t < window_len(lo, hi) ==> paints(
                #[trigger] final(out)@[n0 + t],
                *item,
                level as int,
                current as int,
                old(path)@,
                lo + t,
            )
        }),
    decreases *item,
{
    let ghost c = item.children_open_count as int;
    let ghost n0 = out@.len();
    let ghost lo = window_lo(current as int, min as int);
    let ghost hi = window_hi(current as int, c, max as int);
    if current > max {
        proof {
            assert(out@.take(n0 as int) =~= out@);
        }
        return current;
    }
    if current + item.children_open_count < min {
        proof {
            assert(out@.take(n0 as int) =~= out@);
        }
        return current + item.children_open_count;
    }
    if current >= min {
        out.push(PaintedRow { row: current, level, path: copy_path(path), editor: false });
        proof {
            assert(rows(*item)[0] == Seq::<usize>::empty());
            assert(path@ + Seq::<usize>::empty() =~= path@);
        }
    }
    proof {
        assert(out@.take(n0 as int) =~= old(out)@);
    }
    let mut i: usize = current;
    if item.open {
        let cs = &item.children;
        let mut k: usize = 0;
        while k < cs.len()
            invariant
                wf(*item),
                item.open,
                cs == &item.children,
                c == item.children_open_count,
                current + c <= usize::MAX,
                level + rows(*item).len() <= usize::MAX,
                current <= max,
                min <= current + c,
                lo == window_lo(current as int, min as int),
                hi == window_hi(current as int, c, max as int),
                0 <= k <= cs@.len(),
                i == current + rows_of(cs@.take(k as int)).len(),
                i <= max,
                path@ == old(path)@,
                out@.len() == n0 + window_len(lo, i - current),
                out@.take(n0 as int) == old(out)@,
                forall|t: int| 0 <= t < window_len(lo, i - current) ==> paints(
                    #[trigger] out@[n0 + t],
                    *item,
                    level as int,
                    current as int,
                    old(path)@,
                    lo + t,
                ),
            decreases cs@.len() - k,
        {
            let ghost base = rows_of(cs@.take(k as int)).len() as int;
            let ghost child = cs@[k as int];
            proof {
                lemma_rows_of_step(cs@, k);
                lemma_rows_of_prefix(cs@, k as int + 1);
                assert(wf(child));
                crate::tree::lemma_rows_len(*item);
                crate::tree::lemma_rows_of_len(cs@);
                if rows(child).len() > 0 {
                    lemma_rows_of_index(cs@, k, 0);
                }
            }
            let ghost prev = out@;
            path.push(k);
            let ghost child_prefix = path@;
            i = paint_file_node_item(&cs[k], min, max, level + 1, i + 1, path, out);
            path.pop();
            proof {
                assert(path@ =~= old(path)@);
                assert(child_prefix == old(path)@.push(k));
                let chi = window_hi(current + base + 1, child.children_open_count as int, max as int);
                lemma_child_painted(*item, k, level as int, current as int, min as int, old(path)@, prev, out@, n0 as int, lo, base, chi);
                assert(out@.take(n0 as int) =~= prev.take(n0 as int));
            }
            if i > max {
                return i;
            }
            k = k + 1;
        }
        proof {
            assert(cs@.take(cs@.len() as int) =~= cs@);
        }
    }
    proof {
        if !item.open {
            assert(rows(*item).len() == 1);
        }
    }
    i
}

} // verus!
