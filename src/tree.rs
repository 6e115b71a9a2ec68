use vstd::prelude::*;

verus! {

/// One entry of the file tree.
///
/// `children` are kept in display order. `children_open_count` caches the
/// number of rows the entry's descendants occupy in the flat listing: zero
/// when the entry is closed.
pub struct FileNodeItem {
    pub name: String,
    pub is_dir: bool,
    pub read: bool,
    pub open: bool,
    /// A listing of this directory is in flight.
    pub loading: bool,
    /// The directory should open once its listing arrives.
    pub open_on_load: bool,
    pub children: Vec<FileNodeItem>,
    pub children_open_count: usize,
}

/// The rows of a node's subtree, each given by the path of child indices
/// that leads to it from the node; the node itself is row zero.
pub open spec fn rows(n: FileNodeItem) -> Seq<Seq<usize>>
    decreases n,
{
    seq![Seq::<usize>::empty()] + if n.open {
        rows_of(n.children@)
    } else {
        Seq::empty()
    }
}

/// The rows of a sequence of siblings, in order, each path starting with
/// the sibling's index.
pub open spec fn rows_of(cs: Seq<FileNodeItem>) -> Seq<Seq<usize>>
    decreases cs,
{
    if cs.len() == 0 {
        Seq::empty()
    } else {
        let k = (cs.len() - 1) as usize;
        rows_of(cs.drop_last()) + rows(cs.last()).map_values(|p: Seq<usize>| seq![k] + p)
    }
}

/// The node reached from `n` by following the child indices of `p`.
pub open spec fn node_at(n: FileNodeItem, p: Seq<usize>) -> FileNodeItem
    decreases p.len(),
{
    if p.len() == 0 {
        n
    } else if p[0] < n.children@.len() {
        node_at(n.children@[p[0] as int], p.drop_first())
    } else {
        n
    }
}

/// `p` leads from `n` to one of its descendants (or to `n` itself).
pub open spec fn valid_path(n: FileNodeItem, p: Seq<usize>) -> bool
    decreases p.len(),
{
    p.len() == 0 || (p[0] < n.children@.len() && valid_path(
        n.children@[p[0] as int],
        p.drop_first(),
    ))
}

/// The number of nodes in a subtree.
pub open spec fn size(n: FileNodeItem) -> nat
    decreases n,
{
    1 + size_of(n.children@)
}

pub open spec fn size_of(cs: Seq<FileNodeItem>) -> nat
    decreases cs,
{
    if cs.len() == 0 {
        0
    } else {
        size_of(cs.drop_last()) + size(cs.last())
    }
}

/// The flags of one node agree with each other.
pub open spec fn flags_ok(n: FileNodeItem) -> bool {
    &&& !n.read ==> n.children@.len() == 0
    &&& n.open ==> n.read
    &&& n.loading ==> !n.read
    &&& n.open_on_load ==> n.loading
    &&& !n.is_dir ==> !n.read && !n.loading
    &&& names_distinct(n.children@)
}

/// No two siblings share a name.
pub open spec fn names_distinct(cs: Seq<FileNodeItem>) -> bool {
    forall|i: int, j: int| 0 <= i < cs.len() && 0 <= j < cs.len() && i != j ==> #[trigger] cs[i].name@ != #[trigger] cs[j].name@
}

/// Every node of the subtree has consistent flags and a cached row count
/// equal to the number of rows its descendants occupy.
pub open spec fn wf(n: FileNodeItem) -> bool
    decreases n,
{
    &&& flags_ok(n)
    &&& n.children_open_count == rows(n).len() - 1
    &&& forall|k: int| 0 <= k < n.children@.len() ==> wf(#[trigger] n.children@[k])
}

pub proof fn lemma_rows_len(n: FileNodeItem)
    ensures
        1 <= rows(n).len() <= size(n),
    decreases n,
{
    lemma_rows_of_len(n.children@);
}

pub proof fn lemma_rows_of_len(cs: Seq<FileNodeItem>)
    ensures
        rows_of(cs).len() <= size_of(cs),
    decreases cs,
{
    if cs.len() > 0 {
        lemma_rows_of_len(cs.drop_last());
        lemma_rows_len(cs.last());
    }
}

/// The rows of the first `k + 1` siblings extend those of the first `k`.
pub proof fn lemma_rows_of_step(cs: Seq<FileNodeItem>, k: usize)
    requires
        0 <= k < cs.len(),
    ensures
        rows_of(cs.take(k + 1)) == rows_of(cs.take(k as int)) + rows(cs[k as int]).map_values(
            |p: Seq<usize>| seq![k] + p,
        ),
{
    assert(cs.take(k + 1).drop_last() =~= cs.take(k as int));
    assert(cs.take(k + 1).last() == cs[k as int]);
}

/// The rows of a prefix of the siblings are a prefix of their rows.
pub proof fn lemma_rows_of_prefix(cs: Seq<FileNodeItem>, j: int)
    requires
        0 <= j <= cs.len(),
    ensures
        rows_of(cs.take(j)).len() <= rows_of(cs).len(),
        forall|r: int|
            0 <= r < rows_of(cs.take(j)).len() ==> rows_of(cs)[r] == rows_of(cs.take(j))[r],
    decreases cs.len(),
{
    if j == cs.len() {
        assert(cs.take(j) =~= cs);
    } else {
        let d = cs.drop_last();
        assert(d.take(j) =~= cs.take(j));
        lemma_rows_of_prefix(d, j);
    }
}

/// Where the rows of sibling `k` stand among the rows of all siblings.
pub proof fn lemma_rows_of_index(cs: Seq<FileNodeItem>, k: usize, q: int)
    requires
        0 <= k < cs.len(),
        0 <= q < rows(cs[k as int]).len(),
    ensures
        rows_of(cs.take(k as int)).len() + q < rows_of(cs).len(),
        rows_of(cs)[rows_of(cs.take(k as int)).len() + q] == seq![k] + rows(cs[k as int])[q],
{
    lemma_rows_of_step(cs, k);
    lemma_rows_of_prefix(cs, k + 1);
    assert(rows(cs[k as int]).map_values(|p: Seq<usize>| seq![k] + p)[q] == seq![k] + rows(cs[k as int])[q]);
}

/// The node at a path that starts with child `k`.
pub proof fn lemma_node_at_child(n: FileNodeItem, k: usize, p: Seq<usize>)
    requires
        0 <= k < n.children@.len(),
    ensures
        node_at(n, seq![k] + p) == node_at(n.children@[k as int], p),
        valid_path(n, seq![k] + p) == valid_path(n.children@[k as int], p),
{
    assert((seq![k] + p).drop_first() =~= p);
}

/// `a` and `b` agree on every field but `children`.
pub open spec fn same_fields(a: FileNodeItem, b: FileNodeItem) -> bool {
    &&& a.name@ == b.name@
    &&& a.is_dir == b.is_dir
    &&& a.read == b.read
    &&& a.open == b.open
    &&& a.loading == b.loading
    &&& a.open_on_load == b.open_on_load
    &&& a.children_open_count == b.children_open_count
}

/// `b` is `a` with the node at path `p` replaced by `sub`, and nothing else
/// changed (cached counts included).
pub open spec fn replaced_at(a: FileNodeItem, b: FileNodeItem, p: Seq<usize>, sub: FileNodeItem) -> bool
    decreases p.len(),
{
    if p.len() == 0 {
        b == sub
    } else {
        let k = p[0] as int;
        &&& 0 <= k < a.children@.len()
        &&& same_fields(a, b)
        &&& b.children@ == a.children@.update(k, b.children@[k])
        &&& replaced_at(a.children@[k], b.children@[k], p.drop_first(), sub)
    }
}

/// Resolves row `index` of the listing, where `item` stands at row `i`.
///
/// Returns the row and the node there when the row lies in `item`'s
/// subtree, and otherwise the first row after that subtree and nothing.
pub fn get_item_children(i: usize, index: usize, item: &FileNodeItem) -> (r: (
    usize,
    Option<&FileNodeItem>,
))
    requires
        wf(*item),
        i + item.children_open_count <= usize::MAX,
    ensures
        i <= index <= i + item.children_open_count ==> r.0 == index && r.1.is_some()
            && *r.1.unwrap() == node_at(*item, rows(*item)[index - i]),
        !(i <= index <= i + item.children_open_count) ==> r.0 == i + item.children_open_count
            && r.1.is_none(),
    decreases *item,
{
    if i == index {
        return (i, Some(item));
    }
    let mut j: usize = i;
    if item.open {
        let cs = &item.children;
        let mut k: usize = 0;
        while k < cs.len()
            invariant
                wf(*item),
                item.open,
                cs == &item.children,
                i != index,
                0 <= k <= cs@.len(),
                j == i + rows_of(cs@.take(k as int)).len(),
                j < index || index < i,
                i + item.children_open_count <= usize::MAX,
            decreases cs@.len() - k,
        {
            proof {
                lemma_rows_of_step(cs@, k);
                lemma_rows_of_prefix(cs@, k as int + 1);
                assert(wf(cs@[k as int]));
            }
            let child = &cs[k];
            let count = child.children_open_count;
            if i < index && index <= j + count + 1 {
                let ghost q = index - j - 1;
                proof {
                    lemma_rows_of_index(cs@, k, q);
                    lemma_node_at_child(*item, k, rows(cs@[k as int])[q]);
                }
                return get_item_children(j + 1, index, child);
            }
            j = j + count + 1;
            k = k + 1;
        }
        proof {
            assert(cs@.take(cs@.len() as int) =~= cs@);
        }
    }
    (j, None)
}


/// Resolves row `index` like [`get_item_children`], handing out the node
/// for modification.
///
/// Whatever the caller leaves in the node is what the tree holds at that
/// place afterwards; nothing else changes, cached counts included.
pub fn get_item_children_mut(i: usize, index: usize, item: &mut FileNodeItem) -> (r: (
    usize,
    Option<&mut FileNodeItem>,
))
    requires
        wf(*old(item)),
        i + old(item).children_open_count <= usize::MAX,
    ensures
        i <= index <= i + old(item).children_open_count ==> r.0 == index && match r.1 {
            Some(m) => *m == node_at(*old(item), rows(*old(item))[index - i]) && replaced_at(
                *old(item),
                *final(item),
                rows(*old(item))[index - i],
                *final(m),
            ),
            None => false,
        },
        !(i <= index <= i + old(item).children_open_count) ==> r.0 == i
            + old(item).children_open_count && r.1.is_none() && *final(item) == *old(item),
    decreases *old(item),
{
    if i == index {
        return (i, Some(item));
    }
    let mut j: usize = i;
    if item.open {
        let n = item.children.len();
        let mut k: usize = 0;
        let mut found = false;
        while k < n && !found
            invariant
                wf(*item),
                item.open,
                n == item.children@.len(),
                i != index,
                0 <= k <= n,
                j == i + rows_of(item.children@.take(k as int)).len(),
                found ==> k < n && i < index && j < index && index <= j + item.children@[k as int].children_open_count + 1,
                found ==> j + item.children@[k as int].children_open_count + 1 <= i + item.children_open_count,
                *item == *old(item),
                !found ==> j < index || index < i,
                i + item.children_open_count <= usize::MAX,
            decreases n - k + if found { 0int } else { 1 },
        {
            proof {
                lemma_rows_of_step(item.children@, k);
                lemma_rows_of_prefix(item.children@, k as int + 1);
                assert(wf(item.children@[k as int]));
            }
            let count = item.children[k].children_open_count;
            if i < index && index <= j + count + 1 {
                found = true;
            } else {
                j = j + count + 1;
                k = k + 1;
            }
        }
        if found {
            let ghost q = index - j - 1;
            proof {
                assert(wf(item.children@[k as int]));
                lemma_rows_of_index(item.children@, k, q);
                lemma_node_at_child(*item, k, rows(item.children@[k as int])[q]);
                assert((seq![k] + rows(item.children@[k as int])[q]).drop_first() =~= rows(item.children@[k as int])[q]);
            }
            let child = &mut item.children[k];
            return get_item_children_mut(j + 1, index, child);
        }
        proof {
            assert(item.children@.take(n as int) =~= item.children@);
        }
    }
    (j, None)
}


/// `a` and `b` agree on every field but the cached count.
pub open spec fn same_mod_count(a: FileNodeItem, b: FileNodeItem) -> bool {
    &&& a.name@ == b.name@
    &&& a.is_dir == b.is_dir
    &&& a.read == b.read
    &&& a.open == b.open
    &&& a.loading == b.loading
    &&& a.open_on_load == b.open_on_load
    &&& a.children@ == b.children@
}

/// `b` differs from `a` at most in the node at path `p` and in the cached
/// counts of that node's strict ancestors.
pub open spec fn same_except_at(a: FileNodeItem, b: FileNodeItem, p: Seq<usize>) -> bool
    decreases p.len(),
{
    p.len() == 0 || {
        let k = p[0] as int;
        &&& 0 <= k < a.children@.len()
        &&& a.name@ == b.name@
        &&& a.is_dir == b.is_dir
        &&& a.read == b.read
        &&& a.open == b.open
        &&& a.loading == b.loading
        &&& a.open_on_load == b.open_on_load
        &&& b.children@.len() == a.children@.len()
        &&& forall|j: int| 0 <= j < a.children@.len() && j != k ==> b.children@[j] == a.children@[j]
        &&& same_except_at(a.children@[k], b.children@[k], p.drop_first())
    }
}

/// Every node off the path `p` is well formed, and every node on it has
/// consistent flags; only the cached counts along `p` may be stale.
pub open spec fn wf_except_path(n: FileNodeItem, p: Seq<usize>) -> bool
    decreases p.len(),
{
    &&& flags_ok(n)
    &&& if p.len() == 0 {
        forall|j: int| 0 <= j < n.children@.len() ==> wf(#[trigger] n.children@[j])
    } else {
        let k = p[0] as int;
        &&& 0 <= k < n.children@.len()
        &&& forall|j: int| 0 <= j < n.children@.len() && j != k ==> wf(#[trigger] n.children@[j])
        &&& wf_except_path(n.children@[k], p.drop_first())
    }
}

pub proof fn lemma_replaced_same_except(a: FileNodeItem, b: FileNodeItem, p: Seq<usize>, sub: FileNodeItem)
    requires
        replaced_at(a, b, p, sub),
    ensures
        same_except_at(a, b, p),
        node_at(b, p) == sub,
        valid_path(a, p),
        valid_path(b, p),
    decreases p.len(),
{
    if p.len() > 0 {
        let k = p[0] as int;
        lemma_replaced_same_except(a.children@[k], b.children@[k], p.drop_first(), sub);
    }
}

pub proof fn lemma_same_except_trans(a: FileNodeItem, b: FileNodeItem, c: FileNodeItem, p: Seq<usize>)
    requires
        same_except_at(a, b, p),
        same_except_at(b, c, p),
    ensures
        same_except_at(a, c, p),
    decreases p.len(),
{
    if p.len() > 0 {
        let k = p[0] as int;
        lemma_same_except_trans(a.children@[k], b.children@[k], c.children@[k], p.drop_first());
    }
}

/// Replacing a node of a well-formed tree by one with consistent flags and
/// well-formed children leaves only the counts along its path stale.
pub proof fn lemma_replaced_wf_except(a: FileNodeItem, b: FileNodeItem, p: Seq<usize>, sub: FileNodeItem)
    requires
        wf(a),
        replaced_at(a, b, p, sub),
        flags_ok(sub),
        forall|j: int| 0 <= j < sub.children@.len() ==> wf(#[trigger] sub.children@[j]),
        p.len() > 0 ==> sub.name@ == node_at(a, p).name@,
    ensures
        wf_except_path(b, p),
        p.len() > 0 ==> b.name@ == a.name@,
    decreases p.len(),
{
    if p.len() > 0 {
        let k = p[0] as int;
        assert(wf(a.children@[k]));
        lemma_replaced_wf_except(a.children@[k], b.children@[k], p.drop_first(), sub);
        assert forall|j: int| 0 <= j < b.children@.len() && j != k implies wf(#[trigger] b.children@[j]) by {
            assert(b.children@[j] == a.children@[j]);
        }
        if p.len() == 1 {
            lemma_replaced_same_except(a, b, p, sub);
            assert(p.drop_first().len() == 0);
            assert(node_at(b.children@[k], p.drop_first()) == b.children@[k]);
            assert(node_at(a.children@[k], p.drop_first()) == a.children@[k]);
        }
        assert(b.children@[k].name@ == a.children@[k].name@);
        assert forall|i: int, j: int|
            0 <= i < b.children@.len() && 0 <= j < b.children@.len() && i != j implies #[trigger] b.children@[i].name@
            != #[trigger] b.children@[j].name@ by {
            assert(b.children@[i].name@ == a.children@[i].name@);
            assert(b.children@[j].name@ == a.children@[j].name@);
        }
    }
}

pub proof fn lemma_size_of_update(cs: Seq<FileNodeItem>, k: int, x: FileNodeItem)
    requires
        0 <= k < cs.len(),
    ensures
        size_of(cs.update(k, x)) + size(cs[k]) == size_of(cs) + size(x),
    decreases cs.len(),
{
    let u = cs.update(k, x);
    if k == cs.len() - 1 {
        assert(u.drop_last() =~= cs.drop_last());
    } else {
        assert(u.drop_last() =~= cs.drop_last().update(k, x));
        lemma_size_of_update(cs.drop_last(), k, x);
    }
}

pub proof fn lemma_size_of_ge(cs: Seq<FileNodeItem>, k: int)
    requires
        0 <= k < cs.len(),
    ensures
        size(cs[k]) <= size_of(cs),
    decreases cs.len(),
{
    if k < cs.len() - 1 {
        lemma_size_of_ge(cs.drop_last(), k);
    }
}

pub proof fn lemma_size_of_eq(cs: Seq<FileNodeItem>, ds: Seq<FileNodeItem>, k: int)
    requires
        0 <= k < cs.len(),
        ds.len() == cs.len(),
        forall|j: int| 0 <= j < cs.len() && j != k ==> ds[j] == cs[j],
    ensures
        size_of(ds) + size(cs[k]) == size_of(cs) + size(ds[k]),
{
    assert(ds =~= cs.update(k, ds[k]));
    lemma_size_of_update(cs, k, ds[k]);
}

/// Changing one node changes the size of the tree by the change in the
/// size of that node's subtree.
pub proof fn lemma_size_except_at(a: FileNodeItem, b: FileNodeItem, p: Seq<usize>)
    requires
        same_except_at(a, b, p),
    ensures
        size(b) + size(node_at(a, p)) == size(a) + size(node_at(b, p)),
    decreases p.len(),
{
    if p.len() > 0 {
        let k = p[0] as int;
        lemma_size_except_at(a.children@[k], b.children@[k], p.drop_first());
        lemma_size_of_eq(a.children@, b.children@, k);
    }
}

/// The node at path `p[d..]` below `item`, handed out for modification;
/// whatever the caller leaves there is what the tree holds afterwards.
pub fn node_at_mut<'a>(item: &'a mut FileNodeItem, p: &Vec<usize>, d: usize) -> (m: &'a mut FileNodeItem)
    requires
        d <= p@.len(),
        valid_path(*old(item), p@.skip(d as int)),
    ensures
        *m == node_at(*old(item), p@.skip(d as int)),
        replaced_at(*old(item), *final(item), p@.skip(d as int), *final(m)),
    decreases p@.len() - d,
{
    if d == p.len() {
        item
    } else {
        let k = p[d];
        proof {
            assert(p@.skip(d as int).drop_first() =~= p@.skip(d as int + 1));
        }
        let child = &mut item.children[k];
        node_at_mut(child, p, d + 1)
    }
}

/// Recomputes the cached count of `item` from its children's.
pub fn update_count(item: &mut FileNodeItem)
    requires
        flags_ok(*old(item)),
        forall|j: int| 0 <= j < old(item).children@.len() ==> wf(#[trigger] old(item).children@[j]),
        size(*old(item)) <= usize::MAX,
    ensures
        wf(*final(item)),
        same_mod_count(*old(item), *final(item)),
{
    if !item.open {
        item.children_open_count = 0;
        return;
    }
    let mut total: usize = 0;
    let mut k: usize = 0;
    proof {
        lemma_rows_of_len(item.children@);
    }
    while k < item.children.len()
        invariant
            flags_ok(*item),
            item.open,
            forall|j: int| 0 <= j < item.children@.len() ==> wf(#[trigger] item.children@[j]),
            size(*item) <= usize::MAX,
            rows_of(item.children@).len() <= size_of(item.children@),
            0 <= k <= item.children@.len(),
            total == rows_of(item.children@.take(k as int)).len(),
            *item == *old(item),
        decreases item.children@.len() - k,
    {
        proof {
            lemma_rows_of_step(item.children@, k);
            lemma_rows_of_prefix(item.children@, k as int + 1);
            assert(wf(item.children@[k as int]));
        }
        total = total + item.children[k].children_open_count + 1;
        k = k + 1;
    }
    proof {
        assert(item.children@.take(k as int) =~= item.children@);
    }
    item.children_open_count = total;
}

/// Recomputes the cached counts of the nodes along the path `p[d..]`, from
/// the bottom up, after a change to the node at its end.
pub fn recount_path(item: &mut FileNodeItem, p: &Vec<usize>, d: usize)
    requires
        d <= p@.len(),
        wf_except_path(*old(item), p@.skip(d as int)),
        size(*old(item)) <= usize::MAX,
    ensures
        wf(*final(item)),
        same_except_at(*old(item), *final(item), p@.skip(d as int)),
        same_mod_count(node_at(*old(item), p@.skip(d as int)), node_at(*final(item), p@.skip(d as int))),
    decreases p@.len() - d,
{
    if d < p.len() {
        let k = p[d];
        let ghost before = *item;
        proof {
            assert(p@.skip(d as int).drop_first() =~= p@.skip(d as int + 1));
            lemma_size_of_ge(item.children@, k as int);
        }
        let child = &mut item.children[k];
        recount_path(child, p, d + 1);
        proof {
            lemma_size_except_at(before.children@[k as int], item.children@[k as int], p@.skip(d as int + 1));
            lemma_size_of_eq(before.children@, item.children@, k as int);
            assert forall|j: int| 0 <= j < item.children@.len() implies wf(#[trigger] item.children@[j]) by {
                if j != k {
                    assert(item.children@[j] == before.children@[j]);
                }
            }
        }
    }
    update_count(item);
}


/// The node at path `p[d..]` below `item`.
pub fn node_at_ref<'a>(item: &'a FileNodeItem, p: &Vec<usize>, d: usize) -> (r: &'a FileNodeItem)
    requires
        d <= p@.len(),
        valid_path(*item, p@.skip(d as int)),
    ensures
        *r == node_at(*item, p@.skip(d as int)),
    decreases p@.len() - d,
{
    if d == p.len() {
        item
    } else {
        proof {
            assert(p@.skip(d as int).drop_first() =~= p@.skip(d as int + 1));
        }
        node_at_ref(&item.children[p[d]], p, d + 1)
    }
}

pub proof fn lemma_size_of_insert(cs: Seq<FileNodeItem>, pos: int, x: FileNodeItem)
    requires
        0 <= pos <= cs.len(),
    ensures
        size_of(cs.insert(pos, x)) == size_of(cs) + size(x),
    decreases cs.len(),
{
    let u = cs.insert(pos, x);
    if pos == cs.len() {
        assert(u.drop_last() =~= cs);
    } else {
        assert(u.drop_last() =~= cs.drop_last().insert(pos, x));
        lemma_size_of_insert(cs.drop_last(), pos, x);
    }
}


pub proof fn lemma_size_of_remove(cs: Seq<FileNodeItem>, k: int)
    requires
        0 <= k < cs.len(),
    ensures
        size_of(cs.remove(k)) + size(cs[k]) == size_of(cs),
    decreases cs.len(),
{
    let u = cs.remove(k);
    if k == cs.len() - 1 {
        assert(u =~= cs.drop_last());
    } else {
        assert(u.drop_last() =~= cs.drop_last().remove(k));
        lemma_size_of_remove(cs.drop_last(), k);
    }
}

pub proof fn lemma_size_of_prefix(cs: Seq<FileNodeItem>, j: int)
    requires
        0 <= j <= cs.len(),
    ensures
        size_of(cs.take(j)) <= size_of(cs),
    decreases cs.len(),
{
    if j == cs.len() {
        assert(cs.take(j) =~= cs);
    } else {
        assert(cs.drop_last().take(j) =~= cs.take(j));
        lemma_size_of_prefix(cs.drop_last(), j);
    }
}

/// The number of nodes in `item`'s subtree.
pub fn subtree_size(item: &FileNodeItem) -> (r: usize)
    requires
        size(*item) <= usize::MAX,
    ensures
        r == size(*item),
    decreases *item,
{
    let mut total: usize = 1;
    let mut k: usize = 0;
    while k < item.children.len()
        invariant
            size(*item) <= usize::MAX,
            0 <= k <= item.children@.len(),
            total == 1 + size_of(item.children@.take(k as int)),
        decreases item.children@.len() - k,
    {
        proof {
            assert(item.children@.take(k as int + 1).drop_last() =~= item.children@.take(k as int));
            lemma_size_of_prefix(item.children@, k as int + 1);
            lemma_size_of_ge(item.children@, k as int);
        }
        total = total + subtree_size(&item.children[k]);
        k = k + 1;
    }
    proof {
        assert(item.children@.take(k as int) =~= item.children@);
    }
    total
}

} // verus!
