use vstd::prelude::*;
use crate::tree::{
    FileNodeItem, rows, rows_of, wf, valid_path, node_at, lemma_rows_of_index, lemma_rows_of_step,
    lemma_rows_of_prefix, lemma_rows_len, lemma_node_at_child,
};

verus! {

/// `p` leads from `n` to a node that is listed: every node strictly above
/// it on the path is open.
pub open spec fn visible(n: FileNodeItem, p: Seq<usize>) -> bool
    decreases p.len(),
{
    p.len() == 0 || (n.open && p[0] < n.children@.len() && visible(
        n.children@[p[0] as int],
        p.drop_first(),
    ))
}

/// The row at which the node at path `p` is listed, `n` being row zero.
pub open spec fn row_of(n: FileNodeItem, p: Seq<usize>) -> int
    decreases p.len(),
{
    if p.len() == 0 || p[0] >= n.children@.len() {
        0
    } else {
        1 + rows_of(n.children@.take(p[0] as int)).len() + row_of(
            n.children@[p[0] as int],
            p.drop_first(),
        )
    }
}

/// The first of the siblings whose name is `name`.
pub open spec fn named_index(cs: Seq<FileNodeItem>, name: Seq<char>) -> Option<int>
    decreases cs.len(),
{
    if cs.len() == 0 {
        None
    } else {
        match named_index(cs.drop_last(), name) {
            Some(k) => Some(k),
            None => if cs.last().name@ == name {
                Some(cs.len() - 1)
            } else {
                None
            },
        }
    }
}

/// The path of child indices that follows the names `names` from `n`,
/// taking the first child of each name.
pub open spec fn path_named(n: FileNodeItem, names: Seq<String>) -> Option<Seq<usize>>
    decreases names.len(),
{
    if names.len() == 0 {
        Some(Seq::empty())
    } else {
        match named_index(n.children@, names[0]@) {
            Some(k) => match path_named(n.children@[k], names.drop_first()) {
                Some(p) => Some(seq![k as usize] + p),
                None => None,
            },
            None => None,
        }
    }
}

/// The names of the nodes along path `p` below `n`.
pub open spec fn names_along(n: FileNodeItem, p: Seq<usize>) -> Seq<String>
    decreases p.len(),
{
    if p.len() == 0 || p[0] >= n.children@.len() {
        Seq::empty()
    } else {
        seq![n.children@[p[0] as int].name] + names_along(n.children@[p[0] as int], p.drop_first())
    }
}

/// Which sibling's rows hold row `r` of a sequence of siblings.
pub proof fn lemma_rows_of_locate(cs: Seq<FileNodeItem>, r: int) -> (kq: (usize, int))
    requires
        0 <= r < rows_of(cs).len(),
        cs.len() <= usize::MAX,
    ensures
        kq.0 < cs.len(),
        0 <= kq.1 < rows(cs[kq.0 as int]).len(),
        r == rows_of(cs.take(kq.0 as int)).len() + kq.1,
    decreases cs.len(),
{
    let d = cs.drop_last();
    if r < rows_of(d).len() {
        let (k, q) = lemma_rows_of_locate(d, r);
        assert(d.take(k as int) =~= cs.take(k as int));
        (k, q)
    } else {
        let k = (cs.len() - 1) as usize;
        assert(cs.take(k as int) =~= d);
        (k, r - rows_of(d).len())
    }
}

/// Every listed row holds a visible node, and `row_of` gives the row back.
pub proof fn lemma_rows_visible(n: FileNodeItem, r: int)
    requires
        wf(n),
        0 <= r < rows(n).len(),
    ensures
        visible(n, rows(n)[r]),
        valid_path(n, rows(n)[r]),
        row_of(n, rows(n)[r]) == r,
    decreases n,
{
    if r > 0 {
        let cs = n.children@;
        assert(n.children.len() == cs.len());
        let (k, q) = lemma_rows_of_locate(cs, r - 1);
        assert(wf(cs[k as int]));
        lemma_rows_of_index(cs, k, q);
        lemma_rows_visible(cs[k as int], q);
        let p = seq![k] + rows(cs[k as int])[q];
        assert(p.drop_first() =~= rows(cs[k as int])[q]);
    }
}

/// Every visible node is listed, at the row that `row_of` gives.
pub proof fn lemma_visible_row(n: FileNodeItem, p: Seq<usize>)
    requires
        wf(n),
        visible(n, p),
    ensures
        0 <= row_of(n, p) < rows(n).len(),
        rows(n)[row_of(n, p)] == p,
        valid_path(n, p),
    decreases p.len(),
{
    if p.len() > 0 {
        let k = p[0];
        let cs = n.children@;
        assert(wf(cs[k as int]));
        lemma_visible_row(cs[k as int], p.drop_first());
        lemma_rows_of_index(cs, k, row_of(cs[k as int], p.drop_first()));
        assert(seq![k] + p.drop_first() =~= p);
    }
}


pub proof fn lemma_named_index_prefix(cs: Seq<FileNodeItem>, j: int, name: Seq<char>)
    requires
        0 <= j <= cs.len(),
        named_index(cs.take(j), name).is_some(),
    ensures
        named_index(cs, name) == named_index(cs.take(j), name),
    decreases cs.len(),
{
    if j == cs.len() {
        assert(cs.take(j) =~= cs);
    } else {
        assert(cs.drop_last().take(j) =~= cs.take(j));
        lemma_named_index_prefix(cs.drop_last(), j, name);
    }
}

pub proof fn lemma_named_index_found(cs: Seq<FileNodeItem>, name: Seq<char>)
    requires
        named_index(cs, name).is_some(),
    ensures
        0 <= named_index(cs, name).unwrap() < cs.len(),
        cs[named_index(cs, name).unwrap()].name@ == name,
    decreases cs.len(),
{
    if named_index(cs.drop_last(), name).is_some() {
        lemma_named_index_found(cs.drop_last(), name);
    }
}

/// The index of the first child of `item` named `name`.
pub fn child_named(item: &FileNodeItem, name: &String) -> (r: Option<usize>)
    ensures
        r matches Some(k) ==> named_index(item.children@, name@) == Some(k as int),
        r is None ==> named_index(item.children@, name@) is None,
{
    let mut k: usize = 0;
    while k < item.children.len()
        invariant
            0 <= k <= item.children@.len(),
            named_index(item.children@.take(k as int), name@) is None,
        decreases item.children@.len() - k,
    {
        let cs = Ghost(item.children@);
        proof {
            assert(cs@.take(k as int + 1).drop_last() =~= cs@.take(k as int));
        }
        if item.children[k].name == *name {
            proof {
                lemma_named_index_prefix(cs@, k as int + 1, name@);
            }
            return Some(k);
        }
        k = k + 1;
    }
    proof {
        assert(item.children@.take(k as int) =~= item.children@);
    }
    None
}

/// The path of child indices that follows `names[d..]` from `item`.
pub fn find_path(item: &FileNodeItem, names: &Vec<String>, d: usize) -> (r: Option<Vec<usize>>)
    requires
        d <= names@.len(),
    ensures
        r matches Some(v) ==> path_named(*item, names@.skip(d as int)) == Some(v@),
        r is None ==> path_named(*item, names@.skip(d as int)) is None,
    decreases names@.len() - d,
{
    if d == names.len() {
        proof {
            assert(names@.skip(d as int).len() == 0);
        }
        return Some(Vec::new());
    }
    proof {
        assert(names@.skip(d as int).drop_first() =~= names@.skip(d as int + 1));
    }
    let found = child_named(item, &names[d]);
    proof {
        if found.is_some() {
            lemma_named_index_found(item.children@, names@[d as int]@);
        }
    }
    match found {
        Some(k) => match find_path(&item.children[k], names, d + 1) {
            Some(mut v) => {
                v.insert(0, k);
                Some(v)
            },
            None => None,
        },
        None => None,
    }
}

/// The names of the nodes along path `p[d..]` below `item`.
pub fn names_of_path(item: &FileNodeItem, p: &Vec<usize>, d: usize) -> (r: Vec<String>)
    requires
        d <= p@.len(),
        valid_path(*item, p@.skip(d as int)),
    ensures
        r@ == names_along(*item, p@.skip(d as int)),
    decreases p@.len() - d,
{
    if d == p.len() {
        return Vec::new();
    }
    proof {
        assert(p@.skip(d as int).drop_first() =~= p@.skip(d as int + 1));
    }
    let k = p[d];
    let child = &item.children[k];
    let mut v = names_of_path(child, p, d + 1);
    v.insert(0, child.name.clone());
    v
}

/// The row of the node at path `p[d..]`, `item` being row zero, when that
/// node is listed.
pub fn row_of_path(item: &FileNodeItem, p: &Vec<usize>, d: usize) -> (r: Option<usize>)
    requires
        wf(*item),
        d <= p@.len(),
    ensures
        r matches Some(x) ==> (visible(*item, p@.skip(d as int)) && x == row_of(*item, p@.skip(d as int))),
        r is None ==> !visible(*item, p@.skip(d as int)),
    decreases p@.len() - d,
{
    if d == p.len() {
        return Some(0);
    }
    proof {
        assert(p@.skip(d as int).drop_first() =~= p@.skip(d as int + 1));
    }
    let k = p[d];
    if !item.open || k >= item.children.len() {
        return None;
    }
    proof {
        assert(wf(item.children@[k as int]));
    }
    let sub = match row_of_path(&item.children[k], p, d + 1) {
        Some(x) => x,
        None => { return None; },
    };
    proof {
        lemma_visible_row(*item, p@.skip(d as int));
        lemma_rows_of_prefix(item.children@, k as int);
    }
    let mut before: usize = 0;
    let mut j: usize = 0;
    while j < k
        invariant
            wf(*item),
            item.open,
            k < item.children@.len(),
            0 <= j <= k,
            before == rows_of(item.children@.take(j as int)).len(),
            rows_of(item.children@.take(k as int)).len() <= item.children_open_count,
        decreases k - j,
    {
        proof {
            lemma_rows_of_step(item.children@, j);
            assert(item.children@.take(k as int).take(j as int + 1) =~= item.children@.take(j as int + 1));
            lemma_rows_of_prefix(item.children@.take(k as int), j as int + 1);
            assert(wf(item.children@[j as int]));
        }
        before = before + item.children[j].children_open_count + 1;
        j = j + 1;
    }
    Some(1 + before + sub)
}

/// The path to the node listed at row `index`, `item` standing at row `i`.
///
/// Returns the row and the path when the row lies in `item`'s subtree, and
/// otherwise the first row after that subtree and nothing.
pub fn row_path(i: usize, index: usize, item: &FileNodeItem) -> (r: (usize, Option<Vec<usize>>))
    requires
        wf(*item),
        i + item.children_open_count <= usize::MAX,
    ensures
        i <= index <= i + item.children_open_count ==> r.0 == index && (r.1 matches Some(v)
            && v@ == rows(*item)[index - i]),
        !(i <= index <= i + item.children_open_count) ==> r.0 == i + item.children_open_count
            && r.1 is None,
    decreases *item,
{
    if i == index {
        return (i, Some(Vec::new()));
    }
    let mut j: usize = i;
    if item.open {
        let cs = &item.children;
        let mut k: usize = 0;
        while k < cs.len()
            invariant
                wf(*item),
                item.open,
                cs == &item.children,
                i != index,
                0 <= k <= cs@.len(),
                j == i + rows_of(cs@.take(k as int)).len(),
                j < index || index < i,
                i + item.children_open_count <= usize::MAX,
            decreases cs@.len() - k,
        {
            proof {
                lemma_rows_of_step(cs@, k);
                lemma_rows_of_prefix(cs@, k as int + 1);
                assert(wf(cs@[k as int]));
            }
            let count = cs[k].children_open_count;
            if i < index && index <= j + count + 1 {
                let ghost q = index - j - 1;
                proof {
                    lemma_rows_of_index(cs@, k, q);
                }
                let (x, found) = row_path(j + 1, index, &cs[k]);
                match found {
                    Some(mut v) => {
                        v.insert(0, k);
                        proof {
                            assert(v@ =~= seq![k] + rows(cs@[k as int])[q]);
                        }
                        return (x, Some(v));
                    },
                    None => {
                        return (x, None);
                    },
                }
            }
            j = j + count + 1;
            k = k + 1;
        }
        proof {
            assert(cs@.take(cs@.len() as int) =~= cs@);
        }
    }
    (j, None)
}

} // verus!
