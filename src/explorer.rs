use vstd::prelude::*;
use vstd::utf8::encode_utf8;
use crate::tree::{
    FileNodeItem, rows, rows_of, wf, flags_ok, size, size_of, node_at, valid_path, replaced_at,
    same_except_at, same_mod_count, wf_except_path, get_item_children, node_at_mut, node_at_ref, recount_path, lemma_size_of_insert,
    lemma_size_of_remove, subtree_size, same_fields, lemma_size_of_eq,
    lemma_rows_len, lemma_replaced_same_except, lemma_replaced_wf_except, lemma_size_except_at,
    lemma_same_except_trans,
};
use crate::paint::{PaintedRow, paint_file_node_item, window_len};
use crate::resolve::{
    names_along, path_named, row_path, names_of_path, find_path, named_index, lemma_rows_visible,
    child_named,
    lemma_named_index_found,
};

verus! {

/// One entry of a directory listing.
pub struct DirEntry {
    pub name: String,
    pub is_dir: bool,
}

/// The inline editor laid over the listing.
pub enum NamingState {
    Idle,
    /// A new entry is being named; it occupies a row of its own at
    /// `anchor_row`, in the directory reached by the names `parent`.
    Composing { anchor_row: usize, indent_level: usize, is_dir: bool, parent: Vec<String> },
    /// The entry reached by the names `path`, listed at `anchor_row`, is
    /// being renamed; its row is taken over by the editor.
    Renaming { anchor_row: usize, indent_level: usize, path: Vec<String> },
}

/// A file operation for the worker to carry out.
pub enum FileOp {
    Create { parent: Vec<String>, name: String, is_dir: bool },
    Rename { path: Vec<String>, new_name: String },
    Trash { path: Vec<String> },
}

/// What a click on a row asks of the surrounding application.
pub enum ClickAction {
    /// Nothing to do.
    Nothing,
    /// The file reached by these names was activated.
    OpenFile(Vec<String>),
    /// A directory was opened or closed.
    Toggled,
    /// The directory reached by these names must be listed.
    ListDir(Vec<String>),
}

/// The file tree of a workspace, its listing and the naming overlay.
///
/// The workspace itself is row zero and is not shown; its descendants are
/// listed from row one on.
pub struct FileExplorerData {
    pub workspace: FileNodeItem,
    pub naming: NamingState,
    /// The number of nodes in the tree.
    pub node_count: usize,
}

/// A node that was never listed: closed, unread, with no children.
pub open spec fn fresh(n: FileNodeItem) -> bool {
    &&& !n.read
    &&& !n.open
    &&& !n.loading
    &&& !n.open_on_load
    &&& n.children@.len() == 0
    &&& n.children_open_count == 0
}

/// `b` is `a` with the three given flags.
pub open spec fn with_flags(a: FileNodeItem, b: FileNodeItem, open: bool, loading: bool, open_on_load: bool) -> bool {
    &&& b.name@ == a.name@
    &&& b.is_dir == a.is_dir
    &&& b.read == a.read
    &&& b.children@ == a.children@
    &&& b.open == open
    &&& b.loading == loading
    &&& b.open_on_load == open_on_load
}

pub open spec fn is_composing(s: NamingState) -> bool {
    s is Composing
}

/// Creates a fresh entry.
pub fn new_entry(name: String, is_dir: bool) -> (r: FileNodeItem)
    ensures
        fresh(r),
        wf(r),
        size(r) == 1,
        r.name == name,
        r.is_dir == is_dir,
{
    let r = FileNodeItem {
        name,
        is_dir,
        read: false,
        open: false,
        loading: false,
        open_on_load: false,
        children: Vec::new(),
        children_open_count: 0,
    };
    proof {
        assert(size_of(r.children@) == 0);
    }
    r
}

proof fn lemma_edit(a: FileNodeItem, b: FileNodeItem, p: Seq<usize>, sub: FileNodeItem)
    requires
        wf(a),
        replaced_at(a, b, p, sub),
        flags_ok(sub),
        forall|j: int| 0 <= j < sub.children@.len() ==> wf(#[trigger] sub.children@[j]),
        p.len() > 0 ==> sub.name@ == node_at(a, p).name@,
    ensures
        wf_except_path(b, p),
        same_except_at(a, b, p),
        node_at(b, p) == sub,
        size(b) + size(node_at(a, p)) == size(a) + size(sub),
{
    lemma_replaced_wf_except(a, b, p, sub);
    lemma_replaced_same_except(a, b, p, sub);
    lemma_size_except_at(a, b, p);
}

impl FileExplorerData {
    /// The tree is well formed and `node_count` is its size.
    pub open spec fn inv(self) -> bool {
        &&& wf(self.workspace)
        &&& self.workspace.is_dir
        &&& self.node_count == size(self.workspace)
    }

    /// A workspace whose listing is yet to arrive; the caller lists the
    /// workspace directory (the empty path) and hands the entries to
    /// [`FileExplorerData::load_completed`].
    pub fn new(name: String) -> (r: Self)
        ensures
            r.inv(),
            r.workspace.name == name,
            !r.workspace.read,
            r.workspace.loading,
            r.workspace.open_on_load,
            r.workspace.children@.len() == 0,
            r.naming is Idle,
    {
        let mut workspace = new_entry(name, true);
        workspace.loading = true;
        workspace.open_on_load = true;
        FileExplorerData { workspace, naming: NamingState::Idle, node_count: 1 }
    }

    /// The number of rows of the listing, the row of a new entry being
    /// named included.
    pub fn total_visible_rows(&self) -> (r: usize)
        requires
            self.inv(),
        ensures
            r == self.workspace.children_open_count + if is_composing(self.naming) { 1int } else { 0 },
    {
        proof {
            lemma_rows_len(self.workspace);
        }
        match self.naming {
            NamingState::Composing { .. } => self.workspace.children_open_count + 1,
            _ => self.workspace.children_open_count,
        }
    }

    /// The node listed at row `index`.
    pub fn get_node_by_index(&self, index: usize) -> (r: Option<&FileNodeItem>)
        requires
            self.inv(),
        ensures
            1 <= index <= self.workspace.children_open_count ==> (r matches Some(n) && *n
                == node_at(self.workspace, rows(self.workspace)[index as int])),
            !(1 <= index <= self.workspace.children_open_count) ==> r is None,
    {
        if index == 0 {
            return None;
        }
        get_item_children(0, index, &self.workspace).1
    }

    /// Sets the flags of the node at path `p` and brings the cached counts
    /// up to date.
    fn set_flags_at(&mut self, p: &Vec<usize>, open: bool, loading: bool, open_on_load: bool)
        requires
            old(self).inv(),
            valid_path(old(self).workspace, p@),
            open ==> node_at(old(self).workspace, p@).read,
            loading ==> !node_at(old(self).workspace, p@).read,
            open_on_load ==> loading,
            loading ==> node_at(old(self).workspace, p@).is_dir,
        ensures
            final(self).inv(),
            final(self).naming == old(self).naming,
            same_except_at(old(self).workspace, final(self).workspace, p@),
            with_flags(node_at(old(self).workspace, p@), node_at(final(self).workspace, p@), open, loading, open_on_load),
    {
        let ghost before = self.workspace;
        let node = node_at_mut(&mut self.workspace, p, 0);
        node.open = open;
        node.loading = loading;
        node.open_on_load = open_on_load;
        let ghost sub = *node;
        proof {
            assert(p@.skip(0) =~= p@);
            lemma_node_wf(before, p@);
            assert(wf(node_at(before, p@)));
            lemma_edit(before, self.workspace, p@, sub);
            lemma_size_node(node_at(before, p@), sub);
        }
        let ghost mid = self.workspace;
        recount_path(&mut self.workspace, p, 0);
        proof {
            lemma_same_except_trans(before, mid, self.workspace, p@);
            lemma_size_except_at(mid, self.workspace, p@);
            lemma_size_node(node_at(mid, p@), node_at(self.workspace, p@));
        }
    }
}

/// A path found by names leads to a node.
pub proof fn lemma_path_named_valid(n: FileNodeItem, names: Seq<String>)
    requires
        path_named(n, names).is_some(),
    ensures
        valid_path(n, path_named(n, names).unwrap()),
    decreases names.len(),
{
    if names.len() > 0 {
        lemma_named_index_found(n.children@, names[0]@);
        assert(n.children.len() == n.children@.len());
        let k = named_index(n.children@, names[0]@).unwrap();
        lemma_path_named_valid(n.children@[k], names.drop_first());
        let p = path_named(n, names).unwrap();
        assert(p.drop_first() =~= path_named(n.children@[k], names.drop_first()).unwrap());
    }
}

/// Siblings that are all fresh count one node each.
pub proof fn lemma_size_of_fresh(cs: Seq<FileNodeItem>)
    requires
        forall|j: int| 0 <= j < cs.len() ==> #[trigger] cs[j].children@.len() == 0,
    ensures
        size_of(cs) == cs.len(),
    decreases cs.len(),
{
    if cs.len() > 0 {
        let d = cs.drop_last();
        assert forall|j: int| 0 <= j < d.len() implies #[trigger] d[j].children@.len() == 0 by {
            assert(d[j] == cs[j]);
        }
        lemma_size_of_fresh(d);
        assert(cs[cs.len() - 1].children@.len() == 0);
        assert(size_of(cs.last().children@) == 0);
        assert(size(cs.last()) == 1);
        assert(size_of(cs) == size_of(d) + size(cs.last()));
    }
}

/// Nodes of a well-formed tree are well formed.
pub proof fn lemma_node_wf(n: FileNodeItem, p: Seq<usize>)
    requires
        wf(n),
        valid_path(n, p),
    ensures
        wf(node_at(n, p)),
    decreases p.len(),
{
    if p.len() > 0 {
        assert(wf(n.children@[p[0] as int]));
        lemma_node_wf(n.children@[p[0] as int], p.drop_first());
    }
}

/// Nodes with the same children have the same size.
pub proof fn lemma_size_node(a: FileNodeItem, b: FileNodeItem)
    requires
        a.children@ == b.children@,
    ensures
        size(a) == size(b),
{
}


impl FileExplorerData {
    /// The path to the node listed at row `index`, when there is one.
    fn listed_path(&self, index: usize) -> (r: Option<Vec<usize>>)
        requires
            self.inv(),
        ensures
            1 <= index <= self.workspace.children_open_count ==> (r matches Some(p) && p@ == rows(
                self.workspace,
            )[index as int] && valid_path(self.workspace, p@) && p@.len() > 0),
            !(1 <= index <= self.workspace.children_open_count) ==> r is None,
    {
        if index == 0 {
            return None;
        }
        let r = row_path(0, index, &self.workspace).1;
        proof {
            if 1 <= index <= self.workspace.children_open_count {
                lemma_rows_len(self.workspace);
                lemma_rows_visible(self.workspace, index as int);
                lemma_row_path_nonempty(self.workspace, index as int);
            }
        }
        r
    }

    /// A click on row `index`: a file is activated; a directory that was
    /// listed before is opened or closed, which ends any naming; one that
    /// was not is listed and opens when its listing arrives, and a second
    /// click while that listing is in flight withdraws (or renews) the wish
    /// to open it without listing it twice.
    pub fn click_row(&mut self, index: usize) -> (r: ClickAction)
        requires
            old(self).inv(),
        ensures
            final(self).inv(),
            click_outcome(*old(self), *final(self), index, r),
    {
        let p = match self.listed_path(index) {
            Some(p) => p,
            None => { return ClickAction::Nothing; },
        };
        proof {
            assert(p@.skip(0) =~= p@);
            lemma_node_wf(self.workspace, p@);
        }
        let node = node_at_ref(&self.workspace, &p, 0);
        let (is_dir, read, open, loading, open_on_load) = (node.is_dir, node.read, node.open, node.loading, node.open_on_load);
        if !is_dir {
            return ClickAction::OpenFile(names_of_path(&self.workspace, &p, 0));
        }
        if read {
            self.set_flags_at(&p, !open, false, false);
            self.naming = NamingState::Idle;
            return ClickAction::Toggled;
        }
        if !loading {
            let names = names_of_path(&self.workspace, &p, 0);
            self.set_flags_at(&p, false, true, true);
            return ClickAction::ListDir(names);
        }
        self.set_flags_at(&p, false, true, !open_on_load);
        ClickAction::Nothing
    }

    /// Makes sure the directory listed at row `index` is open or opens when
    /// its listing arrives; returns the names of the directory to list when
    /// a listing must be asked for. Opening a directory that was listed
    /// before moves rows, so it ends any naming. Whatever was to follow the
    /// expansion runs at once when nothing is returned, and otherwise once
    /// the listing has been applied by [`FileExplorerData::load_completed`]
    /// (or has failed, [`FileExplorerData::load_failed`]).
    pub fn expand_dir(&mut self, index: usize) -> (r: Option<Vec<String>>)
        requires
            old(self).inv(),
        ensures
            final(self).inv(),
            ({
                let ws = old(self).workspace;
                let p = rows(ws)[index as int];
                let n = node_at(ws, p);
                let nw = node_at(final(self).workspace, p);
                &&& !(1 <= index <= ws.children_open_count && n.is_dir) ==> r is None && *final(self) == *old(self)
                &&& (1 <= index <= ws.children_open_count && n.is_dir) ==> same_except_at(ws, final(self).workspace, p)
                &&& (1 <= index <= ws.children_open_count && n.is_dir && n.read) ==> r is None
                    && with_flags(n, nw, true, false, false) && final(self).naming is Idle
                &&& !(1 <= index <= ws.children_open_count && n.is_dir && n.read) ==> final(self).naming == old(self).naming
                &&& (1 <= index <= ws.children_open_count && n.is_dir && !n.read) ==> with_flags(n, nw, false, true, true)
                    && (n.loading ==> r is None)
                    && (!n.loading ==> (r matches Some(v) && v@ == names_along(ws, p)))
            }),
    {
        let p = match self.listed_path(index) {
            Some(p) => p,
            None => { return None; },
        };
        proof {
            assert(p@.skip(0) =~= p@);
            lemma_node_wf(self.workspace, p@);
        }
        let node = node_at_ref(&self.workspace, &p, 0);
        let (is_dir, read, loading) = (node.is_dir, node.read, node.loading);
        if !is_dir {
            return None;
        }
        if read {
            self.set_flags_at(&p, true, false, false);
            self.naming = NamingState::Idle;
            return None;
        }
        let names = if loading { None } else { Some(names_of_path(&self.workspace, &p, 0)) };
        self.set_flags_at(&p, false, true, true);
        names
    }
}

/// Every row but row zero is reached by a path of at least one step.
pub proof fn lemma_row_path_nonempty(n: FileNodeItem, r: int)
    requires
        1 <= r < rows(n).len(),
    ensures
        rows(n)[r].len() > 0,
{
    crate::tree::lemma_rows_of_len(n.children@);
    if rows(n)[r].len() == 0 {
        lemma_rows_nonempty_paths(n.children@, r - 1);
    }
}

/// The rows of siblings are reached by paths of at least one step.
pub proof fn lemma_rows_nonempty_paths(cs: Seq<FileNodeItem>, r: int)
    requires
        0 <= r < rows_of(cs).len(),
    ensures
        rows_of(cs)[r].len() > 0,
    decreases cs.len(),
{
    let d = cs.drop_last();
    if r < rows_of(d).len() {
        lemma_rows_nonempty_paths(d, r);
    }
}


/// `a` comes before `b` in byte-wise lexicographic order.
pub open spec fn lex_lt(a: Seq<u8>, b: Seq<u8>) -> bool
    decreases a.len(),
{
    if a.len() == 0 {
        b.len() > 0
    } else if b.len() == 0 {
        false
    } else if a[0] != b[0] {
        a[0] < b[0]
    } else {
        lex_lt(a.drop_first(), b.drop_first())
    }
}

/// A new entry named `name` is listed before the sibling `c`: directories
/// before files, and by the UTF-8 bytes of the names within each group.
pub open spec fn goes_before(is_dir: bool, name: Seq<char>, c: FileNodeItem) -> bool {
    ||| is_dir && !c.is_dir
    ||| is_dir == c.is_dir && lex_lt(encode_utf8(name), encode_utf8(c.name@))
}

/// Where a new entry goes among siblings: before the first one it is
/// listed before, or last.
pub open spec fn insert_pos(cs: Seq<FileNodeItem>, is_dir: bool, name: Seq<char>) -> int
    decreases cs.len(),
{
    if cs.len() == 0 || goes_before(is_dir, name, cs[0]) {
        0
    } else {
        1 + insert_pos(cs.drop_first(), is_dir, name)
    }
}

/// The first row painted for a range that starts at `min`.
pub open spec fn paint_lo(min: int) -> int {
    if min < 1 { 1 } else { min }
}

/// The last row painted for a range that ends at `max`, of `total` rows.
pub open spec fn paint_hi(total: int, max: int) -> int {
    if max > total { total } else { max }
}

pub proof fn lemma_valid_prefix(n: FileNodeItem, p: Seq<usize>)
    requires
        valid_path(n, p),
        p.len() > 0,
    ensures
        valid_path(n, p.drop_last()),
    decreases p.len(),
{
    if p.len() > 1 {
        lemma_valid_prefix(n.children@[p[0] as int], p.drop_first());
        assert(p.drop_last().drop_first() =~= p.drop_first().drop_last());
    }
}

pub proof fn lemma_insert_pos_bound(cs: Seq<FileNodeItem>, is_dir: bool, name: Seq<char>)
    ensures
        0 <= insert_pos(cs, is_dir, name) <= cs.len(),
    decreases cs.len(),
{
    if cs.len() > 0 && !goes_before(is_dir, name, cs[0]) {
        lemma_insert_pos_bound(cs.drop_first(), is_dir, name);
    }
}

/// Tells whether `a` comes before `b` in byte-wise lexicographic order.
fn bytes_before(a: &[u8], b: &[u8]) -> (r: bool)
    ensures
        r == lex_lt(a@, b@),
{
    let mut i: usize = 0;
    proof {
        assert(a@.skip(0) =~= a@);
        assert(b@.skip(0) =~= b@);
    }
    while i < a.len() && i < b.len() && a[i] == b[i]
        invariant
            0 <= i <= a@.len(),
            i <= b@.len(),
            lex_lt(a@, b@) == lex_lt(a@.skip(i as int), b@.skip(i as int)),
        decreases a@.len() - i,
    {
        proof {
            assert(a@.skip(i as int).drop_first() =~= a@.skip(i as int + 1));
            assert(b@.skip(i as int).drop_first() =~= b@.skip(i as int + 1));
        }
        i = i + 1;
    }
    if i == a.len() {
        i < b.len()
    } else if i == b.len() {
        false
    } else {
        a[i] < b[i]
    }
}

/// Tells whether a new entry is listed before the sibling `c`.
fn listed_before(is_dir: bool, name: &String, c: &FileNodeItem) -> (r: bool)
    ensures
        r == goes_before(is_dir, name@, *c),
{
    if is_dir && !c.is_dir {
        return true;
    }
    if is_dir != c.is_dir {
        return false;
    }
    bytes_before(name.as_str().as_bytes(), c.name.as_str().as_bytes())
}

/// Finds where a new entry goes among `cs`.
fn insert_position(cs: &Vec<FileNodeItem>, is_dir: bool, name: &String) -> (r: usize)
    ensures
        r == insert_pos(cs@, is_dir, name@),
{
    let mut k: usize = 0;
    proof {
        assert(cs@.skip(0) =~= cs@);
    }
    while k < cs.len() && !listed_before(is_dir, name, &cs[k])
        invariant
            0 <= k <= cs@.len(),
            insert_pos(cs@, is_dir, name@) == k + insert_pos(cs@.skip(k as int), is_dir, name@),
        decreases cs@.len() - k,
    {
        proof {
            assert(cs@.skip(k as int).drop_first() =~= cs@.skip(k as int + 1));
        }
        k = k + 1;
    }
    k
}

impl FileExplorerData {
    /// Applies the listing of the directory reached by `names`. A listing
    /// is discarded when that directory is gone, was listed already, or
    /// its entries would overflow the node count. The directory opens only
    /// if it is still wished open. An applied listing moves rows, so it ends
    /// any naming; a naming that was to follow the expansion starts after
    /// this call.
    pub fn load_completed(&mut self, names: &Vec<String>, entries: &Vec<DirEntry>) -> (r: bool)
        requires
            old(self).inv(),
        ensures
            final(self).inv(),
            ({
                let ws = old(self).workspace;
                let found = path_named(ws, names@);
                let p = found.unwrap();
                let n = node_at(ws, p);
                let nw = node_at(final(self).workspace, p);
                &&& r == (found is Some && n.is_dir && !n.read && old(self).node_count + entries@.len() <= usize::MAX
                    && entry_names_distinct(entries@))
                &&& !r ==> *final(self) == *old(self)
                &&& r ==> {
                    &&& final(self).naming is Idle
                    &&& same_except_at(ws, final(self).workspace, p)
                    &&& final(self).node_count == old(self).node_count + entries@.len()
                    &&& nw.name@ == n.name@
                    &&& nw.is_dir
                    &&& nw.read
                    &&& !nw.loading
                    &&& !nw.open_on_load
                    &&& nw.open == n.open_on_load
                    &&& nw.children@.len() == entries@.len()
                    &&& forall|j: int| 0 <= j < entries@.len() ==> {
                        &&& fresh(#[trigger] nw.children@[j])
                        &&& nw.children@[j].name == entries@[j].name
                        &&& nw.children@[j].is_dir == entries@[j].is_dir
                    }
                }
            }),
    {
        let p = match find_path(&self.workspace, names, 0) {
            Some(p) => p,
            None => {
                proof {
                    assert(names@.skip(0) =~= names@);
                }
                return false;
            },
        };
        proof {
            assert(names@.skip(0) =~= names@);
            assert(p@.skip(0) =~= p@);
            lemma_path_named_valid(self.workspace, names@);
            lemma_node_wf(self.workspace, p@);
        }
        let node = node_at_ref(&self.workspace, &p, 0);
        if !node.is_dir || node.read || entries.len() > usize::MAX - self.node_count || !names_unique(entries) {
            return false;
        }
        let mut children: Vec<FileNodeItem> = Vec::new();
        let mut k: usize = 0;
        while k < entries.len()
            invariant
                0 <= k <= entries@.len(),
                children@.len() == k,
                forall|j: int| 0 <= j < k ==> {
                    &&& fresh(#[trigger] children@[j])
                    &&& wf(children@[j])
                    &&& children@[j].name == entries@[j].name
                    &&& children@[j].is_dir == entries@[j].is_dir
                },
            decreases entries@.len() - k,
        {
            children.push(new_entry(entries[k].name.clone(), entries[k].is_dir));
            k = k + 1;
        }
        proof {
            lemma_size_of_fresh(children@);
            assert forall|i: int, j: int|
                0 <= i < children@.len() && 0 <= j < children@.len() && i != j implies #[trigger] children@[i].name@
                != #[trigger] children@[j].name@ by {
                assert(entries@[i].name@ != entries@[j].name@);
            }
        }
        let ghost before = self.workspace;
        let node = node_at_mut(&mut self.workspace, &p, 0);
        let open = node.open_on_load;
        node.children = children;
        node.read = true;
        node.open = open;
        node.loading = false;
        node.open_on_load = false;
        let ghost sub = *node;
        proof {
            lemma_edit(before, self.workspace, p@, sub);
            assert(size_of(node_at(before, p@).children@) == 0);
        }
        self.node_count = self.node_count + entries.len();
        let ghost mid = self.workspace;
        recount_path(&mut self.workspace, &p, 0);
        proof {
            lemma_same_except_trans(before, mid, self.workspace, p@);
            lemma_size_except_at(mid, self.workspace, p@);
            lemma_size_node(node_at(mid, p@), node_at(self.workspace, p@));
        }
        self.naming = NamingState::Idle;
        true
    }

    /// Records that listing the directory reached by `names` failed: it
    /// stays unread and a later expansion asks again.
    pub fn load_failed(&mut self, names: &Vec<String>) -> (r: bool)
        requires
            old(self).inv(),
        ensures
            final(self).inv(),
            final(self).naming == old(self).naming,
            ({
                let ws = old(self).workspace;
                let found = path_named(ws, names@);
                let p = found.unwrap();
                let n = node_at(ws, p);
                &&& r == (found is Some && n.is_dir && !n.read && n.loading)
                &&& !r ==> *final(self) == *old(self)
                &&& r ==> same_except_at(ws, final(self).workspace, p) && with_flags(
                    n,
                    node_at(final(self).workspace, p),
                    false,
                    false,
                    false,
                )
            }),
    {
        let p = match find_path(&self.workspace, names, 0) {
            Some(p) => p,
            None => {
                proof {
                    assert(names@.skip(0) =~= names@);
                }
                return false;
            },
        };
        proof {
            assert(names@.skip(0) =~= names@);
            assert(p@.skip(0) =~= p@);
            lemma_path_named_valid(self.workspace, names@);
            lemma_node_wf(self.workspace, p@);
        }
        let node = node_at_ref(&self.workspace, &p, 0);
        if !node.is_dir || node.read || !node.loading {
            return false;
        }
        self.set_flags_at(&p, false, false, false);
        true
    }

    /// Starts naming a new entry from a click on row `index`: in the
    /// directory listed there, or in the directory of the file listed
    /// there, the editor taking the row below it; with no row there, at the
    /// top of the workspace.
    pub fn start_create(&mut self, index: usize, is_dir: bool)
        requires
            old(self).inv(),
        ensures
            final(self).workspace == old(self).workspace,
            final(self).node_count == old(self).node_count,
            ({
                let ws = old(self).workspace;
                let p = rows(ws)[index as int];
                let n = node_at(ws, p);
                let dir = if n.is_dir { p } else { p.drop_last() };
                &&& (1 <= index <= ws.children_open_count) ==> (final(self).naming matches NamingState::Composing {
                    anchor_row, indent_level, is_dir: d, parent }
                    && anchor_row == index + 1 && indent_level == p.len() && d == is_dir
                    && parent@ == names_along(ws, dir))
                &&& !(1 <= index <= ws.children_open_count) ==> (final(self).naming matches NamingState::Composing {
                    anchor_row, indent_level, is_dir: d, parent }
                    && anchor_row == 1 && indent_level == 0 && d == is_dir && parent@.len() == 0)
            }),
    {
        proof {
            lemma_rows_len(self.workspace);
        }
        match self.listed_path(index) {
            Some(mut p) => {
                let indent_level = p.len();
                proof {
                    assert(p@.skip(0) =~= p@);
                }
                if !node_at_ref(&self.workspace, &p, 0).is_dir {
                    proof {
                        lemma_valid_prefix(self.workspace, p@);
                    }
                    p.pop();
                }
                proof {
                    assert(p@.skip(0) =~= p@);
                }
                let parent = names_of_path(&self.workspace, &p, 0);
                self.naming = NamingState::Composing { anchor_row: index + 1, indent_level, is_dir, parent };
            },
            None => {
                self.naming = NamingState::Composing { anchor_row: 1, indent_level: 0, is_dir, parent: Vec::new() };
            },
        }
    }

    /// Starts renaming the entry listed at row `index`, when there is one.
    pub fn start_rename(&mut self, index: usize) -> (r: bool)
        requires
            old(self).inv(),
        ensures
            final(self).workspace == old(self).workspace,
            final(self).node_count == old(self).node_count,
            r == (1 <= index <= old(self).workspace.children_open_count),
            !r ==> final(self).naming == old(self).naming,
            r ==> ({
                let p = rows(old(self).workspace)[index as int];
                final(self).naming matches NamingState::Renaming { anchor_row, indent_level, path }
                    && anchor_row == index && indent_level == p.len()
                    && path@ == names_along(old(self).workspace, p)
            }),
    {
        match self.listed_path(index) {
            Some(p) => {
                proof {
                    assert(p@.skip(0) =~= p@);
                }
                let path = names_of_path(&self.workspace, &p, 0);
                self.naming = NamingState::Renaming { anchor_row: index, indent_level: p.len(), path };
                true
            },
            None => false,
        }
    }

    /// Leaves the naming overlay without any effect.
    pub fn cancel_naming(&mut self)
        ensures
            final(self).workspace == old(self).workspace,
            final(self).node_count == old(self).node_count,
            final(self).naming is Idle,
    {
        self.naming = NamingState::Idle;
    }

    /// Leaves the naming overlay with `name` as the entry's name, and
    /// returns the file operation to carry out.
    pub fn commit_naming(&mut self, name: String) -> (r: Option<FileOp>)
        ensures
            final(self).workspace == old(self).workspace,
            final(self).node_count == old(self).node_count,
            final(self).naming is Idle,
            old(self).naming is Idle ==> r is None,
            old(self).naming matches NamingState::Composing { parent, is_dir, .. } ==> (r matches Some(
                FileOp::Create { parent: pp, name: nm, is_dir: d },
            ) && pp == parent && nm == name && d == is_dir),
            old(self).naming matches NamingState::Renaming { path, .. } ==> (r matches Some(
                FileOp::Rename { path: pp, new_name },
            ) && pp == path && new_name == name),
    {
        let mut state = NamingState::Idle;
        core::mem::swap(&mut self.naming, &mut state);
        match state {
            NamingState::Idle => None,
            NamingState::Composing { parent, is_dir, .. } => Some(FileOp::Create { parent, name, is_dir }),
            NamingState::Renaming { path, .. } => Some(FileOp::Rename { path, new_name: name }),
        }
    }
}


impl FileExplorerData {
    /// Adds the entry that the worker created in the directory reached by
    /// `parent`, when that directory is still there and has been listed;
    /// rows move, so any naming ends.
    pub fn created(&mut self, parent: &Vec<String>, name: String, is_dir: bool) -> (r: bool)
        requires
            old(self).inv(),
        ensures
            final(self).inv(),
            ({
                let ws = old(self).workspace;
                let found = path_named(ws, parent@);
                let p = found.unwrap();
                let n = node_at(ws, p);
                let nw = node_at(final(self).workspace, p);
                let q = insert_pos(n.children@, is_dir, name@);
                &&& r == (found is Some && n.is_dir && n.read && old(self).node_count < usize::MAX
                    && named_index(n.children@, name@) is None)
                &&& !r ==> *final(self) == *old(self)
                &&& r ==> {
                    &&& final(self).naming is Idle
                    &&& same_except_at(ws, final(self).workspace, p)
                    &&& final(self).node_count == old(self).node_count + 1
                    &&& nw.name@ == n.name@
                    &&& nw.is_dir
                    &&& nw.read
                    &&& nw.open == n.open
                    &&& nw.loading == n.loading
                    &&& nw.open_on_load == n.open_on_load
                    &&& 0 <= q <= n.children@.len()
                    &&& nw.children@.len() == n.children@.len() + 1
                    &&& nw.children@.remove(q) == n.children@
                    &&& fresh(nw.children@[q])
                    &&& nw.children@[q].name == name
                    &&& nw.children@[q].is_dir == is_dir
                }
            }),
    {
        let p = match find_path(&self.workspace, parent, 0) {
            Some(p) => p,
            None => {
                proof {
                    assert(parent@.skip(0) =~= parent@);
                }
                return false;
            },
        };
        proof {
            assert(parent@.skip(0) =~= parent@);
            assert(p@.skip(0) =~= p@);
            lemma_path_named_valid(self.workspace, parent@);
            lemma_node_wf(self.workspace, p@);
        }
        let node = node_at_ref(&self.workspace, &p, 0);
        if !node.is_dir || !node.read || self.node_count == usize::MAX || child_named(node, &name).is_some() {
            return false;
        }
        proof {
            lemma_named_index_none(node.children@, name@);
        }
        let pos = insert_position(&node.children, is_dir, &name);
        proof {
            lemma_insert_pos_bound(node.children@, is_dir, name@);
        }
        let entry = new_entry(name, is_dir);
        let ghost before = self.workspace;
        let node = node_at_mut(&mut self.workspace, &p, 0);
        let ghost old_children = node.children@;
        node.children.insert(pos, entry);
        let ghost sub = *node;
        proof {
            assert(sub.children@.remove(pos as int) =~= old_children);
            assert forall|i: int, j: int|
                0 <= i < sub.children@.len() && 0 <= j < sub.children@.len() && i != j implies #[trigger] sub.children@[i].name@
                != #[trigger] sub.children@[j].name@ by {
                let oi = if i < pos { i } else { i - 1 };
                let oj = if j < pos { j } else { j - 1 };
                if i != pos {
                    assert(sub.children@[i] == old_children[oi]);
                }
                if j != pos {
                    assert(sub.children@[j] == old_children[oj]);
                }
            }
            assert forall|j: int| 0 <= j < sub.children@.len() implies wf(#[trigger] sub.children@[j]) by {
                if j < pos {
                    assert(sub.children@[j] == old_children[j]);
                } else if j > pos {
                    assert(sub.children@[j] == old_children[j - 1]);
                }
            }
            lemma_edit(before, self.workspace, p@, sub);
            lemma_size_of_insert(old_children, pos as int, entry);
        }
        self.node_count = self.node_count + 1;
        let ghost mid = self.workspace;
        recount_path(&mut self.workspace, &p, 0);
        proof {
            lemma_same_except_trans(before, mid, self.workspace, p@);
            lemma_size_except_at(mid, self.workspace, p@);
            lemma_size_node(node_at(mid, p@), node_at(self.workspace, p@));
        }
        self.naming = NamingState::Idle;
        true
    }

    /// Gives the entry reached by `path` the name `new_name` after the
    /// worker renamed it, unless a sibling already has that name; the
    /// entries below it move with it.
    pub fn renamed(&mut self, path: &Vec<String>, new_name: String) -> (r: bool)
        requires
            old(self).inv(),
        ensures
            final(self).inv(),
            final(self).naming == old(self).naming,
            final(self).node_count == old(self).node_count,
            ({
                let ws = old(self).workspace;
                let found = path_named(ws, path@);
                let p = found.unwrap();
                let q = p.drop_last();
                let k = p.last() as int;
                let n = node_at(ws, q);
                let nw = node_at(final(self).workspace, q);
                let clash = named_index(n.children@, new_name@);
                &&& r == (found is Some && path@.len() > 0 && (clash is None || clash == Some(k)))
                &&& !r ==> *final(self) == *old(self)
                &&& r ==> {
                    &&& same_except_at(ws, final(self).workspace, q)
                    &&& same_fields(n, nw)
                    &&& nw.children@.len() == n.children@.len()
                    &&& forall|j: int| 0 <= j < n.children@.len() && j != k ==> nw.children@[j] == n.children@[j]
                    &&& nw.children@[k].name@ == new_name@
                    &&& same_mod_name(n.children@[k], nw.children@[k])
                }
            }),
    {
        if path.len() == 0 {
            return false;
        }
        let mut p = match find_path(&self.workspace, path, 0) {
            Some(p) => p,
            None => {
                proof {
                    assert(path@.skip(0) =~= path@);
                }
                return false;
            },
        };
        proof {
            assert(path@.skip(0) =~= path@);
            lemma_path_named_valid(self.workspace, path@);
            lemma_path_named_len(self.workspace, path@);
            lemma_valid_prefix(self.workspace, p@);
            lemma_valid_last(self.workspace, p@);
        }
        let k = match p.pop() {
            Some(k) => k,
            None => { return false; },
        };
        proof {
            assert(p@.skip(0) =~= p@);
            lemma_node_wf(self.workspace, p@);
        }
        let parent = node_at_ref(&self.workspace, &p, 0);
        let clash = child_named(parent, &new_name);
        proof {
            lemma_named_index_none(parent.children@, new_name@);
        }
        match clash {
            Some(j) => if j != k {
                return false;
            },
            None => {},
        }
        let ghost before = self.workspace;
        let node = node_at_mut(&mut self.workspace, &p, 0);
        let ghost old_node = *node;
        let child = &mut node.children[k];
        child.name = new_name;
        let ghost sub = *node;
        proof {
            let cs = old_node.children@;
            let ns = sub.children@;
            assert(wf(cs[k as int]));
            lemma_wf_renamed(cs[k as int], ns[k as int]);
            assert forall|j: int| 0 <= j < ns.len() implies wf(#[trigger] ns[j]) by {
                if j != k {
                    assert(ns[j] == cs[j]);
                }
            }
            assert forall|a: int, b: int|
                0 <= a < ns.len() && 0 <= b < ns.len() && a != b implies #[trigger] ns[a].name@ != #[trigger] ns[b].name@ by {
                if a != k {
                    assert(ns[a] == cs[a]);
                }
                if b != k {
                    assert(ns[b] == cs[b]);
                }
            }
            lemma_edit(before, self.workspace, p@, sub);
            lemma_size_node(cs[k as int], ns[k as int]);
            lemma_size_of_eq(cs, ns, k as int);
        }
        let ghost mid = self.workspace;
        recount_path(&mut self.workspace, &p, 0);
        proof {
            lemma_same_except_trans(before, mid, self.workspace, p@);
            lemma_size_except_at(mid, self.workspace, p@);
            lemma_size_node(node_at(mid, p@), node_at(self.workspace, p@));
            let cs = old_node.children@;
            let ns = sub.children@;
            assert(rows(cs[k as int]) == rows(ns[k as int]));
            assert forall|j: int| 0 <= j < cs.len() implies rows(#[trigger] cs[j]) == rows(ns[j]) by {
                if j != k {
                    assert(ns[j] == cs[j]);
                }
            }
            crate::laws::lemma_rows_of_same(cs, ns);
            lemma_path_valid_after(before, self.workspace, p@);
            lemma_node_wf(self.workspace, p@);
            assert(rows(node_at(self.workspace, p@)) == rows(old_node));
        }
        true
    }

    /// Where tree row `row` is shown: a new entry being named takes a row
    /// of its own, pushing the rows from its anchor on down by one.
    pub fn display_row(&self, row: usize) -> (r: usize)
        requires
            self.inv(),
            row <= self.workspace.children_open_count,
        ensures
            r == match self.naming {
                NamingState::Composing { anchor_row, .. } => if row >= anchor_row { row + 1 } else { row as int },
                _ => row as int,
            },
    {
        proof {
            lemma_rows_len(self.workspace);
        }
        match &self.naming {
            NamingState::Composing { anchor_row, .. } => if row >= *anchor_row { row + 1 } else { row },
            _ => row,
        }
    }

    /// The rows of the listing from `min` to `max`, both included, in
    /// order, as shown under the naming overlay: a new entry being named
    /// takes the row at its anchor and pushes the rows from there on down
    /// by one; an entry being renamed has its row taken by the editor. The
    /// tree is walked once or twice, skipping whole subtrees outside the
    /// range.
    pub fn paint_range(&self, min: usize, max: usize) -> (r: Vec<PaintedRow>)
        requires
            self.inv(),
        ensures
            painted(*self, min as int, max as int, r@),
    {
        proof {
            lemma_rows_len(self.workspace);
        }
        let c = self.workspace.children_open_count;
        let lo: usize = if min < 1 { 1 } else { min };
        let mut out: Vec<PaintedRow> = Vec::new();
        let mut path: Vec<usize> = Vec::new();
        match &self.naming {
            NamingState::Composing { anchor_row, indent_level, .. } => {
                let a: usize = if *anchor_row < 1 { 1 } else if *anchor_row > c + 1 { c + 1 } else { *anchor_row };
                let hi: usize = if max > c + 1 { c + 1 } else { max };
                out = paint_composing(&self.workspace, lo, hi, a, *indent_level);
            },
            NamingState::Renaming { anchor_row, .. } => {
                let anchor = *anchor_row;
                paint_file_node_item(&self.workspace, lo, max, 0, 0, &mut path, &mut out);
                let ghost w = out@;
                mark_editor(&mut out, anchor);
                proof {
                    assert forall|t: int| #![trigger out@[t]] 0 <= t < out@.len() implies shows(
                        out@[t], self.workspace, self.naming, lo + t) by {
                        assert(w[0 + t] == w[t]);
                        assert(Seq::<usize>::empty() + rows(self.workspace)[lo + t] =~= rows(self.workspace)[lo + t]);
                    }
                }
            },
            NamingState::Idle => {
                paint_file_node_item(&self.workspace, lo, max, 0, 0, &mut path, &mut out);
                proof {
                    assert forall|t: int| #![trigger out@[t]] 0 <= t < out@.len() implies shows(
                        out@[t], self.workspace, self.naming, lo + t) by {
                        assert(out@[0 + t] == out@[t]);
                        assert(Seq::<usize>::empty() + rows(self.workspace)[lo + t] =~= rows(self.workspace)[lo + t]);
                    }
                }
            },
        }
        out
    }
}


impl FileExplorerData {
    /// The request to move the entry listed at row `index` to the trash,
    /// when there is one.
    pub fn trash_row(&self, index: usize) -> (r: Option<FileOp>)
        requires
            self.inv(),
        ensures
            1 <= index <= self.workspace.children_open_count ==> (r matches Some(FileOp::Trash { path })
                && path@ == names_along(self.workspace, rows(self.workspace)[index as int])),
            !(1 <= index <= self.workspace.children_open_count) ==> r is None,
    {
        match self.listed_path(index) {
            Some(p) => {
                proof {
                    assert(p@.skip(0) =~= p@);
                }
                Some(FileOp::Trash { path: names_of_path(&self.workspace, &p, 0) })
            },
            None => None,
        }
    }

    /// Takes out the entry reached by `path`, with everything below it,
    /// after the worker removed it; a naming in progress ends, as rows
    /// move under it.
    pub fn removed(&mut self, path: &Vec<String>) -> (r: bool)
        requires
            old(self).inv(),
        ensures
            final(self).inv(),
            ({
                let ws = old(self).workspace;
                let found = path_named(ws, path@);
                let p = found.unwrap();
                let q = p.drop_last();
                let k = p.last() as int;
                let n = node_at(ws, q);
                let nw = node_at(final(self).workspace, q);
                &&& r == (found is Some && path@.len() > 0)
                &&& !r ==> *final(self) == *old(self)
                &&& r ==> {
                    &&& final(self).naming is Idle
                    &&& same_except_at(ws, final(self).workspace, q)
                    &&& final(self).node_count == old(self).node_count - size(n.children@[k])
                    &&& nw.name@ == n.name@
                    &&& nw.is_dir == n.is_dir
                    &&& nw.read == n.read
                    &&& nw.open == n.open
                    &&& nw.loading == n.loading
                    &&& nw.open_on_load == n.open_on_load
                    &&& nw.children@ == n.children@.remove(k)
                }
            }),
    {
        if path.len() == 0 {
            return false;
        }
        let mut p = match find_path(&self.workspace, path, 0) {
            Some(p) => p,
            None => {
                proof {
                    assert(path@.skip(0) =~= path@);
                }
                return false;
            },
        };
        proof {
            assert(path@.skip(0) =~= path@);
            lemma_path_named_valid(self.workspace, path@);
            lemma_path_named_len(self.workspace, path@);
            lemma_valid_prefix(self.workspace, p@);
            lemma_valid_last(self.workspace, p@);
        }
        let ghost full = p@;
        let k = match p.pop() {
            Some(k) => k,
            None => { return false; },
        };
        proof {
            assert(p@.skip(0) =~= p@);
            lemma_node_wf(self.workspace, p@);
            lemma_size_node_at(self.workspace, p@);
            crate::tree::lemma_size_of_ge(node_at(self.workspace, p@).children@, k as int);
        }
        let gone = subtree_size(&node_at_ref(&self.workspace, &p, 0).children[k]);
        let ghost before = self.workspace;
        let node = node_at_mut(&mut self.workspace, &p, 0);
        let ghost old_children = node.children@;
        node.children.remove(k);
        let ghost sub = *node;
        proof {
            assert forall|j: int| 0 <= j < sub.children@.len() implies wf(#[trigger] sub.children@[j]) by {
                if j < k {
                    assert(sub.children@[j] == old_children[j]);
                } else {
                    assert(sub.children@[j] == old_children[j + 1]);
                }
            }
            lemma_edit(before, self.workspace, p@, sub);
            lemma_size_of_remove(old_children, k as int);
        }
        self.node_count = self.node_count - gone;
        let ghost mid = self.workspace;
        recount_path(&mut self.workspace, &p, 0);
        proof {
            lemma_same_except_trans(before, mid, self.workspace, p@);
            lemma_size_except_at(mid, self.workspace, p@);
            lemma_size_node(node_at(mid, p@), node_at(self.workspace, p@));
        }
        self.naming = NamingState::Idle;
        true
    }
}

/// A subtree is no larger than the tree.
pub proof fn lemma_size_node_at(n: FileNodeItem, p: Seq<usize>)
    requires
        valid_path(n, p),
    ensures
        size(node_at(n, p)) <= size(n),
    decreases p.len(),
{
    if p.len() > 0 {
        lemma_size_node_at(n.children@[p[0] as int], p.drop_first());
        crate::tree::lemma_size_of_ge(n.children@, p[0] as int);
    }
}

/// A path found by names has one step per name.
pub proof fn lemma_path_named_len(n: FileNodeItem, names: Seq<String>)
    requires
        path_named(n, names).is_some(),
    ensures
        path_named(n, names).unwrap().len() == names.len(),
    decreases names.len(),
{
    if names.len() > 0 {
        let k = named_index(n.children@, names[0]@).unwrap();
        lemma_path_named_len(n.children@[k], names.drop_first());
    }
}

/// The last step of a valid path names a child of the node before it.
pub proof fn lemma_valid_last(n: FileNodeItem, p: Seq<usize>)
    requires
        valid_path(n, p),
        p.len() > 0,
    ensures
        p.last() < node_at(n, p.drop_last()).children@.len(),
    decreases p.len(),
{
    if p.len() > 1 {
        lemma_valid_last(n.children@[p[0] as int], p.drop_first());
        assert(p.drop_last().drop_first() =~= p.drop_first().drop_last());
    }
}


/// What a click on row `index` of `o` does: `f` is the state after it and
/// `r` what it asks of the application.
pub open spec fn click_outcome(o: FileExplorerData, f: FileExplorerData, index: usize, r: ClickAction) -> bool {
    {
        let ws = o.workspace;
        let p = rows(ws)[index as int];
        let n = node_at(ws, p);
        let nw = node_at(f.workspace, p);
        &&& !(1 <= index <= ws.children_open_count) ==> r is Nothing && f == o
        &&& (1 <= index <= ws.children_open_count && !n.is_dir) ==> (r matches ClickAction::OpenFile(v)
            && v@ == names_along(ws, p)) && f == o
        &&& (1 <= index <= ws.children_open_count && n.is_dir) ==> same_except_at(ws, f.workspace, p)
        &&& (1 <= index <= ws.children_open_count && n.is_dir && n.read) ==> r is Toggled
            && f.naming is Idle && with_flags(n, nw, !n.open, false, false)
        &&& (1 <= index <= ws.children_open_count && n.is_dir && !n.read && !n.loading) ==> (r matches ClickAction::ListDir(v)
            && v@ == names_along(ws, p)) && f.naming == o.naming
            && with_flags(n, nw, false, true, true)
        &&& (1 <= index <= ws.children_open_count && n.is_dir && !n.read && n.loading) ==> r is Nothing
            && f.naming == o.naming && with_flags(n, nw, false, true, !n.open_on_load)
    }
}

/// `r` is what painting the rows from `min` to `max` of `e` shows.
pub open spec fn painted(e: FileExplorerData, min: int, max: int, r: Seq<PaintedRow>) -> bool {
    &&& r.len() == window_len(paint_lo(min), paint_hi(shown_total(e.workspace, e.naming), max))
    &&& forall|t: int| #![trigger r[t]] 0 <= t < r.len() ==> shows(r[t], e.workspace, e.naming, paint_lo(min) + t)
}

/// The number of rows shown: the tree's, and the row of a new entry being
/// named.
pub open spec fn shown_total(ws: FileNodeItem, naming: NamingState) -> int {
    ws.children_open_count + if naming is Composing { 1int } else { 0 }
}

/// The row a new entry being named takes: its anchor, kept within the
/// rows shown.
pub open spec fn shown_anchor(anchor: int, count: int) -> int {
    if anchor < 1 { 1 } else if anchor > count + 1 { count + 1 } else { anchor }
}

/// `e` shows row `d` of the listing of `ws` under the overlay `naming`.
pub open spec fn shows(e: PaintedRow, ws: FileNodeItem, naming: NamingState, d: int) -> bool {
    &&& e.row == d
    &&& match naming {
        NamingState::Composing { anchor_row, indent_level, .. } => shows_composing(
            e,
            ws,
            shown_anchor(anchor_row as int, ws.children_open_count as int),
            indent_level as int,
            d,
        ),
        NamingState::Renaming { anchor_row, .. } => {
            &&& e.editor == (d == anchor_row)
            &&& e.path@ == rows(ws)[d]
            &&& e.level == e.path@.len()
        },
        NamingState::Idle => !e.editor && e.path@ == rows(ws)[d] && e.level == e.path@.len(),
    }
}

/// `e` shows row `d` of the listing of `ws` while a new entry is named at
/// row `a`, indented by `indent`.
pub open spec fn shows_composing(e: PaintedRow, ws: FileNodeItem, a: int, indent: int, d: int) -> bool {
    if d == a {
        e.editor && e.level == indent && e.path@.len() == 0
    } else {
        let t = if d < a { d } else { d - 1 };
        !e.editor && e.path@ == rows(ws)[t] && e.level == e.path@.len()
    }
}

/// The rows from `lo` to `hi` shown while a new entry is named at row `a`.
#[verifier::rlimit(40)]
fn paint_composing(ws: &FileNodeItem, lo: usize, hi: usize, a: usize, indent: usize) -> (r: Vec<PaintedRow>)
    requires
        wf(*ws),
        size(*ws) <= usize::MAX,
        1 <= lo,
        1 <= a <= ws.children_open_count + 1,
        hi <= ws.children_open_count + 1,
    ensures
        r@.len() == window_len(lo as int, hi as int),
        forall|t: int| #![trigger r@[t]] 0 <= t < r@.len() ==> r@[t].row == lo + t && shows_composing(
            r@[t],
            *ws,
            a as int,
            indent as int,
            lo + t,
        ),
{
    proof {
        lemma_rows_len(*ws);
    }
    let mut out: Vec<PaintedRow> = Vec::new();
    let mut path: Vec<usize> = Vec::new();
    if lo < a {
        let top: usize = if hi < a - 1 { hi } else { a - 1 };
        paint_file_node_item(ws, lo, top, 0, 0, &mut path, &mut out);
        proof {
            assert(out@.len() == window_len(lo as int, top as int));
            assert forall|t: int| #![trigger out@[t]] 0 <= t < out@.len() implies out@[t].row == lo + t
                && shows_composing(out@[t], *ws, a as int, indent as int, lo + t) by {
                assert(out@[0 + t] == out@[t]);
                assert(Seq::<usize>::empty() + rows(*ws)[lo + t] =~= rows(*ws)[lo + t]);
            }
        }
    }
    let ghost n1 = out@.len();
    if lo <= a && a <= hi {
        out.push(PaintedRow { row: a, level: indent, path: Vec::new(), editor: true });
    }
    let ghost n2 = out@.len();
    let ghost prev = out@;
    proof {
        assert(n2 == if lo <= a { window_len(lo as int, if hi < a { hi as int } else { a as int }) } else { 0 });
        assert forall|t: int| #![trigger out@[t]] 0 <= t < n2 implies out@[t].row == lo + t
            && shows_composing(out@[t], *ws, a as int, indent as int, lo + t) by {
            if t < n1 {
                assert(out@[t] == prev[t]);
            }
        }
    }
    if a < hi {
        let from: usize = if lo > a + 1 { lo - 1 } else { a };
        let mut after: Vec<PaintedRow> = Vec::new();
        paint_file_node_item(ws, from, hi - 1, 0, 0, &mut path, &mut after);
        let ghost unshifted = after@;
        proof {
            assert(after@.len() == window_len(from as int, hi - 1));
            assert forall|t: int| 0 <= t < after@.len() implies #[trigger] after@[t].row < usize::MAX by {
                assert(after@[0 + t] == after@[t]);
            }
        }
        shift_rows(&mut after);
        let ghost shifted = after@;
        out.append(&mut after);
        proof {
            assert(n2 == from + 1 - lo);
            assert forall|t: int| #![trigger out@[t]] 0 <= t < out@.len() implies out@[t].row == lo + t
                && shows_composing(out@[t], *ws, a as int, indent as int, lo + t) by {
                if t < n2 {
                    assert(out@[t] == prev[t]);
                } else {
                    let u = t - n2;
                    assert(out@[t] == shifted[u]);
                    assert(unshifted[0 + u] == unshifted[u]);
                    assert(Seq::<usize>::empty() + rows(*ws)[from + u] =~= rows(*ws)[from + u]);
                }
            }
        }
    }
    out
}

/// Moves every row down by one.
fn shift_rows(v: &mut Vec<PaintedRow>)
    requires
        forall|t: int| 0 <= t < old(v)@.len() ==> #[trigger] old(v)@[t].row < usize::MAX,
    ensures
        final(v)@.len() == old(v)@.len(),
        forall|t: int| #![trigger final(v)@[t]] 0 <= t < old(v)@.len() ==> {
            &&& final(v)@[t].row == old(v)@[t].row + 1
            &&& final(v)@[t].level == old(v)@[t].level
            &&& final(v)@[t].path == old(v)@[t].path
            &&& final(v)@[t].editor == old(v)@[t].editor
        },
{
    let mut k: usize = 0;
    while k < v.len()
        invariant
            0 <= k <= v@.len(),
            v@.len() == old(v)@.len(),
            forall|t: int| #![trigger v@[t]] 0 <= t < k ==> {
                &&& v@[t].row == old(v)@[t].row + 1
                &&& v@[t].level == old(v)@[t].level
                &&& v@[t].path == old(v)@[t].path
                &&& v@[t].editor == old(v)@[t].editor
            },
            forall|t: int| #![trigger v@[t]] k <= t < v@.len() ==> v@[t] == old(v)@[t],
            forall|t: int| 0 <= t < old(v)@.len() ==> #[trigger] old(v)@[t].row < usize::MAX,
        decreases v@.len() - k,
    {
        let e = &mut v[k];
        e.row = e.row + 1;
        k = k + 1;
    }
}

/// Marks the row numbered `anchor` as taken by the editor, and no other.
fn mark_editor(v: &mut Vec<PaintedRow>, anchor: usize)
    ensures
        final(v)@.len() == old(v)@.len(),
        forall|t: int| #![trigger final(v)@[t]] 0 <= t < old(v)@.len() ==> {
            &&& final(v)@[t].row == old(v)@[t].row
            &&& final(v)@[t].level == old(v)@[t].level
            &&& final(v)@[t].path == old(v)@[t].path
            &&& final(v)@[t].editor == (old(v)@[t].row == anchor)
        },
{
    let mut k: usize = 0;
    while k < v.len()
        invariant
            0 <= k <= v@.len(),
            v@.len() == old(v)@.len(),
            forall|t: int| #![trigger v@[t]] 0 <= t < k ==> {
                &&& v@[t].row == old(v)@[t].row
                &&& v@[t].level == old(v)@[t].level
                &&& v@[t].path == old(v)@[t].path
                &&& v@[t].editor == (old(v)@[t].row == anchor)
            },
            forall|t: int| #![trigger v@[t]] k <= t < v@.len() ==> v@[t] == old(v)@[t],
        decreases v@.len() - k,
    {
        let e = &mut v[k];
        e.editor = e.row == anchor;
        k = k + 1;
    }
}


/// No two entries of a listing share a name.
pub open spec fn entry_names_distinct(es: Seq<DirEntry>) -> bool {
    forall|i: int, j: int| 0 <= i < es.len() && 0 <= j < es.len() && i != j ==> #[trigger] es[i].name@ != #[trigger] es[j].name@
}

/// Tells whether no two entries share a name.
fn names_unique(es: &Vec<DirEntry>) -> (r: bool)
    ensures
        r == entry_names_distinct(es@),
{
    let mut i: usize = 0;
    while i < es.len()
        invariant
            0 <= i <= es@.len(),
            forall|a: int, b: int| 0 <= a < i && 0 <= b < es@.len() && a != b ==> #[trigger] es@[a].name@ != #[trigger] es@[b].name@,
        decreases es@.len() - i,
    {
        let mut j: usize = 0;
        while j < es.len()
            invariant
                0 <= i < es@.len(),
                0 <= j <= es@.len(),
                forall|a: int, b: int| 0 <= a < i && 0 <= b < es@.len() && a != b ==> #[trigger] es@[a].name@ != #[trigger] es@[b].name@,
                forall|b: int| 0 <= b < j && b != i ==> es@[i as int].name@ != #[trigger] es@[b].name@,
            decreases es@.len() - j,
        {
            if j != i && es[i].name == es[j].name {
                return false;
            }
            j = j + 1;
        }
        i = i + 1;
    }
    true
}

/// No sibling has a name that the lookup by name does not find.
pub proof fn lemma_named_index_none(cs: Seq<FileNodeItem>, name: Seq<char>)
    ensures
        named_index(cs, name) is None ==> forall|j: int| 0 <= j < cs.len() ==> #[trigger] cs[j].name@ != name,
        named_index(cs, name) matches Some(k) ==> 0 <= k < cs.len() && cs[k].name@ == name,
    decreases cs.len(),
{
    if cs.len() > 0 {
        lemma_named_index_none(cs.drop_last(), name);
        if named_index(cs, name) is None {
            assert forall|j: int| 0 <= j < cs.len() implies #[trigger] cs[j].name@ != name by {
                if j < cs.len() - 1 {
                    assert(cs.drop_last()[j] == cs[j]);
                }
            }
        }
    }
}


/// `a` and `b` agree on every field but the name.
pub open spec fn same_mod_name(a: FileNodeItem, b: FileNodeItem) -> bool {
    &&& a.is_dir == b.is_dir
    &&& a.read == b.read
    &&& a.open == b.open
    &&& a.loading == b.loading
    &&& a.open_on_load == b.open_on_load
    &&& a.children@ == b.children@
    &&& a.children_open_count == b.children_open_count
}

/// A node stays well formed under another name.
pub proof fn lemma_wf_renamed(a: FileNodeItem, b: FileNodeItem)
    requires
        wf(a),
        same_mod_name(a, b),
    ensures
        wf(b),
{
    assert(rows(a) == rows(b));
}


/// A path valid before a change along it stays valid.
pub proof fn lemma_path_valid_after(a: FileNodeItem, b: FileNodeItem, p: Seq<usize>)
    requires
        same_except_at(a, b, p),
    ensures
        valid_path(b, p),
    decreases p.len(),
{
    if p.len() > 0 {
        lemma_path_valid_after(a.children@[p[0] as int], b.children@[p[0] as int], p.drop_first());
    }
}

} // verus!
