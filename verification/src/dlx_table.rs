//! A dancing-links table over the elements `0..element_count`, with one
//! node per (set, element) pair.  Node 0 is the root, nodes
//! `1..=element_count` are the element headers and the remaining nodes are
//! the set rows, stored set after set.
use vstd::prelude::*;
use crate::sorting::{sort, sorted, strictly_increasing, lemma_sort_keeps_increasing};

verus! {

/// One node of the table.  Headers carry `len`, row nodes carry `set`.
#[derive(Clone, Copy, Debug, PartialEq, Eq)]
pub struct Node {
    pub header: usize,
    pub up: usize,
    pub down: usize,
    pub left: usize,
    pub right: usize,
    pub len: Option<usize>,
    pub set: Option<usize>,
}

#[derive(Clone, Debug, PartialEq, Eq)]
pub struct DLXTable {
    pub element_count: usize,
    pub nodes: Vec<Node>,
    pub set_heads: Vec<usize>,
}

// ---------------------------------------------------------------------
// Ordered-set neighbours, used to describe the vertical and horizontal
// links: a list is the set of its members, ordered by node index, closed
// into a cycle by a head node that is smaller than every member.
// ---------------------------------------------------------------------

/// `d` follows `z` in the cyclic list made of `head` and the members of `s`.
pub open spec fn is_succ(s: Set<int>, head: int, z: int, d: int) -> bool {
    ||| (s.contains(d) && z < d && forall|y: int| #[trigger] s.contains(y) && z < y ==> d <= y)
    ||| (d == head && forall|y: int| #[trigger] s.contains(y) ==> y <= z)
}

/// `u` precedes `z` in the cyclic list made of `head` and the members of `s`.
pub open spec fn is_pred(s: Set<int>, head: int, z: int, u: int) -> bool {
    if z == head {
        ||| (s.contains(u) && forall|y: int| #[trigger] s.contains(y) ==> y <= u)
        ||| (u == head && forall|y: int| !(#[trigger] s.contains(y)))
    } else {
        ||| (s.contains(u) && u < z && forall|y: int| #[trigger] s.contains(y) && y < z ==> y <= u)
        ||| (u == head && forall|y: int| #[trigger] s.contains(y) ==> z <= y)
    }
}

pub proof fn lemma_succ_unique(s: Set<int>, head: int, z: int, d1: int, d2: int)
    requires
        forall|y: int| #[trigger] s.contains(y) ==> head < y,
        head <= z,
        is_succ(s, head, z, d1),
        is_succ(s, head, z, d2),
    ensures
        d1 == d2,
{
}

pub proof fn lemma_pred_unique(s: Set<int>, head: int, z: int, u1: int, u2: int)
    requires
        forall|y: int| #[trigger] s.contains(y) ==> head < y,
        head <= z,
        is_pred(s, head, z, u1),
        is_pred(s, head, z, u2),
    ensures
        u1 == u2,
{
}

impl DLXTable {
    // ---------------------------------------------------------------
    // Layout
    // ---------------------------------------------------------------
    pub open spec fn n(self) -> int {
        self.nodes@.len() as int
    }

    pub open spec fn ec(self) -> int {
        self.element_count as int
    }

    pub open spec fn is_header(self, i: int) -> bool {
        1 <= i <= self.ec()
    }

    pub open spec fn is_item(self, i: int) -> bool {
        self.ec() < i < self.n()
    }

    pub open spec fn sets_count(self) -> int {
        self.set_heads@.len() as int
    }

    pub open spec fn head_of(self, s: int) -> int {
        self.set_heads@[s] as int
    }

    /// One past the last node of set `s`.
    pub open spec fn end_of(self, s: int) -> int {
        if s + 1 < self.sets_count() {
            self.set_heads@[s + 1] as int
        } else {
            self.n()
        }
    }

    /// The set row that node `i` belongs to.
    pub open spec fn set_of(self, i: int) -> int {
        self.nodes@[i].set->0 as int
    }

    /// The header of node `i`.
    pub open spec fn hdr(self, i: int) -> int {
        self.nodes@[i].header as int
    }

    pub open spec fn row_right(self, i: int) -> int {
        let s = self.set_of(i);
        if i + 1 < self.end_of(s) { i + 1 } else { self.head_of(s) }
    }

    pub open spec fn row_left(self, i: int) -> int {
        let s = self.set_of(i);
        if i > self.head_of(s) { i - 1 } else { self.end_of(s) - 1 }
    }

    /// The part of the table that never changes after construction.
    pub open spec fn wf_layout(self) -> bool {
        &&& self.ec() + 1 <= self.n()
        &&& self.n() < usize::MAX
        &&& self.nodes@[0].header == 0
        &&& self.nodes@[0].set is None
        &&& self.nodes@[0].len is None
        &&& forall|h: int|
            #![trigger self.nodes@[h]]
            self.is_header(h) ==> self.nodes@[h].header == h && self.nodes@[h].set is None
                && self.nodes@[h].len is Some
        &&& (self.sets_count() == 0 ==> self.n() == self.ec() + 1)
        &&& (self.sets_count() > 0 ==> self.head_of(0) == self.ec() + 1)
        &&& forall|s: int|
            #![trigger self.set_heads@[s]]
            0 <= s < self.sets_count() ==> self.head_of(s) < self.end_of(s)
        &&& forall|s: int, t: int|
            0 <= s < t < self.sets_count() ==> #[trigger] self.head_of(s) < #[trigger] self.head_of(t)
        &&& forall|i: int|
            #![trigger self.nodes@[i]]
            self.is_item(i) ==> {
                &&& self.nodes@[i].set is Some
                &&& self.nodes@[i].len is None
                &&& 0 <= self.set_of(i) < self.sets_count()
                &&& self.head_of(self.set_of(i)) <= i < self.end_of(self.set_of(i))
                &&& 1 <= self.hdr(i) <= self.ec()
                &&& self.nodes@[i].right == self.row_right(i)
                &&& self.nodes@[i].left == self.row_left(i)
            }
        &&& forall|i: int, j: int|
            #![trigger self.nodes@[i], self.nodes@[j]]
            self.is_item(i) && self.is_item(j) && i != j && self.set_of(i) == self.set_of(j)
                ==> self.hdr(i) != self.hdr(j)
    }

    // ---------------------------------------------------------------
    // Links
    // ---------------------------------------------------------------
    /// Node `z` is spliced into its vertical list.
    #[verifier::opaque]
    pub open spec fn linked(self, z: int) -> bool {
        let u = self.nodes@[z].up as int;
        let d = self.nodes@[z].down as int;
        &&& 0 <= u < self.n()
        &&& 0 <= d < self.n()
        &&& self.nodes@[u].down == z
        &&& self.nodes@[d].up == z
    }

    /// The row nodes currently present in the column of header `h`.
    pub open spec fn col(self, h: int) -> Set<int> {
        Set::new(|z: int| self.is_item(z) && self.hdr(z) == h && self.linked(z))
    }

    /// Header `h` is spliced into the horizontal list of the root.
    #[verifier::opaque]
    pub open spec fn hlinked(self, h: int) -> bool {
        let l = self.nodes@[h].left as int;
        let r = self.nodes@[h].right as int;
        &&& 0 <= l <= self.ec()
        &&& 0 <= r <= self.ec()
        &&& self.nodes@[l].right == h
        &&& self.nodes@[r].left == h
    }

    /// The headers currently in the horizontal list.
    pub open spec fn active(self) -> Set<int> {
        Set::new(|h: int| self.is_header(h) && self.hlinked(h))
    }

    /// Row node `z` is in its column.
    pub open spec fn present(self, z: int) -> bool {
        self.is_item(z) && self.col(self.hdr(z)).contains(z)
    }

    /// Links of the list of headers.
    pub open spec fn wf_horizontal(self) -> bool {
        &&& forall|h: int|
            #![trigger self.nodes@[h]]
            0 <= h <= self.ec() ==> self.nodes@[h].left <= self.ec() && self.nodes@[h].right
                <= self.ec()
        &&& is_succ(self.active(), 0, 0, self.nodes@[0].right as int)
        &&& is_pred(self.active(), 0, 0, self.nodes@[0].left as int)
        &&& forall|h: int|
            #[trigger] self.active().contains(h) ==> is_succ(
                self.active(),
                0,
                h,
                self.nodes@[h].right as int,
            ) && is_pred(self.active(), 0, h, self.nodes@[h].left as int)
    }

    /// Vertical links: every column is the cyclic list of its present nodes,
    /// in index order, and its header counts them.
    pub open spec fn wf_vertical(self) -> bool {
        &&& forall|z: int|
            #![trigger self.nodes@[z]]
            0 < z < self.n() ==> self.nodes@[z].up < self.n() && self.nodes@[z].down < self.n()
        &&& forall|h: int|
            #![trigger self.col(h)]
            self.is_header(h) ==> {
                &&& is_succ(self.col(h), h, h, self.nodes@[h].down as int)
                &&& is_pred(self.col(h), h, h, self.nodes@[h].up as int)
                &&& self.nodes@[h].len == Some(self.col(h).len() as usize)
            }
        &&& forall|z: int|
            #![trigger self.present(z)]
            self.present(z) ==> {
                &&& is_succ(self.col(self.hdr(z)), self.hdr(z), z, self.nodes@[z].down as int)
                &&& is_pred(self.col(self.hdr(z)), self.hdr(z), z, self.nodes@[z].up as int)
            }
    }

    /// Once every row node is present, the columns are the full columns.
    pub proof fn lemma_full_vertical(self)
        requires
            full_vertical(self.nodes@, self.ec()),
            forall|h: int| #![trigger self.nodes@[h]] self.is_header(h) ==> self.nodes@[h].header == h,
            self.ec() < self.n(),
        ensures
            self.wf_vertical(),
            forall|h: int| #[trigger] self.col(h) == all_of_col(self.nodes@, self.ec(), h),
    {
        let nodes = self.nodes@;
        let e = self.ec();
        reveal(DLXTable::linked);
        assert forall|z: int| self.is_item(z) implies self.linked(z) by {
            let h = nodes[z].header as int;
            let c = all_of_col(nodes, e, h);
            let u = nodes[z].up as int;
            let d = nodes[z].down as int;
            assert(c.contains(z));
            assert(1 <= h <= e);
            assert(all_of_col(nodes, e, h) == c);
            if c.contains(u) && u < z {
                assert(nodes[u].header == h);
                assert(e < u);
                assert(is_succ(c, h, u, nodes[u].down as int));
                assert(is_succ(c, h, u, z));
                lemma_succ_unique(c, h, u, nodes[u].down as int, z);
            } else {
                assert(u == h);
                assert(is_succ(c, h, h, z));
                lemma_succ_unique(c, h, h, nodes[h].down as int, z);
            }
            if c.contains(d) && z < d {
                assert(nodes[d].header == h);
                assert(is_pred(c, h, d, nodes[d].up as int));
                assert(is_pred(c, h, d, z));
                lemma_pred_unique(c, h, d, nodes[d].up as int, z);
            } else {
                assert(d == h);
                assert(is_pred(c, h, h, z));
                lemma_pred_unique(c, h, h, nodes[h].up as int, z);
            }
        }
        assert forall|h: int| #[trigger] self.col(h) == all_of_col(nodes, e, h) by {
            assert(self.col(h) =~= all_of_col(nodes, e, h));
        }
    }

    pub open spec fn wf(self) -> bool {
        &&& self.wf_layout()
        &&& self.wf_horizontal()
        &&& self.wf_vertical()
    }
}


/// The nodes of column `h` when every row node is present.
pub open spec fn all_of_col(nodes: Seq<Node>, e: int, h: int) -> Set<int> {
    Set::new(|z: int| e < z < nodes.len() && nodes[z].header == h)
}

/// Every row node is present in its column.
pub open spec fn full_vertical(nodes: Seq<Node>, e: int) -> bool {
    &&& forall|z: int|
        #![trigger nodes[z]]
        0 < z < nodes.len() ==> nodes[z].up < nodes.len() && nodes[z].down < nodes.len()
    &&& forall|z: int|
        #![trigger nodes[z]]
        e < z < nodes.len() ==> 1 <= nodes[z].header <= e
    &&& forall|h: int|
        #![trigger all_of_col(nodes, e, h)]
        1 <= h <= e ==> {
            &&& is_succ(all_of_col(nodes, e, h), h, h, nodes[h].down as int)
            &&& is_pred(all_of_col(nodes, e, h), h, h, nodes[h].up as int)
            &&& all_of_col(nodes, e, h).finite()
            &&& nodes[h].len == Some(all_of_col(nodes, e, h).len() as usize)
        }
    &&& forall|z: int|
        #![trigger nodes[z]]
        e < z < nodes.len() ==> {
            &&& is_succ(all_of_col(nodes, e, nodes[z].header as int), nodes[z].header as int, z, nodes[z].down as int)
            &&& is_pred(all_of_col(nodes, e, nodes[z].header as int), nodes[z].header as int, z, nodes[z].up as int)
        }
}


/// Column `h` of `nodes` lies among the row nodes, so it is finite and
/// smaller than the table.
pub proof fn lemma_col_finite(nodes: Seq<Node>, e: int, h: int)
    requires
        0 <= e < nodes.len(),
    ensures
        all_of_col(nodes, e, h).finite(),
        all_of_col(nodes, e, h).len() < nodes.len(),
{
    let c = all_of_col(nodes, e, h);
    let r = vstd::set_lib::set_int_range(e + 1, nodes.len() as int);
    vstd::set_lib::lemma_int_range(e + 1, nodes.len() as int);
    assert(c.subset_of(r));
    vstd::set_lib::lemma_len_subset(c, r);
}

/// The nodes after appending a node at the bottom of column `h`.
pub open spec fn appended(nodes: Seq<Node>, h: int, left: usize, right: usize, set: Option<usize>) -> Seq<Node> {
    let big = nodes.len();
    let l = nodes[h].up as int;
    let n1 = nodes.update(h, Node { up: big as usize, len: Some((nodes[h].len->0 + 1) as usize), ..nodes[h] });
    let n2 = n1.update(l, Node { down: big as usize, ..n1[l] });
    n2.push(Node { header: h as usize, up: l as usize, down: h as usize, left, right, len: None, set })
}

/// Adding a node to a column leaves the root as it was.
proof fn lemma_append_keeps_root(nodes: Seq<Node>, e: int, h: int, left: usize, right: usize, set: Option<usize>)
    requires
        full_vertical(nodes, e),
        1 <= h <= e,
        e < nodes.len(),
    ensures
        appended(nodes, h, left, right, set)[0] == nodes[0],
{
    let col = all_of_col(nodes, e, h);
    assert(is_pred(col, h, h, nodes[h].up as int));
}

proof fn lemma_append_cols(nodes: Seq<Node>, e: int, h: int, left: usize, right: usize, set: Option<usize>)
    requires
        full_vertical(nodes, e),
        1 <= h <= e,
        e < nodes.len(),
    ensures
        all_of_col(appended(nodes, h, left, right, set), e, h) == all_of_col(nodes, e, h).insert(nodes.len() as int),
        !all_of_col(nodes, e, h).contains(nodes.len() as int),
        forall|g: int| g != h ==> #[trigger] all_of_col(appended(nodes, h, left, right, set), e, g) == all_of_col(nodes, e, g),
{
    let nn = appended(nodes, h, left, right, set);
    assert(all_of_col(nn, e, h) =~= all_of_col(nodes, e, h).insert(nodes.len() as int));
    assert forall|g: int| g != h implies #[trigger] all_of_col(nn, e, g) == all_of_col(nodes, e, g) by {
        assert(all_of_col(nn, e, g) =~= all_of_col(nodes, e, g));
    }
}

proof fn lemma_append_headers(nodes: Seq<Node>, e: int, h: int, left: usize, right: usize, set: Option<usize>)
    requires
        full_vertical(nodes, e),
        1 <= h <= e,
        e < nodes.len(),
        nodes.len() + 1 < usize::MAX,
    ensures
        ({
            let nn = appended(nodes, h, left, right, set);
            forall|g: int| #![trigger all_of_col(nn, e, g)] 1 <= g <= e ==> {
                &&& is_succ(all_of_col(nn, e, g), g, g, nn[g].down as int)
                &&& is_pred(all_of_col(nn, e, g), g, g, nn[g].up as int)
                &&& all_of_col(nn, e, g).finite()
                &&& nn[g].len == Some(all_of_col(nn, e, g).len() as usize)
            }
        }),
{
    let nn = appended(nodes, h, left, right, set);
    let big = nodes.len() as int;
    let l = nodes[h].up as int;
    let c = all_of_col(nodes, e, h);
    lemma_append_cols(nodes, e, h, left, right, set);
    assert(all_of_col(nodes, e, h) == c);
    assert(c.contains(l) || l == h);
    assert forall|g: int| #![trigger all_of_col(nn, e, g)] 1 <= g <= e implies {
        &&& is_succ(all_of_col(nn, e, g), g, g, nn[g].down as int)
        &&& is_pred(all_of_col(nn, e, g), g, g, nn[g].up as int)
        &&& all_of_col(nn, e, g).finite()
        &&& nn[g].len == Some(all_of_col(nn, e, g).len() as usize)
    } by {
        if g == h {
            lemma_col_finite(nodes, e, h);
            if l == h {
                assert(forall|y: int| !c.contains(y));
            }
        } else {
            assert(all_of_col(nn, e, g) == all_of_col(nodes, e, g));
            assert(c.contains(l) ==> nodes[l].header == h);
            assert(nn[g] == nodes[g]);
        }
    }
}

proof fn lemma_append_items(nodes: Seq<Node>, e: int, h: int, left: usize, right: usize, set: Option<usize>)
    requires
        full_vertical(nodes, e),
        1 <= h <= e,
        e < nodes.len(),
        nodes.len() + 1 < usize::MAX,
    ensures
        ({
            let nn = appended(nodes, h, left, right, set);
            forall|z: int| #![trigger nn[z]] e < z < nn.len() ==> {
                &&& is_succ(all_of_col(nn, e, nn[z].header as int), nn[z].header as int, z, nn[z].down as int)
                &&& is_pred(all_of_col(nn, e, nn[z].header as int), nn[z].header as int, z, nn[z].up as int)
            }
        }),
{
    let nn = appended(nodes, h, left, right, set);
    let big = nodes.len() as int;
    let l = nodes[h].up as int;
    let c = all_of_col(nodes, e, h);
    lemma_append_cols(nodes, e, h, left, right, set);
    assert(c.contains(l) || l == h);
    assert forall|z: int| #![trigger nn[z]] e < z < nn.len() implies {
        &&& is_succ(all_of_col(nn, e, nn[z].header as int), nn[z].header as int, z, nn[z].down as int)
        &&& is_pred(all_of_col(nn, e, nn[z].header as int), nn[z].header as int, z, nn[z].up as int)
    } by {
        if z < big {
            let g = nodes[z].header as int;
            assert(nn[z].header == nodes[z].header);
            if g != h {
                assert(all_of_col(nn, e, g) == all_of_col(nodes, e, g));
                assert(nn[z] == nodes[z]);
            } else {
                assert(c.contains(z));
            }
        } else {
            assert(forall|y: int| c.contains(y) ==> y < big);
        }
    }
}

/// Appending a node at the bottom of column `h` keeps every column full.
pub proof fn lemma_append_full(nodes: Seq<Node>, e: int, h: int, left: usize, right: usize, set: Option<usize>)
    requires
        full_vertical(nodes, e),
        1 <= h <= e,
        e < nodes.len(),
        nodes.len() + 1 < usize::MAX,
    ensures
        full_vertical(appended(nodes, h, left, right, set), e),
{
    let nn = appended(nodes, h, left, right, set);
    lemma_append_headers(nodes, e, h, left, right, set);
    lemma_append_items(nodes, e, h, left, right, set);
    assert forall|z: int| #![trigger nn[z]] 0 < z < nn.len() implies nn[z].up < nn.len() && nn[z].down < nn.len() by {
        if z < nodes.len() {
            assert(nodes[z].up < nodes.len() && nodes[z].down < nodes.len());
        }
    }
}


// ---------------------------------------------------------------------
// Input sets
// ---------------------------------------------------------------------

pub open spec fn view_sets(sets: Seq<Vec<usize>>) -> Seq<Seq<usize>> {
    sets.map_values(|v: Vec<usize>| v@)
}

/// The non-empty sets, in their order.
pub open spec fn nonempty(ss: Seq<Seq<usize>>) -> Seq<Seq<usize>>
    decreases ss.len(),
{
    if ss.len() == 0 {
        Seq::empty()
    } else if ss.last().len() > 0 {
        nonempty(ss.drop_last()).push(ss.last())
    } else {
        nonempty(ss.drop_last())
    }
}

/// The number of elements of all sets together.
pub open spec fn total_len(ss: Seq<Seq<usize>>) -> int
    decreases ss.len(),
{
    if ss.len() == 0 {
        0
    } else {
        total_len(ss.drop_last()) + ss.last().len()
    }
}

/// `e` occurs in one of the sets.
pub open spec fn occurs(ss: Seq<Seq<usize>>, e: usize) -> bool {
    exists|s: int, k: int| 0 <= s < ss.len() && 0 <= k < ss[s].len() && ss[s][k] == e
}

/// The number of elements of the universe: one more than the largest
/// element of any set, or 0 when the sets hold no element.
pub open spec fn universe_size(ss: Seq<Seq<usize>>, n: int) -> bool {
    &&& forall|s: int, k: int| 0 <= s < ss.len() && 0 <= k < ss[s].len() ==> ss[s][k] < n
    &&& (n == 0 || occurs(ss, (n - 1) as usize))
}

pub proof fn lemma_total_len_nonneg(ss: Seq<Seq<usize>>)
    ensures
        total_len(ss) >= 0,
    decreases ss.len(),
{
    if ss.len() > 0 {
        lemma_total_len_nonneg(ss.drop_last());
    }
}

pub proof fn lemma_total_len_nonempty(ss: Seq<Seq<usize>>)
    ensures
        total_len(nonempty(ss)) == total_len(ss),
        forall|s: int| 0 <= s < nonempty(ss).len() ==> #[trigger] nonempty(ss)[s].len() > 0,
    decreases ss.len(),
{
    if ss.len() > 0 {
        lemma_total_len_nonempty(ss.drop_last());
        let p = nonempty(ss.drop_last());
        if ss.last().len() > 0 {
            assert(p.push(ss.last()).drop_last() =~= p);
        }
    }
}


/// `(h + 1) % (e + 1)` is the successor of `h` in `0..=e`, read cyclically.
pub proof fn lemma_mod_step(h: int, e: int)
    requires
        0 <= h <= e,
    ensures
        (h + 1) % (e + 1) == if h < e { h + 1 } else { 0 },
{
    if h < e {
        vstd::arithmetic::div_mod::lemma_small_mod((h + 1) as nat, (e + 1) as nat);
    } else {
        vstd::arithmetic::div_mod::lemma_mod_self_0(e + 1);
    }
}

impl Node {
    pub open spec fn spec_root() -> Node {
        Node { header: 0, up: 0, down: 0, left: 0, right: 0, len: None, set: None }
    }

    pub open spec fn spec_header(index: int, length: int) -> Node {
        Node {
            header: index as usize,
            up: index as usize,
            down: index as usize,
            left: (index - 1) as usize,
            right: ((index + 1) % (length + 1)) as usize,
            len: Some(0),
            set: None,
        }
    }

    fn root() -> (n: Node)
        ensures
            n == Node::spec_root(),
    {
        Node { header: 0, up: 0, down: 0, left: 0, right: 0, len: None, set: None }
    }

    fn header(index: usize, length: usize) -> (n: Node)
        requires
            1 <= index <= length < usize::MAX,
        ensures
            n == Node::spec_header(index as int, length as int),
    {
        Node {
            header: index,
            up: index,
            down: index,
            left: index - 1,
            right: (index + 1) % (length + 1),
            len: Some(0),
            set: None,
        }
    }
}

impl DLXTable {
    /// The table holds the non-empty sets `ne`, in order, and nothing else.
    pub open spec fn holds(self, ne: Seq<Seq<usize>>) -> bool {
        &&& self.sets_count() == ne.len()
        &&& self.n() == self.ec() + 1 + total_len(ne)
        &&& forall|s: int|
            #![trigger self.set_heads@[s]]
            0 <= s < ne.len() ==> self.head_of(s) == self.ec() + 1 + total_len(ne.take(s))
                && self.end_of(s) == self.head_of(s) + ne[s].len()
        &&& forall|s: int, k: int|
            0 <= s < ne.len() && 0 <= k < ne[s].len() ==> #[trigger] self.hdr(self.head_of(s) + k)
                == ne[s][k] + 1
    }

    /// Every header is in the horizontal list and every row node is in its
    /// column.
    pub open spec fn complete(self) -> bool {
        &&& forall|h: int| self.is_header(h) ==> #[trigger] self.active().contains(h)
        &&& forall|z: int| self.is_item(z) ==> #[trigger] self.col(self.hdr(z)).contains(z)
    }

    /// The horizontal links right after the headers were made.
    pub open spec fn fresh_links(self) -> bool {
        &&& self.nodes@[0].left == self.element_count
        &&& self.nodes@[0].right == (1int % (self.ec() + 1)) as usize
        &&& forall|h: int|
            #![trigger self.nodes@[h]]
            self.is_header(h) ==> self.nodes@[h].left == h - 1 && self.nodes@[h].right == ((h
                + 1) % (self.ec() + 1)) as usize
    }

    pub proof fn lemma_fresh_horizontal(self)
        requires
            self.fresh_links(),
            self.ec() + 1 <= self.n(),
        ensures
            self.wf_horizontal(),
            forall|h: int| #[trigger] self.active().contains(h) <==> self.is_header(h),
    {
        let e = self.ec();
        reveal(DLXTable::hlinked);
        assert forall|h: int| self.is_header(h) implies self.hlinked(h) by {
            let r = self.nodes@[h].right as int;
            lemma_mod_step(h, e);
            lemma_mod_step(0, e);
            if h > 1 {
                lemma_mod_step(h - 1, e);
            }
            if h < e {
                assert(r == h + 1);
                assert(self.nodes@[h + 1].left == h);
            } else {
                assert(r == 0);
            }
            if h > 1 {
                assert(self.nodes@[h - 1].right == h);
            }
        }
        assert forall|h: int| #[trigger] self.active().contains(h) <==> self.is_header(h) by {}
        assert forall|h: int| 0 <= h <= e implies (#[trigger] self.nodes@[h]).right == (if h < e { h + 1 } else { 0 }) by {
            lemma_mod_step(h, e);
        }
        assert forall|h: int| 0 <= h <= e implies #[trigger] self.nodes@[h].left <= e && self.nodes@[h].right <= e by {}
        if e > 0 {
            assert(self.active().contains(1));
            assert(self.active().contains(e));
        }
        assert forall|h: int| #[trigger] self.active().contains(h) implies is_succ(self.active(), 0, h, self.nodes@[h].right as int)
            && is_pred(self.active(), 0, h, self.nodes@[h].left as int) by {
            if h < e {
                assert(self.active().contains(h + 1));
            }
            if h > 1 {
                assert(self.active().contains(h - 1));
            }
        }
    }

    /// An empty table.
    pub fn new() -> (t: Self)
        ensures
            t.wf(),
            t.complete(),
            t.element_count == 0,
            t.nodes@ == seq![Node::spec_root()],
            t.set_heads@ == Seq::<usize>::empty(),
    {
        let t = DLXTable { element_count: 0, nodes: vec![Node::root()], set_heads: Vec::new() };
        proof {
            assert(t.nodes@ =~= seq![Node::spec_root()]);
            assert(t.fresh_links());
            t.lemma_fresh_horizontal();
            assert(full_vertical(t.nodes@, 0));
            t.lemma_full_vertical();
        }
        t
    }

    fn with_capacity(elements: usize, sets_count: usize) -> (t: Self)
        requires
            elements + sets_count + 1 <= usize::MAX,
        ensures
            t.element_count == elements,
            t.nodes@ == seq![Node::spec_root()],
            t.set_heads@.len() == 0,
    {
        let mut nodes = Vec::with_capacity(elements + sets_count + 1);
        nodes.push(Node::root());
        proof {
            assert(nodes@ =~= seq![Node::spec_root()]);
        }
        DLXTable { element_count: elements, nodes, set_heads: Vec::new() }
    }

    fn create_headers(&mut self)
        requires
            old(self).nodes@ == seq![Node::spec_root()],
            old(self).set_heads@.len() == 0,
            old(self).element_count + 2 < usize::MAX,
        ensures
            final(self).element_count == old(self).element_count,
            final(self).set_heads@.len() == 0,
            final(self).wf(),
            final(self).complete(),
            final(self).fresh_links(),
            final(self).holds(Seq::empty()),
            full_vertical(final(self).nodes@, final(self).ec()),
            final(self).nodes@[0].header == 0 && final(self).nodes@[0].up == 0 && final(self).nodes@[0].down == 0,
            final(self).nodes@[0].len is None && final(self).nodes@[0].set is None,
    {
        let length = self.element_count;
        let mut i: usize = 0;
        while i < length
            invariant
                i <= length,
                length == self.element_count,
                length + 2 < usize::MAX,
                self.set_heads@.len() == 0,
                self.nodes@.len() == i + 1,
                self.nodes@[0] == Node::spec_root(),
                forall|h: int| 1 <= h <= i ==> #[trigger] self.nodes@[h] == Node::spec_header(h, length as int),
            decreases length - i,
        {
            self.nodes.push(Node::header(i + 1, length));
            i += 1;
        }
        let mut root = self.nodes[0];
        root.left = length;
        if length > 0 {
            root.right = 1;
        }
        self.nodes.set(0, root);
        proof {
            let e = self.ec();
            lemma_mod_step(0, e);
            assert(self.fresh_links());
            self.lemma_fresh_horizontal();
            assert forall|h: int| 1 <= h <= e implies #[trigger] all_of_col(self.nodes@, e, h) == Set::<int>::empty() by {
                assert(all_of_col(self.nodes@, e, h) =~= Set::<int>::empty());
            }
            assert(full_vertical(self.nodes@, e));
            self.lemma_full_vertical();
            assert(self.wf_layout());
            assert(total_len(Seq::<Seq<usize>>::empty()) == 0);
        }
    }
}


pub proof fn lemma_total_len_take(ss: Seq<Seq<usize>>, i: int)
    requires
        0 <= i < ss.len(),
    ensures
        total_len(ss.take(i)) + ss[i].len() <= total_len(ss),
        total_len(ss.take(i + 1)) == total_len(ss.take(i)) + ss[i].len(),
        nonempty(ss.take(i + 1)) == if ss[i].len() > 0 {
            nonempty(ss.take(i)).push(ss[i])
        } else {
            nonempty(ss.take(i))
        },
    decreases ss.len(),
{
    assert(ss.take(i + 1).drop_last() =~= ss.take(i));
    if i + 1 < ss.len() {
        lemma_total_len_take(ss.drop_last(), i);
        assert(ss.drop_last().take(i) =~= ss.take(i));
        assert(ss.drop_last().take(i + 1) =~= ss.take(i + 1));
    } else {
        assert(ss.take(i) =~= ss.drop_last());
    }
}

/// The largest element of any set, if any set holds one.
fn max_element(sets: &[Vec<usize>]) -> (m: Option<usize>)
    ensures
        m is None ==> forall|s: int| 0 <= s < sets@.len() ==> (#[trigger] sets@[s])@.len() == 0,
        m is Some ==> occurs(view_sets(sets@), m->0) && forall|s: int, k: int|
            0 <= s < sets@.len() && 0 <= k < sets@[s]@.len() ==> sets@[s]@[k] <= m->0,
{
    let ghost ss = view_sets(sets@);
    let mut best: Option<usize> = None;
    let mut i: usize = 0;
    while i < sets.len()
        invariant
            i <= sets@.len(),
            ss == view_sets(sets@),
            best is None ==> forall|s: int| 0 <= s < i ==> (#[trigger] sets@[s])@.len() == 0,
            best is Some ==> occurs(ss, best->0) && forall|s: int, k: int|
                0 <= s < i && 0 <= k < sets@[s]@.len() ==> sets@[s]@[k] <= best->0,
        decreases sets@.len() - i,
    {
        let set = &sets[i];
        let mut j: usize = 0;
        while j < set.len()
            invariant
                i < sets@.len(),
                j <= set@.len(),
                set == sets@[i as int],
                ss == view_sets(sets@),
                best is None ==> j == 0 && forall|s: int| 0 <= s < i ==> (#[trigger] sets@[s])@.len() == 0,
                best is Some ==> occurs(ss, best->0) && forall|s: int, k: int|
                    (0 <= s < i && 0 <= k < sets@[s]@.len()) || (s == i && 0 <= k < j) ==> sets@[s]@[k] <= best->0,
            decreases set@.len() - j,
        {
            let x = set[j];
            match best {
                None => {
                    best = Some(x);
                },
                Some(b) => {
                    if x > b {
                        best = Some(x);
                    }
                },
            }
            proof {
                assert(ss[i as int][j as int] == x);
            }
            j += 1;
        }
        i += 1;
    }
    best
}

/// The number of elements: one more than the largest element, or 0.
fn element_count(sets: &[Vec<usize>]) -> (n: usize)
    requires
        forall|s: int, k: int| 0 <= s < sets@.len() && 0 <= k < sets@[s]@.len() ==> sets@[s]@[k] < usize::MAX,
    ensures
        universe_size(view_sets(sets@), n as int),
{
    match max_element(sets) {
        None => 0,
        Some(max) => {
            proof {
                let ss = view_sets(sets@);
                let (s, k) = choose|s: int, k: int| 0 <= s < ss.len() && 0 <= k < ss[s].len() && ss[s][k] == max;
                assert(sets@[s]@[k] == max);
            }
            max + 1
        },
    }
}


/// What `add_set` leaves behind, node by node: the old nodes keep their
/// layout fields, and the new block holds the set.
pub open spec fn block_added(t0: DLXTable, t: DLXTable, set: Seq<usize>) -> bool {
    let offset = t0.n();
    &&& t.element_count == t0.element_count
    &&& t.set_heads@ == t0.set_heads@.push(offset as usize)
    &&& t.n() == offset + set.len()
    &&& forall|i: int|
        #![trigger t.nodes@[i]]
        0 <= i < offset ==> t.nodes@[i].header == t0.nodes@[i].header && t.nodes@[i].left
            == t0.nodes@[i].left && t.nodes@[i].right == t0.nodes@[i].right && t.nodes@[i].set
            == t0.nodes@[i].set && (t.nodes@[i].len is Some <==> t0.nodes@[i].len is Some)
    &&& forall|j: int|
        #![trigger t.nodes@[offset + j]]
        0 <= j < set.len() ==> {
            &&& t.nodes@[offset + j].header == set[j] + 1
            &&& t.nodes@[offset + j].set == Some(t0.set_heads@.len() as usize)
            &&& t.nodes@[offset + j].len is None
            &&& t.nodes@[offset + j].left == offset + if j == 0 { set.len() - 1 } else { j - 1 }
            &&& t.nodes@[offset + j].right == offset + (j + 1) % (set.len() as int)
        }
}

pub open spec fn block_pre(t0: DLXTable, t: DLXTable, set: Seq<usize>) -> bool {
    &&& t0.wf_layout()
    &&& set.len() > 0
    &&& set.no_duplicates()
    &&& (forall|k: int| 0 <= k < set.len() ==> set[k] < t0.element_count)
    &&& block_added(t0, t, set)
    &&& t.n() < usize::MAX
    &&& t0.sets_count() < usize::MAX
}

proof fn lemma_block_sets(t0: DLXTable, t: DLXTable, set: Seq<usize>)
    requires
        block_pre(t0, t, set),
    ensures
        forall|s: int| 0 <= s < t0.sets_count() ==> #[trigger] t.end_of(s) == t0.end_of(s) && t.head_of(s) == t0.head_of(s),
        t.head_of(t0.sets_count()) == t0.n(),
        t.end_of(t0.sets_count()) == t0.n() + set.len(),
        forall|s: int| 0 <= s < t0.sets_count() ==> #[trigger] t0.head_of(s) < t0.n(),
{
    let offset = t0.n();
    let si = t0.sets_count();
    assert forall|s: int| 0 <= s < si implies #[trigger] t0.head_of(s) < offset by {
        assert(t0.head_of(si - 1) < t0.end_of(si - 1));
        if s < si - 1 {
            assert(t0.head_of(s) < t0.head_of(si - 1));
        }
    }
}

#[verifier::rlimit(30)]
proof fn lemma_block_items(t0: DLXTable, t: DLXTable, set: Seq<usize>)
    requires
        block_pre(t0, t, set),
    ensures
        forall|i: int| #![trigger t.nodes@[i]] t.is_item(i) ==> {
            &&& t.nodes@[i].set is Some
            &&& t.nodes@[i].len is None
            &&& 0 <= t.set_of(i) < t.sets_count()
            &&& t.head_of(t.set_of(i)) <= i < t.end_of(t.set_of(i))
            &&& 1 <= t.hdr(i) <= t.ec()
            &&& t.nodes@[i].right == t.row_right(i)
            &&& t.nodes@[i].left == t.row_left(i)
        },
{
    let offset = t0.n();
    let si = t0.sets_count();
    lemma_block_sets(t0, t, set);
    assert forall|i: int| #![trigger t.nodes@[i]] t.is_item(i) implies {
        &&& t.nodes@[i].set is Some
        &&& t.nodes@[i].len is None
        &&& 0 <= t.set_of(i) < t.sets_count()
        &&& t.head_of(t.set_of(i)) <= i < t.end_of(t.set_of(i))
        &&& 1 <= t.hdr(i) <= t.ec()
        &&& t.nodes@[i].right == t.row_right(i)
        &&& t.nodes@[i].left == t.row_left(i)
    } by {
        if i < offset {
            assert(t0.is_item(i));
            assert(t0.nodes@[i].set is Some);
            let s = t0.set_of(i);
            assert(t.set_of(i) == s);
            assert(t.end_of(s) == t0.end_of(s));
            assert(t.head_of(s) == t0.head_of(s));
            assert(t.row_right(i) == t0.row_right(i));
            assert(t.row_left(i) == t0.row_left(i));
        } else {
            let j = i - offset;
            lemma_mod_step(j, set.len() - 1);
            assert(t.nodes@[offset + j].header == set[j] + 1);
            assert(t.nodes@[offset + j].right == offset + if j + 1 < set.len() { j + 1 } else { 0 });
            assert(t.nodes@[offset + j].set == Some(si as usize));
            assert(t.set_of(i) == si);
        }
    }
}

proof fn lemma_block_distinct(t0: DLXTable, t: DLXTable, set: Seq<usize>)
    requires
        block_pre(t0, t, set),
    ensures
        forall|i: int, j: int|
            #![trigger t.nodes@[i], t.nodes@[j]]
            t.is_item(i) && t.is_item(j) && i != j && t.set_of(i) == t.set_of(j) ==> t.hdr(i) != t.hdr(j),
{
    let offset = t0.n();
    let si = t0.sets_count();
    assert forall|i: int, j: int|
        #![trigger t.nodes@[i], t.nodes@[j]]
        t.is_item(i) && t.is_item(j) && i != j && t.set_of(i) == t.set_of(j) implies t.hdr(i) != t.hdr(j) by {
        if i < offset && j < offset {
            assert(t0.is_item(i) && t0.is_item(j));
            assert(t0.nodes@[i].set is Some && t0.nodes@[j].set is Some);
        } else if i >= offset && j >= offset {
            assert(t.nodes@[offset + (i - offset)].header == set[i - offset] + 1);
            assert(t.nodes@[offset + (j - offset)].header == set[j - offset] + 1);
        } else if i < offset {
            assert(t0.is_item(i));
            assert(t0.nodes@[i].set is Some);
            assert(t.nodes@[offset + (j - offset)].set == Some(si as usize));
        } else {
            assert(t0.is_item(j));
            assert(t0.nodes@[j].set is Some);
            assert(t.nodes@[offset + (i - offset)].set == Some(si as usize));
        }
    }
}

pub proof fn lemma_block_layout(t0: DLXTable, t: DLXTable, set: Seq<usize>)
    requires
        block_pre(t0, t, set),
    ensures
        t.wf_layout(),
{
    lemma_block_sets(t0, t, set);
    lemma_block_items(t0, t, set);
    lemma_block_distinct(t0, t, set);
    assert forall|h: int| #![trigger t.nodes@[h]] t.is_header(h) implies t.nodes@[h].header == h && t.nodes@[h].set is None
        && t.nodes@[h].len is Some by {
        assert(t0.is_header(h));
        assert(t0.nodes@[h].header == h);
    }
    assert(t0.nodes@[0].header == 0);
}

impl DLXTable {
    /// The header node of `element`, if the table has that element.
    fn get_header(&self, element: usize) -> (r: Option<&Node>)
        requires
            self.wf_layout(),
        ensures
            element < self.element_count ==> r == Some(&self.nodes@[element + 1]),
            element >= self.element_count ==> r is None,
    {
        if element < self.element_count {
            Some(&self.nodes[element + 1])
        } else {
            None
        }
    }

    fn insert_node(&mut self, index: usize, element: usize, set_index: usize, offset: usize, set_len: usize)
        requires
            full_vertical(old(self).nodes@, old(self).ec()),
            element < old(self).element_count,
            old(self).nodes@[element + 1].header == element + 1,
            old(self).nodes@[element + 1].len is Some,
            old(self).ec() < old(self).nodes@.len(),
            offset + index == old(self).nodes@.len(),
            index < set_len,
            offset + set_len + 1 < usize::MAX,
        ensures
            final(self).nodes@ == appended(
                old(self).nodes@,
                element + 1,
                (offset + (if index == 0 { set_len - 1 } else { index - 1 })) as usize,
                (offset + (index + 1) % (set_len as int)) as usize,
                Some(set_index),
            ),
            final(self).element_count == old(self).element_count,
            final(self).set_heads == old(self).set_heads,
    {
        proof {
            lemma_col_finite(self.nodes@, self.ec(), element + 1);
        }
        let header_index = self.nodes[element + 1].header;
        let mut header = self.nodes[header_index];
        let up = header.up;
        header.up = offset + index;
        let len = match header.len {
            Some(l) => l,
            None => 0,
        };
        header.len = Some(len + 1);
        self.nodes.set(header_index, header);
        let mut up_node = self.nodes[up];
        up_node.down = offset + index;
        self.nodes.set(up, up_node);
        let prev = if index == 0 {
            set_len - 1
        } else {
            index - 1
        };
        let next = (index + 1) % set_len;
        let left = offset + prev;
        let right = offset + next;
        self.nodes.push(
            Node { header: header_index, up, down: header_index, left, right, len: None, set: Some(set_index) },
        );
    }

    fn add_set(&mut self, set: &[usize])
        requires
            old(self).wf_layout(),
            full_vertical(old(self).nodes@, old(self).ec()),
            set@.no_duplicates(),
            forall|k: int| 0 <= k < set@.len() ==> set@[k] < old(self).element_count,
            old(self).nodes@.len() + set@.len() + 1 < usize::MAX,
        ensures
            final(self).wf_layout(),
            full_vertical(final(self).nodes@, final(self).ec()),
            set@.len() == 0 ==> *final(self) == *old(self),
            set@.len() > 0 ==> block_added(*old(self), *final(self), set@),
            forall|h: int|
                #![trigger final(self).nodes@[h]]
                0 <= h <= old(self).ec() ==> final(self).nodes@[h].left == old(self).nodes@[h].left
                    && final(self).nodes@[h].right == old(self).nodes@[h].right,
            final(self).nodes@[0] == old(self).nodes@[0],
    {
        let ghost t0 = *self;
        if set.len() != 0 {
            self.set_heads.push(self.nodes.len());
            let set_index = self.set_heads.len() - 1;
            let offset = self.nodes.len();
            let set_len = set.len();
            let mut current_index: usize = 0;
            while current_index < set_len
                invariant
                    t0.wf_layout(),
                    set_len == set@.len(),
                    set_len > 0,
                    offset == t0.n(),
                    set_index == t0.set_heads@.len(),
                    current_index <= set_len,
                    offset + set_len + 1 < usize::MAX,
                    self.element_count == t0.element_count,
                    self.set_heads@ == t0.set_heads@.push(offset as usize),
                    self.n() == offset + current_index,
                    full_vertical(self.nodes@, self.ec()),
                    self.nodes@[0] == t0.nodes@[0],
                    forall|k: int| 0 <= k < set@.len() ==> set@[k] < t0.element_count,
                    forall|i: int|
                        #![trigger self.nodes@[i]]
                        0 <= i < offset ==> self.nodes@[i].header == t0.nodes@[i].header && self.nodes@[i].left
                            == t0.nodes@[i].left && self.nodes@[i].right == t0.nodes@[i].right
                            && self.nodes@[i].set == t0.nodes@[i].set && (self.nodes@[i].len is Some
                            <==> t0.nodes@[i].len is Some),
                    forall|j: int|
                        #![trigger self.nodes@[offset + j]]
                        0 <= j < current_index ==> {
                            &&& self.nodes@[offset + j].header == set@[j] + 1
                            &&& self.nodes@[offset + j].set == Some(t0.set_heads@.len() as usize)
                            &&& self.nodes@[offset + j].len is None
                            &&& self.nodes@[offset + j].left == offset + if j == 0 {
                                set_len - 1
                            } else {
                                j - 1
                            }
                            &&& self.nodes@[offset + j].right == offset + (j + 1) % (set_len as int)
                        },
                decreases set_len - current_index,
            {
                let element = set[current_index];
                proof {
                    assert(t0.is_header(element + 1));
                    assert(self.nodes@[element + 1].header == t0.nodes@[element + 1].header);
                }
                let ghost before = self.nodes@;
                self.insert_node(current_index, element, set_index, offset, set_len);
                proof {
                    lemma_append_keeps_root(
                        before,
                        self.ec(),
                        element + 1,
                        (offset + (if current_index == 0 { set_len - 1 } else { current_index - 1 })) as usize,
                        (offset + (current_index + 1) % (set_len as int)) as usize,
                        Some(set_index),
                    );
                    lemma_append_full(
                        before,
                        self.ec(),
                        element + 1,
                        (offset + (if current_index == 0 { set_len - 1 } else { current_index - 1 })) as usize,
                        (offset + (current_index + 1) % (set_len as int)) as usize,
                        Some(set_index),
                    );
                }
                current_index += 1;
            }
            proof {
                assert(block_added(t0, *self, set@));
                lemma_block_layout(t0, *self, set@);
            }
        }
    }
}


proof fn lemma_end_le_n(t: DLXTable)
    requires
        t.wf_layout(),
    ensures
        forall|s: int| 0 <= s < t.sets_count() ==> #[trigger] t.end_of(s) <= t.n(),
{
    assert forall|s: int| 0 <= s < t.sets_count() implies #[trigger] t.end_of(s) <= t.n() by {
        if s + 1 < t.sets_count() {
            let last = t.sets_count() - 1;
            assert(t.head_of(last) < t.end_of(last));
            if s + 1 < last {
                assert(t.head_of(s + 1) < t.head_of(last));
            }
        }
    }
}

proof fn lemma_holds_step(t0: DLXTable, t: DLXTable, ne: Seq<Seq<usize>>, set: Seq<usize>)
    requires
        forall|s: int| 0 <= s < t0.sets_count() ==> #[trigger] t0.end_of(s) <= t0.n(),
        t0.holds(ne),
        set.len() > 0,
        block_added(t0, t, set),
        t.n() < usize::MAX,
    ensures
        t.holds(ne.push(set)),
{
    let ne2 = ne.push(set);
    assert(ne2.drop_last() =~= ne);
    assert(total_len(ne2) == total_len(ne) + set.len());
    assert forall|s: int| 0 <= s < ne.len() implies #[trigger] ne2.take(s) == ne.take(s) by {
        assert(ne2.take(s) =~= ne.take(s));
    }
    assert(ne2.take(ne.len() as int) =~= ne);
    let si = ne.len() as int;
    assert(t.sets_count() == si + 1);
    assert forall|s: int| 0 <= s < si implies #[trigger] t.end_of(s) == t0.end_of(s) && t.head_of(s) == t0.head_of(s) by {
        assert(t.set_heads@[s] == t0.set_heads@[s]);
        if s + 1 < si {
            assert(t.set_heads@[s + 1] == t0.set_heads@[s + 1]);
        } else {
            assert(t.set_heads@[s + 1] == t0.n());
        }
    }
    assert(t.head_of(si) == t0.n());
    assert(t.end_of(si) == t0.n() + set.len());
    assert(t0.n() == t0.ec() + 1 + total_len(ne));
    assert forall|s: int| #![trigger t.set_heads@[s]] 0 <= s < ne2.len() implies t.head_of(s) == t.ec() + 1 + total_len(ne2.take(s))
        && t.end_of(s) == t.head_of(s) + ne2[s].len() by {
        if s < si {
            assert(t0.head_of(s) == t0.ec() + 1 + total_len(ne.take(s)));
            assert(ne2.take(s) == ne.take(s));
            assert(t.end_of(s) == t0.end_of(s) && t.head_of(s) == t0.head_of(s));
        }
    }
    assert forall|s: int, k: int| 0 <= s < ne2.len() && 0 <= k < ne2[s].len() implies #[trigger] t.hdr(t.head_of(s) + k) == ne2[s][k] + 1 by {
        if s < ne.len() {
            assert(t0.hdr(t0.head_of(s) + k) == ne[s][k] + 1);
            assert(t0.end_of(s) <= t0.n());
        } else {
            assert(t.nodes@[t0.n() + k].header == set[k] + 1);
        }
    }
}

impl DLXTable {
    /// The table of `sets` over the elements `0..elements`: one header per
    /// element, and one row per non-empty set, in order.
    #[verifier::spinoff_prover]
    #[verifier::rlimit(80)]
    fn build(elements: usize, sets: &Vec<Vec<usize>>) -> (table: Self)
        requires
            forall|s: int| 0 <= s < sets@.len() ==> (#[trigger] sets@[s])@.no_duplicates(),
            forall|s: int, k: int| 0 <= s < sets@.len() && 0 <= k < sets@[s]@.len() ==> sets@[s]@[k] < elements,
            elements + total_len(view_sets(sets@)) + sets@.len() + 2 < usize::MAX,
        ensures
            table.wf(),
            table.complete(),
            table.ec() == elements,
            table.holds(nonempty(view_sets(sets@))),
            table.nodes@[0] == (Node {
                header: 0,
                up: 0,
                down: 0,
                left: table.element_count,
                right: (1int % (table.ec() + 1)) as usize,
                len: None,
                set: None,
            }),
    {
        let ghost ss = view_sets(sets@);
        proof {
            lemma_total_len_nonneg(ss);
            assert forall|s: int, k: int| 0 <= s < ss.len() && 0 <= k < ss[s].len() implies ss[s][k] < elements by {
                assert(ss[s][k] == sets@[s]@[k]);
            }
        }
        let mut table = Self::with_capacity(elements, sets.len());
        table.create_headers();
        let mut i: usize = 0;
        while i < sets.len()
            invariant
                ss == view_sets(sets@),
                i <= sets@.len(),
                table.element_count == elements,
                forall|s: int, k: int| 0 <= s < ss.len() && 0 <= k < ss[s].len() ==> ss[s][k] < elements,
                elements + total_len(ss) + sets@.len() + 2 < usize::MAX,
                forall|s: int| 0 <= s < sets@.len() ==> (#[trigger] sets@[s])@.no_duplicates(),
                table.wf_layout(),
                full_vertical(table.nodes@, table.ec()),
                table.fresh_links(),
                table.holds(nonempty(ss.take(i as int))),
                total_len(ss.take(i as int)) <= total_len(ss),
                table.nodes@[0].header == 0 && table.nodes@[0].up == 0 && table.nodes@[0].down == 0,
                table.nodes@[0].len is None && table.nodes@[0].set is None,
            decreases sets@.len() - i,
        {
            proof {
                lemma_total_len_take(ss, i as int);
                lemma_total_len_nonempty(ss.take(i as int));
                lemma_total_len_nonneg(ss.take(i as int));
                assert(ss[i as int] == sets@[i as int]@);
                assert forall|k: int| 0 <= k < sets@[i as int]@.len() implies sets@[i as int]@[k] < elements by {
                    assert(ss[i as int][k] == sets@[i as int]@[k]);
                }
            }
            let ghost t0 = table;
            table.add_set(sets[i].as_slice());
            proof {
                let ne = nonempty(ss.take(i as int));
                if ss[i as int].len() > 0 {
                    lemma_end_le_n(t0);
                    lemma_holds_step(t0, table, ne, ss[i as int]);
                }
            }
            i += 1;
        }
        proof {
            assert(ss.take(sets@.len() as int) =~= ss);
            table.lemma_fresh_horizontal();
            table.lemma_full_vertical();
            assert forall|z: int| table.is_item(z) implies #[trigger] table.col(table.hdr(z)).contains(z) by {
                assert(table.col(table.hdr(z)) == all_of_col(table.nodes@, table.ec(), table.hdr(z)));
            }
        }
        table
    }

    /// The table of `sets`: one header per element `0..=max`, and one row
    /// per non-empty set, in order.
    pub fn from(sets: &Vec<Vec<usize>>) -> (table: Self)
        requires
            forall|s: int| 0 <= s < sets@.len() ==> (#[trigger] sets@[s])@.no_duplicates(),
            forall|s: int, k: int|
                0 <= s < sets@.len() && 0 <= k < sets@[s]@.len() ==> sets@[s]@[k] + total_len(
                    view_sets(sets@),
                ) + sets@.len() + 3 < usize::MAX,
            total_len(view_sets(sets@)) + sets@.len() + 3 < usize::MAX,
        ensures
            table.wf(),
            table.complete(),
            universe_size(view_sets(sets@), table.ec()),
            table.holds(nonempty(view_sets(sets@))),
            table.nodes@[0] == (Node {
                header: 0,
                up: 0,
                down: 0,
                left: table.element_count,
                right: (1int % (table.ec() + 1)) as usize,
                len: None,
                set: None,
            }),
    {
        let ghost ss = view_sets(sets@);
        proof {
            lemma_total_len_nonneg(ss);
        }
        let elements = element_count(&sets);
        proof {
            assert forall|s: int, k: int| 0 <= s < sets@.len() && 0 <= k < sets@[s]@.len() implies sets@[s]@[k] < elements by {
                assert(ss[s][k] == sets@[s]@[k]);
            }
            if elements > 0 {
                let (s, k) = choose|s: int, k: int| 0 <= s < ss.len() && 0 <= k < ss[s].len() && ss[s][k] == elements - 1;
                assert(sets@[s]@[k] == elements - 1);
            }
        }
        Self::build(elements, sets)
    }

    /// The table of `sets` over the elements `0..elements`, whether each of
    /// them occurs in a set or not.
    pub fn from_elements(elements: usize, sets: &Vec<Vec<usize>>) -> (table: Self)
        requires
            forall|s: int| 0 <= s < sets@.len() ==> (#[trigger] sets@[s])@.no_duplicates(),
            forall|s: int, k: int| 0 <= s < sets@.len() && 0 <= k < sets@[s]@.len() ==> sets@[s]@[k] < elements,
            elements + total_len(view_sets(sets@)) + sets@.len() + 2 < usize::MAX,
        ensures
            table.wf(),
            table.complete(),
            table.ec() == elements,
            table.holds(nonempty(view_sets(sets@))),
    {
        Self::build(elements, sets)
    }
}


impl DLXTable {
    /// The sets that currently have a node in the column of header `h`.
    #[verifier::opaque]
    pub open spec fn col_sets(self, h: int) -> Set<int> {
        Set::new(|s: int| exists|z: int| #[trigger] self.col(h).contains(z) && self.set_of(z) == s)
    }

    /// The node indices of row `s`.
    pub open spec fn row_seq(self, s: int) -> Seq<usize> {
        Seq::new((self.end_of(s) - self.head_of(s)) as nat, |k: int| (self.head_of(s) + k) as usize)
    }

    /// The elements of row `s`, in node order.
    pub open spec fn row_elements(self, s: int) -> Seq<usize> {
        Seq::new((self.end_of(s) - self.head_of(s)) as nat, |k: int| (self.hdr(self.head_of(s) + k) - 1) as usize)
    }

    pub proof fn lemma_set_of_monotone(self, i: int, j: int)
        requires
            self.wf_layout(),
            self.is_item(i),
            self.is_item(j),
            i <= j,
        ensures
            self.set_of(i) <= self.set_of(j),
    {
        let si = self.set_of(i);
        let sj = self.set_of(j);
        assert(self.nodes@[i].set is Some && self.nodes@[j].set is Some);
        if si > sj {
            assert(self.head_of(sj) < self.head_of(si));
            if sj + 1 < si {
                assert(self.head_of(sj + 1) < self.head_of(si));
            }
            assert(self.end_of(sj) <= self.head_of(si));
        }
    }

    pub proof fn lemma_col_sub(self, h: int)
        requires
            self.wf_layout(),
        ensures
            self.col(h).finite(),
            self.col(h).len() < self.n(),
            forall|z: int| #[trigger] self.col(h).contains(z) ==> self.is_item(z) && self.hdr(z) == h,
    {
        let c = self.col(h);
        let r = vstd::set_lib::set_int_range(self.ec() + 1, self.n());
        vstd::set_lib::lemma_int_range(self.ec() + 1, self.n());
        assert(c.subset_of(r));
        vstd::set_lib::lemma_len_subset(c, r);
    }

    fn get_element(&self, node: &Node) -> (e: usize)
        requires
            node.header >= 1,
        ensures
            e == node.header - 1,
    {
        node.header - 1
    }

    /// The elements whose headers are still in the horizontal list, in
    /// ascending order.
    #[verifier::rlimit(50)]
    pub fn elements(&self) -> (r: Vec<usize>)
        requires
            self.wf(),
        ensures
            strictly_increasing(r@),
            forall|x: usize| r@.contains(x) <==> self.active().contains(x + 1),
    {
        let mut indices: Vec<usize> = Vec::new();
        let root = self.nodes[0];
        let mut cur = root.right;
        let ghost act = self.active();
        let ghost e = self.ec();
        proof {
            assert(is_succ(act, 0, 0, root.right as int));
            assert forall|y: int| #[trigger] act.contains(y) implies 1 <= y <= e && is_succ(act, 0, y, self.nodes@[y].right as int)
                && self.nodes@[y].header == y by {}
        }
        while self.nodes[cur].right != root.right
            invariant
                root == self.nodes@[0],
                self.ec() == e,
                e < self.n() < usize::MAX,
                cur <= e,
                forall|y: int| #[trigger] act.contains(y) ==> 1 <= y <= e && is_succ(act, 0, y, self.nodes@[y].right as int)
                    && self.nodes@[y].header == y,
                cur == 0 || act.contains(cur as int),
                is_succ(act, 0, 0, root.right as int),
                strictly_increasing(indices@),
                forall|k: int| 0 <= k < indices@.len() ==> indices@[k] + 1 < cur || cur == 0,
                forall|x: usize| indices@.contains(x) <==> act.contains(x + 1) && (x + 1 < cur || cur == 0),
            decreases if cur == 0 { 0 } else { e + 1 - cur },
        {
            proof {
                if cur == 0 {
                    if act.contains(root.right as int) {
                        assert(self.nodes@[0].right == root.right);
                    } else {
                        assert(root.right == 0);
                    }
                    assert(false);
                }
            }
            let elem = self.get_element(&self.nodes[cur]);
            let ghost before = indices@;
            indices.push(elem);
            let next = self.nodes[cur].right;
            proof {
                lemma_walk_step(act, before, cur as int, next as int);
            }
            cur = next;
        }
        proof {
            if cur != 0 {
                assert(is_succ(act, 0, cur as int, self.nodes@[cur as int].right as int));
                assert(act.contains(root.right as int));
                assert(false);
            }
            assert forall|x: usize| r_contains(indices@, x) <==> act.contains(x + 1) by {}
        }
        indices
    }

    /// The row nodes present in the column of `element`, in ascending order.
    pub fn element_nodes(&self, element: usize) -> (r: Vec<usize>)
        requires
            self.wf(),
        ensures
            strictly_increasing(r@),
            forall|z: usize| r@.contains(z) <==> element < self.element_count && self.col(element + 1).contains(z as int),
    {
        let mut indices: Vec<usize> = Vec::new();
        if element < self.element_count {
            let ghost h = element + 1;
            let ghost c = self.col(h);
            proof {
                self.lemma_col_sub(h);
                assert(is_succ(c, h, h, self.nodes@[h].down as int));
                assert forall|y: int| #[trigger] c.contains(y) implies h < y && is_succ(c, h, y, self.nodes@[y].down as int) by {
                    assert(self.col(self.hdr(y)) == c);
                    assert(self.present(y));
                }
            }
            let header = self.get_header(element).unwrap();
            let mut cur = header.header;
            while self.nodes[cur].down != header.header
                invariant
                    *header == self.nodes@[h],
                    header.header == h,
                    h == element + 1,
                    h < self.n() < usize::MAX,
                    c == self.col(h),
                    forall|y: int| #[trigger] c.contains(y) ==> h < y < self.n() && is_succ(c, h, y, self.nodes@[y].down as int),
                    is_succ(c, h, h, self.nodes@[h].down as int),
                    cur == h || c.contains(cur as int),
                    strictly_increasing(indices@),
                    forall|k: int| 0 <= k < indices@.len() ==> indices@[k] <= cur,
                    forall|x: usize| indices@.contains(x) <==> c.contains(x as int) && x <= cur,
                decreases self.n() - cur,
            {
                let next = self.nodes[cur].down;
                proof {
                    lemma_col_walk_step(c, h, indices@, cur as int, next as int);
                }
                indices.push(next);
                cur = next;
            }
            proof {
                assert forall|x: usize| c.contains(x as int) implies x <= cur by {
                    assert(is_succ(c, h, cur as int, h));
                }
            }
        }
        let ghost before = indices@;
        sort(&mut indices);
        proof {
            lemma_sort_keeps_increasing(before, indices@);
        }
        indices
    }

    /// Two different nodes of one column lie in different rows, the lower
    /// node in the earlier row.
    pub proof fn lemma_col_sets_increase(self, h: int, z1: int, z2: int)
        requires
            self.wf_layout(),
            self.col(h).contains(z1),
            self.col(h).contains(z2),
            z1 < z2,
        ensures
            self.set_of(z1) < self.set_of(z2),
    {
        self.lemma_col_sub(h);
        self.lemma_set_of_monotone(z1, z2);
        assert(self.nodes@[z1].set is Some && self.nodes@[z2].set is Some);
    }

    /// The sets that have a node in the column of `element`, in ascending
    /// order.
    pub fn element_sets(&self, element: usize) -> (r: Vec<usize>)
        requires
            self.wf_layout(),
            self.wf_vertical(),
        ensures
            strictly_increasing(r@),
            forall|s: usize| r@.contains(s) <==> element < self.element_count && self.col_sets(element + 1).contains(s as int),
    {
        reveal(DLXTable::col_sets);
        let mut indices: Vec<usize> = Vec::new();
        let ghost mut zs: Seq<usize> = Seq::empty();
        match self.get_header(element) {
            Some(header) => {
                let ghost h = element + 1;
                let ghost c = self.col(h);
                proof {
                    self.lemma_col_sub(h);
                    assert(is_succ(c, h, h, self.nodes@[h].down as int));
                    assert forall|y: int| #[trigger] c.contains(y) implies h < y && is_succ(c, h, y, self.nodes@[y].down as int) by {
                        assert(self.col(self.hdr(y)) == c);
                        assert(self.present(y));
                    }
                }
                let mut cur = header.header;
                while self.nodes[cur].down != header.header
                    invariant
                        self.wf_layout(),
                        self.wf_vertical(),
                        *header == self.nodes@[h],
                        header.header == h,
                        h == element + 1,
                        h < self.n() < usize::MAX,
                        c == self.col(h),
                        forall|y: int| #[trigger] c.contains(y) ==> h < y < self.n() && is_succ(c, h, y, self.nodes@[y].down as int),
                        is_succ(c, h, h, self.nodes@[h].down as int),
                        cur == h || c.contains(cur as int),
                        strictly_increasing(zs),
                        forall|k: int| 0 <= k < zs.len() ==> zs[k] <= cur,
                        forall|x: usize| zs.contains(x) <==> c.contains(x as int) && x <= cur,
                        indices@ == Seq::new(zs.len(), |k: int| self.set_of(zs[k] as int) as usize),
                    decreases self.n() - cur,
                {
                    let next = self.nodes[cur].down;
                    proof {
                        lemma_col_walk_step(c, h, zs, cur as int, next as int);
                        zs = zs.push(next);
                        assert(self.nodes@[next as int].set is Some);
                    }
                    cur = next;
                    if let Some(set_index) = self.nodes[cur].set {
                        indices.push(set_index);
                    }
                    proof {
                        assert(indices@ =~= Seq::new(zs.len(), |k: int| self.set_of(zs[k] as int) as usize));
                    }
                }
                proof {
                    assert forall|x: usize| c.contains(x as int) implies x <= cur by {
                        assert(is_succ(c, h, cur as int, h));
                    }
                    assert forall|a: int, b: int| 0 <= a < b < indices@.len() implies indices@[a] < indices@[b] by {
                        assert(zs.contains(zs[a]) && zs.contains(zs[b]));
                        self.lemma_col_sets_increase(h, zs[a] as int, zs[b] as int);
                        assert(self.set_of(zs[b] as int) < self.sets_count());
                    }
                    assert forall|s: usize| indices@.contains(s) <==> self.col_sets(h).contains(s as int) by {
                        if indices@.contains(s) {
                            let k = choose|k: int| 0 <= k < indices@.len() && indices@[k] == s;
                            assert(zs.contains(zs[k]));
                            assert(c.contains(zs[k] as int));
                            assert(self.set_of(zs[k] as int) < self.sets_count());
                        }
                        if self.col_sets(h).contains(s as int) {
                            let z = choose|z: int| #[trigger] self.col(h).contains(z) && self.set_of(z) == s;
                            assert(z <= usize::MAX) by { self.lemma_col_sub(h); }
                            assert(zs.contains(z as usize));
                            let k = choose|k: int| 0 <= k < zs.len() && zs[k] == z as usize;
                            assert(indices@[k] == s);
                        }
                    }
                }
            },
            None => {},
        }
        let ghost before = indices@;
        sort(&mut indices);
        proof {
            lemma_sort_keeps_increasing(before, indices@);
        }
        indices
    }

    /// Row `s` is a block of consecutive nodes whose right links step
    /// through the block cyclically.
    pub proof fn lemma_row_layout(self, s: int)
        requires
            self.wf_layout(),
            0 <= s < self.sets_count(),
        ensures
            self.ec() < self.head_of(s) < self.end_of(s) <= self.n(),
            forall|i: int| self.head_of(s) <= i < self.end_of(s) ==> #[trigger] self.nodes@[i].right
                == (if i + 1 < self.end_of(s) { i + 1 } else { self.head_of(s) }) && self.is_item(i)
                && self.set_of(i) == s,
    {
        let end = self.end_of(s);
        let set_head = self.head_of(s);
        lemma_end_le_n(self);
        if s > 0 {
            assert(self.head_of(0) < self.head_of(s));
        }
        assert forall|i: int| set_head <= i < end implies #[trigger] self.nodes@[i].right
            == (if i + 1 < end { i + 1 } else { set_head }) && self.is_item(i) && self.set_of(i) == s by {
            assert(self.is_item(i));
            assert(self.nodes@[i].set is Some);
            let t = self.set_of(i);
            if t < s {
                assert(self.end_of(t) <= self.head_of(s)) by {
                    if t + 1 < s {
                        assert(self.head_of(t + 1) < self.head_of(s));
                    }
                }
            } else if t > s {
                assert(self.head_of(s) < self.head_of(t));
                if s + 1 < t {
                    assert(self.head_of(s + 1) < self.head_of(t));
                }
            }
        }
    }

    /// The node indices of row `set_index`, in ascending order; empty when
    /// there is no such row.
    pub fn row_nodes(&self, set_index: usize) -> (r: Vec<usize>)
        requires
            self.wf_layout(),
        ensures
            set_index < self.sets_count() ==> r@ == self.row_seq(set_index as int),
            set_index >= self.sets_count() ==> r@.len() == 0,
    {
        let mut indices: Vec<usize> = Vec::new();
        if set_index < self.set_heads.len() {
            let set_head = self.set_heads[set_index];
            let ghost s = set_index as int;
            let ghost end = self.end_of(s);
            proof {
                self.lemma_row_layout(s);
            }
            indices.push(set_head);
            if set_head < self.nodes.len() {
                let mut next = set_head;
                while self.nodes[next].right != set_head
                    invariant
                        set_head == self.head_of(s),
                        end <= self.n(),
                        self.nodes@.len() == self.n(),
                        set_head <= next < end,
                        forall|i: int| set_head <= i < end ==> #[trigger] self.nodes@[i].right
                            == (if i + 1 < end { i + 1 } else { set_head as int }),
                        indices@ =~= Seq::new((next - set_head + 1) as nat, |k: int| (set_head + k) as usize),
                    decreases end - next,
                {
                    let right = self.nodes[next].right;
                    indices.push(right);
                    next = right;
                }
                proof {
                    assert(next + 1 == end);
                    assert(indices@ =~= self.row_seq(s));
                }
            }
        }
        let ghost before = indices@;
        sort(&mut indices);
        proof {
            lemma_sort_keeps_increasing(before, indices@);
        }
        indices
    }

    /// The elements of row `set_index`, in ascending order; empty when there
    /// is no such row.
    pub fn set_elements(&self, set_index: usize) -> (r: Vec<usize>)
        requires
            self.wf_layout(),
        ensures
            sorted(r@),
            set_index < self.sets_count() ==> r@.to_multiset() == self.row_elements(set_index as int).to_multiset(),
            set_index >= self.sets_count() ==> r@.len() == 0,
    {
        let mut elem_indices: Vec<usize> = Vec::new();
        let row_nodes = self.row_nodes(set_index);
        let ghost s = set_index as int;
        proof {
            if set_index < self.sets_count() {
                lemma_end_le_n(*self);
                if s > 0 {
                    assert(self.head_of(0) < self.head_of(s));
                }
            }
        }
        let ghost rel = if set_index < self.sets_count() { self.row_elements(s) } else { Seq::<usize>::empty() };
        proof {
            assert forall|k: int| 0 <= k < row_nodes@.len() implies #[trigger] row_nodes@[k] < self.n()
                && self.nodes@[row_nodes@[k] as int].header >= 1
                && rel[k] == self.nodes@[row_nodes@[k] as int].header - 1 by {
                assert(self.is_item(row_nodes@[k] as int));
            }
        }
        let mut i: usize = 0;
        while i < row_nodes.len()
            invariant
                i <= row_nodes@.len(),
                rel.len() == row_nodes@.len(),
                self.nodes@.len() == self.n(),
                forall|k: int| 0 <= k < row_nodes@.len() ==> #[trigger] row_nodes@[k] < self.n()
                    && self.nodes@[row_nodes@[k] as int].header >= 1
                    && rel[k] == self.nodes@[row_nodes@[k] as int].header - 1,
                elem_indices@ == rel.take(i as int),
            decreases row_nodes@.len() - i,
        {
            let node = &self.nodes[row_nodes[i]];
            elem_indices.push(self.get_element(node));
            proof {
                assert(elem_indices@ =~= rel.take(i + 1));
            }
            i += 1;
        }
        let ghost before = elem_indices@;
        sort(&mut elem_indices);
        proof {
            assert(before =~= rel);
            broadcast use vstd::seq_lib::to_multiset_len;
            assert(elem_indices@.len() == elem_indices@.to_multiset().len());
            assert(rel.len() == rel.to_multiset().len());
        }
        elem_indices
    }

    /// Some element still in the horizontal list has no row node left in
    /// its column.
    pub fn has_empty_sets(&self) -> (r: bool)
        requires
            self.wf(),
        ensures
            r == exists|h: int| #[trigger] self.active().contains(h) && self.col(h).len() == 0,
    {
        let elements = self.elements();
        proof {
            lemma_listed_headers(self.active(), elements@);
        }
        if elements.len() == 0 {
            false
        } else {
            proof {
                assert forall|k: int| 0 <= k < elements@.len() implies #[trigger] elements@[k] < self.element_count
                    && self.nodes@[elements@[k] + 1].len == Some(self.col(elements@[k] + 1).len() as usize)
                    && self.active().contains(elements@[k] + 1) && self.col(elements@[k] + 1).len() < self.n() by {
                    assert(elements@.contains(elements@[k]));
                    assert(self.active().contains(elements@[k] + 1));
                    self.lemma_col_sub(elements@[k] + 1);
                }
            }
            let mut i: usize = 0;
            while i < elements.len()
                invariant
                    self.wf_layout(),
                    i <= elements@.len(),
                    forall|k: int| 0 <= k < elements@.len() ==> #[trigger] elements@[k] < self.element_count
                        && self.nodes@[elements@[k] + 1].len == Some(self.col(elements@[k] + 1).len() as usize)
                        && self.active().contains(elements@[k] + 1) && self.col(elements@[k] + 1).len() < self.n(),
                    self.n() < usize::MAX,
                    forall|k: int| 0 <= k < i ==> self.col(#[trigger] elements@[k] + 1).len() != 0,
                decreases elements@.len() - i,
            {
                let elem = elements[i];
                let header = self.get_header(elem).unwrap();
                match header.len {
                    Some(0) => {
                        proof {
                            assert(self.active().contains(elem + 1));
                            assert(self.col(elem + 1).len() == 0);
                        }
                        return true;
                    },
                    _ => {},
                }
                i += 1;
            }
            false
        }
    }

    /// The number of row nodes present in the column of `element`; 0 when
    /// there is no such element.
    pub fn element_sets_count(&self, element: usize) -> (r: usize)
        requires
            self.wf(),
        ensures
            element < self.element_count ==> r == self.col(element + 1).len(),
            element >= self.element_count ==> r == 0,
    {
        proof {
            if element < self.element_count {
                let h = element + 1;
                assert(self.is_header(h as int));
                assert(self.nodes@[h as int].len == Some(self.col(h as int).len() as usize));
                self.lemma_col_sub(h as int);
            }
        }
        match self.get_header(element) {
            Some(header) => match header.len {
                Some(len) => len,
                None => 0,
            },
            None => 0,
        }
    }
}

/// One step of a walk along the horizontal list: the element of `cur` is
/// appended to the elements collected so far.
proof fn lemma_walk_step(act: Set<int>, idx: Seq<usize>, cur: int, next: int)
    requires
        act.contains(cur),
        1 <= cur < usize::MAX,
        is_succ(act, 0, cur, next),
        strictly_increasing(idx),
        forall|k: int| 0 <= k < idx.len() ==> idx[k] + 1 < cur,
        forall|x: usize| idx.contains(x) <==> act.contains(x + 1) && x + 1 < cur,
    ensures
        ({
            let idx2 = idx.push((cur - 1) as usize);
            &&& strictly_increasing(idx2)
            &&& forall|k: int| 0 <= k < idx2.len() ==> idx2[k] + 1 < next || next == 0
            &&& forall|x: usize| idx2.contains(x) <==> act.contains(x + 1) && (x + 1 < next || next == 0)
        }),
{
    let idx2 = idx.push((cur - 1) as usize);
    assert forall|x: usize| idx2.contains(x) <==> act.contains(x + 1) && (x + 1 < next || next == 0) by {
        if x + 1 == cur {
            assert(idx2[idx2.len() - 1] == x);
            assert(idx2.contains(x));
            assert(next == 0 || cur < next);
        } else {
            if idx2.contains(x) {
                let k = choose|k: int| 0 <= k < idx2.len() && idx2[k] == x;
                assert(k < idx.len());
                assert(idx[k] == x);
                assert(idx.contains(x));
                assert(x + 1 < cur);
                assert(next == 0 || cur < next);
            }
            if act.contains(x + 1) && (x + 1 < next || next == 0) {
                if next != 0 {
                    assert(act.contains(next) && cur < next);
                }
                assert(x + 1 <= cur);
                assert(x + 1 < cur);
                assert(idx.contains(x));
                let k = choose|k: int| 0 <= k < idx.len() && idx[k] == x;
                assert(idx2[k] == x);
            }
        }
    }
}

/// One step down a column: the successor of `cur` is appended to the nodes
/// collected so far.
proof fn lemma_col_walk_step(c: Set<int>, head: int, idx: Seq<usize>, cur: int, next: int)
    requires
        forall|y: int| #[trigger] c.contains(y) ==> head < y,
        0 <= head,
        cur == head || c.contains(cur),
        is_succ(c, head, cur, next),
        next != head,
        next <= usize::MAX,
        strictly_increasing(idx),
        forall|k: int| 0 <= k < idx.len() ==> idx[k] <= cur,
        forall|x: usize| idx.contains(x) <==> c.contains(x as int) && x <= cur,
    ensures
        c.contains(next),
        cur < next,
        ({
            let idx2 = idx.push(next as usize);
            &&& strictly_increasing(idx2)
            &&& forall|k: int| 0 <= k < idx2.len() ==> idx2[k] <= next
            &&& forall|x: usize| idx2.contains(x) <==> c.contains(x as int) && x <= next
        }),
{
    let idx2 = idx.push(next as usize);
    assert forall|x: usize| idx2.contains(x) <==> c.contains(x as int) && x <= next by {
        if x == next {
            assert(idx2[idx2.len() - 1] == x);
        } else {
            if idx2.contains(x) {
                let k = choose|k: int| 0 <= k < idx2.len() && idx2[k] == x;
                assert(k < idx.len());
                assert(idx[k] == x);
                assert(idx.contains(x));
            }
            if c.contains(x as int) && x <= next {
                assert(x <= cur);
                assert(idx.contains(x));
                let k = choose|k: int| 0 <= k < idx.len() && idx[k] == x;
                assert(idx2[k] == x);
            }
        }
    }
}

/// Every listed header is matched by an element of `elements`.
proof fn lemma_listed_headers(act: Set<int>, elements: Seq<usize>)
    requires
        forall|x: usize| elements.contains(x) <==> act.contains(x + 1),
        forall|h: int| #[trigger] act.contains(h) ==> 1 <= h <= usize::MAX,
    ensures
        forall|h: int| #[trigger] act.contains(h) ==> exists|k: int| 0 <= k < elements.len() && elements[k] + 1 == h,
{
    assert forall|h: int| #[trigger] act.contains(h) implies exists|k: int| 0 <= k < elements.len() && elements[k] + 1 == h by {
        assert(act.contains(((h - 1) as usize) + 1));
        assert(elements.contains((h - 1) as usize));
    }
}

/// `x` occurs in `s`.
pub open spec fn r_contains(s: Seq<usize>, x: usize) -> bool {
    s.contains(x)
}


// ---------------------------------------------------------------------
// Covering an element
// ---------------------------------------------------------------------

/// The nodes after `x` is taken out of its column: its neighbours are
/// linked to each other and its header counts one node less.
pub open spec fn splice_out(nodes: Seq<Node>, x: int) -> Seq<Node> {
    let u = nodes[x].up as int;
    let d = nodes[x].down as int;
    let h = nodes[x].header as int;
    let n1 = nodes.update(u, Node { down: d as usize, ..nodes[u] });
    let n2 = n1.update(d, Node { up: u as usize, ..n1[d] });
    let len = match n2[h].len {
        Some(l) => l,
        None => 1,
    };
    n2.update(h, Node { len: Some((len - 1) as usize), ..n2[h] })
}

/// The nodes after `x` is put back between the neighbours it still points
/// to, and its header counts one node more.
pub open spec fn splice_in(nodes: Seq<Node>, x: int) -> Seq<Node> {
    let u = nodes[x].up as int;
    let d = nodes[x].down as int;
    let h = nodes[x].header as int;
    let n1 = nodes.update(u, Node { down: x as usize, ..nodes[u] });
    let n2 = n1.update(d, Node { up: x as usize, ..n1[d] });
    let len = match n2[h].len {
        Some(l) => l,
        None => 0,
    };
    n2.update(h, Node { len: Some((len + 1) as usize), ..n2[h] })
}

impl DLXTable {
    /// Both tables have the same contents.
    pub open spec fn same(self, other: DLXTable) -> bool {
        &&& self.element_count == other.element_count
        &&& self.nodes@ == other.nodes@
        &&& self.set_heads@ == other.set_heads@
    }

    /// Every row that has a node in the column of a listed header has all
    /// its nodes in their columns.
    pub open spec fn full_rows(self) -> bool {
        forall|h: int, z: int, x: int|
            #![trigger self.col(h).contains(z), self.nodes@[x]]
            self.active().contains(h) && self.col(h).contains(z) && self.is_item(x) && self.set_of(x)
                == self.set_of(z) ==> self.col(self.hdr(x)).contains(x)
    }

    /// The row nodes that covering header `h` takes out of their columns:
    /// the other nodes of the rows through column `h`.
    #[verifier::opaque]
    pub open spec fn cover_set(self, h: int) -> Set<int> {
        Set::new(|x: int| self.is_item(x) && self.col_sets(h).contains(self.set_of(x)) && self.hdr(x) != h)
    }

    /// The nodes of `cover_set(h)` below index `b`.
    #[verifier::opaque]
    pub open spec fn taken(self, h: int, b: int) -> Set<int> {
        Set::new(|x: int| self.cover_set(h).contains(x) && x < b)
    }
}

/// The fields that covering and uncovering leave alone, and the horizontal
/// links: `t` has `t0`'s, with header `h` taken out of the horizontal list
/// when `out` holds.
pub open spec fn frame(t0: DLXTable, t: Seq<Node>, h: int, out: bool) -> bool {
    let l = t0.nodes@[h].left as int;
    let rt = t0.nodes@[h].right as int;
    &&& t.len() == t0.nodes@.len()
    &&& forall|z: int|
        #![trigger t[z]]
        0 <= z < t0.n() ==> {
            &&& t[z].header == t0.nodes@[z].header
            &&& t[z].set == t0.nodes@[z].set
            &&& t[z].left == (if out && z == rt { l as usize } else { t0.nodes@[z].left })
            &&& t[z].right == (if out && z == l { rt as usize } else { t0.nodes@[z].right })
            &&& (!t0.is_header(z) ==> t[z].len == t0.nodes@[z].len)
            &&& (t0.is_item(z) && !t0.col(t0.hdr(z)).contains(z) ==> t[z].up == t0.nodes@[z].up
                && t[z].down == t0.nodes@[z].down)
            &&& (z == 0 ==> t[z].up == t0.nodes@[z].up && t[z].down == t0.nodes@[z].down)
        }
}

/// `t` is `t0` with header `h` out of the horizontal list and the nodes of
/// `cover_set(h)` below `b` taken out of their columns, in index order.
pub open spec fn removed_upto(t0: DLXTable, t: Seq<Node>, h: int, b: int) -> bool {
    let r = t0.taken(h, b);
    &&& frame(t0, t, h, true)
    &&& forall|d: int|
        #![trigger t0.col(d)]
        t0.is_header(d) ==> {
            let s = t0.col(d).difference(r);
            &&& is_succ(s, d, d, t[d].down as int)
            &&& is_pred(s, d, d, t[d].up as int)
            &&& t[d].len == Some(s.len() as usize)
        }
    &&& forall|z: int|
        #![trigger t0.present(z)]
        t0.present(z) ==> {
            let d = t0.hdr(z);
            let s = t0.col(d).difference(r);
            &&& (r.contains(z) ==> t[z].down == t0.nodes@[z].down)
            &&& (!r.contains(z) ==> is_succ(s, d, z, t[z].down as int))
            &&& is_pred(s, d, z, t[z].up as int)
        }
}

/// `t` is `t0` with the nodes of `cover_set(h)` from `b` on still out of
/// their columns, the ones below `b` put back in index order.
pub open spec fn restored_upto(t0: DLXTable, t: Seq<Node>, h: int, b: int) -> bool {
    restored_with(t0, t, h, t0.cover_set(h).difference(t0.taken(h, b)))
}

/// `t` is `t0` with the nodes of `p`, a part of `cover_set(h)`, out of their
/// columns, and the rest of `cover_set(h)` back in.
pub open spec fn restored_with(t0: DLXTable, t: Seq<Node>, h: int, p: Set<int>) -> bool {
    let x = t0.cover_set(h);
    &&& frame(t0, t, h, false)
    &&& forall|d: int|
        #![trigger t0.col(d)]
        t0.is_header(d) ==> {
            let s = t0.col(d);
            &&& (if p.contains(t0.nodes@[d].down as int) {
                is_succ(s.difference(x), d, d, t[d].down as int)
            } else {
                t[d].down == t0.nodes@[d].down
            })
            &&& (if p.contains(t0.nodes@[d].up as int) {
                is_pred(s.difference(x), d, d, t[d].up as int)
            } else {
                t[d].up == t0.nodes@[d].up
            })
            &&& t[d].len == Some(s.difference(p).len() as usize)
        }
    &&& forall|z: int|
        #![trigger t0.present(z)]
        t0.present(z) ==> {
            let d = t0.hdr(z);
            let s = t0.col(d);
            &&& (if !x.contains(z) && p.contains(t0.nodes@[z].down as int) {
                is_succ(s.difference(x), d, z, t[z].down as int)
            } else {
                t[z].down == t0.nodes@[z].down
            })
            &&& (if p.contains(t0.nodes@[z].up as int) {
                is_pred(s.difference(x), d, z, t[z].up as int)
            } else {
                t[z].up == t0.nodes@[z].up
            })
        }
}


/// Taking out a member other than the successor keeps the successor.
pub proof fn lemma_succ_remove(s: Set<int>, head: int, z: int, a: int, b: int)
    requires
        is_succ(s, head, z, a),
        a != b,
    ensures
        is_succ(s.remove(b), head, z, a),
{
}

/// Taking out a member other than the predecessor keeps the predecessor.
pub proof fn lemma_pred_remove(s: Set<int>, head: int, z: int, a: int, b: int)
    requires
        is_pred(s, head, z, a),
        a != b,
        forall|y: int| #[trigger] s.contains(y) ==> head < y,
    ensures
        is_pred(s.remove(b), head, z, a),
{
}

/// Taking out `b` joins its predecessor and its successor.
pub proof fn lemma_join(s: Set<int>, head: int, b: int, u: int, d: int)
    requires
        s.contains(b),
        head < b,
        forall|y: int| #[trigger] s.contains(y) ==> head < y,
        is_pred(s, head, b, u),
        is_succ(s, head, b, d),
    ensures
        is_succ(s.remove(b), head, u, d),
        is_pred(s.remove(b), head, d, u),
{
    let s2 = s.remove(b);
    if u != head {
        assert(s.contains(u) && u < b);
    }
    if d != head {
        assert(s.contains(d) && b < d);
    }
    if u == head {
        assert forall|y: int| #[trigger] s2.contains(y) && u < y implies (if d == head { false } else { d <= y }) || d == head by {
            assert(b <= y);
        }
    }
    assert(is_succ(s2, head, u, d));
    assert(is_pred(s2, head, d, u));
}


impl DLXTable {
    /// The nodes of `cover_set(h)` are present in their columns.
    pub proof fn lemma_cover_set_present(self, h: int)
        requires
            self.wf(),
            self.full_rows(),
            self.active().contains(h),
        ensures
            forall|x: int| #[trigger] self.cover_set(h).contains(x) ==> self.is_item(x) && self.hdr(x) != h
                && self.col(self.hdr(x)).contains(x),
    {
        reveal(DLXTable::cover_set);
        reveal(DLXTable::col_sets);
        assert forall|x: int| #[trigger] self.cover_set(h).contains(x) implies self.is_item(x) && self.hdr(x) != h
            && self.col(self.hdr(x)).contains(x) by {
            let z = choose|z: int| #[trigger] self.col(h).contains(z) && self.set_of(z) == self.set_of(x);
            assert(self.col(h).contains(z));
            assert(self.is_item(x));
        }
    }

    pub proof fn lemma_taken_step(self, h: int, b: int)
        ensures
            self.taken(h, b + 1) == if self.cover_set(h).contains(b) {
                self.taken(h, b).insert(b)
            } else {
                self.taken(h, b)
            },
            !self.taken(h, b).contains(b),
            forall|y: int| #[trigger] self.taken(h, b).contains(y) <==> y < b && self.cover_set(h).contains(y),
    {
        reveal(DLXTable::taken);
        if self.cover_set(h).contains(b) {
            assert(self.taken(h, b + 1) =~= self.taken(h, b).insert(b));
        } else {
            assert(self.taken(h, b + 1) =~= self.taken(h, b));
        }
    }
}

/// What the step needs to be safe: the node to take out points into the
/// table and its header counts it.
pub proof fn lemma_remove_step_safe(t0: DLXTable, t: Seq<Node>, h: int, b: int)
    requires
        step_pre(t0, t, h, b),
    ensures
        t[b].up < t.len(),
        t[b].down < t.len(),
        t[b].header == t0.hdr(b),
        1 <= t0.hdr(b) <= t0.ec(),
        t[t0.hdr(b)].len is Some,
        t[t0.hdr(b)].len->0 >= 1,
{
    let d = t0.hdr(b);
    let s = t0.col(d);
    let r = t0.taken(h, b);
    t0.lemma_taken_step(h, b);
    assert(s.contains(b));
    assert(t0.present(b));
    assert(t0.is_header(d));
    assert(s.finite());
    let sr = s.difference(r);
    assert(sr.contains(b));
    assert(sr.finite()) by {
        vstd::set_lib::lemma_len_difference(s, r);
        assert(sr.subset_of(s));
    }
    assert(sr.len() >= 1) by {
        assert(sr.remove(b).len() + 1 == sr.len());
    }
    assert(sr.len() <= s.len()) by {
        vstd::set_lib::lemma_len_subset(sr, s);
    }
    let u = t[b].up as int;
    let dd = t[b].down as int;
    assert(t0.present(b));
    assert(is_pred(sr, d, b, u));
    assert(is_succ(sr, d, b, dd));
    assert(sr.contains(u) || u == d);
    assert(sr.contains(dd) || dd == d);
}


/// The facts about `t0` that covering header `h` relies on.
pub open spec fn cover_facts(t0: DLXTable, h: int) -> bool {
    &&& t0.ec() < t0.n()
    &&& forall|z: int| #![trigger t0.nodes@[z]] 0 < z < t0.n() ==> t0.nodes@[z].up < t0.n() && t0.nodes@[z].down < t0.n()
    &&& forall|x: int| #[trigger] t0.cover_set(h).contains(x) ==> t0.is_item(x) && t0.hdr(x) != h
        && t0.col(t0.hdr(x)).contains(x) && 1 <= t0.hdr(x) <= t0.ec()
    &&& t0.n() < usize::MAX
    &&& forall|d: int| #[trigger] t0.is_header(d) ==> t0.col(d).finite() && t0.col(d).len() < t0.n()
    &&& forall|z: int| #[trigger] t0.present(z) ==> t0.is_header(t0.hdr(z))
    &&& forall|d: int, y: int| #[trigger] t0.col(d).contains(y) ==> d < y
    &&& forall|z: int|
        #![trigger t0.present(z)]
        t0.present(z) ==> is_succ(t0.col(t0.hdr(z)), t0.hdr(z), z, t0.nodes@[z].down as int)
            && is_pred(t0.col(t0.hdr(z)), t0.hdr(z), z, t0.nodes@[z].up as int)
    &&& forall|d: int|
        #![trigger t0.nodes@[d]]
        t0.is_header(d) ==> is_succ(t0.col(d), d, d, t0.nodes@[d].down as int) && is_pred(t0.col(d), d, d, t0.nodes@[d].up as int)
            && t0.nodes@[d].len == Some(t0.col(d).len() as usize)
}

pub proof fn lemma_cover_facts(t0: DLXTable, h: int)
    requires
        t0.wf(),
        t0.full_rows(),
        t0.active().contains(h),
    ensures
        cover_facts(t0, h),
{
    t0.lemma_cover_set_present(h);
    assert forall|d: int| #[trigger] t0.is_header(d) implies t0.col(d).finite() && t0.col(d).len() < t0.n() by {
        t0.lemma_col_sub(d);
    }
    assert forall|z: int| #[trigger] t0.present(z) implies t0.is_header(t0.hdr(z)) by {
        assert(t0.nodes@[z].header == t0.nodes@[z].header);
    }
    assert forall|d: int, y: int| #[trigger] t0.col(d).contains(y) implies d < y by {
        t0.lemma_col_sub(d);
    }
    assert forall|z: int| #![trigger t0.present(z)] t0.present(z) implies is_succ(t0.col(t0.hdr(z)), t0.hdr(z), z, t0.nodes@[z].down as int)
            && is_pred(t0.col(t0.hdr(z)), t0.hdr(z), z, t0.nodes@[z].up as int) by {
        assert(t0.present(z));
    }
    assert forall|d: int| #![trigger t0.nodes@[d]] t0.is_header(d) implies is_succ(t0.col(d), d, d, t0.nodes@[d].down as int) && is_pred(t0.col(d), d, d, t0.nodes@[d].up as int)
            && t0.nodes@[d].len == Some(t0.col(d).len() as usize) by {
        assert(t0.col(d) == t0.col(d));
    }
}

pub open spec fn step_pre(t0: DLXTable, t: Seq<Node>, h: int, b: int) -> bool {
    &&& cover_facts(t0, h)
    &&& removed_upto(t0, t, h, b)
    &&& t0.cover_set(h).contains(b)
}

#[verifier::rlimit(100)]
proof fn lemma_remove_step_frame(t0: DLXTable, t: Seq<Node>, h: int, b: int)
    requires
        step_pre(t0, t, h, b),
    ensures
        frame(t0, splice_out(t, b), h, true),
        forall|z: int| 0 <= z < t.len() && z != t[b].up && z != t[b].down && z != t0.hdr(b)
            ==> #[trigger] splice_out(t, b)[z] == t[z],
        splice_out(t, b)[t[b].up as int].up == t[t[b].up as int].up || t[b].up == t[b].down,
{
    lemma_remove_step_safe(t0, t, h, b);
    let t2 = splice_out(t, b);
    let d = t0.hdr(b);
    let s = t0.col(d);
    let r = t0.taken(h, b);
    let sr = s.difference(r);
    t0.lemma_taken_step(h, b);
    let u = t[b].up as int;
    let dd = t[b].down as int;
    assert(t0.present(b));
    assert(is_pred(sr, d, b, u));
    assert(is_succ(sr, d, b, dd));
    assert(sr.contains(u) || u == d);
    assert(sr.contains(dd) || dd == d);
    assert forall|z: int| #![trigger t2[z]] 0 <= z < t0.n() implies {
        &&& t2[z].header == t0.nodes@[z].header
        &&& t2[z].set == t0.nodes@[z].set
        &&& t2[z].left == (if z == t0.nodes@[h].right as int { t0.nodes@[h].left } else { t0.nodes@[z].left })
        &&& t2[z].right == (if z == t0.nodes@[h].left as int { t0.nodes@[h].right } else { t0.nodes@[z].right })
        &&& (!t0.is_header(z) ==> t2[z].len == t0.nodes@[z].len)
        &&& (t0.is_item(z) && !t0.col(t0.hdr(z)).contains(z) ==> t2[z].up == t0.nodes@[z].up
            && t2[z].down == t0.nodes@[z].down)
        &&& (z == 0 ==> t2[z].up == t0.nodes@[z].up && t2[z].down == t0.nodes@[z].down)
    } by {
        assert(t[z].header == t0.nodes@[z].header);
        if t0.is_item(z) && !t0.col(t0.hdr(z)).contains(z) {
            assert(z != u && z != dd);
        }
    }
}

#[verifier::rlimit(100)]
proof fn lemma_remove_step_headers(t0: DLXTable, t: Seq<Node>, h: int, b: int)
    requires
        step_pre(t0, t, h, b),
    ensures
        forall|g: int|
            #![trigger t0.col(g)]
            t0.is_header(g) ==> {
                let s = t0.col(g).difference(t0.taken(h, b + 1));
                &&& is_succ(s, g, g, splice_out(t, b)[g].down as int)
                &&& is_pred(s, g, g, splice_out(t, b)[g].up as int)
                &&& splice_out(t, b)[g].len == Some(s.len() as usize)
            },
{
    lemma_remove_step_safe(t0, t, h, b);
    lemma_remove_step_frame(t0, t, h, b);
    let t2 = splice_out(t, b);
    let d = t0.hdr(b);
    let s = t0.col(d);
    let r = t0.taken(h, b);
    let r2 = t0.taken(h, b + 1);
    let sr = s.difference(r);
    t0.lemma_taken_step(h, b);
    let u = t[b].up as int;
    let dd = t[b].down as int;
    assert(s.difference(r2) =~= sr.remove(b));
    assert(forall|y: int| #[trigger] sr.contains(y) ==> d < y);
    assert(t0.present(b));
    lemma_join(sr, d, b, u, dd);
    assert(sr.finite()) by {
        assert(sr.subset_of(s));
    }
    assert(t[b].header == d);
    assert(sr.len() <= s.len()) by {
        vstd::set_lib::lemma_len_subset(sr, s);
    }
    assert(t0.is_header(d));
    assert(s.len() < t0.n());
    assert(sr.contains(b));
    assert(sr.len() >= 1) by {
        assert(sr.remove(b).len() + 1 == sr.len());
    }
    assert(t2[d].len == Some((sr.len() - 1) as usize)) by {
        assert(t[d].len == Some(sr.len() as usize));
    }
    assert(sr.remove(b).len() + 1 == sr.len());
    if u == d {
        assert(t2[d].down == dd);
    } else {
        assert(t2[d].down == t[d].down);
        assert(sr.contains(u) && u < b);
        lemma_succ_remove(sr, d, d, t[d].down as int, b);
    }
    if dd == d {
        assert(t2[d].up == u);
    } else {
        assert(t2[d].up == t[d].up);
        assert(sr.contains(dd) && b < dd);
        lemma_pred_remove(sr, d, d, t[d].up as int, b);
    }
    assert forall|g: int| #![trigger t0.col(g)] t0.is_header(g) && g != d implies {
        let s2 = t0.col(g).difference(r2);
        &&& is_succ(s2, g, g, t2[g].down as int)
        &&& is_pred(s2, g, g, t2[g].up as int)
        &&& t2[g].len == Some(s2.len() as usize)
    } by {
        assert(t0.col(g).difference(r2) =~= t0.col(g).difference(r));
        assert(g != u && g != dd) by {
            if sr.contains(u) {
                assert(t0.hdr(u) == d);
            }
            if sr.contains(dd) {
                assert(t0.hdr(dd) == d);
            }
        }
        assert(t2[g] == t[g]);
    }
}

proof fn lemma_remove_step_items(t0: DLXTable, t: Seq<Node>, h: int, b: int)
    requires
        step_pre(t0, t, h, b),
    ensures
        forall|z: int|
            #![trigger t0.present(z)]
            t0.present(z) ==> {
                let g = t0.hdr(z);
                let r2 = t0.taken(h, b + 1);
                let s = t0.col(g).difference(r2);
                &&& (r2.contains(z) ==> splice_out(t, b)[z].down == t0.nodes@[z].down)
                &&& (!r2.contains(z) ==> is_succ(s, g, z, splice_out(t, b)[z].down as int))
                &&& is_pred(s, g, z, splice_out(t, b)[z].up as int)
            },
{
    lemma_remove_step_safe(t0, t, h, b);
    lemma_remove_step_frame(t0, t, h, b);
    let t2 = splice_out(t, b);
    let d = t0.hdr(b);
    let s = t0.col(d);
    let r = t0.taken(h, b);
    let r2 = t0.taken(h, b + 1);
    let sr = s.difference(r);
    t0.lemma_taken_step(h, b);
    let u = t[b].up as int;
    let dd = t[b].down as int;
    assert(s.difference(r2) =~= sr.remove(b));
    assert(forall|y: int| #[trigger] sr.contains(y) ==> d < y);
    assert(t0.present(b));
    lemma_join(sr, d, b, u, dd);
    assert forall|z: int|
        #![trigger t0.present(z)]
        t0.present(z) implies {
            let g = t0.hdr(z);
            let s2 = t0.col(g).difference(r2);
            &&& (r2.contains(z) ==> t2[z].down == t0.nodes@[z].down)
            &&& (!r2.contains(z) ==> is_succ(s2, g, z, t2[z].down as int))
            &&& is_pred(s2, g, z, t2[z].up as int)
        } by {
        let g = t0.hdr(z);
        assert(t0.present(z));
        if sr.contains(u) {
            assert(t0.present(u));
        }
        if sr.contains(dd) {
            assert(t0.present(dd));
        }
        if g == d {
            let s2 = s.difference(r2);
            assert(s2 == sr.remove(b));
            if z == b {
                assert(t2[b].down == t[b].down && t2[b].up == t[b].up);
                assert(is_succ(s, d, b, t0.nodes@[b].down as int));
                assert(is_succ(sr, d, b, dd));
                assert forall|y: int| #[trigger] r.contains(y) implies y < b by {}
                assert(is_succ(s, d, b, dd)) by {
                    if dd != d {
                        assert(sr.contains(dd));
                    }
                    assert forall|y: int| #[trigger] s.contains(y) && b < y implies (dd == d && false) || (dd != d && dd <= y) by {
                        assert(!r.contains(y));
                        assert(sr.contains(y));
                    }
                }
                lemma_succ_unique(s, d, b, dd, t0.nodes@[b].down as int);
                assert(is_pred(sr, d, b, u));
            } else if z == u {
                assert(t2[u].down == dd);
                if r.contains(u) {
                    assert(false);
                }
                assert(is_pred(sr, d, u, t[u].up as int));
                if u != dd {
                    assert(t2[u].up == t[u].up);
                }
                assert(t[u].up != b);
                lemma_pred_remove(sr, d, u, t[u].up as int, b);
                if u == dd {
                    assert(false);
                }
            } else if z == dd {
                assert(t2[dd].up == u);
                if r.contains(dd) {
                    assert(false);
                }
                assert(t2[dd].down == t[dd].down);
                assert(is_succ(sr, d, dd, t[dd].down as int));
                assert(t[dd].down != b);
                lemma_succ_remove(sr, d, dd, t[dd].down as int, b);
            } else {
                assert(t2[z] == t[z]);
                if r.contains(z) {
                    assert(z < b);
                    assert(is_pred(sr, d, z, t[z].up as int));
                    if t[z].up == b {
                        assert(sr.contains(b) && b < z);
                        assert(false);
                    }
                    lemma_pred_remove(sr, d, z, t[z].up as int, b);
                } else {
                    assert(is_succ(sr, d, z, t[z].down as int));
                    assert(is_pred(sr, d, z, t[z].up as int));
                    if t[z].down == b {
                        lemma_pred_unique(sr, d, b, u, z);
                    }
                    if t[z].up == b {
                        lemma_succ_unique(sr, d, b, dd, z);
                    }
                    lemma_succ_remove(sr, d, z, t[z].down as int, b);
                    lemma_pred_remove(sr, d, z, t[z].up as int, b);
                }
            }
        } else {
            assert(t0.col(g).difference(r2) =~= t0.col(g).difference(r));
            assert(z != u && z != dd && z != d && z != b) by {
                if sr.contains(u) {
                    assert(t0.hdr(u) == d);
                }
                if sr.contains(dd) {
                    assert(t0.hdr(dd) == d);
                }
            }
            assert(t2[z] == t[z]);
            assert(r2.contains(z) == r.contains(z));
        }
    }
}

/// One more node of `cover_set(h)` taken out of its column.
pub proof fn lemma_remove_step(t0: DLXTable, t: Seq<Node>, h: int, b: int)
    requires
        step_pre(t0, t, h, b),
    ensures
        removed_upto(t0, splice_out(t, b), h, b + 1),
{
    lemma_remove_step_frame(t0, t, h, b);
    lemma_remove_step_headers(t0, t, h, b);
    lemma_remove_step_items(t0, t, h, b);
}

/// A node outside `cover_set(h)` is passed over.
pub proof fn lemma_remove_skip(t0: DLXTable, t: Seq<Node>, h: int, b: int)
    requires
        removed_upto(t0, t, h, b),
        !t0.cover_set(h).contains(b),
    ensures
        removed_upto(t0, t, h, b + 1),
{
    t0.lemma_taken_step(h, b);
    assert(t0.taken(h, b + 1) == t0.taken(h, b));
    let r = t0.taken(h, b);
    assert forall|z: int| #![trigger t0.present(z)] t0.present(z) implies {
            let d = t0.hdr(z);
            let s = t0.col(d).difference(r);
            &&& (r.contains(z) ==> t[z].down == t0.nodes@[z].down)
            &&& (!r.contains(z) ==> is_succ(s, d, z, t[z].down as int))
            &&& is_pred(s, d, z, t[z].up as int)
        } by {
        assert(t0.present(z));
    }
    assert forall|d: int| #![trigger t0.col(d)] t0.is_header(d) implies {
            let s = t0.col(d).difference(r);
            &&& is_succ(s, d, d, t[d].down as int)
            &&& is_pred(s, d, d, t[d].up as int)
            &&& t[d].len == Some(s.len() as usize)
        } by {
        assert(t0.col(d) == t0.col(d));
    }
    assert(frame(t0, t, h, true));
}


/// Taking out members other than the successor keeps the successor.
pub proof fn lemma_succ_diff(s: Set<int>, head: int, z: int, a: int, x: Set<int>)
    requires
        is_succ(s, head, z, a),
        !x.contains(a),
    ensures
        is_succ(s.difference(x), head, z, a),
{
}

/// Taking out members other than the predecessor keeps the predecessor.
pub proof fn lemma_pred_diff(s: Set<int>, head: int, z: int, a: int, x: Set<int>)
    requires
        is_pred(s, head, z, a),
        !x.contains(a),
        forall|y: int| #[trigger] s.contains(y) ==> head < y,
    ensures
        is_pred(s.difference(x), head, z, a),
{
}

/// In `t0`, the links of the present nodes and of the headers are
/// mutually inverse.
pub proof fn lemma_t0_links(t0: DLXTable, h: int, d: int, z: int)
    requires
        cover_facts(t0, h),
        t0.is_header(d),
        z == d || (t0.present(z) && t0.hdr(z) == d),
    ensures
        t0.nodes@[t0.nodes@[z].down as int].up == z,
        t0.nodes@[t0.nodes@[z].up as int].down == z,
        t0.col(d).contains(t0.nodes@[z].down as int) || t0.nodes@[z].down == d,
        t0.col(d).contains(t0.nodes@[z].up as int) || t0.nodes@[z].up == d,
{
    let s = t0.col(d);
    let a = t0.nodes@[z].down as int;
    let u = t0.nodes@[z].up as int;
    assert(t0.nodes@[d].header == d || true);
    if z != d {
        assert(t0.present(z));
        assert(is_succ(s, d, z, a));
        assert(is_pred(s, d, z, u));
    } else {
        assert(is_succ(s, d, d, a));
        assert(is_pred(s, d, d, u));
    }
    if s.contains(a) {
        assert(t0.present(a));
        assert(t0.hdr(a) == d);
        assert(is_pred(s, d, a, t0.nodes@[a].up as int));
        assert(is_pred(s, d, a, z));
        lemma_pred_unique(s, d, a, t0.nodes@[a].up as int, z);
    } else {
        assert(a == d);
        assert(is_pred(s, d, d, t0.nodes@[d].up as int));
        assert(is_pred(s, d, d, z));
        lemma_pred_unique(s, d, d, t0.nodes@[d].up as int, z);
    }
    if s.contains(u) {
        assert(t0.present(u));
        assert(t0.hdr(u) == d);
        assert(is_succ(s, d, u, t0.nodes@[u].down as int));
        assert(is_succ(s, d, u, z));
        lemma_succ_unique(s, d, u, t0.nodes@[u].down as int, z);
    } else {
        assert(u == d);
        assert(is_succ(s, d, d, t0.nodes@[d].down as int));
        assert(is_succ(s, d, d, z));
        lemma_succ_unique(s, d, d, t0.nodes@[d].down as int, z);
    }
}

/// The nodes after header `h` is put back between the neighbours it still
/// points to.
pub open spec fn relink_header(nodes: Seq<Node>, h: int) -> Seq<Node> {
    let l = nodes[h].left as int;
    let r = nodes[h].right as int;
    let n1 = nodes.update(l, Node { right: h as usize, ..nodes[l] });
    n1.update(r, Node { left: h as usize, ..n1[r] })
}

/// The nodes after header `h` is taken out of the horizontal list.
pub open spec fn unlink_header(nodes: Seq<Node>, h: int) -> Seq<Node> {
    let l = nodes[h].left as int;
    let r = nodes[h].right as int;
    let n1 = nodes.update(l, Node { right: r as usize, ..nodes[l] });
    n1.update(r, Node { left: l as usize, ..n1[r] })
}


pub open spec fn restore_pre(t0: DLXTable, t: Seq<Node>, h: int, b: int) -> bool {
    &&& cover_facts(t0, h)
    &&& restored_upto(t0, t, h, b)
    &&& t0.cover_set(h).contains(b)
}

/// The node to put back, and its header, as the restore step sees them.
pub proof fn lemma_restore_step_safe(t0: DLXTable, t: Seq<Node>, h: int, b: int)
    requires
        restore_pre(t0, t, h, b),
    ensures
        t[b].up == t0.nodes@[b].up,
        t[b].down == t0.nodes@[b].down,
        t[b].up < t.len(),
        t[b].down < t.len(),
        t[b].header == t0.hdr(b),
        1 <= t0.hdr(b) <= t0.ec(),
        t[t0.hdr(b)].len is Some,
        t[t0.hdr(b)].len->0 + 1 < usize::MAX,
        t0.col(t0.hdr(b)).contains(b),
        t0.is_header(t0.hdr(b)),
{
    let d = t0.hdr(b);
    let s = t0.col(d);
    let x = t0.cover_set(h);
    let p = x.difference(t0.taken(h, b));
    t0.lemma_taken_step(h, b);
    assert(t0.present(b));
    assert(p.contains(b));
    assert(!p.contains(t0.nodes@[b].up as int)) by {
        assert(is_pred(s, d, b, t0.nodes@[b].up as int));
        if x.contains(t0.nodes@[b].up as int) {
            assert(t0.is_item(t0.nodes@[b].up as int));
            assert(t0.nodes@[b].up < b);
            assert(t0.taken(h, b).contains(t0.nodes@[b].up as int));
        }
        if p.contains(t0.nodes@[b].up as int) {
            assert(x.contains(t0.nodes@[b].up as int));
            assert(!t0.taken(h, b).contains(t0.nodes@[b].up as int));
        }
    }
    lemma_t0_links(t0, h, d, b);
    assert(t0.is_header(d));
    assert(s.finite());
    let sp = s.difference(p);
    assert(sp.len() <= s.len()) by {
        vstd::set_lib::lemma_len_subset(sp, s);
    }
}

#[verifier::rlimit(40)]
proof fn lemma_restore_step_frame(t0: DLXTable, t: Seq<Node>, h: int, b: int)
    requires
        restore_pre(t0, t, h, b),
    ensures
        frame(t0, splice_in(t, b), h, false),
{
    lemma_restore_step_safe(t0, t, h, b);
    let t2 = splice_in(t, b);
    let d = t0.hdr(b);
    let u = t[b].up as int;
    let dd = t[b].down as int;
    lemma_t0_links(t0, h, d, b);
    assert forall|z: int| #![trigger t2[z]] 0 <= z < t0.n() implies {
        &&& t2[z].header == t0.nodes@[z].header
        &&& t2[z].set == t0.nodes@[z].set
        &&& t2[z].left == t0.nodes@[z].left
        &&& t2[z].right == t0.nodes@[z].right
        &&& (!t0.is_header(z) ==> t2[z].len == t0.nodes@[z].len)
        &&& (t0.is_item(z) && !t0.col(t0.hdr(z)).contains(z) ==> t2[z].up == t0.nodes@[z].up
            && t2[z].down == t0.nodes@[z].down)
        &&& (z == 0 ==> t2[z].up == t0.nodes@[z].up && t2[z].down == t0.nodes@[z].down)
    } by {
        assert(t[z].header == t0.nodes@[z].header);
        if t0.is_item(z) && !t0.col(t0.hdr(z)).contains(z) {
            assert(z != u && z != dd);
        }
    }
}

#[verifier::rlimit(40)]
proof fn lemma_restore_step_headers(t0: DLXTable, t: Seq<Node>, h: int, b: int)
    requires
        restore_pre(t0, t, h, b),
    ensures
        forall|g: int|
            #![trigger t0.col(g)]
            t0.is_header(g) ==> {
                let s = t0.col(g);
                let x = t0.cover_set(h);
                let p = x.difference(t0.taken(h, b + 1));
                let t2 = splice_in(t, b);
                &&& (if p.contains(t0.nodes@[g].down as int) {
                    is_succ(s.difference(x), g, g, t2[g].down as int)
                } else {
                    t2[g].down == t0.nodes@[g].down
                })
                &&& (if p.contains(t0.nodes@[g].up as int) {
                    is_pred(s.difference(x), g, g, t2[g].up as int)
                } else {
                    t2[g].up == t0.nodes@[g].up
                })
                &&& t2[g].len == Some(s.difference(p).len() as usize)
            },
{
    lemma_restore_step_safe(t0, t, h, b);
    let t2 = splice_in(t, b);
    let d = t0.hdr(b);
    let s = t0.col(d);
    let x = t0.cover_set(h);
    let p = x.difference(t0.taken(h, b));
    let p2 = x.difference(t0.taken(h, b + 1));
    t0.lemma_taken_step(h, b);
    assert(p2 =~= p.remove(b));
    let u = t[b].up as int;
    let dd = t[b].down as int;
    lemma_t0_links(t0, h, d, b);
    assert(s.difference(p2) =~= s.difference(p).insert(b));
    assert(!s.difference(p).contains(b));
    assert(s.difference(p).finite()) by {
        assert(s.difference(p).subset_of(s));
    }
    assert(s.difference(p).len() <= s.len()) by {
        vstd::set_lib::lemma_len_subset(s.difference(p), s);
    }
    assert(t0.is_header(d));
    assert(s.len() < t0.n());
    assert(t[d].len == Some(s.difference(p).len() as usize));
    assert(t2[d].len == Some((s.difference(p).len() + 1) as usize));
    if u == d {
        assert(t2[d].down == b);
        assert(t0.nodes@[d].down == b);
    } else {
        assert(t0.present(u));
        assert(t2[d].down == t[d].down);
        assert(t0.nodes@[d].down != b) by {
            lemma_t0_links(t0, h, d, d);
        }
    }
    if dd == d {
        assert(t2[d].up == b);
        assert(t0.nodes@[d].up == b);
    } else {
        assert(t0.present(dd));
        assert(t2[d].up == t[d].up);
        assert(t0.nodes@[d].up != b) by {
            lemma_t0_links(t0, h, d, d);
        }
    }
    assert forall|g: int| #![trigger t0.col(g)] t0.is_header(g) && g != d implies {
        let sg = t0.col(g);
        &&& (if p2.contains(t0.nodes@[g].down as int) {
            is_succ(sg.difference(x), g, g, t2[g].down as int)
        } else {
            t2[g].down == t0.nodes@[g].down
        })
        &&& (if p2.contains(t0.nodes@[g].up as int) {
            is_pred(sg.difference(x), g, g, t2[g].up as int)
        } else {
            t2[g].up == t0.nodes@[g].up
        })
        &&& t2[g].len == Some(sg.difference(p2).len() as usize)
    } by {
        let sg = t0.col(g);
        assert(g != u && g != dd);
        assert(t2[g] == t[g]);
        assert(sg.difference(p2) =~= sg.difference(p));
        lemma_t0_links(t0, h, g, g);
        assert(t0.nodes@[g].down != b && t0.nodes@[g].up != b);
    }
}

#[verifier::rlimit(40)]
proof fn lemma_restore_step_items(t0: DLXTable, t: Seq<Node>, h: int, b: int)
    requires
        restore_pre(t0, t, h, b),
    ensures
        forall|z: int|
            #![trigger t0.present(z)]
            t0.present(z) ==> {
                let g = t0.hdr(z);
                let s = t0.col(g);
                let x = t0.cover_set(h);
                let p = x.difference(t0.taken(h, b + 1));
                let t2 = splice_in(t, b);
                &&& (if !x.contains(z) && p.contains(t0.nodes@[z].down as int) {
                    is_succ(s.difference(x), g, z, t2[z].down as int)
                } else {
                    t2[z].down == t0.nodes@[z].down
                })
                &&& (if p.contains(t0.nodes@[z].up as int) {
                    is_pred(s.difference(x), g, z, t2[z].up as int)
                } else {
                    t2[z].up == t0.nodes@[z].up
                })
            },
{
    lemma_restore_step_safe(t0, t, h, b);
    let t2 = splice_in(t, b);
    let d = t0.hdr(b);
    let x = t0.cover_set(h);
    let p = x.difference(t0.taken(h, b));
    let p2 = x.difference(t0.taken(h, b + 1));
    t0.lemma_taken_step(h, b);
    assert(p2 =~= p.remove(b));
    let u = t[b].up as int;
    let dd = t[b].down as int;
    lemma_t0_links(t0, h, d, b);
    assert forall|z: int| #![trigger t0.present(z)] t0.present(z) implies {
        let g = t0.hdr(z);
        let s = t0.col(g);
        &&& (if !x.contains(z) && p2.contains(t0.nodes@[z].down as int) {
            is_succ(s.difference(x), g, z, t2[z].down as int)
        } else {
            t2[z].down == t0.nodes@[z].down
        })
        &&& (if p2.contains(t0.nodes@[z].up as int) {
            is_pred(s.difference(x), g, z, t2[z].up as int)
        } else {
            t2[z].up == t0.nodes@[z].up
        })
    } by {
        let g = t0.hdr(z);
        assert(t0.is_header(g));
        lemma_t0_links(t0, h, g, z);
        if z == u {
            assert(t2[u].down == b);
            assert(t0.nodes@[u].down == b);
            if u != dd {
                assert(t2[u].up == t[u].up);
            }
            assert(t0.nodes@[u].up != b) by {
                if t0.nodes@[u].up == b {
                    assert(t0.nodes@[b].down == u);
                }
            }
        } else if z == dd {
            assert(t2[dd].up == b);
            assert(t0.nodes@[dd].up == b);
            assert(t2[dd].down == t[dd].down);
            assert(t0.nodes@[dd].down != b) by {
                if t0.nodes@[dd].down == b {
                    assert(t0.nodes@[b].up == dd);
                }
            }
        } else {
            assert(z != d || g != d) by {
                if z == d {
                    assert(t0.is_item(z));
                }
            }
            assert(t2[z] == t[z]);
            assert(t0.nodes@[z].down != b);
            assert(t0.nodes@[z].up != b);
        }
    }
}

/// One more node of `cover_set(h)` put back in its column.
pub proof fn lemma_restore_step(t0: DLXTable, t: Seq<Node>, h: int, b: int)
    requires
        restore_pre(t0, t, h, b),
    ensures
        restored_upto(t0, splice_in(t, b), h, b + 1),
{
    lemma_restore_step_frame(t0, t, h, b);
    lemma_restore_step_headers(t0, t, h, b);
    lemma_restore_step_items(t0, t, h, b);
}

/// A node outside `cover_set(h)` is passed over.
pub proof fn lemma_restore_skip(t0: DLXTable, t: Seq<Node>, h: int, b: int)
    requires
        restored_upto(t0, t, h, b),
        !t0.cover_set(h).contains(b),
    ensures
        restored_upto(t0, t, h, b + 1),
{
    t0.lemma_taken_step(h, b);
    assert(t0.taken(h, b + 1) == t0.taken(h, b));
    assert(t0.cover_set(h).difference(t0.taken(h, b + 1)) == t0.cover_set(h).difference(t0.taken(h, b)));
}


/// What covering needs of the horizontal neighbours of header `h`.
pub open spec fn hfacts(t0: DLXTable, h: int) -> bool {
    let l = t0.nodes@[h].left as int;
    let r = t0.nodes@[h].right as int;
    &&& t0.is_header(h)
    &&& 0 <= l <= t0.ec()
    &&& 0 <= r <= t0.ec()
    &&& l != h
    &&& r != h
    &&& t0.nodes@[l].right == h
    &&& t0.nodes@[r].left == h
}

pub proof fn lemma_hfacts(t0: DLXTable, h: int)
    requires
        t0.wf(),
        t0.active().contains(h),
    ensures
        hfacts(t0, h),
{
    reveal(DLXTable::hlinked);
    assert(is_succ(t0.active(), 0, h, t0.nodes@[h].right as int));
    assert(is_pred(t0.active(), 0, h, t0.nodes@[h].left as int));
}

pub proof fn lemma_taken_all(t0: DLXTable, h: int)
    requires
        cover_facts(t0, h),
    ensures
        t0.taken(h, t0.n()) == t0.cover_set(h),
        t0.taken(h, 0) == Set::<int>::empty(),
{
    reveal(DLXTable::taken);
    assert(t0.taken(h, t0.n()) =~= t0.cover_set(h));
    assert(t0.taken(h, 0) =~= Set::<int>::empty());
}

/// After every node of `cover_set(h)` is out, putting header `h` back in
/// its place starts the restoring.
pub proof fn lemma_switch(t0: DLXTable, t: Seq<Node>, h: int)
    requires
        cover_facts(t0, h),
        hfacts(t0, h),
        removed_upto(t0, t, h, t0.n()),
    ensures
        restored_upto(t0, relink_header(t, h), h, 0),
{
    lemma_taken_all(t0, h);
    let x = t0.cover_set(h);
    let t2 = relink_header(t, h);
    let l = t0.nodes@[h].left as int;
    let rt = t0.nodes@[h].right as int;
    assert(t[h].left == l && t[h].right == rt);
    assert(x.difference(t0.taken(h, 0)) =~= x);
    assert forall|z: int| #![trigger t2[z]] 0 <= z < t0.n() implies {
        &&& t2[z].header == t0.nodes@[z].header
        &&& t2[z].set == t0.nodes@[z].set
        &&& t2[z].left == t0.nodes@[z].left
        &&& t2[z].right == t0.nodes@[z].right
        &&& (!t0.is_header(z) ==> t2[z].len == t0.nodes@[z].len)
        &&& (t0.is_item(z) && !t0.col(t0.hdr(z)).contains(z) ==> t2[z].up == t0.nodes@[z].up
            && t2[z].down == t0.nodes@[z].down)
        &&& (z == 0 ==> t2[z].up == t0.nodes@[z].up && t2[z].down == t0.nodes@[z].down)
        &&& t2[z].up == t[z].up
        &&& t2[z].down == t[z].down
        &&& t2[z].len == t[z].len
    } by {
        assert(t[z].header == t0.nodes@[z].header);
    }
    assert forall|d: int| #![trigger t0.col(d)] t0.is_header(d) implies {
        let s = t0.col(d);
        &&& (if x.contains(t0.nodes@[d].down as int) {
            is_succ(s.difference(x), d, d, t2[d].down as int)
        } else {
            t2[d].down == t0.nodes@[d].down
        })
        &&& (if x.contains(t0.nodes@[d].up as int) {
            is_pred(s.difference(x), d, d, t2[d].up as int)
        } else {
            t2[d].up == t0.nodes@[d].up
        })
        &&& t2[d].len == Some(s.difference(x).len() as usize)
    } by {
        let s = t0.col(d);
        assert(t2[d].down == t[d].down && t2[d].up == t[d].up && t2[d].len == t[d].len);
        assert(s.difference(t0.taken(h, t0.n())) == s.difference(x));
        assert(forall|y: int| #[trigger] s.contains(y) ==> d < y);
        assert(is_succ(s, d, d, t0.nodes@[d].down as int));
        assert(is_pred(s, d, d, t0.nodes@[d].up as int));
        if !x.contains(t0.nodes@[d].down as int) {
            lemma_succ_diff(s, d, d, t0.nodes@[d].down as int, x);
            lemma_succ_unique(s.difference(x), d, d, t0.nodes@[d].down as int, t[d].down as int);
        }
        if !x.contains(t0.nodes@[d].up as int) {
            lemma_pred_diff(s, d, d, t0.nodes@[d].up as int, x);
            lemma_pred_unique(s.difference(x), d, d, t0.nodes@[d].up as int, t[d].up as int);
        }
    }
    assert forall|z: int| #![trigger t0.present(z)] t0.present(z) implies {
        let d = t0.hdr(z);
        let s = t0.col(d);
        &&& (if !x.contains(z) && x.contains(t0.nodes@[z].down as int) {
            is_succ(s.difference(x), d, z, t2[z].down as int)
        } else {
            t2[z].down == t0.nodes@[z].down
        })
        &&& (if x.contains(t0.nodes@[z].up as int) {
            is_pred(s.difference(x), d, z, t2[z].up as int)
        } else {
            t2[z].up == t0.nodes@[z].up
        })
    } by {
        let d = t0.hdr(z);
        let s = t0.col(d);
        assert(t0.present(z));
        assert(t0.is_header(d));
        assert(s.difference(t0.taken(h, t0.n())) == s.difference(x));
        assert(forall|y: int| #[trigger] s.contains(y) ==> d < y);
        assert(t2[z].down == t[z].down && t2[z].up == t[z].up);
        if !x.contains(z) && !x.contains(t0.nodes@[z].down as int) {
            lemma_succ_diff(s, d, z, t0.nodes@[z].down as int, x);
            lemma_succ_unique(s.difference(x), d, z, t0.nodes@[z].down as int, t[z].down as int);
        }
        if !x.contains(t0.nodes@[z].up as int) {
            lemma_pred_diff(s, d, z, t0.nodes@[z].up as int, x);
            lemma_pred_unique(s.difference(x), d, z, t0.nodes@[z].up as int, t[z].up as int);
        }
    }
    assert(restored_with(t0, t2, h, x));
}

/// Once every node of `cover_set(h)` is back, the nodes are those of `t0`.
pub proof fn lemma_restored_all(t0: DLXTable, t: Seq<Node>, h: int)
    requires
        cover_facts(t0, h),
        restored_upto(t0, t, h, t0.n()),
    ensures
        t == t0.nodes@,
{
    lemma_taken_all(t0, h);
    let x = t0.cover_set(h);
    assert(x.difference(t0.taken(h, t0.n())) =~= Set::<int>::empty());
    assert forall|z: int| 0 <= z < t0.n() implies #[trigger] t[z] == t0.nodes@[z] by {
        assert(t[z].header == t0.nodes@[z].header);
        if t0.is_header(z) {
            let s = t0.col(z);
            assert(s.difference(Set::<int>::empty()) =~= s);
            assert(t0.nodes@[z].len == Some(s.len() as usize));
        } else if t0.is_item(z) && t0.col(t0.hdr(z)).contains(z) {
            assert(t0.present(z));
        }
    }
    assert(t =~= t0.nodes@);
}


/// Taking header `h` out of the horizontal list starts the covering.
pub proof fn lemma_start(t0: DLXTable, h: int)
    requires
        cover_facts(t0, h),
        hfacts(t0, h),
    ensures
        removed_upto(t0, unlink_header(t0.nodes@, h), h, 0),
{
    lemma_taken_all(t0, h);
    let t = unlink_header(t0.nodes@, h);
    assert forall|d: int| #![trigger t0.col(d)] t0.is_header(d) implies {
        let s = t0.col(d).difference(t0.taken(h, 0));
        &&& is_succ(s, d, d, t[d].down as int)
        &&& is_pred(s, d, d, t[d].up as int)
        &&& t[d].len == Some(s.len() as usize)
    } by {
        assert(t0.col(d).difference(t0.taken(h, 0)) =~= t0.col(d));
    }
    assert forall|z: int| #![trigger t0.present(z)] t0.present(z) implies {
        let d = t0.hdr(z);
        let s = t0.col(d).difference(t0.taken(h, 0));
        &&& (t0.taken(h, 0).contains(z) ==> t[z].down == t0.nodes@[z].down)
        &&& (!t0.taken(h, 0).contains(z) ==> is_succ(s, d, z, t[z].down as int))
        &&& is_pred(s, d, z, t[z].up as int)
    } by {
        assert(t0.col(t0.hdr(z)).difference(t0.taken(h, 0)) =~= t0.col(t0.hdr(z)));
    }
}

/// Moving over indices outside `cover_set(h)`.
pub proof fn lemma_remove_skip_range(t0: DLXTable, t: Seq<Node>, h: int, b1: int, b2: int)
    requires
        removed_upto(t0, t, h, b1),
        b1 <= b2,
        forall|x: int| b1 <= x < b2 ==> !#[trigger] t0.cover_set(h).contains(x),
    ensures
        removed_upto(t0, t, h, b2),
    decreases b2 - b1,
{
    if b1 < b2 {
        lemma_remove_skip(t0, t, h, b1);
        lemma_remove_skip_range(t0, t, h, b1 + 1, b2);
    }
}

pub proof fn lemma_restore_skip_range(t0: DLXTable, t: Seq<Node>, h: int, b1: int, b2: int)
    requires
        restored_upto(t0, t, h, b1),
        b1 <= b2,
        forall|x: int| b1 <= x < b2 ==> !#[trigger] t0.cover_set(h).contains(x),
    ensures
        restored_upto(t0, t, h, b2),
    decreases b2 - b1,
{
    if b1 < b2 {
        lemma_restore_skip(t0, t, h, b1);
        lemma_restore_skip_range(t0, t, h, b1 + 1, b2);
    }
}

impl DLXTable {
    /// `sets` lists the sets with a node in column `h`, in ascending order.
    pub open spec fn lists_col_sets(self, h: int, sets: Seq<usize>) -> bool {
        &&& strictly_increasing(sets)
        &&& forall|s: usize| sets.contains(s) <==> self.col_sets(h).contains(s as int)
    }

    /// Where the `i`-th listed row begins, or the end of the table.
    pub open spec fn row_pos(self, sets: Seq<usize>, i: int) -> int {
        if i < sets.len() {
            self.head_of(sets[i] as int)
        } else {
            self.n()
        }
    }

    /// No node of `cover_set(h)` lies before the first listed row, between
    /// two listed rows, or after the last one.
    #[verifier::spinoff_prover]
    #[verifier::rlimit(40)]
    pub proof fn lemma_gaps(self, h: int, sets: Seq<usize>, i: int)
        requires
            self.wf_layout(),
            self.lists_col_sets(h, sets),
            -1 <= i < sets.len(),
        ensures
            forall|x: int|
                (if i < 0 { 0 } else { self.end_of(sets[i] as int) }) <= x < self.row_pos(sets, i + 1)
                    ==> !#[trigger] self.cover_set(h).contains(x),
            i >= 0 ==> self.head_of(sets[i] as int) < self.end_of(sets[i] as int) <= self.row_pos(sets, i + 1),
            i < 0 ==> 0 <= self.row_pos(sets, 0),
    {
        reveal(DLXTable::cover_set);
        lemma_end_le_n(self);
        assert forall|k: int| 0 <= k < sets.len() implies (sets[k] as int) < self.sets_count() by {
            assert(sets.contains(sets[k]));
            reveal(DLXTable::col_sets);
            let z = choose|z: int| #[trigger] self.col(h).contains(z) && self.set_of(z) == sets[k];
            assert(self.is_item(z));
            assert(self.nodes@[z].set is Some);
        }
        let lo = if i < 0 { 0 } else { self.end_of(sets[i] as int) };
        assert forall|x: int| lo <= x < self.row_pos(sets, i + 1) implies !#[trigger] self.cover_set(h).contains(x) by {
            if self.cover_set(h).contains(x) {
                let t = self.set_of(x);
                assert(self.is_item(x));
                assert(self.nodes@[x].set is Some);
                assert(self.col_sets(h).contains(t));
                assert(sets.contains(t as usize));
                let k = choose|k: int| 0 <= k < sets.len() && sets[k] == t as usize;
                if k <= i {
                    if k < i {
                        assert(sets[k] < sets[i]);
                        assert(self.end_of(t) <= self.head_of(sets[i] as int)) by {
                            if t + 1 < sets[i] {
                                assert(self.head_of(t + 1) < self.head_of(sets[i] as int));
                            }
                        }
                    }
                    assert(x < self.end_of(t));
                } else {
                    if k > i + 1 {
                        assert(sets[i + 1] < sets[k]);
                        assert(self.head_of(sets[i + 1] as int) < self.head_of(t));
                    }
                    assert(self.head_of(t) <= x);
                }
            }
        }
        if i >= 0 {
            if i + 1 < sets.len() {
                let a = sets[i] as int;
                let b2 = sets[i + 1] as int;
                assert(a < b2);
                if a + 1 < b2 {
                    assert(self.head_of(a + 1) < self.head_of(b2));
                }
            }
        }
    }
}


/// `tt` has `t0`'s layout.
pub open spec fn same_layout(t0: DLXTable, tt: DLXTable) -> bool {
    &&& tt.element_count == t0.element_count
    &&& tt.set_heads@ == t0.set_heads@
    &&& tt.nodes@.len() == t0.nodes@.len()
}

pub proof fn lemma_frame_layout(t0: DLXTable, tt: DLXTable, h: int, out: bool)
    requires
        t0.wf_layout(),
        same_layout(t0, tt),
        frame(t0, tt.nodes@, h, out),
        0 <= h <= t0.ec(),
        0 <= t0.nodes@[h].left <= t0.ec(),
        0 <= t0.nodes@[h].right <= t0.ec(),
        forall|d: int| #[trigger] t0.is_header(d) ==> tt.nodes@[d].len is Some,
    ensures
        tt.wf_layout(),
{
    assert forall|i: int| #![trigger tt.nodes@[i]] tt.is_item(i) implies {
        &&& tt.nodes@[i].set is Some
        &&& tt.nodes@[i].len is None
        &&& 0 <= tt.set_of(i) < tt.sets_count()
        &&& tt.head_of(tt.set_of(i)) <= i < tt.end_of(tt.set_of(i))
        &&& 1 <= tt.hdr(i) <= tt.ec()
        &&& tt.nodes@[i].right == tt.row_right(i)
        &&& tt.nodes@[i].left == tt.row_left(i)
    } by {
        assert(t0.is_item(i));
        assert(t0.nodes@[i].set is Some);
    }
    assert forall|i: int, j: int|
        #![trigger tt.nodes@[i], tt.nodes@[j]]
        tt.is_item(i) && tt.is_item(j) && i != j && tt.set_of(i) == tt.set_of(j) implies tt.hdr(i) != tt.hdr(j) by {
        assert(t0.is_item(i) && t0.is_item(j));
        assert(t0.nodes@[i].set is Some && t0.nodes@[j].set is Some);
    }
    assert forall|d: int| #![trigger tt.nodes@[d]] tt.is_header(d) implies tt.nodes@[d].header == d && tt.nodes@[d].set is None
        && tt.nodes@[d].len is Some by {
        assert(t0.is_header(d));
        assert(t0.nodes@[d].header == d);
    }
    assert(t0.nodes@[0].header == 0);
}

/// The columns and the vertical links in the middle of covering.
pub proof fn lemma_removed_vertical(t0: DLXTable, tt: DLXTable, h: int, b: int)
    requires
        cover_facts(t0, h),
        same_layout(t0, tt),
        removed_upto(t0, tt.nodes@, h, b),
    ensures
        forall|d: int| #[trigger] tt.col(d) == t0.col(d).difference(t0.taken(h, b)),
        tt.wf_vertical(),
{
    let t = tt.nodes@;
    let r = t0.taken(h, b);
    t0.lemma_taken_step(h, b);
    reveal(DLXTable::linked);
    assert forall|d: int| #[trigger] tt.col(d) == t0.col(d).difference(r) by {
        assert forall|z: int| tt.col(d).contains(z) <==> t0.col(d).difference(r).contains(z) by {
            if t0.col(d).difference(r).contains(z) {
                let s = t0.col(d).difference(r);
                assert(t0.present(z));
                assert(t0.is_header(d));
                assert(forall|y: int| #[trigger] s.contains(y) ==> d < y);
                let u = t[z].up as int;
                let v = t[z].down as int;
                assert(is_pred(s, d, z, u));
                assert(is_succ(s, d, z, v));
                if s.contains(u) {
                    assert(t0.present(u));
                    assert(is_succ(s, d, u, t[u].down as int));
                    assert(is_succ(s, d, u, z));
                    lemma_succ_unique(s, d, u, t[u].down as int, z);
                } else {
                    assert(is_succ(s, d, d, z));
                    lemma_succ_unique(s, d, d, t[d].down as int, z);
                }
                if s.contains(v) {
                    assert(t0.present(v));
                    assert(is_pred(s, d, v, t[v].up as int));
                    assert(is_pred(s, d, v, z));
                    lemma_pred_unique(s, d, v, t[v].up as int, z);
                } else {
                    assert(is_pred(s, d, d, z));
                    lemma_pred_unique(s, d, d, t[d].up as int, z);
                }
                assert(tt.linked(z));
            }
            if tt.col(d).contains(z) && !t0.col(d).difference(r).contains(z) {
                assert(tt.is_item(z) && tt.hdr(z) == d && tt.linked(z));
                assert(t0.is_item(z));
                let u = t[z].up as int;
                let v = t[z].down as int;
                if t0.col(d).contains(z) {
                    assert(r.contains(z));
                    assert(t0.present(z));
                    let s = t0.col(d).difference(r);
                    assert(t0.is_header(d));
                    assert(forall|y: int| #[trigger] s.contains(y) ==> d < y);
                    assert(is_pred(s, d, z, u));
                    if s.contains(u) {
                        assert(t0.present(u));
                        assert(is_succ(s, d, u, t[u].down as int));
                    } else {
                        assert(is_succ(s, d, d, t[d].down as int));
                    }
                    assert(false);
                } else {
                    assert(t[z].up == t0.nodes@[z].up && t[z].down == t0.nodes@[z].down);
                    assert(t0.nodes@[u].down == z) by {
                        if u == 0 {
                        } else if t0.is_header(u) {
                            assert(t0.col(u) == t0.col(u));
                            let su = t0.col(u).difference(r);
                            assert(is_succ(su, u, u, t[u].down as int));
                            if su.contains(z) {
                                assert(false);
                            }
                        } else if t0.present(u) {
                            let gu = t0.hdr(u);
                            let su = t0.col(gu).difference(r);
                            if !r.contains(u) {
                                assert(is_succ(su, gu, u, t[u].down as int));
                                assert(t0.is_header(gu));
                                assert(t[u].down != z) by {
                                    if su.contains(z) {
                                        assert(false);
                                    }
                                }
                            }
                        } else {
                            assert(t0.is_item(u));
                        }
                    }
                    assert(t0.nodes@[v].up == z) by {
                        if v == 0 {
                        } else if t0.is_header(v) {
                            assert(t0.col(v) == t0.col(v));
                            let sv = t0.col(v).difference(r);
                            assert(is_pred(sv, v, v, t[v].up as int));
                            if sv.contains(z) {
                                assert(false);
                            }
                        } else if t0.present(v) {
                            let gv = t0.hdr(v);
                            let sv = t0.col(gv).difference(r);
                            assert(is_pred(sv, gv, v, t[v].up as int));
                            assert(t0.is_header(gv));
                            assert(t[v].up != z) by {
                                if sv.contains(z) {
                                    assert(false);
                                }
                            }
                        } else {
                            assert(t0.is_item(v));
                        }
                    }
                    assert(t0.linked(z));
                    assert(t0.col(d).contains(z));
                }
            }
        }
        assert(tt.col(d) =~= t0.col(d).difference(r));
    }
    assert forall|z: int| #![trigger t[z]] 0 < z < tt.n() implies t[z].up < tt.n() && t[z].down < tt.n() by {
        assert(t0.nodes@[z].up < t0.n());
        if t0.is_header(z) {
            assert(t0.col(z) == t0.col(z));
        } else if t0.present(z) {
            assert(t0.is_header(t0.hdr(z)));
        }
    }
    assert forall|d: int| #![trigger tt.col(d)] tt.is_header(d) implies {
        &&& is_succ(tt.col(d), d, d, t[d].down as int)
        &&& is_pred(tt.col(d), d, d, t[d].up as int)
        &&& t[d].len == Some(tt.col(d).len() as usize)
    } by {
        assert(t0.col(d) == t0.col(d));
        assert(tt.col(d) == t0.col(d).difference(r));
    }
    assert forall|z: int| #![trigger tt.present(z)] tt.present(z) implies {
        &&& is_succ(tt.col(tt.hdr(z)), tt.hdr(z), z, t[z].down as int)
        &&& is_pred(tt.col(tt.hdr(z)), tt.hdr(z), z, t[z].up as int)
    } by {
        let d = tt.hdr(z);
        assert(tt.col(d) == t0.col(d).difference(r));
        assert(t0.present(z));
    }
}


/// Header `h` taken out: the horizontal list is the rest of the headers.
pub proof fn lemma_removed_horizontal(t0: DLXTable, tt: DLXTable, h: int)
    requires
        t0.wf_horizontal(),
        t0.active().contains(h),
        hfacts(t0, h),
        same_layout(t0, tt),
        frame(t0, tt.nodes@, h, true),
        t0.ec() < t0.n(),
    ensures
        tt.active() == t0.active().remove(h),
        tt.wf_horizontal(),
{
    reveal(DLXTable::hlinked);
    let t = tt.nodes@;
    let a = t0.active();
    let a2 = a.remove(h);
    let l = t0.nodes@[h].left as int;
    let rt = t0.nodes@[h].right as int;
    assert(forall|y: int| #[trigger] a.contains(y) ==> 0 < y);
    assert(is_pred(a, 0, h, l));
    assert(is_succ(a, 0, h, rt));
    lemma_join(a, 0, h, l, rt);
    assert forall|g: int| 0 <= g <= t0.ec() && g != l && g != rt implies #[trigger] t[g].left == t0.nodes@[g].left && t[g].right == t0.nodes@[g].right by {
    }
    assert(t[l].right == rt);
    assert(t[rt].left == l);
    // the links of the remaining list
    assert forall|g: int| #[trigger] a2.contains(g) || g == 0 implies is_succ(a2, 0, g, t[g].right as int) && is_pred(a2, 0, g, t[g].left as int) by {
        if g != 0 {
            assert(a.contains(g));
        }
        if g == l {
            assert(t[g].right == rt);
        } else {
            assert(t[g].right == t0.nodes@[g].right);
            assert(is_succ(a, 0, g, t0.nodes@[g].right as int));
            if t0.nodes@[g].right == h {
                lemma_pred_unique(a, 0, h, l, g);
            }
            lemma_succ_remove(a, 0, g, t0.nodes@[g].right as int, h);
        }
        if g == rt {
            assert(t[g].left == l);
        } else {
            assert(t[g].left == t0.nodes@[g].left);
            assert(is_pred(a, 0, g, t0.nodes@[g].left as int));
            if t0.nodes@[g].left == h {
                lemma_succ_unique(a, 0, h, rt, g);
            }
            lemma_pred_remove(a, 0, g, t0.nodes@[g].left as int, h);
        }
    }
    assert forall|g: int| #[trigger] tt.active().contains(g) <==> a2.contains(g) by {
        if a2.contains(g) {
            let lg = t[g].left as int;
            let rg = t[g].right as int;
            assert(is_pred(a2, 0, g, lg));
            assert(is_succ(a2, 0, g, rg));
            assert(is_succ(a2, 0, lg, t[lg].right as int));
            assert(is_pred(a2, 0, rg, t[rg].left as int));
            if lg != 0 {
                assert(is_succ(a2, 0, lg, g));
            } else {
                assert(is_succ(a2, 0, 0, g));
            }
            lemma_succ_unique(a2, 0, lg, t[lg].right as int, g);
            if rg != 0 {
                assert(is_pred(a2, 0, rg, g));
            } else {
                assert(is_pred(a2, 0, 0, g));
            }
            lemma_pred_unique(a2, 0, rg, t[rg].left as int, g);
            assert(tt.hlinked(g));
        }
        if tt.active().contains(g) && !a2.contains(g) {
            assert(tt.is_header(g) && tt.hlinked(g));
            let lg = t[g].left as int;
            let rg = t[g].right as int;
            if g == h {
                assert(lg == l);
                assert(t[l].right == rt);
                assert(false);
            } else {
                assert(!a.contains(g));
                assert(lg == t0.nodes@[g].left && rg == t0.nodes@[g].right);
                assert(t0.nodes@[lg].right == g) by {
                    if lg == l {
                        assert(t[l].right == rt);
                        assert(rt == g);
                        assert(a.contains(rt) || rt == 0);
                    }
                }
                assert(t0.nodes@[rg].left == g) by {
                    if rg == rt {
                        assert(t[rt].left == l);
                        assert(l == g);
                        assert(a.contains(l) || l == 0);
                    }
                }
                assert(t0.hlinked(g));
                assert(a.contains(g));
            }
        }
    }
    assert(tt.active() =~= a2);
    assert forall|g: int| #![trigger tt.nodes@[g]] 0 <= g <= tt.ec() implies tt.nodes@[g].left <= tt.ec() && tt.nodes@[g].right <= tt.ec() by {
        assert(t0.nodes@[g].left <= t0.ec() && t0.nodes@[g].right <= t0.ec());
    }
    assert(is_succ(a2, 0, 0, t[0].right as int));
    assert(is_pred(a2, 0, 0, t[0].left as int));
    assert forall|g: int| #[trigger] tt.active().contains(g) implies is_succ(tt.active(), 0, g, t[g].right as int)
        && is_pred(tt.active(), 0, g, t[g].left as int) by {
        assert(a2.contains(g));
    }
}

/// Covering a listed header keeps every row through a listed header
/// complete.
pub proof fn lemma_removed_full_rows(t0: DLXTable, tt: DLXTable, h: int)
    requires
        t0.full_rows(),
        same_layout(t0, tt),
        frame(t0, tt.nodes@, h, true),
        tt.active() == t0.active().remove(h),
        forall|d: int| #[trigger] tt.col(d) == t0.col(d).difference(t0.cover_set(h)),
    ensures
        tt.full_rows(),
{
    reveal(DLXTable::cover_set);
    let x = t0.cover_set(h);
    assert forall|g: int, z: int, y: int|
        #![trigger tt.col(g).contains(z), tt.nodes@[y]]
        tt.active().contains(g) && tt.col(g).contains(z) && tt.is_item(y) && tt.set_of(y) == tt.set_of(z)
            implies tt.col(tt.hdr(y)).contains(y) by {
        assert(t0.col(g).contains(z));
        assert(t0.active().contains(g));
        assert(tt.nodes@[z].set == t0.nodes@[z].set);
        assert(tt.nodes@[y].set == t0.nodes@[y].set);
        assert(tt.nodes@[y].header == t0.nodes@[y].header);
        assert(t0.col(t0.hdr(y)).contains(y));
        if x.contains(y) {
            reveal(DLXTable::col_sets);
            assert(t0.is_item(z));
            assert(t0.hdr(z) == g);
            assert(g != h);
            assert(x.contains(z));
        }
    }
}


pub proof fn lemma_col_sets_eq(t0: DLXTable, tt: DLXTable, h: int, out: bool)
    requires
        same_layout(t0, tt),
        frame(t0, tt.nodes@, h, out),
        tt.col(h) == t0.col(h),
    ensures
        tt.col_sets(h) == t0.col_sets(h),
{
    reveal(DLXTable::col_sets);
    assert forall|s: int| tt.col_sets(h).contains(s) <==> t0.col_sets(h).contains(s) by {
        if tt.col_sets(h).contains(s) {
            let z = choose|z: int| #[trigger] tt.col(h).contains(z) && tt.set_of(z) == s;
            assert(t0.col(h).contains(z));
            assert(tt.nodes@[z].set == t0.nodes@[z].set);
        }
        if t0.col_sets(h).contains(s) {
            let z = choose|z: int| #[trigger] t0.col(h).contains(z) && t0.set_of(z) == s;
            assert(tt.col(h).contains(z));
            assert(tt.nodes@[z].set == t0.nodes@[z].set);
        }
    }
    assert(tt.col_sets(h) =~= t0.col_sets(h));
}

/// In a row through column `h`, exactly the nodes outside column `h` are
/// taken out by covering `h`.
pub proof fn lemma_row_cover_set(t0: DLXTable, h: int, s: int)
    requires
        t0.wf_layout(),
        0 <= s < t0.sets_count(),
        t0.col_sets(h).contains(s),
    ensures
        forall|x: int| t0.head_of(s) <= x < t0.end_of(s) ==> (#[trigger] t0.cover_set(h).contains(x) <==> t0.hdr(x) != h),
{
    t0.lemma_row_layout(s);
    reveal(DLXTable::cover_set);
}

impl DLXTable {
    fn hide_element(&mut self, element: usize)
        requires
            element < old(self).element_count ==> hfacts(*old(self), element + 1)
                && old(self).ec() < old(self).n(),
        ensures
            final(self).element_count == old(self).element_count,
            final(self).set_heads == old(self).set_heads,
            element < old(self).element_count ==> final(self).nodes@ == unlink_header(old(self).nodes@, element + 1),
            element >= old(self).element_count ==> final(self).nodes@ == old(self).nodes@,
    {
        if element < self.element_count {
            let header = &self.nodes[element + 1];
            let left = header.left;
            let right = header.right;
            let mut left_node = self.nodes[left];
            left_node.right = right;
            self.nodes.set(left, left_node);
            let mut right_node = self.nodes[right];
            right_node.left = left;
            self.nodes.set(right, right_node);
        }
    }

    fn unhide_element(&mut self, element: usize)
        requires
            element < old(self).element_count ==> {
                let l = old(self).nodes@[element + 1].left;
                let r = old(self).nodes@[element + 1].right;
                &&& element + 1 < old(self).nodes@.len()
                &&& l < old(self).nodes@.len()
                &&& r < old(self).nodes@.len()
                &&& old(self).nodes@[element + 1].header == element + 1
            },
        ensures
            final(self).element_count == old(self).element_count,
            final(self).set_heads == old(self).set_heads,
            element < old(self).element_count ==> final(self).nodes@ == relink_header(old(self).nodes@, element + 1),
            element >= old(self).element_count ==> final(self).nodes@ == old(self).nodes@,
    {
        if element < self.element_count {
            let header = &self.nodes[element + 1];
            let left = header.left;
            let right = header.right;
            let header_index = header.header;
            let mut left_header = self.nodes[left];
            left_header.right = header_index;
            self.nodes.set(left, left_header);
            let mut right_header = self.nodes[right];
            right_header.left = header_index;
            self.nodes.set(right, right_header);
        }
    }

    /// Takes node `index` out of its column: its neighbours are linked to
    /// each other and its header counts one node less.
    fn take_out_node(&mut self, index: usize)
        requires
            index < old(self).nodes@.len(),
            old(self).nodes@[index as int].up < old(self).nodes@.len(),
            old(self).nodes@[index as int].down < old(self).nodes@.len(),
            old(self).nodes@[index as int].header < old(self).nodes@.len(),
            old(self).nodes@[old(self).nodes@[index as int].header as int].len is Some,
            old(self).nodes@[index as int].header >= 1,
            old(self).nodes@[old(self).nodes@[index as int].header as int].len->0 >= 1,
        ensures
            final(self).element_count == old(self).element_count,
            final(self).set_heads == old(self).set_heads,
            final(self).nodes@ == splice_out(old(self).nodes@, index as int),
    {
        let node = self.nodes[index];
        let up = node.up;
        let down = node.down;
        let element = self.get_element(&node);
        let mut up_node = self.nodes[up];
        up_node.down = down;
        self.nodes.set(up, up_node);
        let mut down_node = self.nodes[down];
        down_node.up = up;
        self.nodes.set(down, down_node);
        let mut header = self.nodes[element + 1];
        let len = match header.len {
            Some(l) => l,
            None => 1,
        };
        header.len = Some(len - 1);
        self.nodes.set(element + 1, header);
    }

    /// Puts node `index` back between the neighbours it still points to;
    /// its header counts one node more.
    fn put_back_node(&mut self, index: usize)
        requires
            index < old(self).nodes@.len(),
            old(self).nodes@[index as int].up < old(self).nodes@.len(),
            old(self).nodes@[index as int].down < old(self).nodes@.len(),
            old(self).nodes@[index as int].header < old(self).nodes@.len(),
            old(self).nodes@[old(self).nodes@[index as int].header as int].len is Some,
            old(self).nodes@[old(self).nodes@[index as int].header as int].len->0 < usize::MAX,
        ensures
            final(self).element_count == old(self).element_count,
            final(self).set_heads == old(self).set_heads,
            final(self).nodes@ == splice_in(old(self).nodes@, index as int),
    {
        let node = self.nodes[index];
        let up = node.up;
        let down = node.down;
        let header = node.header;
        let mut up_node = self.nodes[up];
        up_node.down = index;
        self.nodes.set(up, up_node);
        let mut down_node = self.nodes[down];
        down_node.up = index;
        self.nodes.set(down, down_node);
        let mut header_node = self.nodes[header];
        let len = match header_node.len {
            Some(l) => l,
            None => 0,
        };
        header_node.len = Some(len + 1);
        self.nodes.set(header, header_node);
    }

    #[verifier::spinoff_prover]
    #[verifier::rlimit(40)]
    fn hide_row(&mut self, element: usize, set_index: usize, Ghost(t0): Ghost<DLXTable>)
        requires
            covering(t0, old(self).nodes@, element + 1, t0.head_of(set_index as int)),
            same_layout(t0, *old(self)),
            set_index < t0.sets_count(),
            t0.col_sets(element + 1).contains(set_index as int),
        ensures
            same_layout(t0, *final(self)),
            covering(t0, final(self).nodes@, element + 1, t0.end_of(set_index as int)),
    {
        let ghost h = element + 1;
        let ghost s = set_index as int;
        assert(self.wf_layout() && t0.wf_layout()) by {
            reveal(covering);
            lemma_frame_layout(t0, *self, h, true);
        }
        proof {
            t0.lemma_row_layout(s);
            lemma_row_cover_set(t0, h, s);
        }
        let row = self.row_nodes(set_index);
        let mut i: usize = 0;
        while i < row.len()
            invariant
                h == element + 1,
                s == set_index,
                same_layout(t0, *self),
                row@ == t0.row_seq(s),
                i <= row@.len(),
                t0.ec() < t0.head_of(s) < t0.end_of(s) <= t0.n(),
                t0.n() < usize::MAX,
                forall|x: int| t0.head_of(s) <= x < t0.end_of(s) ==> (#[trigger] t0.cover_set(h).contains(x) <==> t0.hdr(x) != h),
                forall|x: int| t0.head_of(s) <= x < t0.end_of(s) ==> #[trigger] t0.is_item(x),
                covering(t0, self.nodes@, h, t0.head_of(s) + i),
            decreases row@.len() - i,
        {
            let index = row[i];
            let ghost before = self.nodes@;
            assert(index == t0.head_of(s) + i && t0.is_item(index as int));
            assert(before[index as int].header == t0.nodes@[index as int].header
                && 1 <= t0.nodes@[index as int].header <= t0.ec()) by {
                reveal(covering);
                assert(t0.nodes@[index as int].set is Some);
            }
            let node = self.nodes[index];
            if self.get_element(&node) != element {
                assert(t0.cover_set(h).contains(index as int));
                assert({
                    &&& before[index as int].up < before.len()
                    &&& before[index as int].down < before.len()
                    &&& before[t0.hdr(index as int)].len is Some
                    &&& before[t0.hdr(index as int)].len->0 >= 1
                }) by {
                    reveal(covering);
                    lemma_remove_step_safe(t0, before, h, index as int);
                }
                self.take_out_node(index);
                assert(covering(t0, self.nodes@, h, index + 1)) by {
                    reveal(covering);
                    lemma_remove_step(t0, before, h, index as int);
                }
            } else {
                assert(covering(t0, self.nodes@, h, index + 1)) by {
                    reveal(covering);
                    lemma_remove_skip(t0, before, h, index as int);
                }
            }
            i += 1;
        }
    }

    fn unhide_row(&mut self, element: usize, set_index: usize, Ghost(t1): Ghost<DLXTable>, Ghost(w): Ghost<DLXTable>)
        requires
            uncover_pre(w, t1, element + 1),
            same_layout(t1, *old(self)),
            set_index < t1.sets_count(),
            t1.col_sets(element + 1).contains(set_index as int),
            uncovering(t1, old(self).nodes@, element + 1, t1.head_of(set_index as int)),
        ensures
            same_layout(t1, *final(self)),
            uncovering(t1, final(self).nodes@, element + 1, t1.end_of(set_index as int)),
    {
        let ghost h = element + 1;
        let ghost s = set_index as int;
        assert(self.wf_layout() && w.wf_layout() && w.col_sets(h).contains(s) && same_layout(w, t1)) by {
            lemma_uncover_pre(w, t1, h);
            reveal(uncovering);
            lemma_frame_layout(w, *self, h, false);
        }
        proof {
            w.lemma_row_layout(s);
            lemma_row_cover_set(w, h, s);
        }
        let row = self.row_nodes(set_index);
        let mut i: usize = 0;
        while i < row.len()
            invariant
                uncover_pre(w, t1, h),
                h == element + 1,
                s == set_index,
                same_layout(t1, *self),
                same_layout(w, t1),
                t1.col_sets(h).contains(s),
                row@ == w.row_seq(s),
                i <= row@.len(),
                w.ec() < w.head_of(s) < w.end_of(s) <= w.n(),
                w.n() < usize::MAX,
                forall|x: int| w.head_of(s) <= x < w.end_of(s) ==> (#[trigger] w.cover_set(h).contains(x) <==> w.hdr(x) != h),
                forall|x: int| w.head_of(s) <= x < w.end_of(s) ==> #[trigger] w.is_item(x),
                uncovering(t1, self.nodes@, h, t1.head_of(s) + i),
            decreases row@.len() - i,
        {
            let index = row[i];
            let ghost before = self.nodes@;
            assert(index == w.head_of(s) + i && w.is_item(index as int));
            assert(before[index as int].header == w.nodes@[index as int].header
                && 1 <= w.nodes@[index as int].header <= w.ec()) by {
                reveal(uncovering);
                lemma_uncover_pre(w, t1, h);
                assert(w.nodes@[index as int].set is Some);
            }
            let node = self.nodes[index];
            if self.get_element(&node) != element {
                assert(w.cover_set(h).contains(index as int));
                assert({
                    &&& before[index as int].up < before.len()
                    &&& before[index as int].down < before.len()
                    &&& before[w.hdr(index as int)].len is Some
                    &&& before[w.hdr(index as int)].len->0 < usize::MAX
                }) by {
                    reveal(uncovering);
                    lemma_uncover_pre(w, t1, h);
                    lemma_restore_step_safe(w, before, h, index as int);
                }
                self.put_back_node(index);
                proof {
                    lemma_uncovering_step(w, t1, before, h, index as int);
                }
            } else {
                proof {
                    lemma_uncovering_step(w, t1, before, h, index as int);
                }
            }
            i += 1;
        }
    }
}

/// One index further in uncovering: the node is put back if covering took
/// it out, and passed over if not.
pub proof fn lemma_uncovering_step(w: DLXTable, t1: DLXTable, t: Seq<Node>, h: int, b: int)
    requires
        uncover_pre(w, t1, h),
        uncovering(t1, t, h, b),
    ensures
        w.cover_set(h).contains(b) ==> uncovering(t1, splice_in(t, b), h, b + 1),
        !w.cover_set(h).contains(b) ==> uncovering(t1, t, h, b + 1),
{
    reveal(uncovering);
    lemma_uncover_pre(w, t1, h);
    if w.cover_set(h).contains(b) {
        assert forall|t0: DLXTable| #[trigger] uncover_pre(t0, t1, h) implies restored_upto(t0, splice_in(t, b), h, b + 1) by {
            lemma_uncover_pre(t0, t1, h);
            lemma_restore_step(t0, t, h, b);
        }
    } else {
        assert forall|t0: DLXTable| #[trigger] uncover_pre(t0, t1, h) implies restored_upto(t0, t, h, b + 1) by {
            lemma_uncover_pre(t0, t1, h);
            lemma_restore_skip(t0, t, h, b);
        }
    }
}

/// Covering header `h` of `t0` has taken out the nodes of `cover_set(h)`
/// below index `b`.
#[verifier::opaque]
pub open spec fn covering(t0: DLXTable, t: Seq<Node>, h: int, b: int) -> bool {
    &&& cover_facts(t0, h)
    &&& hfacts(t0, h)
    &&& t0.wf_layout()
    &&& removed_upto(t0, t, h, b)
}

/// Uncovering header `h` of the covered table `t1` has put back the nodes
/// below index `b`, whichever table `t1` was covered from.
#[verifier::opaque]
pub open spec fn uncovering(t1: DLXTable, t: Seq<Node>, h: int, b: int) -> bool {
    forall|t0: DLXTable| #[trigger] uncover_pre(t0, t1, h) ==> restored_upto(t0, t, h, b)
}

/// `tt` is what covering header `h` of `t0` leaves.
#[verifier::opaque]
pub open spec fn uncover_pre(t0: DLXTable, tt: DLXTable, h: int) -> bool {
    &&& t0.wf()
    &&& t0.full_rows()
    &&& t0.active().contains(h)
    &&& same_layout(t0, tt)
    &&& removed_upto(t0, tt.nodes@, h, t0.n())
}

pub proof fn lemma_uncover_pre(t0: DLXTable, tt: DLXTable, h: int)
    requires
        uncover_pre(t0, tt, h),
    ensures
        cover_facts(t0, h),
        hfacts(t0, h),
        t0.wf_layout(),
        t0.col_sets(h) == tt.col_sets(h),
        t0.cover_set(h) == tt.cover_set(h),
        same_layout(t0, tt),
        tt.wf_layout(),
        tt.wf_vertical(),
        tt.nodes@[h].left == t0.nodes@[h].left,
        tt.nodes@[h].right == t0.nodes@[h].right,
        tt.nodes@[h].header == h,
        0 <= t0.nodes@[h].left <= t0.ec(),
        0 <= t0.nodes@[h].right <= t0.ec(),
        1 <= h <= t0.ec(),
{
    reveal(uncover_pre);
    lemma_cover_facts(t0, h);
    lemma_hfacts(t0, h);
    lemma_taken_all(t0, h);
    lemma_removed_vertical(t0, tt, h, t0.n());
    assert(tt.col(h) == t0.col(h).difference(t0.cover_set(h)));
    assert(t0.col(h).difference(t0.cover_set(h)) =~= t0.col(h));
    lemma_col_sets_eq(t0, tt, h, true);
    reveal(DLXTable::cover_set);
    assert forall|x: int| #[trigger] t0.cover_set(h).contains(x) <==> tt.cover_set(h).contains(x) by {
        if t0.is_item(x) {
            assert(tt.nodes@[x].set == t0.nodes@[x].set);
            assert(tt.nodes@[x].header == t0.nodes@[x].header);
        }
    }
    assert(t0.cover_set(h) =~= tt.cover_set(h));
    lemma_frame_layout(t0, tt, h, true);
}

/// Every set with a node in column `h` is a set of the table.
pub proof fn lemma_col_sets_bound(t: DLXTable, h: int)
    requires
        t.wf_layout(),
    ensures
        forall|s: int| #[trigger] t.col_sets(h).contains(s) ==> 0 <= s < t.sets_count(),
{
    reveal(DLXTable::col_sets);
    assert forall|s: int| #[trigger] t.col_sets(h).contains(s) implies 0 <= s < t.sets_count() by {
        let z = choose|z: int| #[trigger] t.col(h).contains(z) && t.set_of(z) == s;
        assert(t.nodes@[z].set is Some);
    }
}

impl DLXTable {
    /// Where the rows before the `k`-th listed one end.
    pub open spec fn prev_end(self, sets: Seq<usize>, k: int) -> int {
        if k == 0 { 0 } else { self.end_of(sets[k - 1] as int) }
    }
}

/// Moving over indices outside `cover_set(h)` while covering.
pub proof fn lemma_covering_skip(t0: DLXTable, t: Seq<Node>, h: int, b1: int, b2: int)
    requires
        covering(t0, t, h, b1),
        b1 <= b2,
        forall|x: int| b1 <= x < b2 ==> !#[trigger] t0.cover_set(h).contains(x),
    ensures
        covering(t0, t, h, b2),
{
    reveal(covering);
    lemma_remove_skip_range(t0, t, h, b1, b2);
}

/// Moving over indices outside `cover_set(h)` while uncovering.
pub proof fn lemma_uncovering_skip(w: DLXTable, t1: DLXTable, t: Seq<Node>, h: int, b1: int, b2: int)
    requires
        uncover_pre(w, t1, h),
        uncovering(t1, t, h, b1),
        b1 <= b2,
        forall|x: int| b1 <= x < b2 ==> !#[trigger] w.cover_set(h).contains(x),
    ensures
        uncovering(t1, t, h, b2),
{
    reveal(uncovering);
    lemma_uncover_pre(w, t1, h);
    assert forall|t0: DLXTable| #[trigger] uncover_pre(t0, t1, h) implies restored_upto(t0, t, h, b2) by {
        lemma_uncover_pre(t0, t1, h);
        lemma_restore_skip_range(t0, t, h, b1, b2);
    }
}

impl DLXTable {
    /// Covers `element`: its header leaves the list of headers, and every
    /// other node of each row through its column leaves its own column.
    pub fn cover_element(&mut self, element: usize)
        requires
            old(self).wf(),
            old(self).full_rows(),
            element < old(self).element_count ==> old(self).active().contains(element + 1),
        ensures
            element >= old(self).element_count ==> final(self).same(*old(self)),
            element < old(self).element_count ==> {
                &&& final(self).wf()
                &&& final(self).full_rows()
                &&& same_layout(*old(self), *final(self))
                &&& final(self).active() == old(self).active().remove(element + 1)
                &&& forall|d: int| #[trigger] final(self).col(d) == old(self).col(d).difference(old(self).cover_set(element + 1))
                &&& uncover_pre(*old(self), *final(self), element + 1)
            },
    {
        if element < self.element_count {
            let ghost t0 = *self;
            let ghost h = element + 1;
            proof {
                lemma_cover_facts(t0, h);
                lemma_hfacts(t0, h);
                lemma_start(t0, h);
                lemma_col_sets_bound(t0, h);
            }
            let sets = self.element_sets(element);
            assert forall|j: int| 0 <= j < sets@.len() implies t0.col_sets(h).contains(#[trigger] sets@[j] as int)
                && (sets@[j] as int) < t0.sets_count() by {
                assert(sets@.contains(sets@[j]));
            }
            self.hide_element(element);
            assert(covering(t0, self.nodes@, h, 0)) by {
                reveal(covering);
            }
            let mut k: usize = 0;
            while k < sets.len()
                invariant
                    h == element + 1,
                    t0.wf_layout(),
                    cover_facts(t0, h),
                    same_layout(t0, *self),
                    t0.lists_col_sets(h, sets@),
                    forall|j: int| 0 <= j < sets@.len() ==> (#[trigger] sets@[j] as int) < t0.sets_count(),
                    forall|j: int| 0 <= j < sets@.len() ==> t0.col_sets(h).contains(#[trigger] sets@[j] as int),
                    k <= sets@.len(),
                    covering(t0, self.nodes@, h, t0.prev_end(sets@, k as int)),
                decreases sets@.len() - k,
            {
                let set_index = sets[k];
                proof {
                    t0.lemma_gaps(h, sets@, k - 1);
                    lemma_covering_skip(t0, self.nodes@, h, t0.prev_end(sets@, k as int), t0.head_of(set_index as int));
                }
                self.hide_row(element, set_index, Ghost(t0));
                k += 1;
            }
            proof {
                t0.lemma_gaps(h, sets@, sets@.len() - 1);
                lemma_covering_skip(t0, self.nodes@, h, t0.prev_end(sets@, sets@.len() as int), t0.n());
                reveal(covering);
                lemma_taken_all(t0, h);
                lemma_removed_vertical(t0, *self, h, t0.n());
                lemma_removed_horizontal(t0, *self, h);
                lemma_frame_layout(t0, *self, h, true);
                lemma_removed_full_rows(t0, *self, h);
                reveal(uncover_pre);
            }
        }
    }

    /// Undoes `cover_element(element)`: given the table that covering left,
    /// gives back the table it was covering.
    #[verifier::rlimit(40)]
    pub fn uncover_element(&mut self, element: usize)
        requires
            element < old(self).element_count ==> exists|t0: DLXTable| #[trigger] uncover_pre(t0, *old(self), element + 1),
        ensures
            element >= old(self).element_count ==> final(self).same(*old(self)),
            forall|t0: DLXTable|
                element < old(self).element_count && #[trigger] uncover_pre(t0, *old(self), element + 1) ==> final(self).same(t0),
    {
        if element < self.element_count {
            let ghost t1 = *self;
            let ghost h = element + 1;
            let ghost w = choose|t0: DLXTable| #[trigger] uncover_pre(t0, t1, h);
            proof {
                lemma_uncover_pre(w, t1, h);
                lemma_col_sets_bound(w, h);
            }
            let sets = self.element_sets(element);
            assert forall|j: int| 0 <= j < sets@.len() implies t1.col_sets(h).contains(#[trigger] sets@[j] as int)
                && (sets@[j] as int) < w.sets_count() by {
                assert(sets@.contains(sets@[j]));
            }
            self.unhide_element(element);
            assert(uncovering(t1, self.nodes@, h, 0)) by {
                reveal(uncovering);
                assert forall|t0: DLXTable| #[trigger] uncover_pre(t0, t1, h) implies restored_upto(t0, self.nodes@, h, 0) by {
                    lemma_uncover_pre(t0, t1, h);
                    reveal(uncover_pre);
                    lemma_cover_facts(t0, h);
                    lemma_hfacts(t0, h);
                    lemma_switch(t0, t1.nodes@, h);
                }
            }
            let mut k: usize = 0;
            while k < sets.len()
                invariant
                    h == element + 1,
                    uncover_pre(w, t1, h),
                    w.wf_layout(),
                    same_layout(w, t1),
                    same_layout(t1, *self),
                    w.col_sets(h) == t1.col_sets(h),
                    w.lists_col_sets(h, sets@),
                    forall|j: int| 0 <= j < sets@.len() ==> (#[trigger] sets@[j] as int) < w.sets_count(),
                    forall|j: int| 0 <= j < sets@.len() ==> t1.col_sets(h).contains(#[trigger] sets@[j] as int),
                    k <= sets@.len(),
                    uncovering(t1, self.nodes@, h, w.prev_end(sets@, k as int)),
                decreases sets@.len() - k,
            {
                let set_index = sets[k];
                proof {
                    w.lemma_gaps(h, sets@, k - 1);
                    lemma_uncovering_skip(w, t1, self.nodes@, h, w.prev_end(sets@, k as int), w.head_of(set_index as int));
                }
                self.unhide_row(element, set_index, Ghost(t1), Ghost(w));
                k += 1;
            }
            proof {
                w.lemma_gaps(h, sets@, sets@.len() - 1);
                lemma_uncovering_skip(w, t1, self.nodes@, h, w.prev_end(sets@, sets@.len() as int), w.n());
                reveal(uncovering);
                assert forall|t0: DLXTable| #[trigger] uncover_pre(t0, t1, h) implies self.same(t0) by {
                    lemma_uncover_pre(t0, t1, h);
                    lemma_restored_all(t0, self.nodes@, h);
                }
            }
        }
    }
}

/// Covering depends on the covered table only through its contents.
pub proof fn lemma_uncover_pre_same(t0: DLXTable, a: DLXTable, b: DLXTable, h: int)
    requires
        a.same(b),
        uncover_pre(t0, a, h),
    ensures
        uncover_pre(t0, b, h),
{
    reveal(uncover_pre);
}

/// Step `j` of covering the other columns of row `s`: the `j`-th node of
/// the row lies in column `h` and nothing changes, or its column is
/// covered.
pub open spec fn row_cover_step(ts: Seq<DLXTable>, s: int, h: int, j: int) -> bool {
    let g = ts[0].hdr(ts[0].head_of(s) + j);
    if g == h {
        ts[j + 1].same(ts[j])
    } else {
        uncover_pre(ts[j], ts[j + 1], g)
    }
}

/// The table is well formed and every row through a listed column is
/// complete: what covering a listed column needs.
#[verifier::opaque]
pub open spec fn ready(t: DLXTable) -> bool {
    t.wf() && t.full_rows()
}

/// `b` has `a`'s layout, with every node in the same row and column.
pub open spec fn same_rows(a: DLXTable, b: DLXTable) -> bool {
    &&& same_layout(a, b)
    &&& forall|z: int| #![trigger b.nodes@[z]] 0 <= z < a.n() ==> b.nodes@[z].header == a.nodes@[z].header
        && b.nodes@[z].set == a.nodes@[z].set
}

/// The first `i` steps of covering the columns of row `s` other than `h`:
/// `ts` holds the tables they go through, each ready and with the rows of
/// `ts[0]`.
#[verifier::opaque]
pub open spec fn row_chain_upto(ts: Seq<DLXTable>, s: int, h: int, i: int) -> bool {
    &&& ts.len() == i + 1
    &&& forall|j: int| 0 <= j < i ==> #[trigger] row_cover_step(ts, s, h, j)
    &&& forall|j: int| 0 <= j <= i ==> #[trigger] ready(ts[j]) && same_rows(ts[0], ts[j])
}

/// `ts` is the run of tables that covering the columns of row `s` other
/// than `h` goes through, one node of the row at a time.
pub open spec fn row_cover_chain(ts: Seq<DLXTable>, s: int, h: int) -> bool {
    &&& 0 <= s < ts[0].sets_count()
    &&& ts[0].head_of(s) < ts[0].end_of(s)
    &&& row_chain_upto(ts, s, h, ts[0].end_of(s) - ts[0].head_of(s))
}

/// Column `g` has a node of row `s` below index `b`.
pub open spec fn row_has_col(t: DLXTable, s: int, g: int, b: int) -> bool {
    exists|x: int| t.head_of(s) <= x < b && #[trigger] t.hdr(x) == g
}

/// Row `s` of `t` and of `u` lies in the same columns.
pub open spec fn same_row_cols(t: DLXTable, u: DLXTable, s: int) -> bool {
    &&& t.head_of(s) == u.head_of(s)
    &&& t.end_of(s) == u.end_of(s)
    &&& t.sets_count() == u.sets_count()
    &&& forall|x: int| t.head_of(s) <= x < t.end_of(s) ==> #[trigger] t.hdr(x) == u.hdr(x)
}

pub proof fn lemma_ready_same(a: DLXTable, b: DLXTable)
    requires
        ready(a),
        a.same(b),
    ensures
        ready(b),
{
    reveal(ready);
    reveal(DLXTable::linked);
    reveal(DLXTable::hlinked);
    assert forall|h: int| #[trigger] b.col(h) == a.col(h) by {
        assert(a.col(h) =~= b.col(h));
    }
    assert(a.active() =~= b.active());
    assert(b.wf_layout());
    assert(b.wf_horizontal());
    assert forall|h: int| #[trigger] b.is_header(h) implies {
        &&& is_succ(b.col(h), h, h, b.nodes@[h].down as int)
        &&& is_pred(b.col(h), h, h, b.nodes@[h].up as int)
        &&& b.nodes@[h].len == Some(b.col(h).len() as usize)
    } by {
        assert(a.is_header(h));
        assert(b.col(h) == a.col(h));
    }
    assert forall|z: int| #[trigger] b.present(z) implies {
        &&& is_succ(b.col(b.hdr(z)), b.hdr(z), z, b.nodes@[z].down as int)
        &&& is_pred(b.col(b.hdr(z)), b.hdr(z), z, b.nodes@[z].up as int)
    } by {
        assert(b.col(b.hdr(z)) == a.col(a.hdr(z)));
        assert(a.present(z));
    }
    assert(b.wf_vertical());
    assert forall|h: int, z: int, x: int|
        #![trigger b.col(h).contains(z), b.nodes@[x]]
        b.active().contains(h) && b.col(h).contains(z) && b.is_item(x) && b.set_of(x) == b.set_of(z)
            implies b.col(b.hdr(x)).contains(x) by {
        assert(a.col(h).contains(z));
        assert(a.nodes@[x] == b.nodes@[x]);
        assert(b.col(b.hdr(x)) == a.col(a.hdr(x)));
    }
    assert(b.full_rows());
}

proof fn lemma_chain_start(t: DLXTable, s: int, h: int)
    requires
        ready(t),
    ensures
        row_chain_upto(seq![t], s, h, 0),
{
    reveal(row_chain_upto);
    assert forall|j: int| 0 <= j <= 0 implies #[trigger] ready(seq![t][j]) && same_rows(seq![t][0], seq![t][j]) by {}
}

pub proof fn lemma_chain_at(ts: Seq<DLXTable>, s: int, h: int, i: int, j: int)
    requires
        row_chain_upto(ts, s, h, i),
        0 <= j <= i,
    ensures
        ts.len() == i + 1,
        ready(ts[j]),
        same_rows(ts[0], ts[j]),
        j < i ==> row_cover_step(ts, s, h, j),
{
    reveal(row_chain_upto);
}

proof fn lemma_chain_push(ts: Seq<DLXTable>, x: DLXTable, s: int, h: int, i: int)
    requires
        row_chain_upto(ts, s, h, i),
        0 <= i,
        ready(x),
        same_rows(ts[0], x),
        ({
            let g = ts[0].hdr(ts[0].head_of(s) + i);
            if g == h { x.same(ts[i]) } else { uncover_pre(ts[i], x, g) }
        }),
    ensures
        row_chain_upto(ts.push(x), s, h, i + 1),
        ts.push(x)[0] == ts[0],
{
    reveal(row_chain_upto);
    let ts2 = ts.push(x);
    assert forall|j: int| 0 <= j < i + 1 implies #[trigger] row_cover_step(ts2, s, h, j) by {
        if j < i {
            assert(row_cover_step(ts, s, h, j));
            assert(ts2[j] == ts[j] && ts2[j + 1] == ts[j + 1]);
        }
    }
    assert forall|j: int| 0 <= j <= i + 1 implies #[trigger] ready(ts2[j]) && same_rows(ts2[0], ts2[j]) by {
        if j <= i {
            assert(ts2[j] == ts[j]);
        }
    }
}

/// The column of the next node of the row is still listed, unless it is
/// column `h`.
proof fn lemma_row_col_active(t: DLXTable, a: Set<int>, s: int, h: int, i: int)
    requires
        t.wf_layout(),
        0 <= s < t.sets_count(),
        t.head_of(s) + i < t.end_of(s),
        0 <= i,
        forall|x: int| t.head_of(s) <= x < t.end_of(s) ==> #[trigger] t.is_item(x) && t.set_of(x) == s,
        forall|x: int| t.head_of(s) <= x < t.end_of(s) && t.hdr(x) != h
            ==> t.active().contains(#[trigger] t.hdr(x)),
        forall|g: int| #[trigger] a.contains(g) <==> t.active().contains(g)
            && !(g != h && row_has_col(t, s, g, t.head_of(s) + i)),
    ensures
        t.hdr(t.head_of(s) + i) != h ==> a.contains(t.hdr(t.head_of(s) + i)),
{
    let y = t.head_of(s) + i;
    let g = t.hdr(y);
    if g != h {
        assert(t.active().contains(g));
        if row_has_col(t, s, g, y) {
            let x = choose|x: int| t.head_of(s) <= x < y && #[trigger] t.hdr(x) == g;
            assert(t.is_item(x) && t.set_of(x) == s);
            assert(t.is_item(y) && t.set_of(y) == s);
            assert(t.nodes@[x].set is Some);
            assert(t.nodes@[y].set is Some);
        }
    }
}

/// The listed headers after one more node of the row.
proof fn lemma_row_active_step(t: DLXTable, a0: Set<int>, a1: Set<int>, s: int, h: int, i: int)
    requires
        forall|g: int| #[trigger] a0.contains(g) <==> t.active().contains(g)
            && !(g != h && row_has_col(t, s, g, t.head_of(s) + i)),
        t.hdr(t.head_of(s) + i) == h ==> a1 == a0,
        t.hdr(t.head_of(s) + i) != h ==> a1 == a0.remove(t.hdr(t.head_of(s) + i)),
        0 <= i,
    ensures
        forall|g: int| #[trigger] a1.contains(g) <==> t.active().contains(g)
            && !(g != h && row_has_col(t, s, g, t.head_of(s) + i + 1)),
{
    let y = t.head_of(s) + i;
    assert forall|g: int| #[trigger] a1.contains(g) <==> t.active().contains(g)
        && !(g != h && row_has_col(t, s, g, y + 1)) by {
        if row_has_col(t, s, g, y + 1) && !row_has_col(t, s, g, y) {
            let x = choose|x: int| t.head_of(s) <= x < y + 1 && #[trigger] t.hdr(x) == g;
            assert(x == y);
        }
        if row_has_col(t, s, g, y) {
            let x = choose|x: int| t.head_of(s) <= x < y && #[trigger] t.hdr(x) == g;
            assert(row_has_col(t, s, g, y + 1));
        }
        if g == t.hdr(y) && g != h {
            assert(row_has_col(t, s, g, y + 1));
        }
    }
}

/// A run of covers of row `s` that ends at `t` has the row of `t`.
proof fn lemma_chain_rows(ts: Seq<DLXTable>, t: DLXTable, s: int, h: int)
    requires
        row_cover_chain(ts, s, h),
        ts.last().same(t),
    ensures
        same_row_cols(ts[0], t, s),
        ready(t),
        ts.len() == t.end_of(s) - t.head_of(s) + 1,
{
    let m = ts[0].end_of(s) - ts[0].head_of(s);
    lemma_chain_at(ts, s, h, m, m);
    lemma_chain_at(ts, s, h, m, 0);
    lemma_ready_same(ts[m], t);
    assert forall|x: int| ts[0].head_of(s) <= x < ts[0].end_of(s) implies #[trigger] ts[0].hdr(x) == t.hdr(x) by {
        reveal(ready);
        ts[0].lemma_row_layout(s);
        assert(ts[m].nodes@[x].header == ts[0].nodes@[x].header);
    }
}

/// Uncovering row `s` of `t` has come back to index `i` of every run of
/// covers that ends at `t`.
#[verifier::opaque]
pub open spec fn unrolled(t: DLXTable, cur: DLXTable, s: int, h: int, i: int) -> bool {
    forall|ts: Seq<DLXTable>| #[trigger] row_cover_chain(ts, s, h) && ts.last().same(t) ==> cur.same(ts[i])
}

/// One node further back in uncovering row `s`.
proof fn lemma_uncover_row_step(t: DLXTable, before: DLXTable, after: DLXTable, s: int, h: int, j: int)
    requires
        0 <= j,
        t.head_of(s) + j < t.end_of(s),
        unrolled(t, before, s, h, j + 1),
        t.hdr(t.head_of(s) + j) == h ==> after.same(before),
        t.hdr(t.head_of(s) + j) != h ==> forall|t0: DLXTable| #[trigger] uncover_pre(t0, before, t.hdr(t.head_of(s) + j))
            ==> after.same(t0),
    ensures
        unrolled(t, after, s, h, j),
{
    reveal(unrolled);
    assert forall|ts: Seq<DLXTable>| #[trigger] row_cover_chain(ts, s, h) && ts.last().same(t) implies after.same(ts[j]) by {
        lemma_chain_rows(ts, t, s, h);
        let m = ts[0].end_of(s) - ts[0].head_of(s);
        lemma_chain_at(ts, s, h, m, j);
        let g = t.hdr(t.head_of(s) + j);
        assert(ts[0].hdr(ts[0].head_of(s) + j) == g);
        assert(before.same(ts[j + 1]));
        if g != h {
            lemma_uncover_pre_same(ts[j], ts[j + 1], before, g);
        }
    }
}

impl DLXTable {
    /// Covers the columns of the nodes of row `set_index`, in node order,
    /// except the column of `element`.
    #[verifier::spinoff_prover]
    #[verifier::rlimit(80)]
    pub fn cover_row(&mut self, element: usize, set_index: usize)
        requires
            ready(*old(self)),
            (set_index as int) < old(self).sets_count() ==> forall|x: int|
                old(self).head_of(set_index as int) <= x < old(self).end_of(set_index as int) && old(self).hdr(x) != element + 1
                    ==> old(self).active().contains(#[trigger] old(self).hdr(x)),
        ensures
            (set_index as int) >= old(self).sets_count() ==> final(self).same(*old(self)),
            ready(*final(self)),
            same_layout(*old(self), *final(self)),
            (set_index as int) < old(self).sets_count() ==> forall|g: int| #[trigger] final(self).active().contains(g) <==> old(self).active().contains(g)
                && !(g != element + 1 && row_has_col(*old(self), set_index as int, g, old(self).end_of(set_index as int))),
            (set_index as int) < old(self).sets_count() ==> exists|ts: Seq<DLXTable>|
                #[trigger] row_cover_chain(ts, set_index as int, element + 1) && ts[0] == *old(self) && ts.last() == *final(self),
    {
        let ghost t = *self;
        let ghost s = set_index as int;
        let ghost h = element + 1;
        assert(t.wf_layout()) by {
            reveal(ready);
        }
        let row = self.row_nodes(set_index);
        if set_index >= self.set_heads.len() {
            return;
        }
        proof {
            t.lemma_row_layout(s);
        }
        let ghost mut ts: Seq<DLXTable> = seq![*self];
        proof {
            lemma_chain_start(t, s, h);
        }
        let mut i: usize = 0;
        while i < row.len()
            invariant
                h == element + 1,
                s == set_index,
                0 <= s < t.sets_count(),
                t.wf_layout(),
                row@ == t.row_seq(s),
                t.ec() < t.head_of(s) < t.end_of(s) <= t.n() < usize::MAX,
                forall|x: int| t.head_of(s) <= x < t.end_of(s) ==> #[trigger] t.is_item(x) && t.set_of(x) == s,
                forall|x: int| t.head_of(s) <= x < t.end_of(s) && t.hdr(x) != h
                    ==> t.active().contains(#[trigger] t.hdr(x)),
                i <= row@.len(),
                ready(*self),
                same_rows(t, *self),
                ts[0] == t,
                ts.len() == i + 1,
                ts[i as int] == *self,
                row_chain_upto(ts, s, h, i as int),
                forall|g: int| #[trigger] self.active().contains(g) <==> t.active().contains(g)
                    && !(g != h && row_has_col(t, s, g, t.head_of(s) + i)),
            decreases row@.len() - i,
        {
            let index = row[i];
            let ghost before = *self;
            assert(index == t.head_of(s) + i && t.is_item(index as int));
            assert(self.nodes@[index as int].header == t.nodes@[index as int].header
                && 1 <= t.nodes@[index as int].header <= t.ec()) by {
                assert(t.nodes@[index as int].set is Some);
            }
            let node_element = self.get_element(&self.nodes[index]);
            proof {
                lemma_row_col_active(t, self.active(), s, h, i as int);
            }
            if node_element != element {
                proof {
                    reveal(ready);
                }
                self.cover_element(node_element);
                assert(ready(*self) && same_rows(t, *self)) by {
                    reveal(ready);
                    reveal(uncover_pre);
                }
            }
            proof {
                lemma_row_active_step(t, before.active(), self.active(), s, h, i as int);
                lemma_chain_push(ts, *self, s, h, i as int);
                ts = ts.push(*self);
            }
            i += 1;
        }
        assert(row_cover_chain(ts, s, h) && ts[0] == t && ts.last() == *self);
    }

    /// Undoes `cover_row(element, set_index)`: uncovers the columns of the
    /// nodes of the row other than the column of `element`, last node first.
    #[verifier::spinoff_prover]
    #[verifier::rlimit(80)]
    pub fn uncover_row(&mut self, element: usize, set_index: usize)
        requires
            (set_index as int) < old(self).sets_count() ==> exists|ts: Seq<DLXTable>|
                #[trigger] row_cover_chain(ts, set_index as int, element + 1) && ts.last().same(*old(self)),
        ensures
            (set_index as int) >= old(self).sets_count() ==> final(self).same(*old(self)),
            forall|ts: Seq<DLXTable>|
                #[trigger] row_cover_chain(ts, set_index as int, element + 1) && ts.last().same(*old(self))
                    ==> final(self).same(ts[0]),
    {
        let ghost t = *self;
        let ghost s = set_index as int;
        let ghost h = element + 1;
        if set_index >= self.set_heads.len() {
            proof {
                assert forall|ts: Seq<DLXTable>| #[trigger] row_cover_chain(ts, s, h) && ts.last().same(t)
                    implies self.same(ts[0]) by {
                    lemma_chain_rows(ts, t, s, h);
                }
            }
            return;
        }
        let ghost w = choose|ts: Seq<DLXTable>| #[trigger] row_cover_chain(ts, s, h) && ts.last().same(t);
        let ghost m = t.end_of(s) - t.head_of(s);
        proof {
            lemma_chain_rows(w, t, s, h);
            lemma_chain_at(w, s, h, m, m);
        }
        assert(t.wf_layout()) by {
            reveal(ready);
        }
        proof {
            t.lemma_row_layout(s);
        }
        assert(unrolled(t, *self, s, h, m)) by {
            reveal(unrolled);
            assert forall|ts: Seq<DLXTable>| #[trigger] row_cover_chain(ts, s, h) && ts.last().same(t) implies self.same(ts[m]) by {
                lemma_chain_rows(ts, t, s, h);
            }
        }
        let row = self.row_nodes(set_index);
        let mut i: usize = row.len();
        while i > 0
            invariant
                h == element + 1,
                s == set_index,
                0 <= s < t.sets_count(),
                t.wf_layout(),
                row@ == t.row_seq(s),
                t.ec() < t.head_of(s) < t.end_of(s) <= t.n() < usize::MAX,
                forall|x: int| t.head_of(s) <= x < t.end_of(s) ==> #[trigger] t.is_item(x),
                i <= row@.len(),
                row_cover_chain(w, s, h),
                w.last().same(t),
                m == t.end_of(s) - t.head_of(s),
                same_row_cols(w[0], t, s),
                w[0].n() == t.n(),
                w[0].ec() == t.ec(),
                self.nodes@.len() == t.n(),
                self.element_count == t.element_count,
                self.same(w[i as int]),
                unrolled(t, *self, s, h, i as int),
            decreases i,
        {
            let index = row[i - 1];
            let ghost before = *self;
            let ghost j = i - 1;
            assert(index == t.head_of(s) + j && t.is_item(index as int));
            proof {
                lemma_chain_at(w, s, h, m, j);
                lemma_chain_at(w, s, h, m, j + 1);
            }
            assert(self.nodes@[index as int].header == t.nodes@[index as int].header
                && 1 <= t.nodes@[index as int].header <= t.ec()) by {
                assert(t.nodes@[index as int].set is Some);
                assert(w[j + 1].nodes@[index as int].header == w[0].nodes@[index as int].header);
                assert(w[0].hdr(index as int) == t.hdr(index as int));
            }
            let node_element = self.get_element(&self.nodes[index]);
            if node_element != element {
                let ghost g = node_element + 1;
                proof {
                    assert(w[0].hdr(w[0].head_of(s) + j) == g);
                    assert(t.hdr(t.head_of(s) + j) == g);
                    lemma_uncover_pre_same(w[j], w[j + 1], *self, g);
                }
                self.uncover_element(node_element);
                assert(forall|t0: DLXTable| #[trigger] uncover_pre(t0, before, g) ==> self.same(t0));
            }
            proof {
                lemma_uncover_row_step(t, before, *self, s, h, j);
                assert(self.same(w[j])) by {
                    reveal(unrolled);
                }
            }
            i -= 1;
        }
        proof {
            reveal(unrolled);
        }
    }
}

} // verus!
