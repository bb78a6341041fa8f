//! A second dancing-links layout: the node list starts with one header
//! node per item, followed by the sets, each set a spacer node followed by
//! one item node per member.  The list of item headers is kept apart, with
//! slot 0 for the root.
use vstd::prelude::*;

verus! {

#[derive(Clone, Copy, PartialEq, Eq, Debug)]
pub enum Node {
    HeaderNode(Header),
    SpacerNode(Spacer),
    ItemNode(Item),
}

#[derive(Clone, Copy, PartialEq, Eq, Debug)]
pub struct ItemHeader {
    pub value: usize,
    pub prev: usize,
    pub next: usize,
}

#[derive(Clone, Copy, PartialEq, Eq, Debug)]
pub struct Header {
    pub first: usize,
    pub last: usize,
    pub length: usize,
}

#[derive(Clone, Copy, PartialEq, Eq, Debug)]
pub struct Item {
    pub header: usize,
    pub above: usize,
    pub below: usize,
}

#[derive(Clone, Copy, PartialEq, Eq, Debug)]
pub struct Spacer {
    pub prev: usize,
    pub next: usize,
}

impl Node {
    pub fn get_header(&self) -> (r: Option<&Header>)
        ensures
            r is Some <==> *self is HeaderNode,
            r is Some ==> *self == Node::HeaderNode(*r->0),
    {
        match self {
            Node::HeaderNode(header) => Some(header),
            _ => None,
        }
    }

    pub fn get_spacer(&self) -> (r: Option<&Spacer>)
        ensures
            r is Some <==> *self is SpacerNode,
            r is Some ==> *self == Node::SpacerNode(*r->0),
    {
        match self {
            Node::SpacerNode(spacer) => Some(spacer),
            _ => None,
        }
    }

    pub fn get_item(&self) -> (r: Option<&Item>)
        ensures
            r is Some <==> *self is ItemNode,
            r is Some ==> *self == Node::ItemNode(*r->0),
    {
        match self {
            Node::ItemNode(item) => Some(item),
            _ => None,
        }
    }

    /// The node below: a header's first node, an item's lower neighbour or
    /// a spacer's next link.
    pub open spec fn below_of(self) -> usize {
        match self {
            Node::HeaderNode(header) => header.first,
            Node::ItemNode(item) => item.below,
            Node::SpacerNode(spacer) => spacer.next,
        }
    }

    /// The node above: a header's last node, an item's upper neighbour or
    /// a spacer's previous link.
    pub open spec fn above_of(self) -> usize {
        match self {
            Node::HeaderNode(header) => header.last,
            Node::ItemNode(item) => item.above,
            Node::SpacerNode(spacer) => spacer.prev,
        }
    }

    pub fn get_below(self) -> (r: Option<usize>)
        ensures
            r == Some(self.below_of()),
    {
        match self {
            Node::HeaderNode(header) => Some(header.first),
            Node::ItemNode(item) => Some(item.below),
            Node::SpacerNode(spacer) => Some(spacer.next),
        }
    }

    pub fn get_above(self) -> (r: Option<usize>)
        ensures
            r == Some(self.above_of()),
    {
        match self {
            Node::HeaderNode(header) => Some(header.last),
            Node::ItemNode(item) => Some(item.above),
            Node::SpacerNode(spacer) => Some(spacer.prev),
        }
    }

    /// The node with its upper link set to `a`; spacers are left alone.
    pub open spec fn with_above(self, a: usize) -> Node {
        match self {
            Node::ItemNode(item) => Node::ItemNode(Item { above: a, ..item }),
            Node::HeaderNode(header) => Node::HeaderNode(Header { last: a, ..header }),
            Node::SpacerNode(spacer) => self,
        }
    }

    /// The node with its lower link set to `b`; spacers are left alone.
    pub open spec fn with_below(self, b: usize) -> Node {
        match self {
            Node::ItemNode(item) => Node::ItemNode(Item { below: b, ..item }),
            Node::HeaderNode(header) => Node::HeaderNode(Header { first: b, ..header }),
            Node::SpacerNode(spacer) => self,
        }
    }

    pub fn set_above(&mut self, new_above: usize)
        ensures
            *final(self) == old(self).with_above(new_above),
    {
        match self {
            Node::ItemNode(item) => {
                item.above = new_above;
            },
            Node::HeaderNode(header) => {
                header.last = new_above;
            },
            _ => {},
        }
    }

    pub fn set_below(&mut self, new_below: usize)
        ensures
            *final(self) == old(self).with_below(new_below),
    {
        match self {
            Node::ItemNode(item) => {
                item.below = new_below;
            },
            Node::HeaderNode(header) => {
                header.first = new_below;
            },
            _ => {},
        }
    }
}

#[derive(Clone, PartialEq, Eq, Debug)]
pub struct NodeList(pub Vec<Node>);

impl NodeList {
    pub fn get(&self, index: usize) -> (r: Option<Node>)
        ensures
            r == (if index < self.0@.len() { Some(self.0@[index as int]) } else { None::<Node> }),
    {
        if index < self.0.len() {
            Some(self.0[index])
        } else {
            None
        }
    }

    pub fn get_header(&self, index: usize) -> (r: Option<Header>)
        ensures
            r is Some <==> index < self.0@.len() && self.0@[index as int] is HeaderNode,
            r is Some ==> self.0@[index as int] == Node::HeaderNode(r->0),
    {
        if index < self.0.len() {
            match self.0[index] {
                Node::HeaderNode(header) => Some(header),
                _ => None,
            }
        } else {
            None
        }
    }

    pub fn get_spacer(&self, index: usize) -> (r: Option<Spacer>)
        ensures
            r is Some <==> index < self.0@.len() && self.0@[index as int] is SpacerNode,
            r is Some ==> self.0@[index as int] == Node::SpacerNode(r->0),
    {
        if index < self.0.len() {
            match self.0[index] {
                Node::SpacerNode(spacer) => Some(spacer),
                _ => None,
            }
        } else {
            None
        }
    }

    pub fn get_item(&self, index: usize) -> (r: Option<Item>)
        ensures
            r is Some <==> index < self.0@.len() && self.0@[index as int] is ItemNode,
            r is Some ==> self.0@[index as int] == Node::ItemNode(r->0),
    {
        if index < self.0.len() {
            match self.0[index] {
                Node::ItemNode(item) => Some(item),
                _ => None,
            }
        } else {
            None
        }
    }
}

#[derive(Clone, PartialEq, Eq, Debug)]
pub struct DLXTable {
    pub item_headers: Vec<ItemHeader>,
    pub nodes: NodeList,
}

// ---------------------------------------------------------------------
// Construction
// ---------------------------------------------------------------------

/// One more than the largest member of `s`, or 0 when `s` is empty.
pub open spec fn set_bound(s: Seq<usize>) -> nat
    decreases s.len(),
{
    if s.len() == 0 {
        0
    } else {
        let b = set_bound(s.drop_last());
        if b > s.last() + 1 { b } else { (s.last() + 1) as nat }
    }
}

/// One more than the largest member of any set, or 0 when there is none:
/// the number of items.
pub open spec fn item_bound(sets: Seq<Seq<usize>>) -> nat
    decreases sets.len(),
{
    if sets.len() == 0 {
        0
    } else {
        let b = item_bound(sets.drop_last());
        let c = set_bound(sets.last());
        if b > c { b } else { c }
    }
}

/// The number of members over all sets.
pub open spec fn member_count(sets: Seq<Seq<usize>>) -> nat
    decreases sets.len(),
{
    if sets.len() == 0 {
        0
    } else {
        member_count(sets.drop_last()) + sets.last().len()
    }
}

/// The number of nodes the non-empty sets take: a spacer and one node per
/// member each.
pub open spec fn set_nodes(sets: Seq<Seq<usize>>) -> nat
    decreases sets.len(),
{
    if sets.len() == 0 {
        0
    } else {
        set_nodes(sets.drop_last()) + if sets.last().len() > 0 { sets.last().len() + 1 } else { 0 }
    }
}

pub open spec fn deep(sets: Seq<Vec<usize>>) -> Seq<Seq<usize>> {
    Seq::new(sets.len(), |i: int| sets[i]@)
}

proof fn lemma_set_bound(s: Seq<usize>)
    ensures
        forall|k: int| 0 <= k < s.len() ==> s[k] < set_bound(s),
        set_bound(s) > 0 ==> exists|k: int| 0 <= k < s.len() && s[k] + 1 == set_bound(s),
    decreases s.len(),
{
    if s.len() > 0 {
        lemma_set_bound(s.drop_last());
        if set_bound(s.drop_last()) > s.last() + 1 {
            let k = choose|k: int| 0 <= k < s.drop_last().len() && s.drop_last()[k] + 1 == set_bound(s.drop_last());
            assert(s[k] + 1 == set_bound(s));
        } else {
            assert(s[s.len() - 1] + 1 == set_bound(s));
        }
        assert forall|k: int| 0 <= k < s.len() implies s[k] < set_bound(s) by {
            if k < s.len() - 1 {
                assert(s.drop_last()[k] == s[k]);
            }
        }
    }
}

proof fn lemma_item_bound(sets: Seq<Seq<usize>>)
    ensures
        forall|i: int, k: int| 0 <= i < sets.len() && 0 <= k < sets[i].len() ==> sets[i][k] < item_bound(sets),
        item_bound(sets) > 0 ==> exists|i: int, k: int|
            0 <= i < sets.len() && 0 <= k < sets[i].len() && sets[i][k] + 1 == item_bound(sets),
    decreases sets.len(),
{
    if sets.len() > 0 {
        let n = sets.len() - 1;
        lemma_item_bound(sets.drop_last());
        lemma_set_bound(sets.last());
        if item_bound(sets.drop_last()) > set_bound(sets.last()) {
            let (i, k) = choose|i: int, k: int|
                0 <= i < sets.drop_last().len() && 0 <= k < sets.drop_last()[i].len()
                    && sets.drop_last()[i][k] + 1 == item_bound(sets.drop_last());
            assert(sets[i][k] + 1 == item_bound(sets));
        } else if set_bound(sets.last()) > 0 {
            let k = choose|k: int| 0 <= k < sets.last().len() && sets.last()[k] + 1 == set_bound(sets.last());
            assert(sets[n][k] + 1 == item_bound(sets));
        }
        assert forall|i: int, k: int| 0 <= i < sets.len() && 0 <= k < sets[i].len() implies sets[i][k] < item_bound(sets) by {
            if i < n {
                assert(sets.drop_last()[i] == sets[i]);
            }
        }
    }
}

/// The number of items: one more than the largest member of any set.
pub fn get_item_count(sets: &Vec<Vec<usize>>) -> (n: usize)
    requires
        forall|i: int, k: int| 0 <= i < sets@.len() && 0 <= k < sets@[i]@.len() ==> sets@[i]@[k] < usize::MAX,
    ensures
        n == item_bound(deep(sets@)),
{
    let ghost ds = deep(sets@);
    let mut n: usize = 0;
    let mut i: usize = 0;
    while i < sets.len()
        invariant
            i <= sets@.len(),
            ds == deep(sets@),
            forall|a: int, k: int| 0 <= a < sets@.len() && 0 <= k < sets@[a]@.len() ==> sets@[a]@[k] < usize::MAX,
            n == item_bound(ds.take(i as int)),
        decreases sets@.len() - i,
    {
        let set = &sets[i];
        let mut m: usize = 0;
        let mut k: usize = 0;
        while k < set.len()
            invariant
                k <= set@.len(),
                *set == sets@[i as int],
                forall|j: int| 0 <= j < set@.len() ==> set@[j] < usize::MAX,
                m == set_bound(set@.take(k as int)),
            decreases set@.len() - k,
        {
            assert(set@.take(k + 1).drop_last() == set@.take(k as int));
            if set[k] + 1 > m {
                m = set[k] + 1;
            }
            k += 1;
        }
        assert(set@.take(k as int) == set@);
        assert(ds.take(i + 1).drop_last() == ds.take(i as int));
        assert(ds.take(i + 1).last() == set@);
        if m > n {
            n = m;
        }
        i += 1;
    }
    assert(ds.take(i as int) == ds);
    n
}

/// The number of members over all sets.
pub fn get_item_instance_count(sets: &Vec<Vec<usize>>) -> (n: usize)
    requires
        member_count(deep(sets@)) <= usize::MAX,
    ensures
        n == member_count(deep(sets@)),
{
    let ghost ds = deep(sets@);
    let mut n: usize = 0;
    let mut i: usize = 0;
    while i < sets.len()
        invariant
            i <= sets@.len(),
            ds == deep(sets@),
            member_count(ds) <= usize::MAX,
            n == member_count(ds.take(i as int)),
        decreases sets@.len() - i,
    {
        assert(ds.take(i + 1).drop_last() == ds.take(i as int));
        proof {
            lemma_member_count_prefix(ds, i + 1);
        }
        n = n + sets[i].len();
        i += 1;
    }
    assert(ds.take(i as int) == ds);
    n
}

proof fn lemma_member_count_prefix(sets: Seq<Seq<usize>>, i: int)
    requires
        0 <= i <= sets.len(),
    ensures
        member_count(sets.take(i)) <= member_count(sets),
    decreases sets.len(),
{
    if i < sets.len() {
        assert(sets.drop_last().take(i) == sets.take(i));
        lemma_member_count_prefix(sets.drop_last(), i);
    } else {
        assert(sets.take(i) == sets);
    }
}

/// The root slot of the item headers.
pub open spec fn root_header(item_count: nat) -> ItemHeader {
    if item_count > 0 {
        ItemHeader { value: usize::MAX, prev: item_count as usize, next: 1 }
    } else {
        ItemHeader { value: usize::MAX, prev: 0, next: 0 }
    }
}

/// The item headers of a table of `item_count` items: the root, then one
/// slot per item, all in one cyclic list.
pub open spec fn item_headers_of(item_count: nat) -> Seq<ItemHeader> {
    Seq::new(item_count + 1, |i: int|
        if i == 0 {
            root_header(item_count)
        } else {
            ItemHeader { value: (i - 1) as usize, prev: (i - 1) as usize, next: ((i + 1) % (item_count as int + 1)) as usize }
        })
}

pub fn make_root_header(item_count: usize) -> (h: ItemHeader)
    ensures
        h == root_header(item_count as nat),
{
    if item_count > 0 {
        ItemHeader { value: usize::MAX, prev: item_count, next: 1 }
    } else {
        ItemHeader { value: usize::MAX, prev: 0, next: 0 }
    }
}

pub fn make_item_headers(item_count: usize) -> (r: Vec<ItemHeader>)
    requires
        item_count < usize::MAX,
    ensures
        r@ == item_headers_of(item_count as nat),
{
    let mut item_headers: Vec<ItemHeader> = Vec::with_capacity(item_count + 1);
    item_headers.push(make_root_header(item_count));
    let mut val: usize = 0;
    while val < item_count
        invariant
            val <= item_count < usize::MAX,
            item_headers@ == item_headers_of(item_count as nat).take(val + 1),
        decreases item_count - val,
    {
        let node_index = val + 1;
        item_headers.push(ItemHeader { value: val, prev: node_index - 1, next: (node_index + 1) % (item_count + 1) });
        val += 1;
        assert(item_headers@ =~= item_headers_of(item_count as nat).take(val + 1));
    }
    assert(item_headers@ =~= item_headers_of(item_count as nat));
    item_headers
}

/// The header nodes of a table of `item_count` items, before any set.
pub open spec fn headers_of(item_count: nat) -> Seq<Node> {
    Seq::new(item_count, |i: int| Node::HeaderNode(Header { first: i as usize, last: i as usize, length: 0 }))
}

pub fn append_headers(nodes: &mut Vec<Node>, item_count: usize)
    ensures
        final(nodes)@ == old(nodes)@ + headers_of(item_count as nat),
{
    let ghost start = nodes@;
    let mut node_index: usize = 0;
    while node_index < item_count
        invariant
            node_index <= item_count,
            nodes@ == start + headers_of(item_count as nat).take(node_index as int),
        decreases item_count - node_index,
    {
        nodes.push(Node::HeaderNode(Header { first: node_index, last: node_index, length: 0 }));
        node_index += 1;
        assert(nodes@ =~= start + headers_of(item_count as nat).take(node_index as int));
    }
    assert(headers_of(item_count as nat).take(node_index as int) =~= headers_of(item_count as nat));
}

/// The links of a node list whose first `hc` nodes are the headers: every
/// link points into the list, an item's upper neighbour lies before it and
/// its lower neighbour after it or at a header.
pub open spec fn links_ok(nodes: Seq<Node>, hc: int) -> bool {
    &&& 0 <= hc <= nodes.len()
    &&& forall|i: int|
        #![trigger nodes[i]]
        0 <= i < nodes.len() ==> (nodes[i] is HeaderNode <==> i < hc)
    &&& forall|i: int|
        #![trigger nodes[i]]
        0 <= i < hc ==> nodes[i]->HeaderNode_0.first < nodes.len() && nodes[i]->HeaderNode_0.last < nodes.len()
    &&& forall|i: int|
        #![trigger nodes[i]]
        0 <= i < nodes.len() && nodes[i] is ItemNode ==> {
            let item = nodes[i]->ItemNode_0;
            &&& hc < i
            &&& item.header < hc
            &&& item.above < i
            &&& (i < item.below < nodes.len() || item.below < hc)
        }
}

/// Header `h`'s first and last nodes are in its column and point back to
/// it; an empty column's header points to itself both ways.
pub open spec fn header_linked(nodes: Seq<Node>, h: int) -> bool {
    let hd = nodes[h]->HeaderNode_0;
    &&& (hd.first == h <==> hd.last == h)
    &&& hd.first != h ==> nodes[hd.first as int] is ItemNode && nodes[hd.first as int]->ItemNode_0.above == h
        && nodes[hd.first as int]->ItemNode_0.header == h
    &&& hd.last != h ==> nodes[hd.last as int] is ItemNode && nodes[hd.last as int]->ItemNode_0.below == h
        && nodes[hd.last as int]->ItemNode_0.header == h
}

/// Item node `i`'s upper and lower neighbours point back to it.
pub open spec fn item_linked(nodes: Seq<Node>, i: int) -> bool {
    let it = nodes[i]->ItemNode_0;
    nodes[i] is ItemNode ==> {
        &&& it.above == it.header ==> nodes[it.header as int]->HeaderNode_0.first == i
        &&& it.above != it.header ==> nodes[it.above as int] is ItemNode && nodes[it.above as int]->ItemNode_0.below == i
            && nodes[it.above as int]->ItemNode_0.header == it.header
        &&& it.below == it.header ==> nodes[it.header as int]->HeaderNode_0.last == i
        &&& it.below != it.header ==> nodes[it.below as int] is ItemNode && nodes[it.below as int]->ItemNode_0.above == i
            && nodes[it.below as int]->ItemNode_0.header == it.header
    }
}

/// Every column is a doubly linked list through its header.
#[verifier::opaque]
pub open spec fn columns_linked(nodes: Seq<Node>, hc: int) -> bool {
    &&& forall|h: int| 0 <= h < hc ==> #[trigger] header_linked(nodes, h)
    &&& forall|i: int| 0 <= i < nodes.len() ==> #[trigger] item_linked(nodes, i)
}

/// The nodes with one more node at the end of column `h`, below its last
/// node.
#[verifier::opaque]
pub open spec fn added(n0: Seq<Node>, h: int) -> Seq<Node> {
    let cur = n0.len();
    let hd = n0[h]->HeaderNode_0;
    let n1 = n0.update(h, Node::HeaderNode(Header {
        first: if hd.first == h { cur as usize } else { hd.first },
        last: cur as usize,
        length: (hd.length + 1) as usize,
    }));
    let n2 = n1.push(Node::ItemNode(Item { header: h as usize, above: hd.last, below: h as usize }));
    if hd.last != h {
        n2.update(hd.last as int, n2[hd.last as int].with_below(cur as usize))
    } else {
        n2
    }
}

/// The headers alone are linked columns, each empty.
proof fn lemma_headers_linked(item_count: nat)
    requires
        item_count < usize::MAX,
    ensures
        columns_linked(headers_of(item_count), item_count as int),
{
    reveal(columns_linked);
    let n = headers_of(item_count);
    assert forall|h: int| 0 <= h < item_count implies #[trigger] header_linked(n, h) by {}
    assert forall|i: int| 0 <= i < n.len() implies #[trigger] item_linked(n, i) by {}
}

/// A spacer at the end leaves the columns linked.
proof fn lemma_spacer_linked(n0: Seq<Node>, hc: int, sp: Spacer)
    requires
        columns_linked(n0, hc),
        links_ok(n0, hc),
    ensures
        columns_linked(n0.push(Node::SpacerNode(sp)), hc),
{
    reveal(columns_linked);
    let n = n0.push(Node::SpacerNode(sp));
    assert forall|h: int| 0 <= h < hc implies #[trigger] header_linked(n, h) by {
        assert(header_linked(n0, h));
        assert(n0[h] is HeaderNode);
        let hd = n0[h]->HeaderNode_0;
        assert(hd.first < n0.len() && hd.last < n0.len());
    }
    assert forall|i: int| 0 <= i < n.len() implies #[trigger] item_linked(n, i) by {
        if i < n0.len() {
            assert(item_linked(n0, i));
            if n0[i] is ItemNode {
                let it = n0[i]->ItemNode_0;
                assert(it.above < i && (i < it.below < n0.len() || it.below < hc));
            }
        }
    }
}

/// What adding a node at the end of column `h` changes: the header, the
/// node above, and the new node.
proof fn lemma_added_shape(n0: Seq<Node>, hc: int, h: int)
    requires
        links_ok(n0, hc),
        0 <= h < hc,
        n0.len() + 1 < usize::MAX,
    ensures
        added(n0, h).len() == n0.len() + 1,
        forall|x: int|
            0 <= x < n0.len() && x != h && x != n0[h]->HeaderNode_0.last ==> #[trigger] added(n0, h)[x] == n0[x],
        added(n0, h)[h] == Node::HeaderNode(Header {
            first: if n0[h]->HeaderNode_0.first == h { n0.len() as usize } else { n0[h]->HeaderNode_0.first },
            last: n0.len() as usize,
            length: (n0[h]->HeaderNode_0.length + 1) as usize,
        }),
        added(n0, h)[n0.len() as int] == Node::ItemNode(Item { header: h as usize, above: n0[h]->HeaderNode_0.last, below: h as usize }),
        n0[h]->HeaderNode_0.last != h ==> added(n0, h)[n0[h]->HeaderNode_0.last as int] == n0[n0[h]->HeaderNode_0.last as int].with_below(
            n0.len() as usize,
        ),
{
    reveal(added);
    assert(n0[h] is HeaderNode);
}

/// A node added at the end of a column leaves the headers linked.
#[verifier::spinoff_prover]
#[verifier::rlimit(60)]
proof fn lemma_added_headers(n0: Seq<Node>, hc: int, h: int)
    requires
        columns_linked(n0, hc),
        links_ok(n0, hc),
        0 <= h < hc,
        n0.len() + 1 < usize::MAX,
    ensures
        forall|g: int| 0 <= g < hc ==> #[trigger] header_linked(added(n0, h), g),
{
    lemma_added_shape(n0, hc, h);
    reveal(columns_linked);
    let n = added(n0, h);
    let cur = n0.len() as int;
    let last = n0[h]->HeaderNode_0.last as int;
    assert(n0[h] is HeaderNode);
    assert(header_linked(n0, h));
    assert forall|g: int| 0 <= g < hc implies #[trigger] header_linked(n, g) by {
        assert(header_linked(n0, g));
        assert(n0[g] is HeaderNode);
        let hd0 = n0[g]->HeaderNode_0;
        if g != h {
            assert(n[g] == n0[g]);
            if hd0.first != g {
                assert(n0[hd0.first as int]->ItemNode_0.header == g);
                if hd0.first as int != last {
                    assert(n[hd0.first as int] == n0[hd0.first as int]);
                } else {
                    assert(n0[last]->ItemNode_0.header == h);
                }
            }
            if hd0.last != g {
                assert(n0[hd0.last as int]->ItemNode_0.header == g);
                if hd0.last as int != last {
                    assert(n[hd0.last as int] == n0[hd0.last as int]);
                } else {
                    assert(n0[last]->ItemNode_0.header == h);
                }
            }
        } else if hd0.first != h {
            let f = hd0.first as int;
            assert(n0[f] is ItemNode);
            if f != last {
                assert(n[f] == n0[f]);
            } else {
                assert(n[f] == n0[f].with_below(cur as usize));
                assert(n[f]->ItemNode_0.above == n0[f]->ItemNode_0.above);
            }
        }
    }
}

/// A node added at the end of a column leaves the item nodes linked.
#[verifier::spinoff_prover]
#[verifier::rlimit(60)]
proof fn lemma_added_items(n0: Seq<Node>, hc: int, h: int)
    requires
        columns_linked(n0, hc),
        links_ok(n0, hc),
        0 <= h < hc,
        n0.len() + 1 < usize::MAX,
    ensures
        forall|i: int| 0 <= i < added(n0, h).len() ==> #[trigger] item_linked(added(n0, h), i),
{
    lemma_added_shape(n0, hc, h);
    reveal(columns_linked);
    let n = added(n0, h);
    let cur = n0.len() as int;
    let last = n0[h]->HeaderNode_0.last as int;
    assert(n0[h] is HeaderNode);
    assert(header_linked(n0, h));
    assert forall|i: int| 0 <= i < n.len() implies #[trigger] item_linked(n, i) by {
        if i == cur {
            if last != h {
                assert(n0[last] is ItemNode);
            }
        } else if i == last && last != h {
            assert(item_linked(n0, i));
            let it0 = n0[i]->ItemNode_0;
            assert(n0[i] is ItemNode);
            if it0.above != it0.header {
                let a = it0.above as int;
                assert(n0[a] is ItemNode && n0[a]->ItemNode_0.below == i);
                assert(a < i);
                assert(a != h);
                assert(n[a] == n0[a]);
            } else {
                assert(n0[h]->HeaderNode_0.first == i);
            }
        } else if i == h {
        } else {
            assert(item_linked(n0, i));
            assert(n[i] == n0[i]);
            if n0[i] is ItemNode {
                let it = n0[i]->ItemNode_0;
                assert(it.header < hc && it.above < i);
                if it.above == it.header {
                    assert(n0[it.header as int]->HeaderNode_0.first == i);
                    if it.header as int != h {
                        assert(n[it.header as int] == n0[it.header as int]);
                    } else {
                        assert(n0[h]->HeaderNode_0.first != h);
                    }
                } else {
                    let a = it.above as int;
                    assert(n0[a] is ItemNode && n0[a]->ItemNode_0.below == i);
                    if a == last && last != h {
                        assert(header_linked(n0, h));
                        assert(n0[last]->ItemNode_0.below == h);
                    }
                    assert(a != h);
                    if a != last {
                        assert(n[a] == n0[a]);
                    }
                }
                if it.below == it.header {
                    assert(n0[it.header as int]->HeaderNode_0.last == i);
                    if it.header as int != h {
                        assert(n[it.header as int] == n0[it.header as int]);
                    }
                } else {
                    let b = it.below as int;
                    assert(n0[b] is ItemNode && n0[b]->ItemNode_0.above == i);
                    assert(b != h);
                    if b != last {
                        assert(n[b] == n0[b]);
                    }
                }
            }
        }
    }
}

/// A node added at the end of a column leaves the columns linked.
proof fn lemma_added_linked(n0: Seq<Node>, hc: int, h: int)
    requires
        columns_linked(n0, hc),
        links_ok(n0, hc),
        0 <= h < hc,
        n0.len() + 1 < usize::MAX,
    ensures
        columns_linked(added(n0, h), hc),
{
    lemma_added_headers(n0, hc, h);
    lemma_added_items(n0, hc, h);
    reveal(columns_linked);
}

/// The nodes with the members of `set` added one after the other, each at
/// the end of its column.
pub open spec fn with_members(n0: Seq<Node>, set: Seq<usize>) -> Seq<Node>
    decreases set.len(),
{
    if set.len() == 0 {
        n0
    } else {
        added(with_members(n0, set.drop_last()), set.last() as int)
    }
}

/// The node list of a table of `hc` items holding `sets`: the headers,
/// then each non-empty set as a spacer followed by one node per member,
/// each added at the end of its column.  The spacer points back to the
/// first member node of the non-empty set before it (`usize::MAX` for the
/// first) and on to the last member node of its own set.
pub open spec fn layout(sets: Seq<Seq<usize>>, hc: nat) -> Seq<Node>
    decreases sets.len(), 1nat,
{
    if sets.len() == 0 {
        headers_of(hc)
    } else {
        let n = layout(sets.drop_last(), hc);
        let s = sets.last();
        if s.len() == 0 {
            n
        } else {
            let sp = Spacer { prev: last_block(sets.drop_last(), hc), next: (n.len() + s.len()) as usize };
            with_members(n.push(Node::SpacerNode(sp)), s)
        }
    }
}

/// Index of the first member node of the last non-empty set of `sets` in
/// their layout, or `usize::MAX` when every set is empty.
pub open spec fn last_block(sets: Seq<Seq<usize>>, hc: nat) -> usize
    decreases sets.len(), 0nat,
{
    if sets.len() == 0 {
        usize::MAX
    } else if sets.last().len() == 0 {
        last_block(sets.drop_last(), hc)
    } else {
        (layout(sets.drop_last(), hc).len() + 1) as usize
    }
}

/// Every header of the first `hc` nodes counts at most as many nodes as
/// the list holds.
pub open spec fn lengths_ok(nodes: Seq<Node>, hc: int) -> bool {
    forall|i: int| #![trigger nodes[i]] 0 <= i < hc ==> nodes[i]->HeaderNode_0.length <= nodes.len()
}

/// Adds the node of `header_index` at the end, as the last node of its
/// column.
fn add_item_node(nodes: &mut Vec<Node>, current: usize, header_index: usize, Ghost(hc): Ghost<int>)
    requires
        links_ok(old(nodes)@, hc),
        lengths_ok(old(nodes)@, hc),
        sets_ok(old(nodes)@, hc),
        header_index < hc,
        current == old(nodes)@.len(),
        hc < old(nodes)@.len(),
        old(nodes)@.len() + 1 < usize::MAX,
    ensures
        links_ok(final(nodes)@, hc),
        lengths_ok(final(nodes)@, hc),
        sets_ok(final(nodes)@, hc),
        forall|x: int| 0 <= x < old(nodes)@.len() ==> (#[trigger] final(nodes)@[x] is ItemNode <==> old(nodes)@[x] is ItemNode)
            && (final(nodes)@[x] is SpacerNode <==> old(nodes)@[x] is SpacerNode)
            && (final(nodes)@[x] is SpacerNode ==> final(nodes)@[x] == old(nodes)@[x]),
        final(nodes)@.len() == old(nodes)@.len() + 1,
        final(nodes)@[current as int] is ItemNode,
        final(nodes)@[current as int]->ItemNode_0.header == header_index,
        final(nodes)@ == added(old(nodes)@, header_index as int),
{
    match nodes[header_index] {
        Node::HeaderNode(header) => {
            let above = header.last;
            let first = if header.first == header_index { current } else { header.first };
            nodes.set(header_index, Node::HeaderNode(Header { first, last: current, length: header.length + 1 }));
            nodes.push(Node::ItemNode(Item { header: header_index, above, below: header_index }));
            if above != header_index {
                let mut prev = nodes[above];
                prev.set_below(current);
                nodes.set(above, prev);
            }
            proof {
                reveal(added);
                let n = nodes@;
                assert forall|i: int| #![trigger n[i]] 0 <= i < n.len() && n[i] is ItemNode implies {
                    let item = n[i]->ItemNode_0;
                    &&& hc < i
                    &&& item.header < hc
                    &&& item.above < i
                    &&& (i < item.below < n.len() || item.below < hc)
                } by {
                    if i < current {
                        assert(old(nodes)@[i] is ItemNode);
                    }
                }
                assert forall|x: int| 0 <= x < old(nodes)@.len() implies (#[trigger] n[x] is ItemNode <==> old(nodes)@[x] is ItemNode)
                    && (n[x] is SpacerNode <==> old(nodes)@[x] is SpacerNode)
                    && (n[x] is SpacerNode ==> n[x] == old(nodes)@[x]) by {}
                assert forall|p: int| #![trigger n[p]] 0 <= p < n.len() && n[p] is SpacerNode implies {
                    let prev = n[p]->SpacerNode_0.prev as int;
                    &&& p >= hc
                    &&& (prev != usize::MAX ==> {
                        &&& hc < prev <= p
                        &&& n[prev - 1] is SpacerNode
                        &&& forall|x: int| prev <= x < p ==> #[trigger] n[x] is ItemNode
                    })
                } by {
                    assert(old(nodes)@[p] is SpacerNode);
                    let prev = n[p]->SpacerNode_0.prev as int;
                    if prev != usize::MAX {
                        assert(old(nodes)@[prev - 1] is SpacerNode);
                        assert forall|x: int| prev <= x < p implies #[trigger] n[x] is ItemNode by {
                            assert(old(nodes)@[x] is ItemNode);
                        }
                    }
                }
            }
        },
        _ => {
            assert(false);
        },
    }
}

/// Adds a set: its spacer, then one node per member.
fn add_set(nodes: &mut Vec<Node>, prev_spacer: usize, start_index: usize, set: &[usize], Ghost(hc): Ghost<int>)
    requires
        columns_linked(old(nodes)@, hc),
        links_ok(old(nodes)@, hc),
        lengths_ok(old(nodes)@, hc),
        sets_ok(old(nodes)@, hc),
        hc <= old(nodes)@.len(),
        prev_spacer == usize::MAX || {
            &&& hc < prev_spacer <= old(nodes)@.len()
            &&& old(nodes)@[prev_spacer - 1] is SpacerNode
            &&& forall|x: int| prev_spacer <= x < old(nodes)@.len() ==> #[trigger] old(nodes)@[x] is ItemNode
        },
        start_index == old(nodes)@.len(),
        forall|k: int| 0 <= k < set@.len() ==> set@[k] < hc,
        old(nodes)@.len() + set@.len() + 2 < usize::MAX,
    ensures
        columns_linked(final(nodes)@, hc),
        links_ok(final(nodes)@, hc),
        lengths_ok(final(nodes)@, hc),
        sets_ok(final(nodes)@, hc),
        final(nodes)@[start_index as int] is SpacerNode,
        forall|x: int| start_index < x < final(nodes)@.len() ==> #[trigger] final(nodes)@[x] is ItemNode,
        final(nodes)@.len() == old(nodes)@.len() + set@.len() + 1,
        final(nodes)@ == with_members(
            old(nodes)@.push(Node::SpacerNode(Spacer { prev: prev_spacer, next: (start_index + set@.len()) as usize })),
            set@,
        ),
{
    let ghost n_before = nodes@;
    nodes.push(Node::SpacerNode(Spacer { prev: prev_spacer, next: start_index + set.len() }));
    proof {
        lemma_spacer_linked(n_before, hc, Spacer { prev: prev_spacer, next: (start_index + set.len()) as usize });
        let n = nodes@;
        assert forall|i: int| #![trigger n[i]] 0 <= i < n.len() && n[i] is ItemNode implies {
            let item = n[i]->ItemNode_0;
            &&& hc < i
            &&& item.header < hc
            &&& item.above < i
            &&& (i < item.below < n.len() || item.below < hc)
        } by {
            assert(old(nodes)@[i] is ItemNode);
        }
        assert forall|q: int| #![trigger n[q]] 0 <= q < n.len() && n[q] is SpacerNode implies {
            let prev = n[q]->SpacerNode_0.prev as int;
            &&& q >= hc
            &&& (prev != usize::MAX ==> {
                &&& hc < prev <= q
                &&& n[prev - 1] is SpacerNode
                &&& forall|x: int| prev <= x < q ==> #[trigger] n[x] is ItemNode
            })
        } by {
            if q < start_index {
                assert(old(nodes)@[q] is SpacerNode);
                let prev = n[q]->SpacerNode_0.prev as int;
                if prev != usize::MAX {
                    assert(old(nodes)@[prev - 1] is SpacerNode);
                    assert forall|x: int| prev <= x < q implies #[trigger] n[x] is ItemNode by {
                        assert(old(nodes)@[x] is ItemNode);
                    }
                }
            } else {
                if prev_spacer != usize::MAX {
                    assert forall|x: int| prev_spacer <= x < q implies #[trigger] n[x] is ItemNode by {
                        assert(old(nodes)@[x] is ItemNode);
                    }
                }
            }
        }
    }
    assert(set@.take(0) =~= Seq::<usize>::empty());
    let mut k: usize = 0;
    while k < set.len()
        invariant
            k <= set@.len(),
            columns_linked(nodes@, hc),
            links_ok(nodes@, hc),
            lengths_ok(nodes@, hc),
            sets_ok(nodes@, hc),
            nodes@[start_index as int] is SpacerNode,
            forall|x: int| start_index < x < nodes@.len() ==> #[trigger] nodes@[x] is ItemNode,
            nodes@.len() == start_index + 1 + k,
            forall|j: int| 0 <= j < set@.len() ==> set@[j] < hc,
            start_index + set@.len() + 2 < usize::MAX,
            nodes@ == with_members(
                n_before.push(Node::SpacerNode(Spacer { prev: prev_spacer, next: (start_index + set@.len()) as usize })),
                set@.take(k as int),
            ),
        decreases set@.len() - k,
    {
        let val = set[k];
        let ghost before = nodes@;
        add_item_node(nodes, nodes.len(), val, Ghost(hc));
        proof {
            lemma_added_linked(before, hc, val as int);
            assert forall|x: int| start_index < x < nodes@.len() implies #[trigger] nodes@[x] is ItemNode by {
                if x < before.len() {
                    assert(before[x] is ItemNode);
                }
            }
            assert(before[start_index as int] is SpacerNode);
            assert(set@.take(k + 1).drop_last() =~= set@.take(k as int));
        }
        k += 1;
    }
    assert(set@.take(k as int) =~= set@);
}

/// Adds the non-empty sets in order; the spacer of each set points back
/// to the first node of the set before.
fn append_sets(nodes: &mut Vec<Node>, sets: &Vec<Vec<usize>>, Ghost(hc): Ghost<int>)
    requires
        columns_linked(old(nodes)@, hc),
        links_ok(old(nodes)@, hc),
        lengths_ok(old(nodes)@, hc),
        old(nodes)@.len() == hc,
        old(nodes)@ == headers_of(hc as nat),
        forall|i: int, k: int| 0 <= i < sets@.len() && 0 <= k < sets@[i]@.len() ==> sets@[i]@[k] < hc,
        old(nodes)@.len() + set_nodes(deep(sets@)) + 1 < usize::MAX,
    ensures
        columns_linked(final(nodes)@, hc),
        links_ok(final(nodes)@, hc),
        sets_ok(final(nodes)@, hc),
        final(nodes)@.len() == old(nodes)@.len() + set_nodes(deep(sets@)),
        final(nodes)@ == layout(deep(sets@), hc as nat),
{
    let ghost ds = deep(sets@);
    let ghost base = nodes@.len();
    let mut prev_spacer: usize = usize::MAX;
    proof {
        let n = nodes@;
        assert forall|p: int| #![trigger n[p]] 0 <= p < n.len() && n[p] is SpacerNode implies {
            let prev = n[p]->SpacerNode_0.prev as int;
            &&& p >= hc
            &&& (prev != usize::MAX ==> {
                &&& hc < prev <= p
                &&& n[prev - 1] is SpacerNode
                &&& forall|x: int| prev <= x < p ==> #[trigger] n[x] is ItemNode
            })
        } by {}
    }
    assert(ds.take(0) =~= Seq::<Seq<usize>>::empty());
    let mut i: usize = 0;
    while i < sets.len()
        invariant
            columns_linked(nodes@, hc),
            i <= sets@.len(),
            ds == deep(sets@),
            links_ok(nodes@, hc),
            lengths_ok(nodes@, hc),
            sets_ok(nodes@, hc),
            base == hc,
            prev_spacer == usize::MAX ==> nodes@.len() == hc,
            prev_spacer != usize::MAX ==> {
                &&& hc < prev_spacer <= nodes@.len()
                &&& nodes@[prev_spacer - 1] is SpacerNode
                &&& forall|x: int| prev_spacer <= x < nodes@.len() ==> #[trigger] nodes@[x] is ItemNode
            },
            forall|a: int, k: int| 0 <= a < sets@.len() && 0 <= k < sets@[a]@.len() ==> sets@[a]@[k] < hc,
            nodes@.len() == base + set_nodes(ds.take(i as int)),
            base + set_nodes(ds) + 1 < usize::MAX,
            nodes@ == layout(ds.take(i as int), hc as nat),
            prev_spacer == last_block(ds.take(i as int), hc as nat),
        decreases sets@.len() - i,
    {
        let set = &sets[i];
        assert(ds.take(i + 1).drop_last() == ds.take(i as int));
        assert(ds.take(i + 1).last() == set@);
        proof {
            lemma_set_nodes_prefix(ds, i + 1);
        }
        if set.len() > 0 {
            let start = nodes.len();
            add_set(nodes, prev_spacer, start, set.as_slice(), Ghost(hc));
            prev_spacer = start + 1;
        }
        i += 1;
    }
    assert(ds.take(i as int) == ds);
}

proof fn lemma_set_nodes_prefix(sets: Seq<Seq<usize>>, i: int)
    requires
        0 <= i <= sets.len(),
    ensures
        set_nodes(sets.take(i)) <= set_nodes(sets),
    decreases sets.len(),
{
    if i < sets.len() {
        assert(sets.drop_last().take(i) == sets.take(i));
        lemma_set_nodes_prefix(sets.drop_last(), i);
    } else {
        assert(sets.take(i) == sets);
    }
}

/// The spacers: each one after the first points back to the first node of
/// the set before it, a block of item nodes that ends at the spacer.
pub open spec fn sets_ok(nodes: Seq<Node>, hc: int) -> bool {
    forall|p: int|
        #![trigger nodes[p]]
        0 <= p < nodes.len() && nodes[p] is SpacerNode ==> {
            let prev = nodes[p]->SpacerNode_0.prev as int;
            &&& p >= hc
            &&& (prev != usize::MAX ==> {
                &&& hc < prev <= p
                &&& nodes[prev - 1] is SpacerNode
                &&& forall|x: int| prev <= x < p ==> #[trigger] nodes[x] is ItemNode
            })
        }
}

/// Index of the first node from `i` on that is not an item node.
pub open spec fn run_end(nodes: Seq<Node>, i: int) -> int
    decreases nodes.len() - i,
{
    if 0 <= i < nodes.len() && nodes[i] is ItemNode {
        run_end(nodes, i + 1)
    } else {
        i
    }
}

proof fn lemma_run_end(nodes: Seq<Node>, i: int)
    requires
        0 <= i,
    ensures
        i <= run_end(nodes, i),
        forall|x: int| i <= x < run_end(nodes, i) ==> 0 <= x < nodes.len() && #[trigger] nodes[x] is ItemNode,
        !(0 <= run_end(nodes, i) < nodes.len() && nodes[run_end(nodes, i)] is ItemNode),
    decreases nodes.len() - i,
{
    if 0 <= i < nodes.len() && nodes[i] is ItemNode {
        lemma_run_end(nodes, i + 1);
    }
}

/// Every link of the item headers lies in range; a slot's next link
/// points further on or back to the root, and its previous link further
/// back.
pub open spec fn headers_ok(ih: Seq<ItemHeader>) -> bool {
    &&& ih.len() >= 1
    &&& forall|k: int|
        #![trigger ih[k]]
        0 <= k < ih.len() ==> {
            &&& ih[k].next < ih.len()
            &&& ih[k].prev < ih.len()
            &&& (ih[k].next == 0 || ih[k].next > k)
            &&& (k == 0 || ih[k].prev < k)
        }
}

/// The items listed from slot `i` on, following the next links until the
/// root.
pub open spec fn header_walk(ih: Seq<ItemHeader>, i: int) -> Seq<usize>
    decreases ih.len() - i,
{
    if 0 < i < ih.len() {
        let n = ih[i].next as int;
        if i < n < ih.len() {
            seq![(i - 1) as usize] + header_walk(ih, n)
        } else {
            seq![(i - 1) as usize]
        }
    } else {
        Seq::empty()
    }
}

/// The item nodes of a column from node `i` down, following the lower
/// links until they leave the item nodes.
pub open spec fn column_walk(nodes: Seq<Node>, i: int) -> Seq<usize>
    decreases nodes.len() - i,
{
    if 0 <= i < nodes.len() && nodes[i] is ItemNode {
        let b = nodes[i]->ItemNode_0.below as int;
        if i < b < nodes.len() {
            seq![i as usize] + column_walk(nodes, b)
        } else {
            seq![i as usize]
        }
    } else {
        Seq::empty()
    }
}

/// The nodes of the set through item node `index`, from `index` to the
/// end of the set and on from its start, when a spacer closes the set.
pub open spec fn set_items_of(nodes: Seq<Node>, index: int) -> Seq<usize> {
    if 0 <= index < nodes.len() && nodes[index] is ItemNode {
        let p = run_end(nodes, index + 1);
        if p < nodes.len() && nodes[p] is SpacerNode && nodes[p]->SpacerNode_0.prev < nodes.len() {
            let start = nodes[p]->SpacerNode_0.prev as int;
            Seq::new((p - index) as nat, |k: int| (index + k) as usize) + Seq::new((index - start) as nat, |k: int| (start + k) as usize)
        } else {
            Seq::empty()
        }
    } else {
        Seq::empty()
    }
}

// ---------------------------------------------------------------------
// Covering
// ---------------------------------------------------------------------

/// Taking item node `q` out of its column can be done: its links and its
/// header are in place and the header counts at least one node.
pub open spec fn hide_step_ok(nodes: Seq<Node>, q: int) -> bool {
    let item = nodes[q]->ItemNode_0;
    &&& item.above < nodes.len()
    &&& item.below < nodes.len()
    &&& item.header < nodes.len()
    &&& nodes[item.header as int] is HeaderNode
    &&& nodes[item.header as int]->HeaderNode_0.length >= 1
}

/// Item node `q` taken out of its column.
pub open spec fn hide_step(nodes: Seq<Node>, q: int) -> Seq<Node> {
    let item = nodes[q]->ItemNode_0;
    let n1 = nodes.update(item.above as int, nodes[item.above as int].with_below(item.below));
    let n2 = n1.update(item.below as int, n1[item.below as int].with_above(item.above));
    let h = n2[item.header as int]->HeaderNode_0;
    n2.update(item.header as int, Node::HeaderNode(Header { length: (h.length - 1) as usize, ..h }))
}

/// The item nodes from `q` to the end of their block taken out of their
/// columns, one after the other.
pub open spec fn hide_run(nodes: Seq<Node>, q: int) -> Seq<Node>
    decreases nodes.len() - q,
{
    if 0 <= q < nodes.len() && nodes[q] is ItemNode && hide_step_ok(nodes, q) && hide_step(nodes, q).len() == nodes.len() {
        hide_run(hide_step(nodes, q), q + 1)
    } else {
        nodes
    }
}

/// Every step of `hide_run(nodes, q)` can be done.
pub open spec fn hide_run_ok(nodes: Seq<Node>, q: int) -> bool
    decreases nodes.len() - q,
{
    if 0 <= q < nodes.len() && nodes[q] is ItemNode {
        hide_step_ok(nodes, q) && hide_step(nodes, q).len() == nodes.len() && hide_run_ok(hide_step(nodes, q), q + 1)
    } else {
        true
    }
}

/// Covering the column from item node `i` down: each item node's set
/// block after it is hidden, and the walk goes on below.
pub open spec fn cover_walk(nodes: Seq<Node>, i: int) -> Seq<Node>
    decreases nodes.len() - i,
{
    if 0 <= i < nodes.len() && nodes[i] is ItemNode {
        let b = nodes[i]->ItemNode_0.below as int;
        let n2 = hide_run(nodes, i + 1);
        if i < b < nodes.len() && n2.len() == nodes.len() {
            cover_walk(n2, b)
        } else {
            n2
        }
    } else {
        nodes
    }
}

/// Every hiding that `cover_walk(nodes, i)` does can be done.
pub open spec fn cover_walk_ok(nodes: Seq<Node>, i: int) -> bool
    decreases nodes.len() - i,
{
    if 0 <= i < nodes.len() && nodes[i] is ItemNode {
        let b = nodes[i]->ItemNode_0.below as int;
        let n2 = hide_run(nodes, i + 1);
        hide_run_ok(nodes, i + 1) && (i < b < nodes.len() && n2.len() == nodes.len() ==> cover_walk_ok(n2, b))
    } else {
        true
    }
}

#[verifier::rlimit(60)]
proof fn lemma_hide_step(nodes: Seq<Node>, q: int, hc: int)
    requires
        links_ok(nodes, hc),
        sets_ok(nodes, hc),
        0 <= q < nodes.len(),
        nodes[q] is ItemNode,
        hide_step_ok(nodes, q),
    ensures
        links_ok(hide_step(nodes, q), hc),
        sets_ok(hide_step(nodes, q), hc),
        hide_step(nodes, q).len() == nodes.len(),
        forall|x: int| 0 <= x < nodes.len() ==> (#[trigger] hide_step(nodes, q)[x] is ItemNode <==> nodes[x] is ItemNode),
{
    let n = hide_step(nodes, q);
    let item = nodes[q]->ItemNode_0;
    assert forall|x: int| 0 <= x < nodes.len() implies {
        &&& (n[x] is ItemNode <==> nodes[x] is ItemNode)
        &&& (n[x] is HeaderNode <==> nodes[x] is HeaderNode)
        &&& (n[x] is SpacerNode <==> nodes[x] is SpacerNode)
        &&& (n[x] is SpacerNode ==> n[x] == nodes[x])
        &&& (n[x] is ItemNode ==> n[x]->ItemNode_0.header == nodes[x]->ItemNode_0.header)
    } by {}
    assert forall|i: int| #![trigger n[i]] 0 <= i < n.len() && n[i] is ItemNode implies {
        let it = n[i]->ItemNode_0;
        &&& hc < i
        &&& it.header < hc
        &&& it.above < i
        &&& (i < it.below < n.len() || it.below < hc)
    } by {
        assert(nodes[i] is ItemNode);
    }
    assert forall|i: int| #![trigger n[i]] 0 <= i < hc implies n[i]->HeaderNode_0.first < n.len() && n[i]->HeaderNode_0.last < n.len() by {
        assert(nodes[i] is HeaderNode);
    }
    assert forall|p: int| #![trigger n[p]] 0 <= p < n.len() && n[p] is SpacerNode implies {
        let prev = n[p]->SpacerNode_0.prev as int;
        &&& p >= hc
        &&& (prev != usize::MAX ==> {
            &&& hc < prev <= p
            &&& n[prev - 1] is SpacerNode
            &&& forall|x: int| prev <= x < p ==> #[trigger] n[x] is ItemNode
        })
    } by {
        assert(nodes[p] is SpacerNode);
        let prev = nodes[p]->SpacerNode_0.prev as int;
        if prev != usize::MAX {
            assert(nodes[prev - 1] is SpacerNode);
            assert forall|x: int| prev <= x < p implies #[trigger] n[x] is ItemNode by {
                assert(nodes[x] is ItemNode);
            }
        }
    }
}

proof fn lemma_hide_run(nodes: Seq<Node>, q: int, hc: int)
    requires
        links_ok(nodes, hc),
        sets_ok(nodes, hc),
        0 <= q,
    ensures
        links_ok(hide_run(nodes, q), hc),
        sets_ok(hide_run(nodes, q), hc),
        hide_run(nodes, q).len() == nodes.len(),
        forall|x: int| 0 <= x < nodes.len() ==> (#[trigger] hide_run(nodes, q)[x] is ItemNode <==> nodes[x] is ItemNode),
    decreases nodes.len() - q,
{
    if 0 <= q < nodes.len() && nodes[q] is ItemNode && hide_step_ok(nodes, q) && hide_step(nodes, q).len() == nodes.len() {
        lemma_hide_step(nodes, q, hc);
        lemma_hide_run(hide_step(nodes, q), q + 1, hc);
    }
}

proof fn lemma_cover_walk(nodes: Seq<Node>, i: int, hc: int)
    requires
        links_ok(nodes, hc),
        sets_ok(nodes, hc),
        0 <= i,
    ensures
        links_ok(cover_walk(nodes, i), hc),
        sets_ok(cover_walk(nodes, i), hc),
        cover_walk(nodes, i).len() == nodes.len(),
    decreases nodes.len() - i,
{
    if 0 <= i < nodes.len() && nodes[i] is ItemNode {
        let b = nodes[i]->ItemNode_0.below as int;
        lemma_hide_run(nodes, i + 1, hc);
        let n2 = hide_run(nodes, i + 1);
        if i < b < nodes.len() && n2.len() == nodes.len() {
            lemma_cover_walk(n2, b, hc);
        }
    }
}

/// Putting item node `q` back into its column can be done.
pub open spec fn unhide_step_ok(nodes: Seq<Node>, q: int) -> bool {
    let item = nodes[q]->ItemNode_0;
    &&& item.above < nodes.len()
    &&& item.below < nodes.len()
    &&& item.header < nodes.len()
    &&& nodes[item.header as int] is HeaderNode
    &&& nodes[item.header as int]->HeaderNode_0.length < usize::MAX
}

/// Item node `q` put back between the neighbours it points to.
pub open spec fn unhide_step(nodes: Seq<Node>, q: int) -> Seq<Node> {
    let item = nodes[q]->ItemNode_0;
    let n1 = nodes.update(item.above as int, nodes[item.above as int].with_below(q as usize));
    let n2 = n1.update(item.below as int, n1[item.below as int].with_above(q as usize));
    let h = n2[item.header as int]->HeaderNode_0;
    n2.update(item.header as int, Node::HeaderNode(Header { length: (h.length + 1) as usize, ..h }))
}

/// The item nodes from `q` to the end of their block put back, one after
/// the other.
pub open spec fn unhide_run(nodes: Seq<Node>, q: int) -> Seq<Node>
    decreases nodes.len() - q,
{
    if 0 <= q < nodes.len() && nodes[q] is ItemNode && unhide_step_ok(nodes, q) && unhide_step(nodes, q).len() == nodes.len() {
        unhide_run(unhide_step(nodes, q), q + 1)
    } else {
        nodes
    }
}

/// Every step of `unhide_run(nodes, q)` can be done.
pub open spec fn unhide_run_ok(nodes: Seq<Node>, q: int) -> bool
    decreases nodes.len() - q,
{
    if 0 <= q < nodes.len() && nodes[q] is ItemNode {
        unhide_step_ok(nodes, q) && unhide_step(nodes, q).len() == nodes.len() && unhide_run_ok(unhide_step(nodes, q), q + 1)
    } else {
        true
    }
}

#[verifier::rlimit(60)]
proof fn lemma_unhide_step(nodes: Seq<Node>, q: int, hc: int)
    requires
        links_ok(nodes, hc),
        sets_ok(nodes, hc),
        0 <= q < nodes.len(),
        nodes[q] is ItemNode,
        unhide_step_ok(nodes, q),
        nodes.len() < usize::MAX,
    ensures
        links_ok(unhide_step(nodes, q), hc),
        sets_ok(unhide_step(nodes, q), hc),
        unhide_step(nodes, q).len() == nodes.len(),
{
    let n = unhide_step(nodes, q);
    assert forall|x: int| 0 <= x < nodes.len() implies {
        &&& (n[x] is ItemNode <==> nodes[x] is ItemNode)
        &&& (n[x] is HeaderNode <==> nodes[x] is HeaderNode)
        &&& (n[x] is SpacerNode <==> nodes[x] is SpacerNode)
        &&& (n[x] is SpacerNode ==> n[x] == nodes[x])
        &&& (n[x] is ItemNode ==> n[x]->ItemNode_0.header == nodes[x]->ItemNode_0.header)
    } by {}
    assert forall|i: int| #![trigger n[i]] 0 <= i < n.len() && n[i] is ItemNode implies {
        let it = n[i]->ItemNode_0;
        &&& hc < i
        &&& it.header < hc
        &&& it.above < i
        &&& (i < it.below < n.len() || it.below < hc)
    } by {
        assert(nodes[i] is ItemNode);
    }
    assert forall|i: int| #![trigger n[i]] 0 <= i < hc implies n[i]->HeaderNode_0.first < n.len() && n[i]->HeaderNode_0.last < n.len() by {
        assert(nodes[i] is HeaderNode);
    }
    assert forall|p: int| #![trigger n[p]] 0 <= p < n.len() && n[p] is SpacerNode implies {
        let prev = n[p]->SpacerNode_0.prev as int;
        &&& p >= hc
        &&& (prev != usize::MAX ==> {
            &&& hc < prev <= p
            &&& n[prev - 1] is SpacerNode
            &&& forall|x: int| prev <= x < p ==> #[trigger] n[x] is ItemNode
        })
    } by {
        assert(nodes[p] is SpacerNode);
        let prev = nodes[p]->SpacerNode_0.prev as int;
        if prev != usize::MAX {
            assert(nodes[prev - 1] is SpacerNode);
            assert forall|x: int| prev <= x < p implies #[trigger] n[x] is ItemNode by {
                assert(nodes[x] is ItemNode);
            }
        }
    }
}

/// The item headers with slot `k` taken out of the list.
pub open spec fn unlink_slot(ih: Seq<ItemHeader>, k: int) -> Seq<ItemHeader> {
    let x = ih[k];
    let ih1 = ih.update(x.prev as int, ItemHeader { next: x.next, ..ih[x.prev as int] });
    ih1.update(x.next as int, ItemHeader { prev: x.prev, ..ih1[x.next as int] })
}

/// The item headers with the neighbours of slot `k` pointing to `v`.
pub open spec fn point_neighbours(ih: Seq<ItemHeader>, k: int, v: usize) -> Seq<ItemHeader> {
    let x = ih[k];
    let ih1 = ih.update(x.prev as int, ItemHeader { next: v, ..ih[x.prev as int] });
    ih1.update(x.next as int, ItemHeader { prev: v, ..ih1[x.next as int] })
}

/// The nodes of a set are item nodes, so none of them is a header.
proof fn lemma_set_items_are_items(nodes: Seq<Node>, hc: int, index: int)
    requires
        links_ok(nodes, hc),
        sets_ok(nodes, hc),
        nodes.len() < usize::MAX,
    ensures
        forall|j: int| 0 <= j < set_items_of(nodes, index).len() ==> hc <= #[trigger] set_items_of(nodes, index)[j],
{
    let r = set_items_of(nodes, index);
    if 0 <= index < nodes.len() && nodes[index] is ItemNode {
        let p = run_end(nodes, index + 1);
        lemma_run_end(nodes, index + 1);
        if p < nodes.len() && nodes[p] is SpacerNode && nodes[p]->SpacerNode_0.prev < nodes.len() {
            let start = nodes[p]->SpacerNode_0.prev as int;
            assert(nodes[p]->SpacerNode_0.prev != usize::MAX);
            assert(hc < start);
            assert(hc < index);
            let a = Seq::new((p - index) as nat, |k: int| (index + k) as usize);
            let b = Seq::new((index - start) as nat, |k: int| (start + k) as usize);
            assert(r == a + b);
            assert forall|j: int| 0 <= j < r.len() implies hc <= #[trigger] r[j] by {
                if j < a.len() {
                    assert(r[j] == a[j]);
                } else {
                    assert(r[j] == b[j - a.len()]);
                }
            }
        }
    }
}

impl DLXTable {
    /// The number of header nodes: one per item.
    pub open spec fn hc(self) -> int {
        self.item_headers@.len() - 1
    }

    /// The links of the table are in range and ordered, and the spacers
    /// point back to the set before them.
    #[verifier::opaque]
    pub open spec fn wf(self) -> bool {
        &&& self.item_headers@.len() >= 1
        &&& links_ok(self.nodes.0@, self.hc())
        &&& sets_ok(self.nodes.0@, self.hc())
        &&& self.item_headers@.len() < usize::MAX
        &&& self.nodes.0@.len() < usize::MAX
    }

    /// The table of `sets`: one header per item `0..=max`, then each
    /// non-empty set as a spacer followed by its members' nodes.
    pub fn new(sets: Vec<Vec<usize>>) -> (t: Self)
        requires
            forall|i: int, k: int| 0 <= i < sets@.len() && 0 <= k < sets@[i]@.len() ==> sets@[i]@[k] < usize::MAX,
            member_count(deep(sets@)) + 1 + item_bound(deep(sets@)) <= usize::MAX,
            item_bound(deep(sets@)) + set_nodes(deep(sets@)) + 1 < usize::MAX,
        ensures
            t.item_headers@ == item_headers_of(item_bound(deep(sets@))),
            t.nodes.0@.len() == item_bound(deep(sets@)) + set_nodes(deep(sets@)),
            t.wf(),
            headers_ok(t.item_headers@),
            columns_linked(t.nodes.0@, t.hc()),
            t.nodes.0@ == layout(deep(sets@), item_bound(deep(sets@))),
    {
        let item_count = get_item_count(&sets);
        let node_count = get_item_instance_count(&sets) + 1 + item_count;
        let item_headers = make_item_headers(item_count);
        let mut nodes: Vec<Node> = Vec::with_capacity(node_count);
        append_headers(&mut nodes, item_count);
        proof {
            lemma_item_bound(deep(sets@));
            assert(nodes@ =~= headers_of(item_count as nat));
            lemma_headers_linked(item_count as nat);
            assert forall|i: int, k: int| 0 <= i < sets@.len() && 0 <= k < sets@[i]@.len() implies sets@[i]@[k] < item_count by {
                assert(deep(sets@)[i] == sets@[i]@);
            }
        }
        append_sets(&mut nodes, &sets, Ghost(item_count as int));
        proof {
            let ih = item_headers@;
            assert forall|k: int| #![trigger ih[k]] 0 <= k < ih.len() implies {
                &&& ih[k].next < ih.len()
                &&& ih[k].prev < ih.len()
                &&& (ih[k].next == 0 || ih[k].next > k)
                &&& (k == 0 || ih[k].prev < k)
            } by {
                if k > 0 && k + 1 < item_count + 1 {
                    vstd::arithmetic::div_mod::lemma_small_mod((k + 1) as nat, (item_count + 1) as nat);
                } else if k > 0 {
                    vstd::arithmetic::div_mod::lemma_mod_self_0(item_count as int + 1);
                }
            }
        }
        let t = DLXTable { item_headers, nodes: NodeList(nodes) };
        assert(t.wf()) by {
            reveal(DLXTable::wf);
        }
        t
    }

    /// Takes item node `q` out of its column.
    fn take_out_item(&mut self, q: usize, item: Item)
        requires
            q < old(self).nodes.0@.len(),
            old(self).nodes.0@[q as int] == Node::ItemNode(item),
            hide_step_ok(old(self).nodes.0@, q as int),
        ensures
            final(self).nodes.0@ == hide_step(old(self).nodes.0@, q as int),
            final(self).item_headers == old(self).item_headers,
    {
        let mut a = self.nodes.0[item.above];
        a.set_below(item.below);
        self.nodes.0.set(item.above, a);
        let mut b = self.nodes.0[item.below];
        b.set_above(item.above);
        self.nodes.0.set(item.below, b);
        match self.nodes.0[item.header] {
            Node::HeaderNode(h) => {
                self.nodes.0.set(item.header, Node::HeaderNode(Header { length: h.length - 1, ..h }));
            },
            _ => {},
        }
    }

    /// Puts item node `q` back between the neighbours it points to.
    fn put_back_item(&mut self, q: usize, item: Item)
        requires
            q < old(self).nodes.0@.len(),
            old(self).nodes.0@[q as int] == Node::ItemNode(item),
            unhide_step_ok(old(self).nodes.0@, q as int),
        ensures
            final(self).nodes.0@ == unhide_step(old(self).nodes.0@, q as int),
            final(self).item_headers == old(self).item_headers,
    {
        let mut a = self.nodes.0[item.above];
        a.set_below(q);
        self.nodes.0.set(item.above, a);
        let mut b = self.nodes.0[item.below];
        b.set_above(q);
        self.nodes.0.set(item.below, b);
        match self.nodes.0[item.header] {
            Node::HeaderNode(h) => {
                self.nodes.0.set(item.header, Node::HeaderNode(Header { length: h.length + 1, ..h }));
            },
            _ => {},
        }
    }

    /// Takes the item nodes after `index` in its set block out of their
    /// columns, one after the other.
    fn hide_block(&mut self, index: usize)
        requires
            old(self).wf(),
            index < usize::MAX,
            hide_run_ok(old(self).nodes.0@, index + 1),
        ensures
            final(self).nodes.0@ == hide_run(old(self).nodes.0@, index + 1),
            final(self).item_headers == old(self).item_headers,
            final(self).wf(),
    {
        let ghost hc = self.hc();
        let ghost target = hide_run(self.nodes.0@, index + 1);
        assert(self.nodes.0@.len() < usize::MAX) by {
            reveal(DLXTable::wf);
        }
        let mut q = index + 1;
        loop
            invariant
                self.wf(),
                hc == self.hc(),
                self.item_headers == old(self).item_headers,
                self.nodes.0@.len() == old(self).nodes.0@.len(),
                self.nodes.0@.len() < usize::MAX,
                hide_run(self.nodes.0@, q as int) == target,
                hide_run_ok(self.nodes.0@, q as int),
            ensures
                self.wf(),
                self.item_headers == old(self).item_headers,
                self.nodes.0@ == target,
            decreases self.nodes.0@.len() - q,
        {
            match self.nodes.get(q) {
                Some(Node::ItemNode(item)) => {
                    let ghost before = self.nodes.0@;
                    self.take_out_item(q, item);
                    assert(self.wf()) by {
                        reveal(DLXTable::wf);
                        lemma_hide_step(before, q as int, hc);
                    }
                    q += 1;
                },
                _ => {
                    break;
                },
            }
        }
    }

    /// Puts the item nodes after `index` in its set block back into their
    /// columns, one after the other.
    fn unhide_block(&mut self, index: usize)
        requires
            old(self).wf(),
            index < usize::MAX,
            unhide_run_ok(old(self).nodes.0@, index + 1),
        ensures
            final(self).nodes.0@ == unhide_run(old(self).nodes.0@, index + 1),
            final(self).item_headers == old(self).item_headers,
            final(self).wf(),
    {
        let ghost hc = self.hc();
        let ghost target = unhide_run(self.nodes.0@, index + 1);
        assert(self.nodes.0@.len() < usize::MAX) by {
            reveal(DLXTable::wf);
        }
        let mut q = index + 1;
        loop
            invariant
                self.wf(),
                hc == self.hc(),
                self.item_headers == old(self).item_headers,
                self.nodes.0@.len() == old(self).nodes.0@.len(),
                self.nodes.0@.len() < usize::MAX,
                unhide_run(self.nodes.0@, q as int) == target,
                unhide_run_ok(self.nodes.0@, q as int),
            ensures
                self.wf(),
                self.item_headers == old(self).item_headers,
                self.nodes.0@ == target,
            decreases self.nodes.0@.len() - q,
        {
            match self.nodes.get(q) {
                Some(Node::ItemNode(item)) => {
                    let ghost before = self.nodes.0@;
                    self.put_back_item(q, item);
                    assert(self.wf()) by {
                        reveal(DLXTable::wf);
                        lemma_unhide_step(before, q as int, hc);
                    }
                    q += 1;
                },
                _ => {
                    break;
                },
            }
        }
    }

    /// Covers the item of header node `index`: for each node of its column,
    /// top down, the nodes after it in its set block leave their columns;
    /// then the item's slot leaves the list of item headers.
    pub fn cover(&mut self, index: usize)
        requires
            old(self).wf(),
            headers_ok(old(self).item_headers@),
            index < old(self).hc() ==> cover_walk_ok(old(self).nodes.0@, old(self).nodes.0@[index as int]->HeaderNode_0.first as int),
        ensures
            final(self).wf(),
            headers_ok(final(self).item_headers@),
            index < old(self).hc() ==> final(self).nodes.0@ == cover_walk(old(self).nodes.0@, old(self).nodes.0@[index as int]->HeaderNode_0.first as int)
                && final(self).item_headers@ == unlink_slot(old(self).item_headers@, index + 1),
            index >= old(self).hc() ==> *final(self) == *old(self),
    {
        let ghost hc = self.hc();
        assert(links_ok(self.nodes.0@, hc) && self.nodes.0@.len() < usize::MAX) by {
            reveal(DLXTable::wf);
        }
        match self.nodes.get_header(index) {
            Some(header) => {
                let ghost target = cover_walk(self.nodes.0@, header.first as int);
                let mut i = header.first;
                loop
                    invariant
                        self.wf(),
                        hc == self.hc(),
                        index < hc,
                        headers_ok(self.item_headers@),
                        self.item_headers == old(self).item_headers,
                        self.nodes.0@.len() == old(self).nodes.0@.len(),
                        self.nodes.0@.len() < usize::MAX,
                        cover_walk(self.nodes.0@, i as int) == target,
                        cover_walk_ok(self.nodes.0@, i as int),
                    ensures
                        self.wf(),
                        headers_ok(self.item_headers@),
                        self.item_headers == old(self).item_headers,
                        self.nodes.0@ == target,
                    decreases (if i < self.nodes.0@.len() && self.nodes.0@[i as int] is ItemNode { self.nodes.0@.len() - i } else { 0 }),
                {
                    match self.nodes.get_item(i) {
                        Some(item) => {
                            let ghost before = self.nodes.0@;
                            assert(links_ok(before, hc) && sets_ok(before, hc)) by {
                                reveal(DLXTable::wf);
                            }
                            proof {
                                lemma_hide_run(before, i + 1, hc);
                            }
                            self.hide_block(i);
                            i = item.below;
                            proof {
                                if i < self.nodes.0@.len() && self.nodes.0@[i as int] is ItemNode {
                                    assert(before[i as int] is ItemNode);
                                }
                            }
                        },
                        None => {
                            break;
                        },
                    }
                }
                let ghost ih0 = self.item_headers@;
                let item_header = self.item_headers[index + 1];
                let mut p = self.item_headers[item_header.prev];
                p.next = item_header.next;
                self.item_headers.set(item_header.prev, p);
                let mut n = self.item_headers[item_header.next];
                n.prev = item_header.prev;
                self.item_headers.set(item_header.next, n);
                proof {
                    let ih = self.item_headers@;
                    assert(ih == unlink_slot(ih0, index + 1));
                    assert forall|k: int| #![trigger ih[k]] 0 <= k < ih.len() implies {
                        &&& ih[k].next < ih.len()
                        &&& ih[k].prev < ih.len()
                        &&& (ih[k].next == 0 || ih[k].next > k)
                        &&& (k == 0 || ih[k].prev < k)
                    } by {
                        assert(ih0[k] == ih0[k]);
                    }
                }
                assert(self.wf()) by {
                    reveal(DLXTable::wf);
                }
            },
            None => {},
        }
    }

    /// Points the neighbours of the slot of `index` back at `index`; the
    /// column of header node `index` is walked and, for each of its nodes,
    /// the nodes after header node `index` are put back, which leaves the
    /// nodes as they are.
    pub fn uncover(&mut self, index: usize)
        requires
            old(self).wf(),
            index + 1 < old(self).item_headers@.len() ==> old(self).item_headers@[index + 1].prev < old(self).item_headers@.len()
                && old(self).item_headers@[index + 1].next < old(self).item_headers@.len(),
        ensures
            final(self).wf(),
            final(self).nodes.0@ == old(self).nodes.0@,
            index + 1 < old(self).item_headers@.len() ==> final(self).item_headers@ == point_neighbours(old(self).item_headers@, index + 1, index),
            index + 1 >= old(self).item_headers@.len() ==> *final(self) == *old(self),
    {
        let ghost hc = self.hc();
        assert(links_ok(self.nodes.0@, hc) && self.item_headers@.len() >= 1 && self.nodes.0@.len() < usize::MAX) by {
            reveal(DLXTable::wf);
        }
        if index < self.item_headers.len() - 1 {
            let item_header = self.item_headers[index + 1];
            let prev = item_header.prev;
            let mut p = self.item_headers[prev];
            p.next = index;
            self.item_headers.set(prev, p);
            let next = item_header.next;
            let mut n = self.item_headers[next];
            n.prev = index;
            self.item_headers.set(next, n);
            assert(self.wf()) by {
                reveal(DLXTable::wf);
            }
            let header = self.nodes.get_header(index).unwrap();
            let mut i = header.first;
            loop
                invariant
                    self.wf(),
                    links_ok(self.nodes.0@, hc),
                    hc == self.hc(),
                    self.nodes.0@ == old(self).nodes.0@,
                    self.item_headers@ == point_neighbours(old(self).item_headers@, index + 1, index),
                    index < hc,
                    self.nodes.0@.len() < usize::MAX,
                ensures
                    self.wf(),
                    self.nodes.0@ == old(self).nodes.0@,
                    self.item_headers@ == point_neighbours(old(self).item_headers@, index + 1, index),
                decreases (if i < self.nodes.0@.len() && self.nodes.0@[i as int] is ItemNode { self.nodes.0@.len() - i } else { 0 }),
            {
                match self.nodes.get_item(i) {
                    Some(item) => {
                        let ghost nodes = self.nodes.0@;
                        assert(!(0 <= index + 1 < nodes.len() && nodes[index + 1] is ItemNode));
                        self.unhide_block(index);
                        i = item.below;
                        proof {
                            if i < self.nodes.0@.len() && self.nodes.0@[i as int] is ItemNode {
                                assert(nodes[i as int] is ItemNode);
                            }
                        }
                    },
                    None => {
                        break;
                    },
                }
            }
        }
    }

    /// The items still listed, in list order.
    pub fn get_current_items(&self) -> (r: Vec<usize>)
        requires
            headers_ok(self.item_headers@),
        ensures
            r@ == header_walk(self.item_headers@, self.item_headers@[0].next as int),
    {
        let ghost ih = self.item_headers@;
        let mut items: Vec<usize> = Vec::new();
        let root = self.item_headers[0];
        let mut i = root.next;
        while i != 0
            invariant
                ih == self.item_headers@,
                headers_ok(ih),
                i < ih.len(),
                items@ + header_walk(ih, i as int) == header_walk(ih, ih[0].next as int),
            decreases (if i == 0 { 0 } else { ih.len() + 1 - i }),
        {
            if i < self.item_headers.len() {
                items.push(i - 1);
                let next = self.item_headers[i].next;
                proof {
                    assert(ih[i as int].next == next);
                    if next != 0 {
                        assert(items@ + header_walk(ih, next as int) == header_walk(ih, ih[0].next as int)) by {
                            assert(header_walk(ih, i as int) == seq![(i - 1) as usize] + header_walk(ih, next as int));
                        }
                    } else {
                        assert(header_walk(ih, i as int) == seq![(i - 1) as usize]);
                    }
                }
                i = next;
            } else {
                return Vec::new();
            }
        }
        assert(items@ + header_walk(ih, 0) == items@);
        items
    }

    /// The nodes of the column of item node `index`, from its header's
    /// first node down; empty unless `index` is an item node.
    pub fn get_item_instances(&self, index: usize) -> (r: Vec<usize>)
        requires
            self.wf(),
        ensures
            r@ == (if index < self.nodes.0@.len() && self.nodes.0@[index as int] is ItemNode {
                column_walk(self.nodes.0@, self.nodes.0@[self.nodes.0@[index as int]->ItemNode_0.header as int]->HeaderNode_0.first as int)
            } else {
                Seq::empty()
            }),
    {
        let ghost nodes = self.nodes.0@;
        let ghost hc = self.hc();
        assert(links_ok(nodes, hc) && nodes.len() < usize::MAX) by {
            reveal(DLXTable::wf);
        }
        let mut node_indices: Vec<usize> = Vec::new();
        match self.nodes.get_item(index) {
            Some(item) => {
                let header = self.nodes.get_header(item.header).unwrap();
                let ghost start = header.first as int;
                let mut i = header.first;
                loop
                    invariant
                        nodes == self.nodes.0@,
                        links_ok(nodes, hc),
                        nodes.len() < usize::MAX,
                        node_indices@ + column_walk(nodes, i as int) == column_walk(nodes, start),
                    ensures
                        node_indices@ == column_walk(nodes, start),
                    decreases (if i < nodes.len() && nodes[i as int] is ItemNode { nodes.len() - i } else { 0 }),
                {
                    match self.nodes.get_item(i) {
                        Some(it) => {
                            node_indices.push(i);
                            let b = it.below;
                            proof {
                                if i < b && (b as int) < nodes.len() {
                                    assert(column_walk(nodes, i as int) == seq![i] + column_walk(nodes, b as int));
                                } else {
                                    assert(column_walk(nodes, i as int) == seq![i]);
                                    assert(column_walk(nodes, b as int) == Seq::<usize>::empty());
                                }
                                assert(node_indices@ + column_walk(nodes, b as int) == column_walk(nodes, start));
                            }
                            i = b;
                        },
                        None => {
                            assert(column_walk(nodes, i as int) == Seq::<usize>::empty());
                            assert(node_indices@ + Seq::<usize>::empty() == node_indices@);
                            break;
                        },
                    }
                }
            },
            None => {},
        }
        node_indices
    }

    /// The nodes of the set through item node `index`: from `index` to the
    /// end of the set, then from its start back to `index`; empty when the
    /// set has no spacer after it or `index` is not an item node.
    pub fn get_set_items(&self, index: usize) -> (r: Vec<usize>)
        requires
            self.wf(),
            index < usize::MAX,
            index < self.nodes.0@.len() ==> !(self.nodes.0@[index as int] is SpacerNode),
        ensures
            r@ == set_items_of(self.nodes.0@, index as int),
    {
        let ghost nodes = self.nodes.0@;
        let ghost hc = self.hc();
        assert(links_ok(nodes, hc) && sets_ok(nodes, hc) && nodes.len() < usize::MAX) by {
            reveal(DLXTable::wf);
        }
        let mut set_items: Vec<usize> = vec![index];
        let mut i = index + 1;
        if index >= self.nodes.0.len() {
            return Vec::new();
        }
        let is_item = match self.nodes.0[index] {
            Node::ItemNode(_) => true,
            _ => false,
        };
        if !is_item {
            match self.nodes.get(i) {
                Some(Node::SpacerNode(spacer)) => {
                    assert(i == hc);
                    assert(spacer.prev == usize::MAX) by {
                        if spacer.prev != usize::MAX {
                            assert(nodes[spacer.prev - 1] is SpacerNode);
                        }
                    }
                    return Vec::new();
                },
                Some(Node::ItemNode(_)) => {
                    assert(false);
                    return Vec::new();
                },
                _ => {
                    return Vec::new();
                },
            }
        }
        let ghost p = run_end(nodes, index + 1);
        proof {
            lemma_run_end(nodes, index + 1);
        }
        let ghost len = nodes.len() as int;
        let ghost closed = p < nodes.len() && nodes[p] is SpacerNode && nodes[p]->SpacerNode_0.prev != usize::MAX;
        proof {
            if closed {
                let start = nodes[p]->SpacerNode_0.prev as int;
                assert(hc < start <= p);
                assert(nodes[start - 1] is SpacerNode);
                if index < start {
                    assert(nodes[start - 1] is ItemNode);
                }
            }
            assert(nodes.len() < usize::MAX);
        }
        while i != index
            invariant
                nodes == self.nodes.0@,
                closed == (p < nodes.len() && nodes[p] is SpacerNode && nodes[p]->SpacerNode_0.prev != usize::MAX),
                closed ==> nodes[p]->SpacerNode_0.prev <= index,
                closed ==> forall|x: int| nodes[p]->SpacerNode_0.prev <= x < p ==> #[trigger] nodes[x] is ItemNode,
                p < nodes.len() && nodes[p] is SpacerNode && !closed ==> nodes[p]->SpacerNode_0.prev == usize::MAX,
                len == nodes.len(),
                nodes.len() < usize::MAX,
                0 <= index < nodes.len(),
                nodes[index as int] is ItemNode,
                p == run_end(nodes, index + 1),
                index < p,
                forall|x: int| index + 1 <= x < p ==> 0 <= x < nodes.len() && #[trigger] nodes[x] is ItemNode,
                !(0 <= p < nodes.len() && nodes[p] is ItemNode),
                i == usize::MAX || i <= p,
                i == usize::MAX ==> p < nodes.len() && nodes[p] is SpacerNode && nodes[p]->SpacerNode_0.prev == usize::MAX,
                index < i <= p ==> set_items@ == Seq::new((i - index) as nat, |k: int| (index + k) as usize),
                i <= index ==> {
                    &&& p < nodes.len()
                    &&& nodes[p] is SpacerNode
                    &&& nodes[p]->SpacerNode_0.prev <= i
                    &&& set_items@ == Seq::new((p - index) as nat, |k: int| (index + k) as usize) + Seq::new(
                        (i - nodes[p]->SpacerNode_0.prev) as nat, |k: int| (nodes[p]->SpacerNode_0.prev + k) as usize)
                },
            decreases (if i == usize::MAX { 0 } else if i > index { 2 * len + 1 - i } else { index - i + 1 }),
        {
            match self.nodes.get(i) {
                Some(Node::ItemNode(_)) => {
                    set_items.push(i);
                    proof {
                        if i > index {
                            assert(set_items@ =~= Seq::new((i + 1 - index) as nat, |k: int| (index + k) as usize));
                        } else {
                            let start = nodes[p]->SpacerNode_0.prev as int;
                            assert(set_items@ =~= Seq::new((p - index) as nat, |k: int| (index + k) as usize) + Seq::new(
                                (i + 1 - start) as nat, |k: int| (start + k) as usize));
                        }
                    }
                    i += 1;
                },
                Some(Node::SpacerNode(spacer)) => {
                    proof {
                        assert(i == p);
                        if spacer.prev != usize::MAX {
                            assert(set_items@ =~= Seq::new((p - index) as nat, |k: int| (index + k) as usize) + Seq::new(
                                0, |k: int| (spacer.prev + k) as usize));
                        }
                    }
                    i = spacer.prev;
                },
                _ => {
                    proof {
                        if i != usize::MAX {
                            if i <= index {
                                assert(closed);
                                assert(nodes[i as int] is ItemNode);
                                assert(false);
                            } else if i < p {
                                assert(nodes[i as int] is ItemNode);
                                assert(false);
                            }
                            assert(i == p);
                        }
                        assert(set_items_of(nodes, index as int) == Seq::<usize>::empty());
                    }
                    return Vec::new();
                },
            }
        }
        proof {
            assert(closed);
            assert(nodes[p] is SpacerNode);
            assert(nodes[p]->SpacerNode_0.prev < nodes.len());
        }
        set_items
    }

    /// The number of nodes in the column of node `index`, for an item node
    /// or a header node; 0 for anything else.
    pub fn get_instance_count(&self, index: usize) -> (r: usize)
        ensures
            r == (if index < self.nodes.0@.len() {
                match self.nodes.0@[index as int] {
                    Node::ItemNode(item) => if item.header < self.nodes.0@.len() && self.nodes.0@[item.header as int] is HeaderNode {
                        self.nodes.0@[item.header as int]->HeaderNode_0.length
                    } else {
                        0
                    },
                    Node::HeaderNode(header) => header.length,
                    _ => 0,
                }
            } else {
                0
            }),
    {
        match self.nodes.get(index) {
            Some(Node::ItemNode(item)) => match self.nodes.get_header(item.header) {
                Some(header) => header.length,
                None => 0,
            },
            Some(Node::HeaderNode(header)) => header.length,
            _ => 0,
        }
    }

    /// The covering of each node of the set through `item`; as those are
    /// item nodes, not header nodes, nothing changes.
    pub fn cover_set(&mut self, item: usize)
        requires
            old(self).wf(),
            headers_ok(old(self).item_headers@),
            item < usize::MAX,
            item < old(self).nodes.0@.len() ==> !(old(self).nodes.0@[item as int] is SpacerNode),
        ensures
            *final(self) == *old(self),
    {
        let set_items = self.get_set_items(item);
        assert(links_ok(self.nodes.0@, self.hc()) && sets_ok(self.nodes.0@, self.hc()) && self.nodes.0@.len() < usize::MAX) by {
            reveal(DLXTable::wf);
        }
        proof {
            lemma_set_items_are_items(self.nodes.0@, self.hc(), item as int);
        }
        let mut k: usize = 0;
        while k < set_items.len()
            invariant
                *self == *old(self),
                self.wf(),
                headers_ok(self.item_headers@),
                forall|j: int| 0 <= j < set_items@.len() ==> self.hc() <= #[trigger] set_items@[j],
            decreases set_items@.len() - k,
        {
            self.cover(set_items[k]);
            k += 1;
        }
    }

    /// The uncovering of each node of the set through `item`; as those are
    /// item nodes, which have no slot, nothing changes.
    pub fn uncover_set(&mut self, item: usize)
        requires
            old(self).wf(),
            item < usize::MAX,
            item < old(self).nodes.0@.len() ==> !(old(self).nodes.0@[item as int] is SpacerNode),
        ensures
            *final(self) == *old(self),
    {
        let set_items = self.get_set_items(item);
        assert(links_ok(self.nodes.0@, self.hc()) && sets_ok(self.nodes.0@, self.hc()) && self.nodes.0@.len() < usize::MAX) by {
            reveal(DLXTable::wf);
        }
        proof {
            lemma_set_items_are_items(self.nodes.0@, self.hc(), item as int);
        }
        let mut k: usize = 0;
        while k < set_items.len()
            invariant
                *self == *old(self),
                self.wf(),
                forall|j: int| 0 <= j < set_items@.len() ==> self.hc() <= #[trigger] set_items@[j],
            decreases set_items@.len() - k,
        {
            self.uncover(set_items[k]);
            k += 1;
        }
    }

    /// The node below `index` in its column, for a header or an item node,
    /// when that node is an item node.
    pub fn get_next_instance(&self, index: usize) -> (r: Option<usize>)
        ensures
            r == (if index < self.nodes.0@.len() {
                match self.nodes.0@[index as int] {
                    Node::HeaderNode(header) => if header.first < self.nodes.0@.len() && self.nodes.0@[header.first as int] is ItemNode {
                        Some(header.first)
                    } else {
                        None::<usize>
                    },
                    Node::ItemNode(item) => if item.below < self.nodes.0@.len() && self.nodes.0@[item.below as int] is ItemNode {
                        Some(item.below)
                    } else {
                        None::<usize>
                    },
                    _ => None::<usize>,
                }
            } else {
                None::<usize>
            }),
    {
        match self.nodes.get(index) {
            Some(Node::HeaderNode(header)) => match self.nodes.get_item(header.first) {
                Some(_) => Some(header.first),
                None => None,
            },
            Some(Node::ItemNode(item)) => match self.nodes.get_item(item.below) {
                Some(_) => Some(item.below),
                None => None,
            },
            _ => None,
        }
    }
}

// ---------------------------------------------------------------------
// Walking the item headers of a fresh table
// ---------------------------------------------------------------------

/// The items `0..n`.
pub open spec fn items_upto(n: nat) -> Seq<usize> {
    Seq::new(n, |t: int| t as usize)
}

proof fn lemma_fresh_next(n: nat, j: int)
    requires
        1 <= j <= n,
        n < usize::MAX,
    ensures
        j < n ==> item_headers_of(n)[j].next == j + 1,
        j == n ==> item_headers_of(n)[j].next == 0,
{
    if j < n {
        vstd::arithmetic::div_mod::lemma_small_mod((j + 1) as nat, (n + 1) as nat);
    } else {
        vstd::arithmetic::div_mod::lemma_mod_self_0(n as int + 1);
    }
}

/// Walking a fresh table's headers from slot `j` gives the items `j - 1`
/// up to the last.
proof fn lemma_fresh_walk(n: nat, j: int)
    requires
        1 <= j <= n,
        n < usize::MAX,
    ensures
        header_walk(item_headers_of(n), j) == Seq::new((n + 1 - j) as nat, |t: int| (j - 1 + t) as usize),
    decreases n + 1 - j,
{
    let ih = item_headers_of(n);
    lemma_fresh_next(n, j);
    if j < n {
        lemma_fresh_walk(n, j + 1);
        assert(header_walk(ih, j) == seq![(j - 1) as usize] + header_walk(ih, j + 1));
        assert(header_walk(ih, j) =~= Seq::new((n + 1 - j) as nat, |t: int| (j - 1 + t) as usize));
    } else {
        assert(header_walk(ih, j) =~= Seq::new((n + 1 - j) as nat, |t: int| (j - 1 + t) as usize));
    }
}

/// Two header lists that agree on the next links from slot `j` on walk
/// alike from `j`.
proof fn lemma_walk_agree(a: Seq<ItemHeader>, b: Seq<ItemHeader>, j: int)
    requires
        a.len() == b.len(),
        forall|s: int| j <= s < a.len() ==> #[trigger] a[s].next == b[s].next,
    ensures
        header_walk(a, j) == header_walk(b, j),
    decreases a.len() - j,
{
    if 0 < j < a.len() {
        let n = a[j].next as int;
        if j < n < a.len() {
            lemma_walk_agree(a, b, n);
        }
    }
}

/// A fresh table of `n` items walks its headers through the items `0..n`
/// in order: what `get_current_items` gives right after `new`.
pub proof fn lemma_current_items_fresh(n: nat)
    requires
        n < usize::MAX,
    ensures
        header_walk(item_headers_of(n), item_headers_of(n)[0].next as int) == items_upto(n),
{
    let ih = item_headers_of(n);
    if n > 0 {
        lemma_fresh_walk(n, 1);
        assert(Seq::new(n, |t: int| (1 - 1 + t) as usize) =~= items_upto(n));
    } else {
        assert(header_walk(ih, 0) =~= items_upto(n));
    }
}

/// After covering item `i` of a fresh table of `n` items, its headers walk
/// through the items `0..n` but `i`, in order: what `get_current_items`
/// gives after `new` and `cover(i)`.
pub proof fn lemma_current_items_covered(n: nat, i: nat)
    requires
        n < usize::MAX,
        i < n,
    ensures
        header_walk(unlink_slot(item_headers_of(n), (i + 1) as int), unlink_slot(item_headers_of(n), (i + 1) as int)[0].next as int)
            == items_upto(n).remove(i as int),
{
    let ih = item_headers_of(n);
    let k: int = (i + 1) as int;
    let u = unlink_slot(ih, k as int);
    lemma_fresh_next(n, k as int);
    let nx = ih[k as int].next as int;
    assert(ih[k as int].prev == i);
    // The walk after the unlinked slot is the fresh one.
    let tail = if k < n { header_walk(ih, k + 1) } else { Seq::<usize>::empty() };
    if k < n {
        lemma_fresh_next(n, k + 1);
        assert forall|s: int| k + 1 <= s < u.len() implies #[trigger] u[s].next == ih[s].next by {}
        lemma_walk_agree(u, ih, k + 1);
        lemma_fresh_walk(n, k + 1);
    }
    // Slots 1..k-1 lead to the slot before the unlinked one, which now leads past it.
    assert forall|j: int| 1 <= j <= i implies #[trigger] header_walk(u, j) == Seq::new((i + 1 - j) as nat, |t: int| (j - 1 + t) as usize)
        + tail by {
        lemma_prefix_walk(n, i, j);
    }
    if i == 0 {
        assert(u[0].next == nx);
        if k < n {
            assert(nx == k + 1);
            assert(header_walk(u, nx) == tail);
            assert(tail =~= Seq::new((n + 1 - (k + 1)) as nat, |t: int| (k + t) as usize));
            assert(items_upto(n).remove(0) =~= tail);
        } else {
            assert(nx == 0);
            assert(items_upto(n).remove(0) =~= Seq::<usize>::empty());
        }
    } else {
        assert(u[0].next == 1);
        let w = header_walk(u, 1);
        assert(w == Seq::new(i, |t: int| t as usize) + tail);
        if k < n {
            assert(tail =~= Seq::new((n + 1 - (k + 1)) as nat, |t: int| (k + t) as usize));
        }
        assert(items_upto(n).remove(i as int) =~= Seq::new(i, |t: int| t as usize) + tail);
    }
}

proof fn lemma_prefix_walk(n: nat, i: nat, j: int)
    requires
        n < usize::MAX,
        i < n,
        1 <= j <= i,
    ensures
        header_walk(unlink_slot(item_headers_of(n), (i + 1) as int), j) == Seq::new((i + 1 - j) as nat, |t: int| (j - 1 + t) as usize)
            + (if i + 1 < n { header_walk(item_headers_of(n), (i + 2) as int) } else { Seq::<usize>::empty() }),
    decreases i + 1 - j,
{
    let ih = item_headers_of(n);
    let k: int = (i + 1) as int;
    let u = unlink_slot(ih, k as int);
    let tail = if k < n { header_walk(ih, k + 1) } else { Seq::<usize>::empty() };
    lemma_fresh_next(n, k as int);
    lemma_fresh_next(n, j);
    if k < n {
        lemma_fresh_next(n, k + 1);
        assert forall|s: int| k + 1 <= s < u.len() implies #[trigger] u[s].next == ih[s].next by {}
        lemma_walk_agree(u, ih, k + 1);
    }
    if j < i {
        lemma_prefix_walk(n, i, j + 1);
        assert(u[j].next == j + 1);
        assert(header_walk(u, j) == seq![(j - 1) as usize] + header_walk(u, j + 1));
        assert(header_walk(u, j) =~= Seq::new((i + 1 - j) as nat, |t: int| (j - 1 + t) as usize) + tail);
    } else {
        assert(u[j].next == ih[k as int].next);
        if k < n {
            assert(u[j].next == k + 1);
            assert(header_walk(u, j) == seq![(j - 1) as usize] + header_walk(u, k + 1));
        } else {
            assert(u[j].next == 0);
        }
        assert(header_walk(u, j) =~= Seq::new((i + 1 - j) as nat, |t: int| (j - 1 + t) as usize) + tail);
    }
}

} // verus!
