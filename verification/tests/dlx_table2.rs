use dlx::dlx_table2::{make_item_headers, DLXTable, Header, Item, ItemHeader, Node, Spacer};
use dlx::dlx_table2::Node::{HeaderNode, ItemNode, SpacerNode};

/// A table written out in full: its item headers and its nodes.
struct StaticDLXTable<const H: usize, const N: usize> {
    item_headers: [ItemHeader; H],
    nodes: [Node; N],
}

fn same_table<const H: usize, const N: usize>(table: &DLXTable, other: &StaticDLXTable<H, N>) -> bool {
    table.item_headers.as_slice() == &other.item_headers[..] && table.nodes.0.as_slice() == &other.nodes[..]
}

const EMPTY_TABLE: StaticDLXTable<1, 0> = StaticDLXTable {
    item_headers: [ItemHeader {
        value: usize::MAX,
        prev: 0,
        next: 0
    }],
    nodes: []
};

fn item_headers_array<const COUNT: usize>() -> [ItemHeader; COUNT] {
    make_item_headers(COUNT - 1)
        .as_slice()
        .try_into()
        .unwrap()
}

fn item_node_count(nodes: &[Node]) -> usize {
    nodes.iter()
        .filter(|node| node.get_item().is_some())
        .map(|_| 1)
        .sum()
}

fn spacer_count(nodes: &[Node]) -> usize {
    nodes.iter()
        .filter(|node| node.get_spacer().is_some())
        .map(|_| 1)
        .sum()
}

fn header_count(nodes: &[Node]) -> usize {
    nodes.iter()
        .filter(|node| node.get_header().is_some())
        .map(|_| 1)
        .sum()
}

#[test]
fn empty() {
    let table = DLXTable::new(Vec::new());
    assert!(same_table(&table, &EMPTY_TABLE));
}

#[test]
fn dlx_table2_empty_set() {
    let table = DLXTable::new(vec![Vec::new()]);
    assert!(same_table(&table, &EMPTY_TABLE));
}

#[test]
fn dlx_table2_one_element() {
    let table = DLXTable::new(vec![vec![0]]);
    let expected = StaticDLXTable {
        item_headers: item_headers_array::<2>(),
        nodes: [
            HeaderNode(Header {
                first: 2,
                last: 2,
                length: 1
            }),
            SpacerNode(Spacer {
                prev: usize::MAX,
                next: 2
            }),
            ItemNode(Item {
                header: 0,
                above: 0,
                below: 0
            })]
    };
    assert!(same_table(&table, &expected));
}

#[test]
fn multiple_elements() {
    let table = DLXTable::new(vec![vec![0,1,2,3]]);
    let expected = StaticDLXTable {
        item_headers: item_headers_array::<5>(),
        nodes: [
            HeaderNode(Header {
                first: 5,
                last: 5,
                length: 1
            }),
            HeaderNode(Header {
                first: 6,
                last: 6,
                length: 1
            }),
            HeaderNode(Header {
                first: 7,
                last: 7,
                length: 1
            }),
            HeaderNode(Header {
                first: 8,
                last: 8,
                length: 1
            }),
            SpacerNode(Spacer {
                prev: usize::MAX,
                next: 8
            }),
            ItemNode(Item {
                header: 0,
                above: 0,
                below: 0
            }),
            ItemNode(Item {
                header: 1,
                above: 1,
                below: 1
            }),
            ItemNode(Item {
                header: 2,
                above: 2,
                below: 2
            }),
            ItemNode(Item {
                header: 3,
                above: 3,
                below: 3
            })
        ]
    };
    assert!(same_table(&table, &expected));
}

#[test]
fn disjoint_test() {
    let table = DLXTable::new(vec![vec![0,1,2], vec![3,4]]);
    let expected = StaticDLXTable {
        item_headers: item_headers_array::<6>(),
        nodes: [
            HeaderNode(Header {
                first: 6,
                last: 6,
                length: 1
            }),
            HeaderNode(Header {
                first: 7,
                last: 7,
                length: 1
            }),
            HeaderNode(Header {
                first: 8,
                last: 8,
                length: 1
            }),
            HeaderNode(Header {
                first: 10,
                last: 10,
                length: 1
            }),
            HeaderNode(Header {
                first: 11,
                last: 11,
                length: 1
            }),
            SpacerNode(Spacer {
                prev: usize::MAX,
                next: 8
            }),
            ItemNode(Item {
                header: 0,
                above: 0,
                below: 0
            }),
            ItemNode(Item {
                header: 1,
                above: 1,
                below: 1
            }),
            ItemNode(Item {
                header: 2,
                above: 2,
                below: 2
            }),
            SpacerNode(Spacer {
                prev: 6,
                next: 11
            }),
            ItemNode(Item {
                header: 3,
                above: 3,
                below: 3
            }),
            ItemNode(Item {
                header: 4,
                above: 4,
                below: 4
            })
        ]
    };
    assert!(same_table(&table, &expected));
}

#[test]
fn overlapping_sets() {
    let table = DLXTable::new(vec![vec![0,2,3,4], vec![1,2,4], vec![3,4]]);
    let expected = StaticDLXTable {
        item_headers: item_headers_array::<6>(),
        nodes: [
            HeaderNode(Header {
                first: 6,
                last: 6,
                length: 1
            }),
            HeaderNode(Header {
                first: 11,
                last: 11,
                length: 1
            }),
            HeaderNode(Header {
                first: 7,
                last: 12,
                length: 2
            }),
            HeaderNode(Header {
                first: 8,
                last: 15,
                length: 2
            }),
            HeaderNode(Header {
                first: 9,
                last: 16,
                length: 3
            }),
            SpacerNode(Spacer {
                prev: usize::MAX,
                next: 9
            }),
            ItemNode(Item {
                header: 0,
                above: 0,
                below: 0
            }),
            ItemNode(Item {
                header: 2,
                above: 2,
                below: 12
            }),
            ItemNode(Item {
                header: 3,
                above: 3,
                below: 15
            }),
            ItemNode(Item {
                header: 4,
                above: 4,
                below: 13
            }),
            SpacerNode(Spacer {
                prev: 6,
                next: 13
            }),
            ItemNode(Item {
                header: 1,
                above: 1,
                below: 1
            }),
            ItemNode(Item {
                header: 2,
                above: 7,
                below: 2
            }),
            ItemNode(Item {
                header: 4,
                above: 9,
                below: 16
            }),
            SpacerNode(Spacer {
                prev: 11,
                next: 16
            }),
            ItemNode(Item {
                header: 3,
                above: 8,
                below: 3
            }),
            ItemNode(Item {
                header: 4,
                above: 13,
                below: 4
            })
        ]
    };
    assert_eq!(table.item_headers.len(), expected.item_headers.len());
    assert_eq!(header_count(&table.nodes.0), header_count(&expected.nodes));
    assert_eq!(spacer_count(&table.nodes.0), spacer_count(&expected.nodes));
    assert_eq!(item_node_count(&table.nodes.0), item_node_count(&expected.nodes));
    assert!(same_table(&table, &expected));
}

#[test]
fn dlx_table2_current_items_after_new_and_cover() {
    let mut t = DLXTable::new(vec![vec![0, 2, 3, 4], vec![1, 2, 4], vec![3, 4]]);
    assert_eq!(t.get_current_items(), vec![0, 1, 2, 3, 4]);
    t.cover(2);
    assert_eq!(t.get_current_items(), vec![0, 1, 3, 4]);
}
