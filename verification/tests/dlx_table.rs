use dlx::dlx_table::{DLXTable, Node};

fn create_table() -> DLXTable {
    let sets = vec![
        vec![2, 4, 5],
        vec![0, 3, 6],
        vec![1, 2, 5],
        vec![0, 3],
        vec![1, 6],
        vec![3, 4, 6],
    ];

    DLXTable::from(&sets)
}

#[test]
fn dlx_table_no_sets() {
    let empty: Vec<Vec<usize>> = vec![];
    let table = DLXTable::from(&empty);
    
    let expected = DLXTable::new();
    assert_eq!(expected, table);
}

#[test]
fn dlx_table_empty_set() {
    let empty: Vec<Vec<usize>> = vec![vec![]];
    let table = DLXTable::from(&empty);
    
    let expected = DLXTable::new();
    assert_eq!(expected, table);
}

#[test]
fn dlx_table_one_element() {
    {
        let sets = vec![vec![0]];
        let table = DLXTable::from(&sets);

        let root = Node {
            header: 0,
            up: 0,
            down: 0,
            left: 1,
            right: 1,
            len: None,
            set: None
        };
        let header = Node {
            header: 1,
            up: 2,
            down: 2,
            left: 0,
            right: 0,
            len: Some(1),
            set: None
        };
        let node = Node {
            header: 1,
            up: 1,
            down: 1,
            left: 2,
            right: 2,
            len: None,
            set: Some(0)
        };
        let expected = DLXTable {
            element_count: 1,
            nodes: vec![root, header, node],
            set_heads: vec![2]
        };

        assert_eq!(expected, table);
    }
    {
        let sets = vec![vec![0]];
        let table = DLXTable::from(&sets);

        let element_sets = table.element_sets(0);
        
        let expected = vec![0];
        assert_eq!(expected, element_sets); 
    }
    {
        let sets = vec![vec![0]];
        let table = DLXTable::from(&sets);

        assert_eq!(1, table.row_nodes(0).len());
    }
}

#[test]
fn one_set() {
    let sets = vec![vec![0,1,2,3]];
    let table = DLXTable::from(&sets);

    let root = Node {
        header: 0,
        up: 0,
        down: 0,
        left: 4,
        right: 1,
        len: None,
        set: None
    };
    let headers = vec![
        // 1
        Node {
            header: 1,
            up: 5,
            down: 5,
            left: 0,
            right: 2,
            len: Some(1),
            set: None
        },
        // 2
        Node {
            header: 2,
            up: 6,
            down: 6,
            left: 1,
            right: 3,
            len: Some(1),
            set: None
        },
        // 3
        Node {
            header: 3,
            up: 7,
            down: 7,
            left: 2,
            right: 4,
            len: Some(1),
            set: None
        },
        // 4
        Node {
            header: 4,
            up: 8,
            down: 8,
            left:3,
            right: 0,
            len: Some(1),
            set: None
        }
    ];
    let element_nodes = vec![
        // 5
        Node {
            header: 1,
            up: 1,
            down: 1,
            left: 8,
            right: 6,
            len: None,
            set: Some(0)
        },
        // 6
        Node {
            header: 2,
            up: 2,
            down: 2,
            left: 5,
            right: 7,
            len: None, 
            set: Some(0)
        },
        // 7
        Node {
            header: 3,
            up: 3,
            down: 3,
            left: 6,
            right: 8,
            len: None,
            set: Some(0)
        },
        // 8
        Node {
            header: 4,
            up: 4,
            down: 4,
            left: 7,
            right: 5,
            len: None,
            set: Some(0)
        }
    ];
    let mut nodes = vec![root];
    nodes.extend(headers);
    nodes.extend(element_nodes);

    let expected = DLXTable {
        element_count: 4,
        nodes,
        set_heads: vec![5]
    };
    assert_eq!(expected, table);
}

#[test]
fn dlx_table_disjoint_sets() {
    let sets = vec![
        vec![0,2,4],
        vec![1,3,5]
    ];
    let table = DLXTable::from(&sets);

    let root = Node {
        header: 0,
        up: 0,
        down: 0,
        left: 6,
        right: 1,
        len: None,
        set: None
    };
    let headers = vec![
        // 1
        Node {
            header: 1,
            up: 7,
            down: 7,
            left: 0,
            right: 2,
            len: Some(1),
            set: None
        },
        // 2
        Node {
            header: 2,
            up: 10,
            down: 10,
            left: 1,
            right: 3,
            len: Some(1),
            set: None
        },
        // 3
        Node {
            header: 3,
            up: 8,
            down: 8,
            left: 2,
            right: 4,
            len: Some(1),
            set: None
        },
        // 4
        Node {
            header: 4,
            up: 11,
            down: 11,
            left:3,
            right: 5,
            len: Some(1),
            set: None
        },
        // 5
        Node {
            header: 5,
            up: 9,
            down: 9,
            left: 4,
            right: 6,
            len: Some(1),
            set: None
        },
        // 6
        Node {
            header: 6,
            up: 12,
            down: 12,
            left: 5,
            right: 0,
            len: Some(1),
            set: None
        }
    ];
    let element_nodes = vec![
        // 7    
        Node {
            header: 1,
            up: 1,
            down: 1,
            left: 9,
            right: 8,
            len: None,
            set: Some(0)
        },
        // 8
        Node {
            header: 3,
            up: 3,
            down: 3,
            left: 7,
            right: 9,
            len: None,
            set: Some(0)
        },
        // 9
        Node {
            header: 5,
            up: 5,
            down: 5,
            left: 8,
            right: 7,
            len: None,
            set: Some(0)
        },
        // 10
        Node {
            header: 2,
            up: 2,
            down: 2,
            left: 12,
            right: 11,
            len: None,
            set: Some(1)
        },
        // 11
        Node {
            header: 4,
            up: 4,
            down: 4,
            left: 10,
            right: 12,
            len: None,
            set: Some(1)
        },
        // 12
        Node {
            header: 6,
            up: 6,
            down: 6,
            left: 11,
            right: 10,
            len: None,
            set: Some(1)
        }
    ];
    let mut nodes = vec![root];
    nodes.extend(headers);
    nodes.extend(element_nodes);

    let expected = DLXTable {
        element_count: 6,
        nodes,
        set_heads: vec![7,10]
    };
    assert_eq!(expected, table);
}

#[test]
fn dlx_table_multiple_solutions() {
    let sets = vec![
        vec![0,2,4],
        vec![0,1,2],
        vec![3,4]
    ];
    let table = DLXTable::from(&sets);

    let root = Node {
        header: 0,
        up: 0,
        down: 0,
        left: 5,
        right: 1,
        len: None,
        set: None
    };
    let headers = vec![
        // 1
        Node {
            header: 1,
            up: 9,
            down: 6, 
            left: 0,
            right: 2,
            len: Some(2),
            set: None
        },
        // 2
        Node {
            header: 2,
            up: 10,
            down: 10,
            left: 1,
            right: 3,
            len: Some(1),
            set: None
        },
        // 3
        Node {
            header: 3,
            up: 11,
            down: 7,
            left: 2,
            right: 4,
            len: Some(2),
            set: None
        },
        // 4
        Node {
            header: 4,
            up: 12,
            down: 12,
            left: 3,
            right: 5,
            len: Some(1),
            set: None
        },
        // 5
        Node {
            header: 5,
            up: 13,
            down: 8,
            left: 4,
            right: 0,
            len: Some(2),
            set: None
        },
    ];
    let element_nodes = vec![
        // 6
        Node {
            header: 1,
            up: 1,
            down: 9,
            left: 8,
            right: 7,
            len: None,
            set: Some(0)
        },
        // 7
        Node {
            header: 3,
            up: 3,
            down: 11,
            left: 6,
            right: 8,
            len: None,
            set: Some(0)
        },
        // 8
        Node {
            header: 5,
            up: 5,
            down: 13,
            left: 7,
            right: 6,
            len: None,
            set: Some(0)
        },
        // 9
        Node {
            header: 1,
            up: 6,
            down: 1,
            left: 11,
            right: 10,
            len: None,
            set: Some(1)
        },
        // 10
        Node {
            header: 2,
            up: 2,
            down: 2,
            left: 9,
            right: 11,
            len: None,
            set: Some(1)
        },
        // 11
        Node {
            header: 3,
            up: 7,
            down: 3,
            left: 10,
            right: 9,
            len: None,
            set: Some(1)
        },
        // 12
        Node {
            header: 4,
            up: 4,
            down: 4,
            left: 13,
            right: 13,
            len: None,
            set: Some(2)
        },
        // 13
        Node {
            header: 5,
            up: 8,
            down: 5,
            left: 12,
            right: 12,
            len: None,
            set: Some(2)
        }
    ];

    let mut nodes = vec![root];
    nodes.extend(headers);
    nodes.extend(element_nodes);

    let expected = DLXTable {
        element_count: 5,
        nodes,
        set_heads: vec![6,9,12]
    };
    assert_eq!(expected, table);
}

#[test]
fn finds_all_containing_sets() {
    let table = create_table();

    let element_sets = table.element_sets(0);
    let expected = vec![1,3];
    assert_eq!(expected, element_sets);

    let element_sets = table.element_sets(3);
    let expected = vec![1,3,5];
    assert_eq!(expected, element_sets);
}

#[test]
fn counts_all_elements() {
    let table = create_table();

    let first_row_nodes = table.row_nodes(0);
    let second_row_nodes = table.row_nodes(1);
    assert_eq!(3, first_row_nodes.len());
    assert_eq!(3, second_row_nodes.len());
}

#[test]
fn finds_all_elements() {
    let table = create_table();

    let first_row_nodes = table.row_nodes(0);
    let expected = vec![8,9,10];
    assert_eq!(expected, first_row_nodes);
    
    let second_row_nodes = table.row_nodes(1);
    let expected = vec![11,12,13];
    assert_eq!(expected, second_row_nodes);
}

#[test]
fn header_unchanged() {
    let mut table = create_table();
    table.cover_element(0);

    let header_node = table.nodes[1];
    
    assert_eq!(11, header_node.down);
    assert_eq!(17, header_node.up);
    assert_eq!(0, header_node.left);
    assert_eq!(2, header_node.right);
}

#[test]
fn header_horizontal_disconnected() {
    let mut table = create_table();
    table.cover_element(0);

    let left_node = table.nodes[0];
    let right_node = table.nodes[2];

    assert_eq!(2, left_node.right);
    assert_eq!(0, right_node.left);
}

#[test]
fn header_vertical_connected() {
    let mut table = create_table();
    table.cover_element(0);
    
    let down_node = table.nodes[11];
    let up_node = table.nodes[17];

    assert_eq!(1, down_node.up);
    assert_eq!(1, up_node.down);
}

#[test]
fn element_nodes_unchanged() {
    let mut table = create_table();
    table.cover_element(0);
    let element_nodes = table.element_nodes(0);

    let expected = vec![11,17];
    assert_eq!(expected, element_nodes);
}

#[test]
fn header_children_connected() {
    let mut table = create_table();
    table.cover_element(0);

    let first_node = table.nodes[11];
    let second_node = table.nodes[17];

    assert_eq!(1, first_node.up);
    assert_eq!(17, first_node.down);
    assert_eq!(11, second_node.up);
    assert_eq!(1, second_node.down);
}

#[test]
fn row_nodes_vertical_disconnected() {
    let mut table = create_table();
    table.cover_element(0);

    let second_header = table.nodes[4];
    assert_eq!(21, second_header.down);
    assert_eq!(21, second_header.up);

    let third_header = table.nodes[7];
    assert_eq!(20, third_header.down);
}

#[test]
fn dlx_table_recovers_original_state() {
    {
        let orig_table = create_table();
        let mut table = create_table();
        table.cover_element(0);
        table.uncover_element(0);

        assert_eq!(orig_table, table);
    }
    {
        let orig_table = create_table();
        let mut table = create_table();
        table.cover_row(0, 1);
        table.uncover_row(0, 1);

        assert_eq!(orig_table, table);
    }
}

#[test]
fn header_reconnected() {
    let mut table = create_table();
    table.cover_element(0);
    table.uncover_element(0);

    let header_node = table.nodes[1];
    assert_eq!(0, header_node.left);
    assert_eq!(2, header_node.right);
}

#[test]
fn rows_reconnected() {
    let mut table = create_table();

    table.cover_element(0);
    table.uncover_element(0);

    let second_header = table.nodes[4];
    assert_eq!(12, second_header.down);

    let bottom_node = table.nodes[21];
    assert_eq!(18, bottom_node.up);

    let third_header = table.nodes[7];
    assert_eq!(13, third_header.down);
}

#[test]
fn element_headers_unchanged() {
    let mut table = create_table();
    table.cover_row(0, 1);

    let second_header = &table.nodes[4];
    assert_eq!(3, second_header.left);
    assert_eq!(5, second_header.right);

    let third_header = &table.nodes[7];
    assert_eq!(6, third_header.left);
    assert_eq!(0, third_header.right);
}

#[test]
fn element_headers_disconnected() {
    let mut table = create_table();
    table.cover_row(0, 1);

    let before_second_header = &table.nodes[4];
    let after_second_header = &table.nodes[5];

    assert_eq!(5, before_second_header.right);
    assert_eq!(3, after_second_header.left);

    let before_third_header = &table.nodes[6];
    let after_third_header = &table.nodes[0];
    assert_eq!(0, before_third_header.right);
    assert_eq!(6, after_third_header.left);
}
