use dlx::exact_cover2::{cover, exact_cover, including_sets, set_elements, BoolSet, OwnedSet};

fn covers_equal(cover1: &Vec<&[bool]>, cover2: &Vec<&[bool]>) -> bool {
    cover1.len() == cover2.len() &&
    cover1.iter()
        .all(|set| cover2.contains(&set))
}

fn solutions_equal(sol1: &Vec<Vec<&[bool]>>, sol2: &Vec<Vec<&[bool]>>) -> bool {
    sol1.len() == sol2.len() &&
    sol1.iter()
        .all(|cover1|
            sol2.iter()
                .any(|cover2| covers_equal(&cover1, &cover2)))
}

fn assert_solutions_equal(
    sol1: &Vec<Vec<&[bool]>>,
    sol2: &Vec<Vec<&[bool]>>) {
        assert!(solutions_equal(&sol1, &sol2));
}

#[test]
fn full_example() {
    let arrays = vec![
        // 0: 0
        vec![true, false, false, false, false],
        // 1: 1 2 3 4
        vec![false, true, true, true, true],
        // 2: 0 1
        vec![true, true, false, false, false],
        // 3: 2 3 4
        vec![false, false, true, true, true],
        // 4: 3 4
        vec![false, false, false, true, true],
        // 5: 1 2
        vec![false, true, true, false, false]
    ];

    let sets = vec![
        BoolSet(0, &arrays[0]),
        BoolSet(1, &arrays[1]),
        BoolSet(2, &arrays[2]),
        BoolSet(3, &arrays[3]),
        BoolSet(4, &arrays[4]),
        BoolSet(5, &arrays[5])
    ];

    let branch_sets: Vec<BoolSet> = including_sets(&sets, 0);
    
    let expected: Vec<BoolSet> = vec![
        sets[0],
        sets[2]
    ];

    assert_eq!(expected, branch_sets);

    let cover1: Vec<OwnedSet> = cover(&sets, sets[0]);
    let sets1: Vec<OwnedSet> = vec![
        OwnedSet(1, vec![true, true, true, true]),
        OwnedSet(3, vec![false, true, true, true]),
        OwnedSet(4, vec![false, false, true, true]),
        OwnedSet(5, vec![true, true, false, false])
    ];

    assert_eq!(sets1, cover1);

    let cover2: Vec<OwnedSet> = cover(&sets, sets[2]);
    let sets2: Vec<OwnedSet> = vec![
        OwnedSet(3, vec![true, true, true]),
        OwnedSet(4, vec![false, true, true])
    ];

    assert_eq!(sets2, cover2);

    let refsets1: Vec<BoolSet> = 
        sets1.iter()
            .map(BoolSet::from_owned)
            .collect();
    let cover11: Vec<OwnedSet> = cover(&refsets1, BoolSet::from_owned(&sets1[0]));
    let sets11: Vec<OwnedSet> = vec![];

    assert_eq!(sets11, cover11);
    
    let elements = set_elements(BoolSet::from_owned(&sets1[3]));
    assert_eq!(vec![0,1], elements);

    let elems = vec![0,1];
    // assert!(!sets1[1].contains_any(&elems));
    
    let rem_sets: Vec<&OwnedSet> = 
        sets1.iter()
            .filter(|set| 
                !set.contains_any(&elems))
            .collect();
    let exp_sets = vec![
        &sets1[2]
    ];
    assert_eq!(exp_sets, rem_sets);
    

    let cover12: Vec<OwnedSet> = cover(&refsets1, BoolSet::from_owned(&sets1[3]));
    let sets12: Vec<OwnedSet> = vec![
        OwnedSet(4, vec![true, true])
    ];

    assert_eq!(sets12, cover12);
}

#[test]
fn exact_cover2_no_sets() {
    let null_set = Vec::new();
    let cover = exact_cover(&null_set);
    let expected = Vec::<Vec<&[bool]>>::new();
    assert_solutions_equal(&expected, &cover);
}

#[test]
fn null_set() {
    let empty: Vec<bool> = Vec::new();
    let null_set = [empty];

    let cover = exact_cover(&null_set);
    let expected: Vec<Vec<&[bool]>> = vec![vec![&null_set[0]]];
    
    assert_solutions_equal(&expected, &cover);
}

#[test]
fn exact_cover2_empty_set() {
    let empty_set = [vec![false, false]];

    let cover = exact_cover(&empty_set);
    let expected = Vec::<Vec<&[bool]>>::new();

    assert_solutions_equal(&expected, &cover);
}

#[test]
fn set_with_all_elements() {
    let set = [vec![true, true]];
    let cover = exact_cover(&set);
    let expected: Vec<Vec<&[bool]>> = vec![vec![&set[0]]];
    assert_solutions_equal(&expected, &cover);
}

#[test]
fn set_with_missing_elements() {
    let set = [vec![true, true, false]];
    let cover = exact_cover(&set);
    let expected = Vec::<Vec<&[bool]>>::new();
    assert_solutions_equal(&expected, &cover);
}

#[test]
fn exact_cover2_disjoint_sets() {
    let sets = vec![
        vec![true, false, true, false],
        vec![false, true, false, true]
    ];
    
    let cover = exact_cover(&sets);
    
    let expected: Vec<Vec<&[bool]>> = vec![
        vec![
            &sets[0], 
            &sets[1]
        ]
    ];
    
    assert!(solutions_equal(&expected, &cover));
}

#[test]
fn two_identical_sets() {
    let sets = vec![
        vec![true, false, true, false],
        vec![false, true, false, true],
        vec![false, true, false, true]
    ];
    
    let cover = exact_cover(&sets);
    
    let expected: Vec<Vec<&[bool]>> = vec![
        vec![
            &sets[0],
            &sets[1]
        ], 
        vec![
            &sets[0], 
            &sets[2]
        ]
    ];
    
    assert!(solutions_equal(&expected, &cover));
}

#[test]
fn no_solutions() {
    let sets = vec![
        vec![false, true, false, true],
        vec![true, true, true, false]
    ];

    let cover = exact_cover(&sets);
    let expected = Vec::<Vec<&[bool]>>::new();

    assert!(solutions_equal(&expected, &cover));
}

#[test]
fn one_solution() {
    let sets = vec![
        vec![true, false, true, false],
        vec![false, true, false, true],
        vec![true, true, true, false]
    ];

    let cover = exact_cover(&sets);

    let expected: Vec<Vec<&[bool]>> = vec![vec![
        &sets[0],
        &sets[1],
    ]]; 

    assert!(solutions_equal(&expected, &cover));
}

#[test]
fn one_solution_bigger() {
    let sets = vec![
        // 0: 2 4 5
        vec![false, false, true, false, true, true, false],
        // 1: 0 3 6 
        vec![true, false, false, true, false, false, true],
        // 2: 1 2 5
        vec![false, true, true, false, false, true, false],
        // 3: 0 3
        vec![true, false, false, true, false, false, false],
        // 4: 1 6
        vec![false, true, false, false, false, false, true],
        // 5: 3 4 6
        vec![false, false, false, true, true, false, true]
    ];

    let cover = exact_cover(&sets);

    // 2 4 5
    // 0 3
    // 1 6
    let expected: Vec<Vec<&[bool]>> = vec![vec![
        &sets[0],
        &sets[3],
        &sets[4]
    ]];

    assert!(solutions_equal(&expected, &cover));
}

#[test]
fn multiple_solutions_simple() {
    let sets = vec![
        vec![true, false, true, false],
        vec![false, true, false, true],
        vec![true, true, false, false],
        vec![false, false, true, true]
    ];

    let cover = exact_cover(&sets);

    let expected: Vec<Vec<&[bool]>> = vec![
        vec![
            &sets[0],
            &sets[1],
        ],
        vec![
            &sets[2],
            &sets[3],
        ]
    ];

    assert!(solutions_equal(&expected, &cover));
}

#[test]
fn exact_cover2_multiple_solutions() {
    let sets = vec![
        // 0: 0
        vec![true, false, false, false, false],
        // 1: 1 2 3 4
        vec![false, true, true, true, true],
        // 2: 0 1
        vec![true, true, false, false, false],
        // 3: 2 3 4
        vec![false, false, true, true, true],
        // 4: 3 4
        vec![false, false, false, true, true],
        // 5: 1 2
        vec![false, true, true, false, false]
    ];

    let cover = exact_cover(&sets);   

    let expected: Vec<Vec<&[bool]>> = vec![
        // 0
        // 1 2 3 4
        vec![
            &sets[0],
            &sets[1]
        ],
        // 0 1
        // 2 3 4
        vec![
            &sets[2],
            &sets[3]
        ],
        // 0
        // 3 4
        // 1 2
        vec![
            &sets[0],
            &sets[4],
            &sets[5],
        ]
    ];

    assert_solutions_equal(&expected, &cover);
}

#[test]
fn exact_cover2_each_exact_cover_once() {
    let vectors = vec![vec![true, false], vec![false, true], vec![true, true]];
    let covers = exact_cover(&vectors);
    let expected: Vec<Vec<&[bool]>> = vec![
        vec![&vectors[1], &vectors[0]],
        vec![&vectors[2]],
    ];
    assert_eq!(covers, expected);
}
