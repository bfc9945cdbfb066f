use active_app_volume::process_tree::{
    get_children, get_children_pids, has_finite_descendants, ProcessEntry,
};
use active_app_volume::tree::{flatten_tree_breadth_first, Node};

#[test]
fn flatten_tree_breadth_first_test() {
    let tree: Node<i32> = Node {
        value: 20363,
        children: vec![Node {
            value: 20365,
            children: vec![
                Node {
                    value: 21549,
                    children: vec![
                        Node {
                            value: 21587,
                            children: vec![],
                        },
                        Node {
                            value: 21586,
                            children: vec![Node {
                                value: 21660,
                                children: vec![Node {
                                    value: 21661,
                                    children: vec![],
                                }],
                            }],
                        },
                    ],
                },
                Node {
                    value: 20401,
                    children: vec![
                        Node {
                            value: 20449,
                            children: vec![],
                        },
                        Node {
                            value: 20448,
                            children: vec![Node {
                                value: 20531,
                                children: vec![Node {
                                    value: 20532,
                                    children: vec![],
                                }],
                            }],
                        },
                    ],
                },
                Node {
                    value: 20403,
                    children: vec![],
                },
            ],
        }],
    };
    let actual = flatten_tree_breadth_first(tree, Vec::new());
    let expected = [
        //20363,
        20365, 21549, 20401, 20403, 21587, 21586, 20449, 20448, 21660, 20531, 21661, 20532,
    ];
    assert_eq!(actual, expected);
}

#[test]
fn flatten_keeps_the_given_prefix_and_skips_the_root() {
    let tree = Node {
        value: 'r',
        children: vec![
            Node { value: 'a', children: vec![Node { value: 'c', children: vec![] }] },
            Node { value: 'b', children: vec![] },
        ],
    };
    let out = flatten_tree_breadth_first(tree, vec!['x', 'y']);
    assert_eq!(out, vec!['x', 'y', 'a', 'b', 'c']);
}

#[test]
fn flatten_of_a_lone_root_is_the_prefix() {
    let tree: Node<u8> = Node { value: 7, children: vec![] };
    assert_eq!(flatten_tree_breadth_first(tree, vec![1, 2]), vec![1, 2]);
    let tree: Node<u8> = Node { value: 7, children: vec![] };
    assert_eq!(flatten_tree_breadth_first(tree, Vec::new()), Vec::<u8>::new());
}

fn entry(pid: i32, parent: Option<i32>) -> ProcessEntry {
    ProcessEntry { pid, parent }
}

/// The process table behind the tree of `flatten_tree_breadth_first_test`, rows in a
/// scrambled order, with two more processes.
fn sample_table() -> Vec<ProcessEntry> {
    vec![
        entry(21661, Some(21660)),
        entry(20365, Some(20363)),
        entry(1, None),
        entry(20448, Some(20401)),
        entry(21549, Some(20365)),
        entry(20363, Some(1)),
        entry(20401, Some(20365)),
        entry(20532, Some(20531)),
        entry(21587, Some(21549)),
        entry(20403, Some(20365)),
        entry(21586, Some(21549)),
        entry(20449, Some(20401)),
        entry(21660, Some(21586)),
        entry(20531, Some(20448)),
        entry(999, Some(1)),
    ]
}

#[test]
fn children_pids_lists_parent_then_generations() {
    let table = sample_table();
    assert!(has_finite_descendants(20363, &table));
    let pids = get_children_pids(20363, &table);
    // each generation keeps the order of its parents, then of the table
    assert_eq!(
        pids,
        vec![20363, 20365, 21549, 20401, 20403, 21587, 21586, 20448, 20449, 21660, 20531, 21661, 20532]
    );
}

#[test]
fn children_pids_of_a_leaf_is_just_the_leaf() {
    let table = sample_table();
    assert_eq!(get_children_pids(21661, &table), vec![21661]);
    assert_eq!(get_children_pids(4242, &table), vec![4242]);
    assert_eq!(get_children_pids(5, &Vec::new()), vec![5]);
}

#[test]
fn get_children_builds_the_tree_in_table_order() {
    let table = vec![
        entry(3, Some(1)),
        entry(2, Some(1)),
        entry(4, Some(3)),
        entry(1, None),
    ];
    let forest = get_children(1, &table);
    assert_eq!(forest.len(), 2);
    assert_eq!(forest[0].value, 3);
    assert_eq!(forest[1].value, 2);
    assert_eq!(forest[0].children.len(), 1);
    assert_eq!(forest[0].children[0].value, 4);
    assert!(forest[0].children[0].children.is_empty());
    assert!(forest[1].children.is_empty());
}

#[test]
fn parent_links_in_a_cycle_have_no_finite_descendants() {
    let table = vec![entry(1, Some(2)), entry(2, Some(1)), entry(3, Some(7))];
    assert!(!has_finite_descendants(1, &table));
    assert!(!has_finite_descendants(2, &table));
    assert!(has_finite_descendants(7, &table));
    assert!(has_finite_descendants(3, &table));
    let self_parent = vec![entry(5, Some(5))];
    assert!(!has_finite_descendants(5, &self_parent));
}

#[test]
fn every_listed_child_has_its_parent_listed_earlier() {
    let table = sample_table();
    let pids = get_children_pids(1, &table);
    assert_eq!(pids[0], 1);
    assert_eq!(pids.len(), 15);
    for i in 1..pids.len() {
        let parent = table.iter().find(|e| e.pid == pids[i]).unwrap().parent.unwrap();
        let pos = pids.iter().position(|p| *p == parent).unwrap();
        assert!(pos < i);
    }
}

#[test]
fn every_child_of_a_listed_process_is_listed() {
    let table = sample_table();
    for start in [1, 20363, 20365, 21549, 20401] {
        let pids = get_children_pids(start, &table);
        for p in &pids {
            for e in table.iter().filter(|e| e.parent == Some(*p)) {
                assert!(pids.contains(&e.pid));
            }
        }
    }
}

#[test]
fn a_table_without_cycles_has_finite_descendants_everywhere() {
    let table = sample_table();
    for e in &table {
        assert!(has_finite_descendants(e.pid, &table));
        if let Some(parent) = e.parent {
            assert!(has_finite_descendants(parent, &table));
        }
    }
    // a long chain as deep as the table is long
    let chain: Vec<ProcessEntry> = (1..40).map(|p| entry(p + 1, Some(p))).collect();
    assert!(has_finite_descendants(1, &chain));
    assert_eq!(get_children_pids(1, &chain), (1..41).collect::<Vec<i32>>());
}

#[test]
fn flattening_lists_every_node_but_the_root_once() {
    let table = sample_table();
    let forest = get_children(1, &table);
    let root = Node { value: 1, children: forest };
    let flat = flatten_tree_breadth_first(root, vec![1]);
    // flattening the tree that get_children builds gives get_children_pids
    assert_eq!(flat, get_children_pids(1, &table));
    assert_eq!(flat.len(), 15);
}

/// The descendants of `ancestor`, found by repeated scans of the table.
fn descendants_by_scanning(table: &[ProcessEntry], ancestor: i32) -> Vec<i32> {
    let mut found = vec![ancestor];
    let mut changed = true;
    while changed {
        changed = false;
        for e in table {
            if let Some(parent) = e.parent {
                if found.contains(&parent) && !found.contains(&e.pid) {
                    found.push(e.pid);
                    changed = true;
                }
            }
        }
    }
    found
}

#[test]
fn listed_ids_are_exactly_the_parent_and_its_descendants() {
    let table = sample_table();
    for start in [1, 20363, 20401, 21661, 777] {
        let mut listed = get_children_pids(start, &table);
        let mut expected = descendants_by_scanning(&table, start);
        listed.sort();
        expected.sort();
        assert_eq!(listed, expected);
    }
}

#[test]
fn listed_ids_are_distinct_when_table_ids_are() {
    let table = sample_table();
    let pids = get_children_pids(1, &table);
    let mut sorted = pids.clone();
    sorted.sort();
    sorted.dedup();
    assert_eq!(sorted.len(), pids.len());
}
