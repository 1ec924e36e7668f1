use redstone_simulator::names::{same_text, NameTable};
use redstone_simulator::order::sorted_ids;

#[test]
fn same_text_compares_strings() {
    assert!(same_text("abc", "abc"));
    assert!(same_text("", ""));
    assert!(!same_text("abc", "abd"));
    assert!(!same_text("abc", "ab"));
}

#[test]
fn a_table_finds_nodes_by_name() {
    let mut t = NameTable::new();
    assert_eq!(t.len(), 0);
    assert_eq!(t.find("a"), None);
    t.insert(3, "a".to_string());
    t.insert(5, "b".to_string());
    assert_eq!(t.len(), 2);
    assert_eq!(t.find("a"), Some(3));
    assert_eq!(t.find("b"), Some(5));
    assert_eq!(t.find("c"), None);
    assert!(t.contains_node(3));
    assert!(!t.contains_node(4));
    assert_eq!(t.node_at(0), 3);
    assert_eq!(t.node_at(1), 5);
}

#[test]
fn a_new_entry_takes_the_place_of_those_it_clashes_with() {
    let mut t = NameTable::new();
    t.insert(1, "a".to_string());
    t.insert(2, "b".to_string());
    t.insert(3, "c".to_string());
    t.insert(1, "c".to_string());
    assert_eq!(t.len(), 2);
    assert_eq!(t.find("a"), None);
    assert_eq!(t.find("b"), Some(2));
    assert_eq!(t.find("c"), Some(1));
    assert!(!t.contains_node(3));
    assert_eq!(t.node_at(1), 1);
    for i in 0..t.len() {
        for j in 0..t.len() {
            if i != j {
                assert_ne!(t.entries[i].node, t.entries[j].node);
                assert_ne!(t.entries[i].name, t.entries[j].name);
            }
        }
    }
}

#[test]
fn sorted_ids_puts_indices_in_ascending_order() {
    assert_eq!(sorted_ids(&vec![5, 1, 4, 2, 3]), vec![1, 2, 3, 4, 5]);
    assert_eq!(sorted_ids(&vec![]), Vec::<u32>::new());
    assert_eq!(sorted_ids(&vec![9]), vec![9]);
    assert_eq!(sorted_ids(&vec![0, u32::MAX, 7]), vec![0, 7, u32::MAX]);
}
