use simple_scheduler::registry::Registry;

fn strings(names: &[&str]) -> Vec<String> {
    names.iter().map(|name| name.to_string()).collect()
}

#[test]
fn new_registry_is_empty() {
    let table: Registry<u32> = Registry::new();
    assert_eq!(table.len(), 0);
    assert_eq!(table.names(), Vec::<String>::new());
    assert_eq!(table.position("a"), None);
}

#[test]
fn insert_keeps_the_order_of_arrival() {
    let mut table: Registry<u32> = Registry::new();
    assert!(table.insert("b", 2));
    assert!(table.insert("a", 1));
    assert!(table.insert("c", 3));
    assert_eq!(table.len(), 3);
    assert_eq!(table.names(), strings(&["b", "a", "c"]));
    assert_eq!(table.position("b"), Some(0));
    assert_eq!(table.position("a"), Some(1));
    assert_eq!(table.position("c"), Some(2));
    assert_eq!(table.name_at(1), "a");
    assert_eq!(*table.item_at(1), 1);
}

#[test]
fn insert_never_overwrites() {
    let mut table: Registry<u32> = Registry::new();
    assert!(table.insert("a", 1));
    assert!(!table.insert("a", 9));
    assert_eq!(table.len(), 1);
    assert_eq!(*table.item_at(0), 1);
}

#[test]
fn remove_hands_the_item_back_and_closes_the_gap() {
    let mut table: Registry<u32> = Registry::new();
    table.insert("a", 1);
    table.insert("b", 2);
    table.insert("c", 3);
    assert_eq!(table.remove("b"), Some(2));
    assert_eq!(table.names(), strings(&["a", "c"]));
    assert_eq!(table.position("c"), Some(1));
    assert_eq!(table.position("b"), None);
    assert_eq!(table.remove("b"), None);
    assert_eq!(table.len(), 2);
}

#[test]
fn slot_mut_changes_one_item_in_place() {
    let mut table: Registry<u32> = Registry::new();
    table.insert("a", 1);
    table.insert("b", 2);
    *table.slot_mut(1) = 20;
    assert_eq!(*table.item_at(0), 1);
    assert_eq!(*table.item_at(1), 20);
    assert_eq!(table.names(), strings(&["a", "b"]));
}

#[test]
fn clear_empties_the_table() {
    let mut table: Registry<u32> = Registry::new();
    table.insert("a", 1);
    table.insert("b", 2);
    table.clear();
    assert_eq!(table.len(), 0);
    assert_eq!(table.position("a"), None);
    assert!(table.insert("a", 5));
    assert_eq!(*table.item_at(0), 5);
}

#[test]
fn names_differ_by_case_and_by_length() {
    let mut table: Registry<u32> = Registry::new();
    assert!(table.insert("job", 1));
    assert!(table.insert("Job", 2));
    assert!(table.insert("job1", 3));
    assert!(table.insert("", 4));
    assert_eq!(table.len(), 4);
    assert_eq!(table.position(""), Some(3));
    assert_eq!(table.position("jo"), None);
}
