use root::table::Table;

#[test]
fn table_starts_empty() {
    let table: Table<u32, u16> = Table::new();
    assert_eq!(table.len(), 0);
    assert!(table.get(&1).is_none());
    assert!(!table.contains_key(&1));
    assert!(table.index_of(&1).is_none());
}

#[test]
fn table_keeps_the_order_of_insertion() {
    let mut table: Table<u32, u16> = Table::new();
    assert_eq!(table.insert(30, 3), None);
    assert_eq!(table.insert(10, 1), None);
    assert_eq!(table.insert(20, 2), None);
    assert_eq!(table.len(), 3);
    assert_eq!(*table.key_at(0), 30);
    assert_eq!(*table.key_at(1), 10);
    assert_eq!(*table.key_at(2), 20);
    assert_eq!(*table.value_at(1), 1);
    assert_eq!(table.index_of(&20), Some(2));
}

#[test]
fn table_insert_replaces_in_place() {
    let mut table: Table<u32, u16> = Table::new();
    table.insert(30, 3);
    table.insert(10, 1);
    assert_eq!(table.insert(30, 33), Some(3));
    assert_eq!(table.len(), 2);
    assert_eq!(*table.key_at(0), 30);
    assert_eq!(table.get(&30), Some(&33));
    assert_eq!(table.get(&10), Some(&1));
}

#[test]
fn table_remove_closes_the_gap() {
    let mut table: Table<u32, u16> = Table::new();
    table.insert(1, 10);
    table.insert(2, 20);
    table.insert(3, 30);
    assert_eq!(table.remove(&2), Some(20));
    assert_eq!(table.remove(&2), None);
    assert_eq!(table.len(), 2);
    assert_eq!(*table.key_at(0), 1);
    assert_eq!(*table.key_at(1), 3);
    assert!(!table.contains_key(&2));
    assert!(table.contains_key(&3));
}

#[test]
fn table_values_change_in_place() {
    let mut table: Table<i32, u16> = Table::new();
    table.insert(-1, 10);
    table.insert(5, 20);
    *table.value_at_mut(0) = 11;
    if let Some(v) = table.get_mut(&5) {
        *v += 1;
    }
    assert!(table.get_mut(&9).is_none());
    assert_eq!(table.get(&-1), Some(&11));
    assert_eq!(table.get(&5), Some(&21));
    assert_eq!(table.len(), 2);
}
