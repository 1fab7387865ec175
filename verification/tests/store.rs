use bills::store::{add_bill, edit_bill, last_key, list_bills, remove_bill, Bill, Store, StoreError};

fn sorted_entries(store: &Store) -> Vec<(i32, Bill)> {
    let mut v = list_bills(store).expect("store should not be empty");
    v.sort_by(|a, b| a.0.cmp(&b.0));
    v
}

#[test]
fn first_add_on_empty_store_yields_id_1() {
    let mut store = Store::new();
    let id = add_bill(&mut store, "Rent".to_owned(), 1200);
    assert_eq!(id, 1);
}

#[test]
fn add_assigns_previous_max_plus_1() {
    let mut store = Store::new();
    assert_eq!(add_bill(&mut store, "a".to_owned(), 1), 1);
    assert_eq!(add_bill(&mut store, "b".to_owned(), 2), 2);
    assert_eq!(add_bill(&mut store, "c".to_owned(), 3), 3);
    remove_bill(&mut store, 3, true);
    assert_eq!(add_bill(&mut store, "d".to_owned(), 4), 3);
    remove_bill(&mut store, 1, true);
    assert_eq!(add_bill(&mut store, "e".to_owned(), 5), 4);
}

#[test]
fn last_key_is_highest_id_or_zero() {
    let mut store = Store::new();
    assert_eq!(last_key(&store), 0);
    add_bill(&mut store, "a".to_owned(), 1);
    add_bill(&mut store, "b".to_owned(), 2);
    assert_eq!(last_key(&store), 2);
    remove_bill(&mut store, 2, true);
    assert_eq!(last_key(&store), 1);
}

#[test]
fn list_empty_store_fails_with_empty() {
    let store = Store::new();
    assert_eq!(list_bills(&store).unwrap_err(), StoreError::Empty);
}

#[test]
fn list_returns_exactly_the_inserted_entries() {
    let mut store = Store::new();
    add_bill(&mut store, "Rent".to_owned(), 1200);
    add_bill(&mut store, "Internet".to_owned(), 60);
    add_bill(&mut store, "Water".to_owned(), -5);
    let v = sorted_entries(&store);
    assert_eq!(v.len(), 3);
    assert_eq!(v[0].0, 1);
    assert_eq!(v[0].1.name, "Rent");
    assert_eq!(v[0].1.amount_owed, 1200);
    assert_eq!(v[1].0, 2);
    assert_eq!(v[1].1.name, "Internet");
    assert_eq!(v[1].1.amount_owed, 60);
    assert_eq!(v[2].0, 3);
    assert_eq!(v[2].1.name, "Water");
    assert_eq!(v[2].1.amount_owed, -5);
}

#[test]
fn remove_declined_leaves_store_unchanged() {
    let mut store = Store::new();
    add_bill(&mut store, "Rent".to_owned(), 1200);
    remove_bill(&mut store, 1, false);
    let v = sorted_entries(&store);
    assert_eq!(v.len(), 1);
    assert_eq!(v[0].0, 1);
    assert_eq!(v[0].1.name, "Rent");
}

#[test]
fn remove_confirmed_removes_the_entry() {
    let mut store = Store::new();
    add_bill(&mut store, "Rent".to_owned(), 1200);
    add_bill(&mut store, "Internet".to_owned(), 60);
    remove_bill(&mut store, 1, true);
    let v = sorted_entries(&store);
    assert_eq!(v.len(), 1);
    assert_eq!(v[0].0, 2);
    assert_eq!(v[0].1.name, "Internet");
}

#[test]
fn remove_absent_id_is_a_no_op() {
    let mut store = Store::new();
    add_bill(&mut store, "Rent".to_owned(), 1200);
    remove_bill(&mut store, 7, true);
    assert_eq!(sorted_entries(&store).len(), 1);
}

#[test]
fn edit_only_name_leaves_amount_unchanged() {
    let mut store = Store::new();
    add_bill(&mut store, "Rent".to_owned(), 1200);
    edit_bill(&mut store, 1, Some("Lease".to_owned()), None).unwrap();
    let v = sorted_entries(&store);
    assert_eq!(v[0].1.name, "Lease");
    assert_eq!(v[0].1.amount_owed, 1200);
}

#[test]
fn edit_only_amount_leaves_name_unchanged() {
    let mut store = Store::new();
    add_bill(&mut store, "Rent".to_owned(), 1200);
    edit_bill(&mut store, 1, None, Some(900)).unwrap();
    let v = sorted_entries(&store);
    assert_eq!(v[0].1.name, "Rent");
    assert_eq!(v[0].1.amount_owed, 900);
}

#[test]
fn edit_both_fields() {
    let mut store = Store::new();
    add_bill(&mut store, "Rent".to_owned(), 1200);
    edit_bill(&mut store, 1, Some("Lease".to_owned()), Some(900)).unwrap();
    let v = sorted_entries(&store);
    assert_eq!(v[0].1.name, "Lease");
    assert_eq!(v[0].1.amount_owed, 900);
}

#[test]
fn edit_absent_id_fails_with_not_found() {
    let mut store = Store::new();
    add_bill(&mut store, "Rent".to_owned(), 1200);
    let r = edit_bill(&mut store, 2, Some("x".to_owned()), None);
    assert_eq!(r.unwrap_err(), StoreError::NotFound);
    let v = sorted_entries(&store);
    assert_eq!(v[0].1.name, "Rent");
    assert_eq!(v[0].1.amount_owed, 1200);
}

#[test]
fn bill_edit_touches_only_provided_fields() {
    let mut bill = Bill::add("Rent".to_owned(), 1200);
    bill.edit(Some("Lease".to_owned()), None);
    assert_eq!(bill.name, "Lease");
    assert_eq!(bill.amount_owed, 1200);
    bill.edit(None, Some(900));
    assert_eq!(bill.name, "Lease");
    assert_eq!(bill.amount_owed, 900);
    bill.edit(None, None);
    assert_eq!(bill.name, "Lease");
    assert_eq!(bill.amount_owed, 900);
}

#[test]
fn scenario_add_add_edit_list() {
    let mut store = Store::new();
    let id1 = add_bill(&mut store, "Rent".to_owned(), 1200);
    assert_eq!(id1, 1);
    let id2 = add_bill(&mut store, "Internet".to_owned(), 60);
    assert_eq!(id2, 2);
    edit_bill(&mut store, 1, None, Some(1300)).unwrap();
    let v = sorted_entries(&store);
    assert_eq!(v.len(), 2);
    assert_eq!(v[0].0, 1);
    assert_eq!(v[0].1.name, "Rent");
    assert_eq!(v[0].1.amount_owed, 1300);
    assert_eq!(v[1].0, 2);
    assert_eq!(v[1].1.name, "Internet");
    assert_eq!(v[1].1.amount_owed, 60);
}
