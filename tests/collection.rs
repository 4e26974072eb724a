use todo_list::command::{target_of, Target};
use todo_list::error::StorageError;
use todo_list::todo::{TodoItem, TodoList};

fn entries(list: &TodoList) -> Vec<(u32, String, bool)> {
    list.items()
        .iter()
        .map(|t| (t.id(), t.description().to_string(), t.is_done()))
        .collect()
}

#[test]
fn insert_new_then_duplicate_in_other_casing() {
    let mut list = TodoList::build();
    assert!(list.insert("Buy milk".to_string()));
    assert_eq!(list.len(), 1);
    assert!(!list.insert("BUY MILK".to_string()));
    assert!(!list.insert("buy milk".to_string()));
    assert_eq!(list.len(), 1);
    assert_eq!(list.next_id(), 1);
}

#[test]
fn ids_count_successful_inserts_and_are_not_reused() {
    let mut list = TodoList::build();
    assert!(list.insert("a".to_string()));
    assert!(!list.insert("A".to_string()));
    assert!(list.insert("b".to_string()));
    assert!(list.remove_by_id(1).is_some());
    assert!(list.insert("c".to_string()));
    assert_eq!(list.get_item_by_description("c".to_string()).unwrap().id(), 2);
    assert_eq!(list.get_item_by_description("a".to_string()).unwrap().id(), 0);
    assert_eq!(list.next_id(), 3);
}

#[test]
fn lookups_by_description_and_id_agree() {
    let mut list = TodoList::build();
    list.insert("Write report".to_string());
    list.insert("Call mom".to_string());
    let by_desc = list.get_item_by_description("CALL MOM".to_string()).unwrap();
    let by_id = list.get_item_by_id(1).unwrap();
    assert_eq!(by_desc.id(), by_id.id());
    assert_eq!(by_desc.description(), by_id.description());
    assert_eq!(by_desc.description(), "call mom");
    assert!(list.get_item_by_id(7).is_none());
    assert!(list.get_item_by_description("nothing".to_string()).is_none());
}

#[test]
fn update_twice_restores_the_flag() {
    let mut list = TodoList::build();
    list.insert("Walk dog".to_string());
    assert_eq!(list.update_todo_item_id(0), Some(true));
    assert!(list.get_item_by_id(0).unwrap().is_done());
    assert_eq!(list.update_todo_item_id(0), Some(false));
    assert!(!list.get_item_by_id(0).unwrap().is_done());
    assert_eq!(list.update_todo_item_description("WALK DOG".to_string()), Some(true));
    assert_eq!(list.update_todo_item_description("walk dog".to_string()), Some(false));
    assert_eq!(list.update_todo_item_id(5), None);
    assert_eq!(list.update_todo_item_description("fly".to_string()), None);
}

#[test]
fn scenario_insert_remove_find() {
    let mut list = TodoList::build();
    assert!(list.insert("Buy milk".to_string()));
    assert_eq!(list.get_item_by_description("Buy milk".to_string()).unwrap().id(), 0);
    assert!(!list.insert("buy milk".to_string()));
    assert!(list.insert("Walk dog".to_string()));
    assert_eq!(list.get_item_by_description("walk dog".to_string()).unwrap().id(), 1);
    let removed = list.remove_by_id(0).unwrap();
    assert_eq!(removed.id(), 0);
    assert_eq!(removed.description(), "buy milk");
    assert!(!removed.is_done());
    assert!(list.get_item_by_id(0).is_none());
    assert_eq!(list.next_id(), 2);
}

#[test]
fn remove_by_description_and_absent_targets() {
    let mut list = TodoList::build();
    list.insert("One".to_string());
    list.insert("Two".to_string());
    assert!(list.remove_by_description("three".to_string()).is_none());
    assert!(list.remove_by_id(9).is_none());
    let r = list.remove_by_description("ONE".to_string()).unwrap();
    assert_eq!(r.id(), 0);
    assert_eq!(entries(&list), vec![(1, "two".to_string(), false)]);
    assert_eq!(list.next_id(), 2);
}

#[test]
fn item_build_clone_update() {
    let mut item = TodoItem::build(4, "Read".to_string());
    assert_eq!(item.id(), 4);
    assert_eq!(item.description(), "Read");
    assert!(!item.is_done());
    item.update();
    assert!(item.is_done());
    let copy = item.clone();
    item.update();
    assert!(copy.is_done());
    assert!(!item.is_done());
    assert_eq!(copy.description(), "Read");
}

#[test]
fn insert_lowers_ascii_letters_only() {
    let mut list = TodoList::build();
    assert!(list.insert("Buy MILK 2x".to_string()));
    assert!(list.insert("ÄÖ Straße".to_string()));
    assert_eq!(list.get_item_by_id(0).unwrap().description(), "buy milk 2x");
    assert_eq!(list.get_item_by_id(1).unwrap().description(), "ÄÖ straße");
    assert!(list.insert("äö straße".to_string()));
}

#[test]
fn csv_header_and_line() {
    assert_eq!(TodoItem::header_of_csv(), "Id,Description,Done");
    let mut item = TodoItem::build(12, "feed cat".to_string());
    assert_eq!(item.elem_in_csv(), "12,feed cat,false");
    item.update();
    assert_eq!(item.elem_in_csv(), "12,feed cat,true");
}

#[test]
fn empty_collection_csv() {
    let list = TodoList::build();
    let text = list.to_csv();
    assert_eq!(text, "Id,Description,Done\n");
    let back = TodoList::from_csv(&text).unwrap();
    assert_eq!(back.len(), 0);
    assert_eq!(back.next_id(), 0);
    let none = TodoList::from_csv("").unwrap();
    assert_eq!(none.len(), 0);
    assert_eq!(none.next_id(), 0);
}

#[test]
fn csv_text_of_entries() {
    let mut list = TodoList::build();
    list.insert("Buy milk".to_string());
    list.insert("Walk dog".to_string());
    list.update_todo_item_id(1);
    assert_eq!(
        list.to_csv(),
        "Id,Description,Done\n0,buy milk,false\n1,walk dog,true\n"
    );
}

#[test]
fn csv_round_trip_keeps_entries_and_recounts_next_id() {
    let mut list = TodoList::build();
    list.insert("a".to_string());
    list.insert("b".to_string());
    list.insert("c".to_string());
    list.update_todo_item_id(0);
    list.remove_by_id(2);
    assert_eq!(list.next_id(), 3);
    let back = TodoList::from_csv(&list.to_csv()).unwrap();
    assert_eq!(entries(&back), entries(&list));
    assert_eq!(back.next_id(), 2);
}

#[test]
fn csv_reading_details() {
    let text = "Id,Description,Done\r\n 7 ,Fix Bike,true\r\n+3,x,yes\n";
    let list = TodoList::from_csv(text).unwrap();
    assert_eq!(
        entries(&list),
        vec![(7, "fix bike".to_string(), true), (3, "x".to_string(), false)]
    );
    assert_eq!(list.next_id(), 8);
    let extra = TodoList::from_csv("h\n1,a,b,c\n").unwrap();
    assert_eq!(entries(&extra), vec![(1, "a".to_string(), false)]);
}

#[test]
fn csv_malformed_inputs() {
    let bad = [
        "Id,Description,Done\n1,no third field\n",
        "Id,Description,Done\nx,abc,true\n",
        "Id,Description,Done\n,abc,true\n",
        "Id,Description,Done\n-1,abc,true\n",
        "Id,Description,Done\n4294967296,abc,true\n",
        "Id,Description,Done\n4294967295,abc,true\n",
        "Id,Description,Done\n1,abc,true\n2,ABC,false\n",
        "Id,Description,Done\n1,abc,true\n1,def,false\n",
        "Id,Description,Done\n1,abc,true\n\n",
    ];
    for text in bad.iter() {
        assert_eq!(TodoList::from_csv(text).err(), Some(StorageError::MalformedStorage));
    }
    let top = TodoList::from_csv("Id,Description,Done\n4294967294,abc,true\n").unwrap();
    assert_eq!(top.next_id(), 4294967295);
}

#[test]
fn rebuild_from_entries() {
    let mut list = TodoList::build();
    list.insert("a".to_string());
    list.insert("b".to_string());
    list.update_todo_item_description("B".to_string());
    let copies: Vec<TodoItem> = list.items().iter().map(|t| t.clone()).collect();
    let back = TodoList::from_items(copies, list.next_id()).unwrap();
    assert_eq!(entries(&back), entries(&list));
    assert_eq!(back.next_id(), list.next_id());
}

#[test]
fn rebuild_rejects_entries_that_do_not_fit() {
    let upper = vec![TodoItem::build(0, "Abc".to_string())];
    assert!(TodoList::from_items(upper, 1).is_none());
    let stale = vec![TodoItem::build(3, "abc".to_string())];
    assert!(TodoList::from_items(stale, 3).is_none());
    let same_id = vec![TodoItem::build(0, "a".to_string()), TodoItem::build(0, "b".to_string())];
    assert!(TodoList::from_items(same_id, 1).is_none());
    let same_desc = vec![TodoItem::build(0, "a".to_string()), TodoItem::build(1, "a".to_string())];
    assert!(TodoList::from_items(same_desc, 2).is_none());
    let ok = vec![TodoItem::build(5, "a".to_string())];
    assert_eq!(TodoList::from_items(ok, 6).unwrap().len(), 1);
}

#[test]
fn argument_names_id_or_description() {
    assert!(matches!(target_of("12".to_string()), Target::Id(12)));
    assert!(matches!(target_of(" 7 ".to_string()), Target::Id(7)));
    assert!(matches!(target_of("+3".to_string()), Target::Id(3)));
    match target_of("Buy milk".to_string()) {
        Target::Description(d) => assert_eq!(d, "Buy milk"),
        Target::Id(_) => panic!("read as an id"),
    }
    match target_of("4294967296".to_string()) {
        Target::Description(d) => assert_eq!(d, "4294967296"),
        Target::Id(_) => panic!("read as an id"),
    }
    match target_of("-1".to_string()) {
        Target::Description(d) => assert_eq!(d, "-1"),
        Target::Id(_) => panic!("read as an id"),
    }
}

#[test]
fn argument_id_inside_unicode_white_space() {
    assert!(matches!(target_of("\u{a0}5".to_string()), Target::Id(5)));
    assert!(matches!(target_of("\u{3000}8\u{3000}".to_string()), Target::Id(8)));
    assert!(matches!(target_of("\u{2003}9\u{85}".to_string()), Target::Id(9)));
    match target_of("\u{200b}5".to_string()) {
        Target::Description(d) => assert_eq!(d, "\u{200b}5"),
        Target::Id(_) => panic!("read as an id"),
    }
    let list = TodoList::from_csv("Id,Description,Done\n\u{a0}4\u{3000},a,true\n").unwrap();
    assert_eq!(entries(&list), vec![(4, "a".to_string(), true)]);
}

#[test]
fn duplicate_insert_with_counter_at_the_top() {
    let mut list = TodoList::from_csv("Id,Description,Done\n4294967294,abc,false\n").unwrap();
    assert_eq!(list.next_id(), u32::MAX);
    assert!(!list.insert("ABC".to_string()));
    assert_eq!(list.len(), 1);
    assert_eq!(list.next_id(), u32::MAX);
}

#[test]
fn rebuild_from_keyed_entries() {
    let keys = vec!["a".to_string(), "b".to_string()];
    let items = vec![TodoItem::build(0, "a".to_string()), TodoItem::build(1, "b".to_string())];
    let list = TodoList::from_keyed_items(keys, items, 2).unwrap();
    assert_eq!(list.len(), 2);
    let wrong = vec!["a".to_string(), "x".to_string()];
    let items = vec![TodoItem::build(0, "a".to_string()), TodoItem::build(1, "b".to_string())];
    assert!(TodoList::from_keyed_items(wrong, items, 2).is_none());
    let short = vec!["a".to_string()];
    let items = vec![TodoItem::build(0, "a".to_string()), TodoItem::build(1, "b".to_string())];
    assert!(TodoList::from_keyed_items(short, items, 2).is_none());
}
