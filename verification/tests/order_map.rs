use multi_index_store::errors::UniquenessError;
use multi_index_store::order::Order;
use multi_index_store::order_map::MultiIndexOrderMap;

fn order(order_id: u32, timestamp: u64, trader_name: &str, note: &str) -> Order {
    Order {
        order_id,
        timestamp,
        trader_name: trader_name.to_string(),
        note: note.to_string(),
    }
}

fn ids(orders: &[&Order]) -> Vec<u32> {
    orders.iter().map(|o| o.order_id).collect()
}

fn two_orders() -> MultiIndexOrderMap {
    let mut map = MultiIndexOrderMap::default();
    let o1_ref: &Order = map.insert(order(1, 111, "John", ""));
    assert_eq!(o1_ref.order_id, 1);
    let o2_ref: &Order = map.try_insert(order(2, 22, "Tom", "")).unwrap();
    assert_eq!(o2_ref.order_id, 2);
    map
}

#[test]
fn walkthrough_of_the_order_map() {
    let mut map = two_orders();

    let by_ts = map.iter_by_timestamp();
    assert_eq!(ids(&by_ts), vec![2, 1]);

    let mut by_id = ids(&map.iter_by_order_id());
    by_id.sort();
    assert_eq!(by_id, vec![1, 2]);

    let all: Vec<(usize, u32)> = map.iter().iter().map(|(k, o)| (*k, o.order_id)).collect();
    assert_eq!(all.len(), 2);
    assert_eq!(all[0].1, 1);
    assert_eq!(all[1].1, 2);

    let o1_ref = map.get_by_order_id(&1).unwrap();
    assert_eq!(o1_ref.trader_name, "John");
    assert_eq!(o1_ref.order_id, 1);

    assert_eq!(map.iter_mut().len(), 2);

    let o1_ref = map
        .modify_by_order_id(&1, |o| {
            o.order_id = 7;
            o.timestamp = 77;
            o.trader_name = "Tom".to_string();
        })
        .unwrap();
    assert_eq!(o1_ref.order_id, 7);
    assert_eq!(o1_ref.timestamp, 77);
    assert_eq!(o1_ref.trader_name, "Tom");

    let missing = map.modify_by_order_id(&112345, |o| {
        o.order_id = 7;
        o.timestamp = 77;
        o.trader_name = "Tom".to_string();
    });
    assert!(missing.is_none());

    let o1_ref = map
        .update_by_order_id(&7, |note| {
            *note = "TestNote".to_string();
        })
        .unwrap();
    assert_eq!(o1_ref.note, "TestNote");

    let (o1_note_ref,) = map.get_mut_by_order_id(&7).unwrap();
    *o1_note_ref = "TestNoteUpdated".to_string();
    assert_eq!(map.get_by_order_id(&7).unwrap().note, "TestNoteUpdated");

    let toms_orders = map.remove_by_trader_name(&"Tom".to_string());
    assert_eq!(toms_orders.len(), 2);
    assert!(map.is_empty());

    map.insert(order(3, 33, "Jimbo", ""));
    let o3 = map.remove_by_timestamp(&33).unwrap();
    assert_eq!(o3.trader_name, "Jimbo");
    assert_eq!(o3.timestamp, 33);

    for (note,) in map.iter_mut() {
        note.push_str(" extra appended data");
    }
    assert_eq!(map.len(), 0);
}

#[test]
fn try_insert_refuses_a_taken_order_id() {
    let mut map = two_orders();
    match map.try_insert(order(1, 999, "Ann", "x")) {
        Err(UniquenessError(o)) => {
            assert_eq!(o.order_id, 1);
            assert_eq!(o.timestamp, 999);
        }
        Ok(_) => panic!("a taken order_id was accepted"),
    }
    assert_eq!(map.len(), 2);
    assert_eq!(map.get_by_timestamp(&999).map(|o| o.order_id), None);
}

#[test]
fn try_insert_refuses_a_taken_timestamp() {
    let mut map = two_orders();
    let r = map.try_insert(order(9, 22, "Ann", ""));
    assert!(r.is_err());
    assert_eq!(map.len(), 2);
    assert!(map.get_by_order_id(&9).is_none());
}

#[test]
fn lookups_by_each_index() {
    let mut map = two_orders();
    map.insert(order(3, 5, "John", "n3"));
    assert_eq!(map.get_by_timestamp(&111).unwrap().order_id, 1);
    assert!(map.get_by_timestamp(&112).is_none());
    assert!(map.get_by_order_id(&4).is_none());
    assert_eq!(ids(&map.get_by_trader_name("John")), vec![1, 3]);
    assert_eq!(ids(&map.get_by_trader_name("Tom")), vec![2]);
    assert!(map.get_by_trader_name("Nobody").is_empty());
}

#[test]
fn iteration_by_trader_keeps_each_trader_together() {
    let mut map = MultiIndexOrderMap::default();
    map.insert(order(1, 10, "A", ""));
    map.insert(order(2, 20, "B", ""));
    map.insert(order(3, 30, "A", ""));
    map.insert(order(4, 40, "B", ""));
    map.insert(order(5, 50, "C", ""));
    let names: Vec<String> = map.iter_by_trader_name().iter().map(|o| o.trader_name.clone()).collect();
    assert_eq!(names.len(), 5);
    let mut groups: Vec<String> = Vec::new();
    for n in names {
        if groups.last() != Some(&n) {
            assert!(!groups.contains(&n));
            groups.push(n);
        }
    }
    assert_eq!(groups.len(), 3);
    let a = map.iter_by_trader_name().iter().filter(|o| o.trader_name == "A").map(|o| o.order_id).collect::<Vec<_>>();
    assert_eq!(a, vec![1, 3]);
}

#[test]
fn iteration_by_timestamp_is_ascending() {
    let mut map = MultiIndexOrderMap::default();
    for (i, ts) in [50u64, 10, 40, 20, 30].iter().enumerate() {
        map.insert(order(i as u32, *ts, "T", ""));
    }
    let ts: Vec<u64> = map.iter_by_timestamp().iter().map(|o| o.timestamp).collect();
    assert_eq!(ts, vec![10, 20, 30, 40, 50]);
}

#[test]
fn removal_by_order_id_and_refiling() {
    let mut map = two_orders();
    let o = map.remove_by_order_id(&1).unwrap();
    assert_eq!(o.trader_name, "John");
    assert!(map.remove_by_order_id(&1).is_none());
    assert!(map.get_by_timestamp(&111).is_none());
    assert!(map.get_by_trader_name("John").is_empty());
    assert_eq!(map.len(), 1);
    assert!(map.remove_by_timestamp(&111).is_none());
    assert!(map.remove_by_trader_name(&"John".to_string()).is_empty());
}

#[test]
fn modify_by_timestamp_refiles_every_index() {
    let mut map = two_orders();
    let o = map
        .modify_by_timestamp(&22, |o| {
            o.timestamp = 23;
            o.trader_name = "Ann".to_string();
        })
        .unwrap();
    assert_eq!(o.order_id, 2);
    assert!(map.get_by_timestamp(&22).is_none());
    assert_eq!(map.get_by_timestamp(&23).unwrap().order_id, 2);
    assert!(map.get_by_trader_name("Tom").is_empty());
    assert_eq!(ids(&map.get_by_trader_name("Ann")), vec![2]);
    assert!(map.modify_by_timestamp(&22, |o| o.note.push('x')).is_none());
}

#[test]
fn modify_by_trader_name_changes_each_of_its_orders() {
    let mut map = MultiIndexOrderMap::default();
    map.insert(order(1, 10, "A", ""));
    map.insert(order(2, 20, "B", ""));
    map.insert(order(3, 30, "A", ""));
    let changed = map.modify_by_trader_name(&"A".to_string(), |o| {
        o.order_id += 100;
        o.trader_name = "Z".to_string();
    });
    assert_eq!(ids(&changed), vec![101, 103]);
    assert!(map.get_by_trader_name("A").is_empty());
    assert_eq!(ids(&map.get_by_trader_name("Z")), vec![101, 103]);
    assert_eq!(map.get_by_order_id(&103).unwrap().timestamp, 30);
    assert!(map.get_by_order_id(&1).is_none());
    assert_eq!(map.get_by_order_id(&2).unwrap().trader_name, "B");
}

#[test]
fn update_by_trader_name_and_timestamp_touch_notes_only() {
    let mut map = two_orders();
    map.insert(order(3, 5, "John", ""));
    let updated = map.update_by_trader_name("John", |note| note.push_str("seen"));
    assert_eq!(ids(&updated), vec![1, 3]);
    assert_eq!(map.get_by_order_id(&1).unwrap().note, "seen");
    assert_eq!(map.get_by_order_id(&3).unwrap().note, "seen");
    assert_eq!(map.get_by_order_id(&2).unwrap().note, "");
    let o = map.update_by_timestamp(&22, |note| *note = "t".to_string()).unwrap();
    assert_eq!(o.note, "t");
    assert!(map.update_by_timestamp(&23, |note| *note = "t".to_string()).is_none());
    assert!(map.update_by_order_id(&8, |note| *note = "t".to_string()).is_none());
}

#[test]
fn mutable_notes_by_trader_and_by_timestamp() {
    let mut map = two_orders();
    map.insert(order(3, 5, "John", ""));
    {
        let notes = map.get_mut_by_trader_name(&"John".to_string());
        assert_eq!(notes.len(), 2);
        for (note,) in notes {
            note.push('j');
        }
    }
    assert_eq!(map.get_by_order_id(&1).unwrap().note, "j");
    assert_eq!(map.get_by_order_id(&3).unwrap().note, "j");
    assert_eq!(map.get_by_order_id(&2).unwrap().note, "");
    assert!(map.get_mut_by_trader_name(&"Nobody".to_string()).is_empty());
    let (note,) = map.get_mut_by_timestamp(&22).unwrap();
    note.push('t');
    assert_eq!(map.get_by_order_id(&2).unwrap().note, "t");
    assert!(map.get_mut_by_timestamp(&21).is_none());
    assert!(map.get_mut_by_order_id(&21).is_none());
}

#[test]
fn sizes_clear_and_capacity() {
    let mut map = MultiIndexOrderMap::with_capacity(8);
    assert!(map.is_empty());
    assert!(map.capacity() >= 8);
    map.insert(order(1, 1, "A", ""));
    map.reserve(10);
    assert!(map.capacity() >= 11);
    assert_eq!(map.len(), 1);
    map.shrink_to_fit();
    assert!(map.capacity() >= 1);
    assert_eq!(map.get_by_order_id(&1).unwrap().timestamp, 1);
    map.clear();
    assert!(map.is_empty());
    assert!(map.get_by_order_id(&1).is_none());
    assert!(map.get_by_trader_name("A").is_empty());
}

#[test]
fn clone_is_independent() {
    let mut map = two_orders();
    let copy = map.clone();
    map.remove_by_order_id(&1);
    assert_eq!(copy.len(), 2);
    assert_eq!(copy.get_by_order_id(&1).unwrap().trader_name, "John");
    assert_eq!(ids(&copy.get_by_trader_name("Tom")), vec![2]);
    assert_eq!(map.len(), 1);
}

#[test]
fn an_order_is_found_right_after_it_is_stored() {
    let mut map = two_orders();
    map.insert(order(5, 55, "Tom", "x"));
    assert_eq!(map.get_by_order_id(&5).unwrap().note, "x");
    assert_eq!(map.get_by_timestamp(&55).unwrap().order_id, 5);
    assert_eq!(ids(&map.get_by_trader_name("Tom")), vec![2, 5]);
    assert_eq!(map.get_by_order_id(&1).unwrap().timestamp, 111);
}

#[test]
fn removing_right_after_storing_restores_the_map() {
    let mut map = two_orders();
    map.insert(order(5, 55, "Tom", "x"));
    let o = map.remove_by_order_id(&5).unwrap();
    assert_eq!(o.timestamp, 55);
    assert_eq!(map.len(), 2);
    assert_eq!(ids(&map.get_by_trader_name("Tom")), vec![2]);
    assert_eq!(ids(&map.iter_by_timestamp()), vec![2, 1]);
}

#[test]
fn a_changed_order_is_found_under_its_new_fields_only() {
    let mut map = two_orders();
    map.modify_by_order_id(&2, |o| {
        o.order_id = 20;
        o.timestamp = 200;
    });
    assert!(map.get_by_order_id(&2).is_none());
    assert!(map.get_by_timestamp(&22).is_none());
    assert_eq!(map.get_by_order_id(&20).unwrap().timestamp, 200);
    assert_eq!(map.get_by_timestamp(&200).unwrap().order_id, 20);
}

#[test]
fn renamed_orders_come_back_in_insertion_order() {
    let mut m = MultiIndexOrderMap::default();
    m.insert(order(1, 10, "Tom", ""));
    m.insert(order(2, 20, "Ann", ""));
    m.insert(order(3, 30, "Tom", ""));
    let r = m.modify_by_trader_name(&"Tom".to_string(), |o| o.trader_name = "Ann".to_string());
    let got: Vec<(u32, &str)> = r.iter().map(|o| (o.order_id, o.trader_name.as_str())).collect();
    assert_eq!(got, vec![(1, "Ann"), (3, "Ann")]);
    assert!(m.get_by_trader_name("Tom").is_empty());
    assert_eq!(ids(&m.get_by_trader_name("Ann")), vec![1, 2, 3]);
    assert_eq!(m.len(), 3);
}

#[test]
fn a_modified_order_keeps_its_slot_among_its_new_trader() {
    let mut m = two_orders();
    m.modify_by_order_id(&1, |o| {
        o.order_id = 7;
        o.timestamp = 77;
        o.trader_name = "Tom".to_string();
    });
    assert!(m.get_by_trader_name("John").is_empty());
    assert_eq!(ids(&m.get_by_trader_name("Tom")), vec![7, 2]);
    let (note,) = m.get_mut_by_order_id(&7).unwrap();
    *note = "TestNoteUpdated".to_string();
    let removed = m.remove_by_trader_name(&"Tom".to_string());
    assert_eq!(removed.iter().map(|o| o.order_id).collect::<Vec<_>>(), vec![7, 2]);
    assert_eq!(removed[0].timestamp, 77);
    assert_eq!(removed[0].note, "TestNoteUpdated");
    assert_eq!(removed[1].timestamp, 22);
    assert!(m.is_empty());
}

#[test]
fn a_freed_slot_is_taken_by_the_next_store() {
    let mut m = MultiIndexOrderMap::default();
    m.insert(order(1, 10, "A", ""));
    m.insert(order(2, 20, "A", ""));
    m.insert(order(3, 30, "A", ""));
    m.remove_by_order_id(&1);
    m.insert(order(4, 40, "A", ""));
    // Order 4 takes slot 0, which order 1 left.
    assert_eq!(ids(&m.get_by_trader_name("A")), vec![4, 2, 3]);
    let slots: Vec<(usize, u32)> = m.iter().iter().map(|(k, o)| (*k, o.order_id)).collect();
    assert_eq!(slots, vec![(0, 4), (1, 2), (2, 3)]);
}

#[test]
fn room_made_or_reserved_is_kept() {
    let mut map = MultiIndexOrderMap::with_capacity(10);
    assert!(map.capacity() >= 10);
    map.insert(order(1, 1, "A", ""));
    map.remove_by_order_id(&1);
    map.clear();
    assert!(map.capacity() >= 10);
    map.insert(order(2, 2, "B", ""));
    map.reserve(30);
    assert!(map.capacity() >= 31);
}
