use linked_vector::LinkedVector;

fn from_slice(values: &[i32]) -> LinkedVector<i32> {
    let mut lv = LinkedVector::new();
    for &v in values {
        lv.push_back(v);
    }
    lv
}

#[test]
fn cursor() {
    let lv = from_slice(&[1, 2, 3, 4, 5, 6, 7]);
    let mut cursor = lv.cursor(lv.front_node().unwrap());

    assert_eq!(cursor.get(&lv), Some(&1));

    cursor.move_next(&lv);

    assert_eq!(cursor.get(&lv), Some(&2));

    let hend = cursor.move_to_back(&lv).unwrap();
    let hbak = cursor.backward(&lv, 2).unwrap();

    assert_eq!(cursor.get(&lv), Some(&5));
    assert_eq!(lv.get(hend), Some(&7));
    assert_eq!(lv.get(hbak), Some(&5));

    let mut cursor = lv.cursor(hbak);

    match cursor.backward(&lv, 20) {
        Ok(_) => panic!("Should move to beginning on overshoot."),
        Err(handle) => assert_eq!(lv.get(handle), Some(&1)),
    }

    match cursor.forward(&lv, 20) {
        Ok(_) => panic!("Should move to end on overshoot."),
        Err(handle) => assert_eq!(lv.get(handle), Some(&7)),
    }
}

#[test]
fn cursor_2() {
    let lv = from_slice(&[1, 2, 3, 4, 5, 6, 7, 8, 9]);
    let h5 = lv.handle(4).unwrap();
    let mut cursor = lv.cursor(h5);

    assert_eq!(cursor.get(&lv), Some(&5));

    let h6 = cursor.move_next(&lv).unwrap();

    assert_eq!(lv.get(h6), Some(&6));

    cursor.forward(&lv, 2).expect("Should move forward 2.");
    assert_eq!(cursor.get(&lv), Some(&8));
}

#[test]
fn cursor_insert() {
    let mut lv = from_slice(&[1, 2, 3, 4, 5, 6, 7, 8, 9]);
    let h5 = lv.handle(4).unwrap();
    let mut cursor = lv.cursor_mut(h5);

    cursor.insert(&mut lv, 10);
    assert_eq!(lv.len(), 10);
    assert_eq!(lv.to_vec(), vec![1, 2, 3, 4, 10, 5, 6, 7, 8, 9]);
}

#[test]
fn cursor_remove() {
    let mut lv = from_slice(&[1, 2, 3, 4, 5, 6, 7, 8, 9]);
    let h5 = lv.handle(4).unwrap();

    let mut cursor = lv.cursor_mut(h5);

    cursor.remove(&mut lv);
    assert_eq!(cursor.get(&lv), Some(&6));

    cursor.move_to_back(&lv).unwrap();
    cursor.remove(&mut lv);
    assert_eq!(cursor.get(&lv), Some(&8));
    assert_eq!(lv.to_vec(), vec![1, 2, 3, 4, 6, 7, 8]);
}

#[test]
fn cursor_deref() {
    let lv = from_slice(&[1, 2, 3, 4, 5, 6, 7, 8, 9]);
    let h5 = lv.handle(4).unwrap();
    let mut cursor = lv.cursor(h5);

    assert_eq!(*cursor.get(&lv).unwrap(), 5);

    cursor.forward(&lv, 2).expect("Should move forward 2.");

    assert_eq!(*cursor.get(&lv).unwrap(), 7);
}

#[test]
fn cursor_mut_deref() {
    let mut lv = from_slice(&[1, 2, 3, 4, 5, 6, 7, 8, 9]);
    let h5 = lv.handle(4).unwrap();
    let mut cursor = lv.cursor_mut(h5);

    assert_eq!(*cursor.get(&lv).unwrap(), 5);
    *cursor.get_mut(&mut lv).unwrap() = 10;
    assert_eq!(*cursor.get(&lv).unwrap(), 10);

    cursor.forward(&lv, 2).expect("Should move forward 2.");

    assert_eq!(*cursor.get(&lv).unwrap(), 7);

    assert_eq!(lv.to_vec(), vec![1, 2, 3, 4, 10, 6, 7, 8, 9]);
}

#[test]
fn cursor_scenario_overshoot_both_ways() {
    let lv = from_slice(&[1, 2, 3, 4, 5, 6, 7]);
    let mut cursor = lv.cursor(lv.front_node().unwrap());
    match cursor.backward(&lv, 20) {
        Ok(_) => panic!("Should move to beginning on overshoot."),
        Err(handle) => assert_eq!(lv.get(handle), Some(&1)),
    }
    match cursor.forward(&lv, 20) {
        Ok(_) => panic!("Should move to end on overshoot."),
        Err(handle) => assert_eq!(lv.get(handle), Some(&7)),
    }
}

#[test]
fn cursor_insert_after() {
    let mut lv = from_slice(&[1, 2, 3]);
    let h1 = lv.handle(0).unwrap();
    let mut cursor = lv.cursor_mut(h1);
    cursor.insert_after(&mut lv, 9);
    assert_eq!(cursor.get(&lv), Some(&1));
    assert_eq!(lv.to_vec(), vec![1, 9, 2, 3]);
}

#[test]
fn cursor_remove_last_parks_invalid() {
    let mut lv = from_slice(&[42]);
    let h = lv.handle(0).unwrap();
    let mut cursor = lv.cursor_mut(h);
    assert_eq!(cursor.remove(&mut lv), Some(42));
    assert!(lv.is_empty());
    assert_eq!(cursor.get(&lv), None);
}
