use linked_vector::HNode;
use linked_vector::LinkedVector;

fn from_slice(values: &[i32]) -> LinkedVector<i32> {
    let mut lv = LinkedVector::new();
    for &v in values {
        lv.push_back(v);
    }
    lv
}

#[test]
fn append() {
    let mut lv1 = from_slice(&[1, 2, 3]);
    let mut lv2 = from_slice(&[4, 5, 6]);
    lv1.append(&mut lv2);
    assert_eq!(lv1.to_vec(), vec![1, 2, 3, 4, 5, 6]);
    assert_eq!(lv2.len(), 0);
}

#[test]
fn back() {
    let mut lv1 = LinkedVector::new();
    lv1.push_back(1);
    lv1.push_back(2);
    lv1.push_back(3);
    assert_eq!(lv1.back(), Some(&3));
    assert_eq!(lv1.len(), 3);
}

#[test]
fn back_mut() {
    let mut lv1 = LinkedVector::new();
    lv1.push_back(1);
    lv1.push_back(2);
    lv1.push_back(3);
    *lv1.back_mut().unwrap() = 4;
    assert_eq!(lv1.back(), Some(&4));
    assert_eq!(lv1.len(), 3);
}

#[test]
fn clear() {
    let mut lv1 = LinkedVector::new();
    lv1.push_back(1);
    lv1.push_back(2);
    lv1.push_back(3);
    lv1.clear();
    assert_eq!(lv1.is_empty(), true);
    assert_eq!(lv1.len(), 0);
}

#[test]
fn compact() {
    let lv1 = from_slice(&[1, 2, 3, 4, 5, 6, 7, 8, 9]);
    let lv2 = lv1.compact();
    assert_eq!(lv2.to_vec(), vec![1, 2, 3, 4, 5, 6, 7, 8, 9]);
}

#[test]
fn contains() {
    let mut lv1 = LinkedVector::new();
    lv1.push_back(1);
    lv1.push_back(2);
    lv1.push_back(3);
    assert_eq!(lv1.contains(&2), true);
    assert_eq!(lv1.contains(&4), false);
}

#[test]
fn default() {
    let h = HNode::default();
    let lv1 = from_slice(&[1]);
    assert_eq!(lv1.get(h), None);
}

#[test]
fn front() {
    let mut lv1 = LinkedVector::new();
    lv1.push_back(1);
    lv1.push_back(2);
    lv1.push_back(3);
    assert_eq!(lv1.front(), Some(&1));
}

#[test]
fn front_mut() {
    let mut lv1 = LinkedVector::new();
    lv1.push_back(1);
    lv1.push_back(2);
    lv1.push_back(3);
    *lv1.front_mut().unwrap() = 4;
    assert_eq!(lv1.front(), Some(&4));
    assert_eq!(lv1.len(), 3);
}

#[test]
fn front_node() {
    let mut lv1 = LinkedVector::new();
    let h1 = lv1.push_back(1);
    lv1.push_back(2);
    lv1.push_back(3);
    assert_eq!(lv1.front_node(), Some(h1));
}

#[test]
fn back_node() {
    let mut lv1 = LinkedVector::new();
    lv1.push_back(1);
    lv1.push_back(2);
    let h3 = lv1.push_back(3);
    assert_eq!(lv1.back_node(), Some(h3));
}

#[test]
fn get() {
    let mut lv1 = LinkedVector::new();
    let h1 = lv1.push_back(1);
    let h2 = lv1.push_back(2);
    let h3 = lv1.push_back(3);
    assert_eq!(lv1.get(h1), Some(&1));
    assert_eq!(lv1.get(h2), Some(&2));
    assert_eq!(lv1.get(h3), Some(&3));
    assert_eq!(lv1.len(), 3);
}

#[test]
fn get_mut() {
    let mut lv1 = LinkedVector::new();
    let h1 = lv1.push_back(1);
    let h2 = lv1.push_back(2);
    let h3 = lv1.push_back(3);
    *lv1.get_mut(h1).unwrap() = 4;
    *lv1.get_mut(h2).unwrap() = 5;
    *lv1.get_mut(h3).unwrap() = 6;
    assert_eq!(lv1.get(h1), Some(&4));
    assert_eq!(lv1.get(h2), Some(&5));
    assert_eq!(lv1.get(h3), Some(&6));
    assert_eq!(lv1.len(), 3);
}

#[test]
fn get_handle() {
    let mut lv1 = LinkedVector::new();
    let h1 = lv1.push_back(1);
    let h2 = lv1.push_back(2);
    let h3 = lv1.push_back(3);
    assert_eq!(lv1.handle(0), Some(h1));
    assert_eq!(lv1.handle(1), Some(h2));
    assert_eq!(lv1.handle(2), Some(h3));
    assert_eq!(lv1.handle(3), None);
}

#[test]
fn handles() {
    let mut lv1 = LinkedVector::new();
    let h1 = lv1.push_back(1);
    let h2 = lv1.push_back(2);
    let h3 = lv1.push_back(3);
    let hs = lv1.handles();
    assert_eq!(hs.len(), 3);
    assert_eq!(hs, vec![h1, h2, h3]);
}

#[test]
fn insert_() {
    let mut lv1 = LinkedVector::new();
    let h1 = lv1.insert_(None, 1);
    let _h2 = lv1.insert_(Some(h1), 2);
    assert_eq!(lv1.front(), Some(&2));
    assert_eq!(lv1.back(), Some(&1));
    let _h3 = lv1.insert_(None, 3);
    assert_eq!(lv1.back(), Some(&3));
    assert_eq!(lv1.front(), Some(&2));
}

#[test]
fn insert_after() {
    let mut lv1 = LinkedVector::new();
    let h1 = lv1.push_back(1);
    let h2 = lv1.push_back(2);
    let _h3 = lv1.push_back(3);
    let h4 = lv1.insert_after(h1, 4);
    assert_eq!(lv1.front(), Some(&1));
    assert_eq!(lv1.back(), Some(&3));
    assert_eq!(lv1.next_node(h1), Some(h4));
    assert_eq!(lv1.next_node(h4), Some(h2));
    assert_eq!(lv1.prev_node(h4), Some(h1));
    assert_eq!(lv1.len(), 4);
}

#[test]
fn insert_before() {
    let mut lv1 = LinkedVector::new();
    let _h1 = lv1.push_back(1);
    let _h2 = lv1.push_back(2);
    let h3 = lv1.push_back(3);
    let h4 = lv1.insert(h3, 4);
    assert_eq!(lv1.front(), Some(&1));
    assert_eq!(lv1.back(), Some(&3));
    assert_eq!(lv1.next_node(h4), Some(h3));
    assert_eq!(lv1.len(), 4);
}

#[test]
fn test_insertions_deletions_etc() {
    let mut lv1 = LinkedVector::new();
    let mut hs = vec![];
    for i in 0..100 {
        hs.push(lv1.push_back(i));
    }
    for &h in hs.iter().step_by(2) {
        lv1.remove(h);
    }
    for (&h1, &h2) in hs.iter().skip(1).step_by(2).zip(lv1.handles().iter()) {
        assert_eq!(h1, h2);
    }
}

#[test]
fn is_empty() {
    let mut lv1 = LinkedVector::new();
    assert_eq!(lv1.is_empty(), true);
    lv1.push_back(1);
    assert_eq!(lv1.is_empty(), false);
}

#[test]
fn iter() {
    let mut lv1 = LinkedVector::new();
    lv1.push_back(1);
    lv1.push_back(2);
    lv1.push_back(3);
    for (a, b) in lv1.to_vec().iter().zip(1..) {
        assert_eq!(*a, b);
    }
}

#[test]
fn iter_rev() {
    let mut lv1 = LinkedVector::new();
    lv1.push_back(3);
    lv1.push_back(2);
    lv1.push_back(1);
    for (a, b) in lv1.to_vec_rev().iter().zip(1..) {
        assert_eq!(*a, b);
    }
}

#[test]
fn len() {
    let mut lv1 = LinkedVector::new();
    assert_eq!(lv1.len(), 0);
    lv1.push_back(1);
    assert_eq!(lv1.len(), 1);
    lv1.push_back(2);
    assert_eq!(lv1.len(), 2);
    lv1.push_back(3);
    assert_eq!(lv1.len(), 3);
    lv1.pop_front();
    assert_eq!(lv1.len(), 2);
    lv1.pop_back();
    assert_eq!(lv1.len(), 1);
    lv1.pop_back();
    assert_eq!(lv1.len(), 0);
}

#[test]
fn pop_back() {
    let mut lv1 = LinkedVector::new();
    lv1.push_back(1);
    lv1.push_back(2);
    lv1.push_back(3);
    assert_eq!(lv1.pop_back(), Some(3));
    assert_eq!(lv1.pop_back(), Some(2));
    assert_eq!(lv1.pop_back(), Some(1));
    assert_eq!(lv1.pop_back(), None);
    assert_eq!(lv1.len(), 0);
}

#[test]
fn pop_front() {
    let mut lv1 = LinkedVector::new();
    lv1.push_back(1);
    lv1.push_back(2);
    lv1.push_back(3);
    assert_eq!(lv1.pop_front(), Some(1));
    assert_eq!(lv1.pop_front(), Some(2));
    assert_eq!(lv1.pop_front(), Some(3));
    assert_eq!(lv1.pop_front(), None);
    assert_eq!(lv1.len(), 0);
}

#[test]
fn push_back() {
    let mut lv1 = LinkedVector::new();
    lv1.push_back(1);
    lv1.push_back(2);
    lv1.push_back(3);
    assert_eq!(lv1.front(), Some(&1));
    assert_eq!(lv1.back(), Some(&3));
    assert_eq!(lv1.len(), 3);
}

#[test]
fn push_front() {
    let mut lv1 = LinkedVector::new();
    lv1.push_front(1);
    lv1.push_front(2);
    lv1.push_front(3);
    assert_eq!(lv1.front(), Some(&3));
    assert_eq!(lv1.back(), Some(&1));
    assert_eq!(lv1.len(), 3);
}

#[test]
fn remove() {
    let mut lv1 = from_slice(&[1, 2, 3, 4, 5, 6, 7, 8, 9]);
    let h = lv1.handle(6).unwrap();
    assert_eq!(lv1.remove(h), Some(7));
    assert_eq!(lv1.to_vec(), vec![1, 2, 3, 4, 5, 6, 8, 9]);
}

#[test]
fn sort_by() {
    let mut lv1 = from_slice(&[2, 1, 6, 7, 4, 8, 5, 3]);
    lv1.sort_by(|a, b| b.cmp(a));
    assert_eq!(lv1.to_vec(), vec![8, 7, 6, 5, 4, 3, 2, 1]);

    lv1 = from_slice(&[3, 1, 4, 1, 5, 9]);
    lv1.sort_by(|a, b| b.cmp(a));
    assert_eq!(lv1.to_vec(), vec![9, 5, 4, 3, 1, 1]);

    lv1 = from_slice(&[
        104, 188, 5, 44, 199, 139, 31, 54, 30, 43, 151, 70, 68, 131, 132, 116, 26, 177, 35, 141,
        22, 150, 29, 122, 145, 72, 106, 51, 125, 160, 1, 98, 119, 107, 181, 123, 128, 23, 147,
        191, 153, 162, 172, 37, 161, 126, 66, 149, 38, 165, 189, 94, 33, 41, 103, 71, 176, 18,
        166, 196, 195, 42, 194, 156, 7, 154, 140, 190, 34, 36, 79, 46, 64, 3, 76, 118, 109, 92,
        175, 60, 129, 120, 75, 105, 136, 2, 173, 61, 56, 19, 82, 48, 62, 27, 12, 77, 93, 87, 21,
        99, 163, 45, 47, 138, 0, 108, 57, 65, 146, 17, 86, 10, 53, 117, 134, 39, 96, 90, 127, 14,
        185, 157, 192, 169, 159, 74, 197, 183, 59, 130, 67, 58, 95, 49, 148, 78, 184, 111, 155,
        198, 167, 102, 15, 114, 69, 52, 158, 143, 88, 137, 178, 182, 100, 85, 144, 124, 81, 11,
        170, 50, 4, 16, 73, 89, 97, 25, 9, 84, 55, 180, 193, 135, 164, 113, 110, 186, 80, 28, 13,
        101, 115, 6, 179, 171, 20, 174, 168, 112, 121, 91, 32, 24, 8, 40, 133, 152, 142, 83, 187,
        63,
    ]);
    lv1.sort_by(|a, b| b.cmp(a));
    for (a, b) in lv1.to_vec().iter().zip((0..200).rev()) {
        assert_eq!(*a, b);
    }
}

#[test]
fn sort() {
    let mut lv1 = from_slice(&[2, 1, 6, 7, 4, 8, 5, 3]);
    lv1.sort_by(|a, b| a.cmp(b));
    assert_eq!(lv1.to_vec(), vec![1, 2, 3, 4, 5, 6, 7, 8]);

    lv1 = from_slice(&[3, 1, 4, 1, 5, 9]);
    lv1.sort_by(|a, b| a.cmp(b));
    assert_eq!(lv1.to_vec(), vec![1, 1, 3, 4, 5, 9]);

    lv1 = from_slice(&[5, 2]);
    lv1.sort_by(|a, b| a.cmp(b));
    assert_eq!(lv1.to_vec(), vec![2, 5]);
}

#[test]
fn sort_unstable() {
    let mut lv = from_slice(&[2, 1, 6, 7, 4, 8, 5, 3]);
    lv.sort_unstable_by(|a, b| a.cmp(b));
    assert_eq!(lv.to_vec(), vec![1, 2, 3, 4, 5, 6, 7, 8]);

    lv = from_slice(&[2, 1, 6, 7, 4, 8, 5, 3]);
    lv.sort_unstable_by(|a, b| b.cmp(a));
    assert_eq!(lv.to_vec(), vec![8, 7, 6, 5, 4, 3, 2, 1]);
}

#[test]
fn to_vec() {
    let mut lv1 = LinkedVector::new();
    lv1.push_back(1);
    lv1.push_back(2);
    lv1.push_back(3);
    assert_eq!(lv1.to_vec(), vec![1, 2, 3]);
}

#[test]
fn sort_handle_stability() {
    let mut lv = from_slice(&[2, 1, 6, 7, 4, 8, 5, 3]);
    let hs = lv.handles();
    let before: Vec<i32> = hs.iter().map(|&h| *lv.get(h).unwrap()).collect();
    lv.sort_by(|a, b| a.cmp(b));
    assert_eq!(lv.to_vec(), vec![1, 2, 3, 4, 5, 6, 7, 8]);
    for (i, &h) in hs.iter().enumerate() {
        assert_eq!(lv.get(h), Some(&before[i]));
    }
}

#[test]
fn stale_handle_detected() {
    let mut lv = LinkedVector::new();
    let _h1 = lv.push_back(1);
    let h2 = lv.push_back(2);
    let _h3 = lv.push_back(3);
    lv.remove(h2);
    assert_eq!(lv.get(h2), None);
    let h4 = lv.push_back(4);
    assert_eq!(lv.get(h2), None);
    assert_eq!(lv.get(h4), Some(&4));
}

#[test]
fn foreign_handle_detected() {
    let mut lv1 = LinkedVector::new();
    let lv2 = from_slice(&[1, 2, 3]);
    let h1 = lv1.push_back(1);
    assert_eq!(lv2.get(h1), None);
}

#[test]
fn order_invariant_round_trip() {
    let lv = from_slice(&[5, 1, 4, 2, 3]);
    let forward = lv.to_vec();
    let mut backward = lv.to_vec_rev();
    backward.reverse();
    assert_eq!(forward, backward);
}

#[test]
fn empty_again_is_fresh() {
    let mut lv = from_slice(&[1, 2, 3]);
    lv.pop_front();
    lv.pop_front();
    lv.pop_front();
    assert!(lv.is_empty());
    let h = lv.push_back(7);
    assert_eq!(lv.front(), Some(&7));
    assert_eq!(lv.back(), Some(&7));
    assert_eq!(lv.get(h), Some(&7));
    assert_eq!(lv.to_vec(), vec![7]);
}

#[test]
fn scenario_push_three() {
    let mut lv = LinkedVector::new();
    lv.push_back(1);
    lv.push_back(2);
    lv.push_back(3);
    assert_eq!(lv.front(), Some(&1));
    assert_eq!(lv.back(), Some(&3));
    assert_eq!(lv.to_vec(), vec![1, 2, 3]);
}

#[test]
fn scenario_insert_before_five() {
    let mut lv = from_slice(&[1, 2, 3, 4, 5, 6, 7, 8, 9]);
    let h5 = lv.handle(4).unwrap();
    lv.insert(h5, 10);
    assert_eq!(lv.to_vec(), vec![1, 2, 3, 4, 10, 5, 6, 7, 8, 9]);
    assert_eq!(lv.len(), 10);
}

#[test]
fn with_capacity() {
    let mut lv1 = LinkedVector::with_capacity(10);
    lv1.push_back(1);
    lv1.push_back(2);
    lv1.push_back(3);
    assert_eq!(lv1.len(), 3);
    assert_eq!(lv1.to_vec(), vec![1, 2, 3]);
}
