use dlist::list::{
    clist, clist_begin, clist_concat, clist_content, clist_count, clist_delete, clist_end, clist_foreach,
    clist_free, clist_insert_after, clist_insert_before, clist_isempty, clist_new, clist_next, clist_nth,
    clist_nth_data, clist_previous, ClistError,
};

fn contents<T: Copy>(l: &clist<T>) -> Vec<T> {
    clist_foreach(
        l,
        |x: T, mut acc: Vec<T>| {
            acc.push(x);
            acc
        },
        Vec::new(),
    )
}

fn from_slice<T: Copy>(xs: &[T]) -> clist<T> {
    let mut l = clist_new();
    for &x in xs {
        clist_insert_after(&mut l, None, x).unwrap();
    }
    l
}

/// Walks the links both ways and checks them against the count.
fn check_links<T: Copy>(l: &clist<T>) {
    let mut forward = Vec::new();
    let mut cur = clist_begin(l);
    while let Some(c) = cur {
        forward.push(c);
        cur = clist_next(l, c);
    }
    let mut backward = Vec::new();
    let mut cur = clist_end(l);
    while let Some(c) = cur {
        backward.push(c);
        cur = clist_previous(l, c);
    }
    backward.reverse();
    assert_eq!(forward.len(), clist_count(l));
    assert_eq!(forward, backward);
    if let Some(first) = forward.first() {
        assert_eq!(clist_previous(l, *first), None);
    }
    if let Some(last) = forward.last() {
        assert_eq!(clist_next(l, *last), None);
    }
    for (i, c) in forward.iter().enumerate() {
        assert_eq!(clist_nth(l, i), Some(*c));
    }
    assert_eq!(clist_isempty(l), forward.is_empty());
}

#[test]
fn new_list_is_empty() {
    let l: clist<u32> = clist_new();
    assert_eq!(clist_count(&l), 0);
    assert!(clist_isempty(&l));
    assert_eq!(clist_begin(&l), None);
    assert_eq!(clist_end(&l), None);
    assert_eq!(clist_nth(&l, 0), None);
    assert_eq!(clist_nth_data(&l, 0), None);
    assert!(contents(&l).is_empty());
    clist_free(l);
}

#[test]
fn links_hold_after_each_insert() {
    let mut l = clist_new();
    let mut cursors = Vec::new();
    for i in 0..20u32 {
        let at = if i % 3 == 0 { None } else { Some(cursors[(i as usize * 7) % cursors.len()]) };
        let c = if i % 2 == 0 {
            clist_insert_after(&mut l, at, i).unwrap()
        } else {
            clist_insert_before(&mut l, at, i).unwrap()
        };
        cursors.push(c);
        check_links(&l);
        assert_eq!(clist_count(&l), i as usize + 1);
    }
}

#[test]
fn no_cursor_appends_on_empty_list() {
    let mut a = clist_new();
    let mut b = clist_new();
    clist_insert_before(&mut a, None, 'x').unwrap();
    clist_insert_after(&mut b, None, 'x').unwrap();
    assert_eq!(contents(&a), vec!['x']);
    assert_eq!(contents(&b), vec!['x']);
}

#[test]
fn no_cursor_appends_on_non_empty_list() {
    let mut a = from_slice(&[1, 2]);
    let mut b = from_slice(&[1, 2]);
    clist_insert_before(&mut a, None, 3).unwrap();
    clist_insert_after(&mut b, None, 3).unwrap();
    assert_eq!(contents(&a), vec![1, 2, 3]);
    assert_eq!(contents(&b), vec![1, 2, 3]);
}

#[test]
fn insert_at_head_and_interior() {
    let mut l = from_slice(&[2, 4]);
    let head = clist_begin(&l).unwrap();
    clist_insert_before(&mut l, Some(head), 1).unwrap();
    let four = clist_end(&l).unwrap();
    clist_insert_before(&mut l, Some(four), 3).unwrap();
    clist_insert_after(&mut l, Some(four), 5).unwrap();
    assert_eq!(contents(&l), vec![1, 2, 3, 4, 5]);
    check_links(&l);
}

#[test]
fn delete_nth_returns_following_cursor() {
    for i in 0..4usize {
        let mut l = from_slice(&[10, 11, 12, 13]);
        let following = clist_nth(&l, i + 1);
        let at = clist_nth(&l, i);
        let r = clist_delete(&mut l, at).unwrap();
        assert_eq!(clist_count(&l), 3);
        assert_eq!(r, following);
        assert_eq!(r, clist_nth(&l, i));
        check_links(&l);
    }
    let mut l = from_slice(&[10, 11, 12, 13]);
    let at = clist_nth(&l, 3);
    assert_eq!(clist_delete(&mut l, at), Ok(None));
}

#[test]
fn delete_none_is_no_op() {
    let mut l = from_slice(&[1, 2]);
    assert_eq!(clist_delete(&mut l, None), Ok(None));
    assert_eq!(contents(&l), vec![1, 2]);
}

#[test]
fn stale_cursor_is_rejected() {
    let mut l = from_slice(&[1, 2, 3]);
    let c = clist_nth(&l, 1).unwrap();
    clist_delete(&mut l, Some(c)).unwrap();
    assert_eq!(clist_delete(&mut l, Some(c)), Err(ClistError::PreconditionViolation));
    assert_eq!(clist_insert_after(&mut l, Some(c), 9), Err(ClistError::PreconditionViolation));
    assert_eq!(clist_insert_before(&mut l, Some(c), 9), Err(ClistError::PreconditionViolation));
    // The freed slot is taken again, under a new generation.
    let d = clist_insert_after(&mut l, None, 4).unwrap();
    assert_ne!(d, c);
    assert_eq!(clist_content(&l, c), None);
    assert_eq!(clist_content(&l, d), Some(4));
    assert_eq!(contents(&l), vec![1, 3, 4]);
    check_links(&l);
}

#[test]
fn cursor_of_other_list_is_rejected() {
    let mut a = from_slice(&[1]);
    let b = from_slice(&[1, 2, 3]);
    let c = clist_nth(&b, 2).unwrap();
    assert_eq!(clist_delete(&mut a, Some(c)), Err(ClistError::PreconditionViolation));
    assert_eq!(contents(&a), vec![1]);
}

#[test]
fn cursors_survive_other_changes() {
    let mut l = from_slice(&["a", "b", "c"]);
    let b = clist_nth(&l, 1).unwrap();
    let at = clist_nth(&l, 0);
    clist_delete(&mut l, at).unwrap();
    let at = clist_begin(&l);
    clist_insert_before(&mut l, at, "z").unwrap();
    clist_insert_after(&mut l, None, "d").unwrap();
    assert_eq!(clist_content(&l, b), Some("b"));
    assert_eq!(contents(&l), vec!["z", "b", "c", "d"]);
}

#[test]
fn round_trip_by_insert_after_last() {
    let mut l = clist_new();
    let mut last = None;
    for x in ["a", "b", "c"] {
        last = Some(clist_insert_after(&mut l, last, x).unwrap());
    }
    assert_eq!(contents(&l), vec!["a", "b", "c"]);
}

#[test]
fn deleting_first_until_empty() {
    let mut l = from_slice(&[1, 2, 3, 4, 5]);
    let mut n = 5;
    while !clist_isempty(&l) {
        let at = clist_begin(&l);
        clist_delete(&mut l, at).unwrap();
        n -= 1;
        assert_eq!(clist_count(&l), n);
        check_links(&l);
    }
    assert_eq!(clist_count(&l), 0);
    assert_eq!(clist_begin(&l), None);
    assert_eq!(clist_end(&l), None);
}

#[test]
fn concat_moves_cells() {
    let mut a = from_slice(&[1, 2]);
    let mut b = from_slice(&[3, 4]);
    let a0 = clist_begin(&a).unwrap();
    clist_concat(&mut a, &mut b);
    assert_eq!(contents(&a), vec![1, 2, 3, 4]);
    assert_eq!(clist_count(&a), 4);
    assert_eq!(clist_count(&b), 0);
    assert!(clist_isempty(&b));
    assert_eq!(clist_begin(&b), None);
    assert_eq!(clist_content(&a, a0), Some(1));
    check_links(&a);
    check_links(&b);
}

#[test]
fn concat_into_empty_keeps_cursors() {
    let mut a = clist_new();
    let mut b = from_slice(&[3, 4]);
    let b1 = clist_nth(&b, 1).unwrap();
    clist_concat(&mut a, &mut b);
    assert_eq!(contents(&a), vec![3, 4]);
    assert_eq!(clist_content(&a, b1), Some(4));
    assert!(clist_isempty(&b));
}

#[test]
fn concat_empty_source() {
    let mut a = from_slice(&[1, 2]);
    let mut b = clist_new();
    clist_concat(&mut a, &mut b);
    assert_eq!(contents(&a), vec![1, 2]);
    assert_eq!(clist_count(&b), 0);
}

#[test]
fn nth_data_matches_array_model() {
    let model = [5u64, 7, 9, 11];
    let l = from_slice(&model);
    for i in 0..8usize {
        assert_eq!(clist_nth_data(&l, i), model.get(i).copied());
    }
    assert_eq!(clist_nth_data(&l, usize::MAX), None);
}

#[test]
fn foreach_threads_context() {
    let l = from_slice(&[1u64, 2, 3, 4]);
    let sum = clist_foreach(&l, |x: u64, acc: u64| acc * 10 + x, 0u64);
    assert_eq!(sum, 1234);
}

#[test]
fn concrete_scenario() {
    let mut l = clist_new();
    clist_insert_after(&mut l, None, "a").unwrap();
    assert_eq!(contents(&l), vec!["a"]);
    let c = clist_insert_after(&mut l, None, "b").unwrap();
    assert_eq!(contents(&l), vec!["a", "b"]);
    assert_eq!(clist_content(&l, c), Some("b"));
    clist_insert_before(&mut l, Some(c), "x").unwrap();
    assert_eq!(contents(&l), vec!["a", "x", "b"]);
    let at = clist_nth(&l, 0);
    let r = clist_delete(&mut l, at).unwrap().unwrap();
    assert_eq!(clist_content(&l, r), Some("x"));
    assert_eq!(contents(&l), vec!["x", "b"]);
    assert_eq!(clist_count(&l), 2);
}
