use proteus::list::List;

fn items(l: &List<u32>) -> Vec<u32> {
    (0..l.len()).map(|i| *l.at(i)).collect()
}

#[test]
fn lists_grow_and_shrink() {
    let mut l: List<u32> = List::nil();
    assert!(l.is_empty());
    assert!(l.hd().is_none());
    l.init();
    assert!(l.is_empty());
    l.cons(2);
    l.cons(1);
    l.snoc(3);
    assert_eq!(vec![1, 2, 3], items(&l));
    assert_eq!(Some(&1), l.hd());
    l.append(List::singleton(4));
    assert_eq!(vec![1, 2, 3, 4], items(&l));
    l.init();
    assert_eq!(vec![1, 2, 3], items(&l));
    assert_eq!(2, l.remove(1));
    l.replace(0, 7);
    assert_eq!(vec![7, 3], items(&l));
    let copy = l.clone();
    l.drop(1);
    assert_eq!(vec![3], items(&l));
    l.drop(5);
    assert!(l.is_empty());
    assert_eq!(vec![7, 3], items(&copy));
}
