use treap::rank::search_desc;

#[test]
fn search_desc_finds_present_elements() {
    let values: Vec<u64> = vec![10, 8, 7, 6, 4, 3, 2, 1];
    let list: Vec<&u64> = values.iter().collect();
    for (i, v) in values.iter().enumerate() {
        assert_eq!(search_desc(&list, v), Ok(i));
    }
}

#[test]
fn search_desc_gives_the_place_of_absent_elements() {
    let values: Vec<u64> = vec![10, 8, 7, 6, 4, 3, 2, 1];
    let list: Vec<&u64> = values.iter().collect();
    assert_eq!(search_desc(&list, &11), Err(0));
    assert_eq!(search_desc(&list, &9), Err(1));
    assert_eq!(search_desc(&list, &5), Err(4));
    assert_eq!(search_desc(&list, &0), Err(8));
}

#[test]
fn search_desc_in_an_empty_list() {
    let list: Vec<&u64> = Vec::new();
    assert_eq!(search_desc(&list, &5), Err(0));
}
