use heapstore::{HeapPage, Page, PAGE_SIZE};

#[test]
fn compare_equal_pages() {
    let p = Page::new(3);
    assert!(p.compare_page(p.to_bytes().to_vec()).is_empty());
}

#[test]
fn compare_lists_runs_with_own_bytes() {
    let mut p = Page::new(0);
    p.add_value(&[7, 8, 9]);
    let other = Page::new(0).to_bytes().to_vec();
    // header: slot count and free start differ; entry: offset, length, flag;
    // body: the record
    let diff = p.compare_page(other);
    assert_eq!(
        vec![
            (2u16, vec![1u8]),
            (4, vec![17]),
            (8, vec![14]),
            (10, vec![3]),
            (12, vec![1]),
            (14, vec![7, 8, 9]),
        ],
        diff
    );
}

#[test]
fn compare_leaves_out_a_run_that_reaches_the_end() {
    let p = Page::new(0);
    let mut other = p.to_bytes().to_vec();
    other[100] = 1;
    other[101] = 2;
    other[PAGE_SIZE - 2] = 5;
    other[PAGE_SIZE - 1] = 6;
    assert_eq!(vec![(100u16, vec![0u8, 0])], p.compare_page(other));
}

#[test]
fn compare_run_from_the_first_byte() {
    let p = Page::new(0x0102);
    let other = vec![0u8; PAGE_SIZE];
    assert_eq!(vec![(0u16, vec![2u8, 1]), (4, vec![8])], p.compare_page(other));
}
