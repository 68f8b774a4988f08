use heapstore::Page;

#[test]
fn hs_page_create_basic() {
    let p = Page::new(0);
    assert_eq!(0, p.get_page_id());

    let p = Page::new(1);
    assert_eq!(1, p.get_page_id());

    let p = Page::new(1023);
    assert_eq!(1023, p.get_page_id());
}
