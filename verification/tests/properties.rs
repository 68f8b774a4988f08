use heapstore::{HeapPage, Page, SlotId, PAGE_SIZE};

fn bytes_of(len: usize, seed: u8) -> Vec<u8> {
    (0..len).map(|i| seed.wrapping_add((i % 251) as u8)).collect()
}

fn le16(data: &[u8; PAGE_SIZE], at: usize) -> usize {
    data[at] as usize + 256 * data[at + 1] as usize
}

/// Offset, length and flag that the directory stores for `slot`.
fn entry(page: &Page, slot: usize) -> (usize, usize, u8) {
    let data = page.to_bytes();
    let base = 8 + 6 * slot;
    (le16(data, base), le16(data, base + 2), data[base + 4])
}

fn live_lengths(page: &Page) -> usize {
    let slots = le16(page.to_bytes(), 2);
    (0..slots).map(|s| entry(page, s)).filter(|e| e.2 == 1).map(|e| e.1).sum()
}

fn collect(page: Page) -> Vec<(Vec<u8>, SlotId)> {
    let mut items = Vec::new();
    let mut iter = page.into_iter();
    while let Some(item) = iter.next() {
        items.push(item);
    }
    items
}

fn assert_laid_out(page: &Page) {
    let data = page.to_bytes();
    let slots = le16(data, 2);
    let header = 8 + 6 * slots;
    let free_start = le16(data, 4);
    assert!(header <= free_start && free_start <= PAGE_SIZE);
    for s in 0..slots {
        let (off, len, flag) = entry(page, s);
        assert!(flag <= 1);
        if flag == 1 {
            assert!(header <= off && off + len <= free_start);
            for t in 0..s {
                let (off2, len2, flag2) = entry(page, t);
                if flag2 == 1 {
                    assert!(off + len <= off2 || off2 + len2 <= off);
                }
            }
        }
    }
    assert_eq!(page.get_free_space(), PAGE_SIZE - page.get_header_size() - live_lengths(page));
}

#[test]
fn empty_page() {
    let p = Page::new(0);
    assert_eq!(0, p.get_page_id());
    assert_eq!(8, p.get_header_size());
    assert_eq!(4088, p.get_free_space());
    assert_eq!(None, p.get_value(0));
    assert!(collect(p).is_empty());
}

#[test]
fn new_page_bytes() {
    let p = Page::new(0x1234);
    let data = p.to_bytes();
    assert_eq!([0x34, 0x12, 0, 0, 8, 0, 0, 0], data[0..8]);
    assert!(data[8..].iter().all(|b| *b == 0));
    assert_eq!(0x1234, p.get_page_id());
    assert_eq!(65535, Page::new(65535).get_page_id());
}

#[test]
fn simple_insert_sizes() {
    let mut p = Page::new(0);
    let b0 = bytes_of(10, 1);
    let b1 = bytes_of(10, 50);
    assert_eq!(Some(0), p.add_value(&b0));
    assert_eq!(14, p.get_header_size());
    assert_eq!(4072, p.get_free_space());
    assert_eq!(Some(b0.clone()), p.get_value(0));
    assert_eq!(Some(1), p.add_value(&b1));
    assert_eq!(20, p.get_header_size());
    assert_eq!(4056, p.get_free_space());
    assert_eq!(Some(b0), p.get_value(0));
    assert_eq!(Some(b1), p.get_value(1));
}

#[test]
fn first_insert_bytes() {
    let mut p = Page::new(5);
    let b0 = bytes_of(10, 7);
    assert_eq!(Some(0), p.add_value(&b0));
    let data = p.to_bytes();
    // page id 5, one slot, free start 24, reserved 0
    assert_eq!([5, 0, 1, 0, 24, 0, 0, 0], data[0..8]);
    // slot 0: offset 14, length 10, in use, padding
    assert_eq!([14, 0, 10, 0, 1, 0], data[8..14]);
    assert_eq!(b0[..], data[14..24]);
}

#[test]
fn directory_growth_moves_the_body() {
    let mut p = Page::new(5);
    let b0 = bytes_of(10, 7);
    let b1 = bytes_of(3, 90);
    assert_eq!(Some(0), p.add_value(&b0));
    assert_eq!(Some(1), p.add_value(&b1));
    let data = p.to_bytes();
    assert_eq!([5, 0, 2, 0, 33, 0, 0, 0], data[0..8]);
    assert_eq!([20, 0, 10, 0, 1, 0], data[8..14]);
    assert_eq!([30, 0, 3, 0, 1, 0], data[14..20]);
    assert_eq!(b0[..], data[20..30]);
    assert_eq!(b1[..], data[30..33]);
    assert_laid_out(&p);
}

#[test]
fn fill_and_reject() {
    let mut p = Page::new(0);
    let big = bytes_of(1024, 3);
    assert_eq!(Some(0), p.add_value(&big));
    assert_eq!(Some(1), p.add_value(&big));
    assert_eq!(Some(2), p.add_value(&big));
    assert_eq!(998, p.get_free_space());
    let before = *p.to_bytes();
    assert_eq!(None, p.add_value(&big));
    assert_eq!(before, *p.to_bytes());
    assert_eq!(998, p.get_free_space());
    assert_eq!(Some(3), p.add_value(&bytes_of(256, 9)));
    assert_eq!(4096 - (8 + 24) - 3 * 1024 - 256, p.get_free_space());
}

#[test]
fn delete_and_reuse() {
    let mut p = Page::new(0);
    let a = bytes_of(20, 1);
    let b = bytes_of(20, 2);
    let c = bytes_of(20, 3);
    assert_eq!(Some(0), p.add_value(&a));
    assert_eq!(Some(1), p.add_value(&b));
    assert_eq!(Some(2), p.add_value(&c));
    assert_eq!(Some(()), p.delete_value(1));
    assert_eq!(None, p.get_value(1));
    assert_eq!(Some(a.clone()), p.get_value(0));
    assert_eq!(Some(c.clone()), p.get_value(2));
    let d = bytes_of(20, 4);
    assert_eq!(Some(1), p.add_value(&d));
    assert_eq!(Some(()), p.delete_value(0));
    let e = bytes_of(40, 5);
    assert_eq!(Some(0), p.add_value(&e));
    assert_eq!(Some(e), p.get_value(0));
    assert_eq!(Some(d), p.get_value(1));
    assert_eq!(Some(c), p.get_value(2));
    assert_laid_out(&p);
}

#[test]
fn delete_keeps_bytes_and_free_start() {
    let mut p = Page::new(0);
    let a = bytes_of(20, 1);
    assert_eq!(Some(0), p.add_value(&a));
    assert_eq!(Some(1), p.add_value(&bytes_of(5, 2)));
    let before = *p.to_bytes();
    assert_eq!(Some(()), p.delete_value(0));
    let mut expected = before;
    expected[8 + 4] = 0;
    assert_eq!(expected, *p.to_bytes());
    assert_eq!(20, p.get_header_size());
    assert_eq!(4096 - 20 - 5, p.get_free_space());
}

#[test]
fn delete_fails_on_free_or_missing_slot() {
    let mut p = Page::new(0);
    assert_eq!(None, p.delete_value(0));
    assert_eq!(Some(0), p.add_value(&bytes_of(4, 1)));
    assert_eq!(None, p.delete_value(1));
    assert_eq!(None, p.delete_value(65535));
    assert_eq!(Some(()), p.delete_value(0));
    let before = *p.to_bytes();
    assert_eq!(None, p.delete_value(0));
    assert_eq!(before, *p.to_bytes());
}

#[test]
fn compaction_path() {
    let mut p = Page::new(0);
    let values: Vec<Vec<u8>> = (0..7).map(|i| bytes_of(800, 10 * i as u8)).collect();
    for i in 0..5 {
        assert_eq!(Some(i as SlotId), p.add_value(&values[i]));
    }
    assert_eq!(None, p.add_value(&values[5]));
    assert_eq!(Some(()), p.delete_value(1));
    assert_eq!(Some(1), p.add_value(&values[6]));
    assert_eq!(Some(values[6].clone()), p.get_value(1));
    for i in [0usize, 2, 3, 4] {
        assert_eq!(Some(values[i].clone()), p.get_value(i as SlotId));
    }
    assert_laid_out(&p);
}

#[test]
fn compaction_packs_in_offset_order() {
    let mut p = Page::new(0);
    let a = bytes_of(1000, 1);
    let b = bytes_of(1000, 2);
    let c = bytes_of(1000, 3);
    let d = bytes_of(1000, 4);
    assert_eq!(Some(0), p.add_value(&a));
    assert_eq!(Some(1), p.add_value(&b));
    assert_eq!(Some(2), p.add_value(&c));
    assert_eq!(Some(3), p.add_value(&d));
    // header 32, records at 32, 1032, 2032, 3032, free start 4032
    assert_eq!(Some(()), p.delete_value(0));
    assert_eq!(Some(()), p.delete_value(2));
    let e = bytes_of(1500, 5);
    assert_eq!(Some(0), p.add_value(&e));
    assert_eq!((32, 1000, 1), entry(&p, 1));
    assert_eq!((1032, 1000, 1), entry(&p, 3));
    assert_eq!((2032, 1500, 1), entry(&p, 0));
    assert_eq!(0, entry(&p, 2).2);
    assert_eq!(3532, le16(p.to_bytes(), 4));
    assert_eq!(Some(b), p.get_value(1));
    assert_eq!(Some(d), p.get_value(3));
    assert_eq!(Some(e), p.get_value(0));
    assert_eq!(None, p.get_value(2));
}

#[test]
fn no_compaction_while_the_tail_suffices() {
    let mut p = Page::new(0);
    assert_eq!(Some(0), p.add_value(&bytes_of(100, 1)));
    assert_eq!(Some(1), p.add_value(&bytes_of(100, 2)));
    assert_eq!(Some(()), p.delete_value(0));
    assert_eq!(Some(0), p.add_value(&bytes_of(50, 3)));
    // the hole at 20..120 stays; the new record follows the old tail
    assert_eq!((220, 50, 1), entry(&p, 0));
    assert_eq!((120, 100, 1), entry(&p, 1));
    assert_eq!(270, le16(p.to_bytes(), 4));
}

#[test]
fn empty_record_into_a_page_with_a_full_tail() {
    let mut p = Page::new(0);
    let a = bytes_of(2000, 1);
    let b = bytes_of(2000, 2);
    assert_eq!(Some(0), p.add_value(&a));
    assert_eq!(Some(1), p.add_value(&b));
    assert_eq!(Some(()), p.delete_value(0));
    let c = bytes_of(71, 3);
    assert_eq!(Some(0), p.add_value(&c));
    // the tail ends five bytes before the end of the page
    assert_eq!(4091, le16(p.to_bytes(), 4));
    assert_eq!(Some(2), p.add_value(&[]));
    assert_eq!(Some(c), p.get_value(0));
    assert_eq!(Some(b), p.get_value(1));
    assert_eq!(Some(Vec::new()), p.get_value(2));
    assert_laid_out(&p);
}

#[test]
fn empty_record_takes_header_space_only() {
    let mut p = Page::new(0);
    assert_eq!(Some(0), p.add_value(&[]));
    assert_eq!(14, p.get_header_size());
    assert_eq!(4082, p.get_free_space());
    assert_eq!(Some(Vec::new()), p.get_value(0));
    assert_eq!(Some(()), p.delete_value(0));
    assert_eq!(Some(0), p.add_value(&[]));
    assert_eq!(4082, p.get_free_space());
}

#[test]
fn oversize_record_is_rejected() {
    let mut p = Page::new(0);
    let before = *p.to_bytes();
    assert_eq!(None, p.add_value(&bytes_of(PAGE_SIZE + 1, 1)));
    assert_eq!(None, p.add_value(&bytes_of(PAGE_SIZE, 1)));
    assert_eq!(None, p.add_value(&bytes_of(4083, 1)));
    assert_eq!(before, *p.to_bytes());
    let exact = bytes_of(4082, 1);
    assert_eq!(Some(0), p.add_value(&exact));
    assert_eq!(0, p.get_free_space());
    assert_eq!(Some(exact), p.get_value(0));
    assert_eq!(None, p.add_value(&[]));
}

#[test]
fn reused_slot_needs_no_header_space() {
    let mut p = Page::new(0);
    assert_eq!(Some(0), p.add_value(&bytes_of(4082, 1)));
    assert_eq!(Some(()), p.delete_value(0));
    assert_eq!(4082, p.get_free_space());
    let again = bytes_of(4082, 9);
    assert_eq!(Some(0), p.add_value(&again));
    assert_eq!(Some(again), p.get_value(0));
}

#[test]
fn accounting_after_inserts_and_deletes() {
    let mut p = Page::new(9);
    let mut live: Vec<Option<Vec<u8>>> = Vec::new();
    for round in 0..200usize {
        let value = bytes_of(1 + (round * 37) % 150, round as u8);
        match p.add_value(&value) {
            Some(slot) => {
                let slot = slot as usize;
                if slot == live.len() {
                    live.push(Some(value));
                } else {
                    assert!(live[slot].is_none());
                    assert!(live[..slot].iter().all(|v| v.is_some()));
                    live[slot] = Some(value);
                }
            },
            None => {
                let victim = (round * 7) % live.len();
                let expected = live[victim].take().map(|_| ());
                assert_eq!(expected, p.delete_value(victim as SlotId));
            },
        }
        if round % 3 == 0 {
            let victim = (round * 11) % live.len();
            let expected = live[victim].take().map(|_| ());
            assert_eq!(expected, p.delete_value(victim as SlotId));
        }
        assert_laid_out(&p);
        for (slot, value) in live.iter().enumerate() {
            assert_eq!(*value, p.get_value(slot as SlotId));
        }
        assert_eq!(9, p.get_page_id());
    }
}

#[test]
fn header_bound_for_255_inserts() {
    let mut p = Page::new(0);
    let value = bytes_of(10, 1);
    for k in 1..=255usize {
        assert_eq!(Some((k - 1) as SlotId), p.add_value(&value));
        assert!(p.get_header_size() <= 8 + 6 * k);
    }
    assert_eq!(8 + 6 * 255, p.get_header_size());
    assert_eq!(PAGE_SIZE - 16 * 255 - 8, p.get_free_space());
    assert_eq!(None, p.add_value(&value));
}

#[test]
fn insert_after_delete_takes_a_slot_no_higher() {
    let mut p = Page::new(0);
    for i in 0..10u8 {
        assert_eq!(Some(i as SlotId), p.add_value(&bytes_of(30, i)));
    }
    assert_eq!(Some(()), p.delete_value(7));
    assert_eq!(Some(()), p.delete_value(3));
    assert_eq!(Some(3), p.add_value(&bytes_of(30, 100)));
    assert_eq!(Some(7), p.add_value(&bytes_of(30, 101)));
    assert_eq!(Some(10), p.add_value(&bytes_of(30, 102)));
}

#[test]
fn serialization_round_trip() {
    let mut p = Page::new(77);
    let values: Vec<Vec<u8>> = (0..3).map(|i| bytes_of(100, 40 * i as u8)).collect();
    for v in &values {
        p.add_value(v);
    }
    assert_eq!(Some(()), p.delete_value(1));
    let image = *p.to_bytes();
    let mut q = Page::from_bytes(image);
    assert_eq!(image, *q.to_bytes());
    assert_eq!(p.get_free_space(), q.get_free_space());
    assert_eq!(p.get_header_size(), q.get_header_size());
    assert_eq!(77, q.get_page_id());
    assert_eq!(Some(values[0].clone()), q.get_value(0));
    assert_eq!(None, q.get_value(1));
    assert_eq!(Some(values[2].clone()), q.get_value(2));
    assert_eq!(Some(1), q.add_value(&bytes_of(100, 200)));
    assert_eq!(collect(p.clone()), collect(Page::from_bytes(image)));
}

#[test]
fn round_trip_after_mutations() {
    let mut p = Page::new(0);
    let values: Vec<Vec<u8>> = (0..4).map(|i| bytes_of(100, 60 * i as u8)).collect();
    assert_eq!(Some(0), p.add_value(&values[0]));
    assert_eq!(Some(1), p.add_value(&values[1]));
    assert_eq!(Some(2), p.add_value(&values[2]));
    let mut q = Page::from_bytes(*p.to_bytes());
    assert_eq!(Some(values[0].clone()), q.get_value(0));
    assert_eq!(Some(values[1].clone()), q.get_value(1));
    assert_eq!(Some(values[2].clone()), q.get_value(2));
    assert_eq!(Some(3), q.add_value(&values[3]));
}

#[test]
fn iteration_yields_live_records_in_slot_order() {
    let mut p = Page::new(0);
    let values: Vec<Vec<u8>> = (0..6).map(|i| bytes_of(10 + i, i as u8)).collect();
    for v in &values {
        p.add_value(v);
    }
    p.delete_value(0);
    p.delete_value(4);
    let items = collect(p);
    assert_eq!(
        vec![
            (values[1].clone(), 1 as SlotId),
            (values[2].clone(), 2),
            (values[3].clone(), 3),
            (values[5].clone(), 5),
        ],
        items
    );
}

#[test]
fn iterator_stays_exhausted() {
    let mut p = Page::new(0);
    p.add_value(&[1, 2, 3]);
    let mut iter = p.into_iter();
    assert_eq!(Some((vec![1, 2, 3], 0)), iter.next());
    assert_eq!(None, iter.next());
    assert_eq!(None, iter.next());
}

#[test]
fn clone_is_a_separate_page() {
    let mut p = Page::new(4);
    p.add_value(&[1, 2, 3]);
    let mut q = p.clone();
    assert_eq!(*p.to_bytes(), *q.to_bytes());
    q.add_value(&[4, 5]);
    assert_eq!(None, p.get_value(1));
    assert_eq!(Some(vec![4, 5]), q.get_value(1));
}

#[test]
fn corrupt_range_reads_as_not_found() {
    let mut data = [0u8; PAGE_SIZE];
    data[2] = 2; // two slots
    data[4] = 20; // free start
    // slot 0: offset 4090, length 100, in use
    data[8] = (4090 % 256) as u8;
    data[9] = (4090 / 256) as u8;
    data[10] = 100;
    data[12] = 1;
    // slot 1: offset 4090, length 6, in use
    data[14] = (4090 % 256) as u8;
    data[15] = (4090 / 256) as u8;
    data[16] = 6;
    data[18] = 1;
    data[4090] = 42;
    let p = Page::from_bytes(data);
    assert_eq!(None, p.get_value(0));
    assert_eq!(Some(vec![42, 0, 0, 0, 0, 0]), p.get_value(1));
    assert_eq!(20, p.get_header_size());
    assert_eq!(4096 - 20 - 106, p.get_free_space());
    assert_eq!(vec![(vec![42, 0, 0, 0, 0, 0], 1 as SlotId)], collect(p));
}

#[test]
fn free_space_is_never_negative() {
    let mut data = [0u8; PAGE_SIZE];
    data[2] = 1;
    data[10] = 255;
    data[11] = 255; // length 65535
    data[12] = 1;
    let p = Page::from_bytes(data);
    assert_eq!(0, p.get_free_space());

    let mut data = [0u8; PAGE_SIZE];
    data[2] = 0xe8;
    data[3] = 0x03; // a thousand slots: the directory is longer than the page
    let p = Page::from_bytes(data);
    assert_eq!(6008, p.get_header_size());
    assert_eq!(0, p.get_free_space());
    assert_eq!(None, p.get_value(700));
    assert_eq!(None, p.get_value(999));
    assert!(collect(p).is_empty());
}

#[test]
fn flag_other_than_one_is_not_live() {
    let mut data = [0u8; PAGE_SIZE];
    data[2] = 1;
    data[4] = 24;
    data[8] = 14;
    data[10] = 10;
    data[12] = 2;
    let mut p = Page::from_bytes(data);
    assert_eq!(None, p.get_value(0));
    assert_eq!(None, p.delete_value(0));
    assert_eq!(4096 - 14, p.get_free_space());
}

#[test]
fn stale_free_start_counts_as_body_start() {
    // A new page stores 8; with one slot the body starts at 14.
    let mut p = Page::new(0);
    assert_eq!(8, le16(p.to_bytes(), 4));
    assert_eq!(Some(0), p.add_value(&[9, 9]));
    assert_eq!((14, 2, 1), entry(&p, 0));
    assert_eq!(16, le16(p.to_bytes(), 4));
}

#[test]
fn pages_built_by_inserts_and_deletes_are_well_formed() {
    let mut p = Page::new(1);
    assert!(p.is_well_formed());
    for i in 0..40u8 {
        p.add_value(&bytes_of(90, i));
        assert!(p.is_well_formed());
    }
    for slot in [3u16, 9, 27] {
        p.delete_value(slot);
        assert!(p.is_well_formed());
    }
    p.add_value(&bytes_of(200, 77));
    assert!(p.is_well_formed());
    assert!(Page::from_bytes(*p.to_bytes()).is_well_formed());
}

#[test]
fn broken_layouts_are_not_well_formed() {
    let mut good = Page::new(0);
    good.add_value(&bytes_of(10, 1));
    good.add_value(&bytes_of(10, 2));
    let image = *good.to_bytes();
    // header 20, records at 20..30 and 30..40, free start 40

    // a flag that is neither 0 nor 1
    let mut data = image;
    data[8 + 4] = 2;
    assert!(!Page::from_bytes(data).is_well_formed());

    // a record that starts inside the directory
    let mut data = image;
    data[8] = 19;
    assert!(!Page::from_bytes(data).is_well_formed());

    // a record that ends behind the free-start pointer
    let mut data = image;
    data[14 + 2] = 11;
    assert!(!Page::from_bytes(data).is_well_formed());

    // two records that share a byte
    let mut data = image;
    data[8 + 2] = 11;
    assert!(!Page::from_bytes(data).is_well_formed());

    // a directory that is longer than the page
    let mut data = image;
    data[3] = 3;
    assert!(!Page::from_bytes(data).is_well_formed());

    // a free slot may hold anything
    let mut data = image;
    data[8 + 4] = 0;
    data[8] = 0;
    data[10] = 255;
    assert!(Page::from_bytes(data).is_well_formed());

    // two empty records at the same place lie apart
    let mut data = image;
    data[8 + 2] = 0;
    data[14] = 20;
    data[14 + 2] = 0;
    assert!(Page::from_bytes(data).is_well_formed());
}

#[test]
fn compaction_keeps_an_empty_record_before_the_record_at_its_offset() {
    let mut p = Page::new(0);
    let f = bytes_of(3900, 1);
    let r = bytes_of(20, 2);
    assert_eq!(Some(0), p.add_value(&f));
    assert_eq!(Some(1), p.add_value(&bytes_of(10, 3)));
    assert_eq!(Some(2), p.add_value(&[]));
    assert_eq!(Some(3), p.add_value(&bytes_of(5, 4)));
    assert_eq!(Some(4), p.add_value(&bytes_of(3, 5)));
    assert_eq!(Some(()), p.delete_value(1));
    assert_eq!(Some(1), p.add_value(&r));
    assert_eq!(Some(()), p.delete_value(3));
    assert_eq!(Some(()), p.delete_value(4));
    assert_eq!((38, 3900, 1), entry(&p, 0));
    assert_eq!((3956, 20, 1), entry(&p, 1));
    assert_eq!((3948, 0, 1), entry(&p, 2));
    assert_eq!((3948, 5, 0), entry(&p, 3));
    assert_eq!((3953, 3, 0), entry(&p, 4));
    let paddings: Vec<u8> = (0..5).map(|s| p.to_bytes()[8 + 6 * s + 5]).collect();

    // The tail holds 120 bytes, the page 138: the records are packed first.
    let x = bytes_of(125, 6);
    assert_eq!(Some(3), p.add_value(&x));
    assert_eq!((38, 3900, 1), entry(&p, 0));
    assert_eq!((3938, 20, 1), entry(&p, 1));
    assert_eq!((3938, 0, 1), entry(&p, 2));
    assert_eq!((3958, 125, 1), entry(&p, 3));
    // the entry of a free slot is left as it was
    assert_eq!((3953, 3, 0), entry(&p, 4));
    assert_eq!(4083, le16(p.to_bytes(), 4));
    assert_eq!(paddings, (0..5).map(|s| p.to_bytes()[8 + 6 * s + 5]).collect::<Vec<u8>>());

    // Packing the packed records a second time moves none of them.
    assert_eq!(Some(()), p.delete_value(3));
    let y = bytes_of(135, 7);
    assert_eq!(Some(3), p.add_value(&y));
    assert_eq!((38, 3900, 1), entry(&p, 0));
    assert_eq!((3938, 20, 1), entry(&p, 1));
    assert_eq!((3938, 0, 1), entry(&p, 2));
    assert_eq!((3958, 135, 1), entry(&p, 3));
    assert_eq!((3953, 3, 0), entry(&p, 4));
    assert_eq!(4093, le16(p.to_bytes(), 4));
    assert_eq!(Some(f), p.get_value(0));
    assert_eq!(Some(r), p.get_value(1));
    assert_eq!(Some(Vec::new()), p.get_value(2));
    assert_eq!(Some(y), p.get_value(3));
    assert_eq!(None, p.get_value(4));
    assert_laid_out(&p);
}

#[test]
fn reused_slot_changes_only_pointer_entry_and_record() {
    let mut p = Page::new(0);
    assert_eq!(Some(0), p.add_value(&bytes_of(30, 1)));
    assert_eq!(Some(1), p.add_value(&bytes_of(30, 2)));
    assert_eq!(Some(()), p.delete_value(0));
    let before = *p.to_bytes();
    let record = bytes_of(7, 9);
    assert_eq!(Some(0), p.add_value(&record));
    let mut expected = before;
    // free start 80 -> 87; entry 0: offset 80, length 7, in use; record at 80
    expected[4] = 87;
    expected[8..13].copy_from_slice(&[80, 0, 7, 0, 1]);
    expected[80..87].copy_from_slice(&record);
    assert_eq!(expected, *p.to_bytes());
}

#[test]
fn new_slot_moves_the_body_and_changes_nothing_else() {
    let mut p = Page::new(0);
    let a = bytes_of(30, 1);
    assert_eq!(Some(0), p.add_value(&a));
    let before = *p.to_bytes();
    let record = bytes_of(7, 9);
    assert_eq!(Some(1), p.add_value(&record));
    let mut expected = before;
    expected[2] = 2;
    expected[4] = 57;
    // entry 0: offset 14 -> 20
    expected[8] = 20;
    // entry 1: offset 50, length 7, in use, padding cleared
    expected[14..20].copy_from_slice(&[50, 0, 7, 0, 1, 0]);
    expected[20..50].copy_from_slice(&a);
    expected[50..57].copy_from_slice(&record);
    assert_eq!(expected, *p.to_bytes());
}
