use btree_store::pager::{
    get_page, get_unused_page_num, pager_flush, pager_open, Pager, PagerError,
};

#[test]
fn a_file_must_hold_whole_pages() {
    assert_eq!(pager_open(vec![0u8; 1]).err(), Some(PagerError::CorruptFile));
    assert_eq!(pager_open(vec![0u8; 4095]).err(), Some(PagerError::CorruptFile));
    assert_eq!(pager_open(vec![0u8; 8193]).err(), Some(PagerError::CorruptFile));
    assert!(pager_open(vec![0u8; 8192]).is_ok());
    assert!(pager_open(Vec::new()).is_ok());
}

#[test]
fn an_open_pager_has_an_empty_cache() {
    let pager = pager_open(vec![7u8; 3 * 4096]).unwrap();
    assert_eq!(pager.num_pages, 3);
    assert_eq!(get_unused_page_num(&pager), 3);
    assert_eq!(pager.pages.len(), 100);
    assert!(pager.pages.iter().all(|p| p.is_none()));
    assert_eq!(pager.file.len(), 3 * 4096);
    let empty = pager_open(Vec::new()).unwrap();
    assert_eq!(empty.num_pages, 0);
}

#[test]
fn pages_come_from_the_file() {
    let mut file = vec![0u8; 2 * 4096];
    file[0] = 11;
    file[4095] = 12;
    file[4096] = 21;
    file[8191] = 22;
    let mut pager = pager_open(file).unwrap();
    let second = get_page(&mut pager, 1);
    assert_eq!(second[0], 21);
    assert_eq!(second[4095], 22);
    let first = get_page(&mut pager, 0);
    assert_eq!(first[0], 11);
    assert_eq!(first[4095], 12);
    assert_eq!(pager.num_pages, 2);
    assert!(pager.pages[0].is_some() && pager.pages[1].is_some() && pager.pages[2].is_none());
}

#[test]
fn a_page_behind_the_file_is_blank_and_in_use() {
    let mut pager = pager_open(vec![5u8; 4096]).unwrap();
    let page = get_page(&mut pager, 1);
    assert!(page.iter().all(|b| *b == 0));
    page[9] = 9;
    assert_eq!(pager.num_pages, 2);
    assert_eq!(get_page(&mut pager, 1)[9], 9);
    // a page further on takes the pages in between into use
    let far = get_page(&mut pager, 5);
    assert!(far.iter().all(|b| *b == 0));
    assert_eq!(pager.num_pages, 6);
    assert_eq!(get_unused_page_num(&pager), 6);
    // the highest page number
    get_page(&mut pager, 99);
    assert_eq!(pager.num_pages, 100);
}

#[test]
fn what_is_written_to_a_page_stays() {
    let mut pager = pager_open(vec![0u8; 4096]).unwrap();
    get_page(&mut pager, 0)[100] = 42;
    assert_eq!(get_page(&mut pager, 0)[100], 42);
    // the file is as it was until the page is flushed
    assert_eq!(pager.file[100], 0);
    pager_flush(&mut pager, 0);
    assert_eq!(pager.file[100], 42);
    assert_eq!(pager.file.len(), 4096);
}

#[test]
fn a_flush_behind_the_end_fills_the_file_up() {
    let mut pager = pager_open(vec![3u8; 4096]).unwrap();
    get_page(&mut pager, 2)[0] = 8;
    pager_flush(&mut pager, 2);
    assert_eq!(pager.file.len(), 3 * 4096);
    assert!(pager.file[..4096].iter().all(|b| *b == 3));
    assert!(pager.file[4096..8192].iter().all(|b| *b == 0));
    assert_eq!(pager.file[8192], 8);
    assert!(pager.file[8193..].iter().all(|b| *b == 0));
}

#[test]
fn a_last_page_that_is_not_whole_is_filled_up_with_zeros() {
    let mut file = vec![6u8; 4096 + 100];
    file[4096] = 1;
    file[4195] = 2;
    let mut pager = Pager { file, num_pages: 1, pages: (0..100).map(|_| None).collect() };
    let page = get_page(&mut pager, 1);
    assert_eq!(page[0], 1);
    assert_eq!(page[99], 2);
    assert!(page[1..99].iter().all(|b| *b == 6));
    assert!(page[100..].iter().all(|b| *b == 0));
    assert_eq!(pager.num_pages, 2);
    // a flush makes the page whole in the file
    pager_flush(&mut pager, 1);
    assert_eq!(pager.file.len(), 2 * 4096);
    assert_eq!(pager.file[4195], 2);
    assert!(pager.file[4196..].iter().all(|b| *b == 0));
}
