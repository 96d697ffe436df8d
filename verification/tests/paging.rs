use cost_trend::paging::{
    page_number, paginate, MAX_COLUMNS, SERVICE_FIXED_COLUMNS, SERVICE_PAGE_WIDTH,
    UNIFIED_FIXED_COLUMNS, UNIFIED_PAGE_WIDTH,
};

fn months(count: usize) -> Vec<String> {
    (0..count).map(|i| format!("{:04}-{:02}-01", 2024 + i / 12, i % 12 + 1)).collect()
}

#[test]
fn fourteen_months_make_two_pages_of_seven() {
    let periods = months(14);
    let pages = paginate(&periods, MAX_COLUMNS - UNIFIED_FIXED_COLUMNS);
    assert_eq!(pages.len(), 2);
    assert_eq!(pages[0].len(), 7);
    assert_eq!(pages[1].len(), 7);
    assert_eq!(pages[0], periods[..7].to_vec());
    assert_eq!(pages[1], periods[7..].to_vec());
}

#[test]
fn page_widths_leave_room_for_the_fixed_columns() {
    assert_eq!(UNIFIED_PAGE_WIDTH, 7);
    assert_eq!(SERVICE_PAGE_WIDTH, 8);
    assert_eq!(MAX_COLUMNS - SERVICE_FIXED_COLUMNS, 8);
}

#[test]
fn pages_put_together_give_the_periods_back() {
    for count in 0..30 {
        for width in 1..10 {
            let periods = months(count);
            let pages = paginate(&periods, width);
            let together: Vec<String> = pages.iter().flatten().cloned().collect();
            assert_eq!(together, periods);
            assert_eq!(pages.len(), (count + width - 1) / width);
            for (k, page) in pages.iter().enumerate() {
                assert!(!page.is_empty());
                assert!(page.len() <= width);
                if k + 1 < pages.len() {
                    assert_eq!(page.len(), width);
                }
            }
        }
    }
}

#[test]
fn last_page_holds_what_is_left() {
    let pages = paginate(&months(9), 7);
    assert_eq!(pages.len(), 2);
    assert_eq!(pages[0].len(), 7);
    assert_eq!(pages[1].len(), 2);
}

#[test]
fn no_periods_make_no_page() {
    assert!(paginate(&Vec::new(), 7).is_empty());
}

#[test]
fn pages_are_counted_from_one() {
    assert_eq!(page_number(0), 1);
    assert_eq!(page_number(1), 2);
}
