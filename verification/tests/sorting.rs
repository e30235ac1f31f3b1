use media_gallery::image_info::ImageInfo;
use media_gallery::sort::{
    bytes_not_after, not_after, reorder, sort, stable_sort, take_out, try_sort, SortOrder,
};
use media_gallery::IMAGE_OFFSET;

fn entry(url: &str, date: i128, height: u64) -> ImageInfo {
    ImageInfo::new(url.to_string(), format!("/photos/{height}"), date, false, 640, height)
}

fn sample() -> Vec<ImageInfo> {
    vec![
        entry("pear.png", 30, 1),
        entry("apple.png", 20, 2),
        entry("fig.gif", 20, 3),
        entry("apple.png", 10, 4),
        entry("Zebra.jpg", 30, 5),
        entry("apple", -5, 6),
    ]
}

fn heights(list: &[ImageInfo]) -> Vec<u64> {
    list.iter().map(|e| e.height).collect()
}

#[test]
fn order_follows_the_first_switch_that_is_set() {
    assert_eq!(SortOrder::from_flags(true, true, true), SortOrder::Alphabetical);
    assert_eq!(SortOrder::from_flags(true, false, false), SortOrder::Alphabetical);
    assert_eq!(SortOrder::from_flags(false, true, true), SortOrder::Date);
    assert_eq!(SortOrder::from_flags(false, false, true), SortOrder::Randomise);
    assert_eq!(SortOrder::from_flags(false, false, false), SortOrder::Unsorted);
}

#[test]
fn strings_are_ordered_byte_by_byte() {
    assert!(bytes_not_after(b"", b""));
    assert!(bytes_not_after(b"", b"a"));
    assert!(!bytes_not_after(b"a", b""));
    assert!(bytes_not_after(b"abc", b"abc"));
    assert!(bytes_not_after(b"ab", b"abc"));
    assert!(!bytes_not_after(b"abc", b"ab"));
    assert!(bytes_not_after(b"abc", b"abd"));
    assert!(!bytes_not_after(b"abd", b"abc"));
    assert!(bytes_not_after(b"Z", b"a"));
    assert!(bytes_not_after("z".as_bytes(), "é".as_bytes()));
    for (a, b) in [("", "x"), ("apple", "apple.png"), ("b", "a"), ("é", "e"), ("same", "same")] {
        assert_eq!(bytes_not_after(a.as_bytes(), b.as_bytes()), a <= b);
        assert_eq!(bytes_not_after(b.as_bytes(), a.as_bytes()), b <= a);
    }
}

#[test]
fn entries_compare_by_date_or_by_identifier() {
    let early = entry("b", 1, 0);
    let late = entry("a", 2, 0);
    assert!(not_after(true, &early, &late));
    assert!(!not_after(true, &late, &early));
    assert!(not_after(false, &late, &early));
    assert!(!not_after(false, &early, &late));
    assert!(not_after(true, &early, &early));
    assert!(not_after(false, &early, &early));
}

#[test]
fn alphabetical_sort_is_stable() {
    let sorted = sort(SortOrder::Alphabetical, sample());
    assert_eq!(
        sorted.iter().map(|e| e.url.as_str()).collect::<Vec<_>>(),
        vec!["Zebra.jpg", "apple", "apple.png", "apple.png", "fig.gif", "pear.png"]
    );
    assert_eq!(heights(&sorted), vec![5, 6, 2, 4, 3, 1]);
}

#[test]
fn date_sort_is_stable() {
    let sorted = sort(SortOrder::Date, sample());
    assert_eq!(sorted.iter().map(|e| e.date).collect::<Vec<_>>(), vec![-5, 10, 20, 20, 30, 30]);
    assert_eq!(heights(&sorted), vec![6, 4, 2, 3, 1, 5]);
}

#[test]
fn unsorted_keeps_the_order() {
    let sorted = sort(SortOrder::Unsorted, sample());
    assert_eq!(heights(&sorted), vec![1, 2, 3, 4, 5, 6]);
    assert_eq!(sorted[0].url, "pear.png");
}

#[test]
fn randomise_keeps_the_entries() {
    let input: Vec<ImageInfo> = (0..50).map(|i| entry(&format!("{i}.png"), i, i as u64)).collect();
    let sorted = sort(SortOrder::Randomise, input);
    let mut found = heights(&sorted);
    found.sort();
    assert_eq!(found, (0..50).collect::<Vec<u64>>());
    for e in &sorted {
        assert_eq!(e.url, format!("{}.png", e.height));
        assert_eq!(e.date, e.height as i128);
    }
}

#[test]
fn every_order_records_the_heights() {
    for order in [SortOrder::Alphabetical, SortOrder::Date, SortOrder::Randomise, SortOrder::Unsorted] {
        let mut input = sample();
        input[2].height_before = 1234;
        input[3].height_after = 4321;
        let sorted = sort(order, input);
        let total = 21 + 6 * IMAGE_OFFSET;
        let mut before = 0;
        for e in &sorted {
            assert_eq!(e.height_before, before);
            assert_eq!(e.height_before + e.height + IMAGE_OFFSET + e.height_after, total);
            before += e.height + IMAGE_OFFSET;
        }
        assert_eq!(before, total);
    }
}

#[test]
fn sort_of_nothing_is_nothing() {
    for order in [SortOrder::Alphabetical, SortOrder::Date, SortOrder::Randomise, SortOrder::Unsorted] {
        assert!(sort(order, Vec::new()).is_empty());
    }
}

#[test]
fn stable_sort_leaves_its_input() {
    let input = sample();
    let sorted = stable_sort(true, &input);
    assert_eq!(heights(&input), vec![1, 2, 3, 4, 5, 6]);
    assert_eq!(heights(&sorted), vec![6, 4, 2, 3, 1, 5]);
}

#[test]
fn taken_out_entries_have_no_place() {
    let mut input = sample();
    input[1].height_before = 8;
    input[1].height_after = 9;
    let loose = take_out(&input);
    assert_eq!(heights(&loose), vec![1, 2, 3, 4, 5, 6]);
    assert!(loose.iter().all(|e| e.height_before == 0 && e.height_after == 0));
    assert_eq!(loose[1].url, "apple.png");
    assert_eq!((input[1].height_before, input[1].height_after), (8, 9));
}

#[test]
fn reorder_leaves_heights_alone() {
    let mut input = sample();
    input[5].height_before = 77;
    let ordered = reorder(SortOrder::Date, input);
    assert_eq!(ordered[0].height, 6);
    assert_eq!(ordered[0].height_before, 77);
}

#[test]
fn try_sort_sorts_what_fits() {
    let sorted = try_sort(SortOrder::Date, sample()).unwrap();
    assert_eq!(heights(&sorted), vec![6, 4, 2, 3, 1, 5]);
    assert_eq!(sorted[1].height_before, 6 + IMAGE_OFFSET);
    assert!(try_sort(SortOrder::Alphabetical, Vec::new()).unwrap().is_empty());
}

#[test]
fn try_sort_gives_nothing_for_a_height_beyond_count() {
    for order in [SortOrder::Alphabetical, SortOrder::Date, SortOrder::Randomise, SortOrder::Unsorted] {
        let input = vec![entry("a", 1, u64::MAX - IMAGE_OFFSET), entry("b", 2, 0)];
        assert!(try_sort(order, input).is_none());
        let input = vec![entry("a", 1, u64::MAX - 2 * IMAGE_OFFSET), entry("b", 2, 0)];
        assert_eq!(try_sort(order, input).unwrap().len(), 2);
    }
}

#[test]
fn every_order_keeps_the_entries() {
    for order in [SortOrder::Alphabetical, SortOrder::Date, SortOrder::Randomise, SortOrder::Unsorted] {
        let sorted = sort(order, sample());
        let mut found: Vec<(String, i128, u64)> =
            sorted.iter().map(|e| (e.url.clone(), e.date, e.height)).collect();
        let mut given: Vec<(String, i128, u64)> =
            sample().iter().map(|e| (e.url.clone(), e.date, e.height)).collect();
        found.sort();
        given.sort();
        assert_eq!(found, given);
        for pair in sorted.windows(2) {
            assert!(pair[0].height_before <= pair[1].height_before);
        }
    }
}
