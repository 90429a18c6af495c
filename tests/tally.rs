use extsize::percent::{percent_text, percent_thousandths};
use extsize::scan::{process_file, Scan};
use extsize::tally::ExtTally;

fn amounts(t: &ExtTally) -> Vec<(String, u64)> {
    let mut v: Vec<(String, u64)> = (0..t.len())
        .map(|i| {
            let (k, n) = t.slot(i);
            (k.to_string(), n)
        })
        .collect();
    v.sort();
    v
}

#[test]
fn new_tally_is_empty() {
    let t = ExtTally::new();
    assert_eq!(t.len(), 0);
    assert_eq!(t.total(), 0);
    assert_eq!(t.get("txt"), None);
}

#[test]
fn insert_opens_slot_then_adds_to_it() {
    let mut t = ExtTally::new();
    t.insert("txt", 10);
    assert_eq!(t.get("txt"), Some(10));
    t.insert("txt", 7);
    assert_eq!(t.get("txt"), Some(17));
    assert_eq!(t.len(), 1);
    assert_eq!(t.total(), 17);
}

#[test]
fn insert_of_zero_bytes_opens_slot() {
    let mut t = ExtTally::new();
    t.insert("unknown", 0);
    assert_eq!(t.get("unknown"), Some(0));
    assert_eq!(t.len(), 1);
}

#[test]
fn distinct_labels_get_distinct_slots() {
    let mut t = ExtTally::new();
    t.insert("rs", 100);
    t.insert("toml", 20);
    t.insert("rs", 1);
    assert_eq!(t.slot(0), ("rs", 101));
    assert_eq!(t.slot(1), ("toml", 20));
    assert_eq!(t.total(), 121);
}

#[test]
fn insert_up_to_largest_total() {
    let mut t = ExtTally::new();
    t.insert("bin", u64::MAX - 1);
    t.insert("bin", 1);
    assert_eq!(t.total(), u64::MAX);
    assert_eq!(t.get("bin"), Some(u64::MAX));
}

#[test]
fn process_file_pairs_label_with_size() {
    assert_eq!(process_file("/a/b/c.tar.gz", 42), ("gz".to_string(), 42));
    assert_eq!(process_file("/a/b/README", 3), ("unknown".to_string(), 3));
}

#[test]
fn scan_of_three_files() {
    let mut s = Scan::new("/d");
    assert_eq!(s.next_directory(), Some("/d".to_string()));
    s.visit_entry("/d/a.txt", true, 19);
    s.visit_entry("/d/.gitignore", true, 5);
    s.visit_entry("/d/README", true, 0);
    assert_eq!(s.next_directory(), None);
    let t = s.into_tally();
    assert_eq!(
        amounts(&t),
        vec![
            ("gitignore".to_string(), 5),
            ("txt".to_string(), 19),
            ("unknown".to_string(), 0)
        ]
    );
    assert_eq!(t.total(), 24);
    assert_eq!(percent_thousandths(t.get("txt").unwrap(), t.total()), 79167);
    assert_eq!(percent_text(t.get("txt").unwrap(), t.total()), "79.167 %");
    assert_eq!(percent_text(t.get("gitignore").unwrap(), t.total()), "20.833 %");
    assert_eq!(percent_text(t.get("unknown").unwrap(), t.total()), "0.000 %");
}

#[test]
fn scan_of_empty_directory() {
    let mut s = Scan::new("/empty");
    assert_eq!(s.next_directory(), Some("/empty".to_string()));
    assert_eq!(s.next_directory(), None);
    let t = s.into_tally();
    assert_eq!(t.total(), 0);
    assert_eq!(t.len(), 0);
    assert_eq!(percent_thousandths(0, t.total()), 0);
    assert_eq!(percent_text(0, t.total()), "0.000 %");
}

#[test]
fn scan_descends_into_non_file_entries() {
    let mut s = Scan::new("/r");
    assert_eq!(s.next_directory(), Some("/r".to_string()));
    s.visit_entry("/r/x.rs", true, 4);
    s.visit_entry("/r/sub", false, 0);
    s.visit_entry("/r/other", false, 0);
    assert_eq!(s.next_directory(), Some("/r/other".to_string()));
    s.visit_entry("/r/other/y.rs", true, 6);
    assert_eq!(s.next_directory(), Some("/r/sub".to_string()));
    s.visit_entry("/r/sub/z.md", true, 1);
    assert_eq!(s.next_directory(), None);
    assert_eq!(s.tally().get("rs"), Some(10));
    assert_eq!(s.tally().get("md"), Some(1));
    assert_eq!(s.tally().total(), 11);
}

#[test]
fn rescan_in_another_order_gives_same_tally() {
    let files = [("/t/a.txt", 3u64), ("/t/b.rs", 8), ("/t/c.txt", 2), ("/t/LICENSE", 5)];
    let mut first = Scan::new("/t");
    for (p, n) in files.iter() {
        first.visit_entry(p, true, *n);
    }
    let mut second = Scan::new("/t");
    for (p, n) in files.iter().rev() {
        second.visit_entry(p, true, *n);
    }
    assert_eq!(amounts(first.tally()), amounts(second.tally()));
    assert_eq!(first.tally().total(), second.tally().total());
}

#[test]
fn total_is_sum_of_file_sizes() {
    let sizes = [7u64, 0, 13, 100, 1];
    let names = ["a.c", "b", "c.h", ".env", "d.c"];
    let mut s = Scan::new("/p");
    for i in 0..sizes.len() {
        s.visit_entry(&format!("/p/{}", names[i]), true, sizes[i]);
    }
    let sum_slots: u64 = amounts(s.tally()).iter().map(|e| e.1).sum();
    assert_eq!(s.tally().total(), 121);
    assert_eq!(sum_slots, 121);
    assert_eq!(s.tally().get("c"), Some(8));
    assert_eq!(s.tally().get("env"), Some(100));
}

#[test]
fn has_room_for_checks_overflow() {
    let mut s = Scan::new("/big");
    s.visit_entry("/big/a.img", true, u64::MAX - 5);
    assert!(s.has_room_for(5));
    assert!(!s.has_room_for(6));
}

#[test]
fn percent_rounds_to_thousandths() {
    assert_eq!(percent_thousandths(19, 24), 79167);
    assert_eq!(percent_thousandths(5, 24), 20833);
    assert_eq!(percent_thousandths(0, 24), 0);
    assert_eq!(percent_thousandths(24, 24), 100000);
    assert_eq!(percent_thousandths(1, 3), 33333);
    assert_eq!(percent_thousandths(2, 3), 66667);
}

#[test]
fn percent_rounds_halves_up() {
    assert_eq!(percent_thousandths(1, 200000), 1);
    assert_eq!(percent_thousandths(1, 400000), 0);
}

#[test]
fn percent_of_empty_total_is_zero() {
    assert_eq!(percent_thousandths(0, 0), 0);
    assert_eq!(percent_thousandths(5, 0), 0);
}

#[test]
fn percent_of_largest_values() {
    assert_eq!(percent_thousandths(u64::MAX, u64::MAX), 100000);
    assert_eq!(percent_thousandths(u64::MAX / 2, u64::MAX), 50000);
}

#[test]
fn percent_text_writes_three_decimals() {
    assert_eq!(percent_text(24, 24), "100.000 %");
    assert_eq!(percent_text(1, 3), "33.333 %");
    assert_eq!(percent_text(1, 200000), "0.001 %");
    assert_eq!(percent_text(1, 8), "12.500 %");
    assert_eq!(percent_text(7, 0), "0.000 %");
}
