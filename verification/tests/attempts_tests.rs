//! The best-attempts shortlist: bounded to 30, sorted ascending by distance,
//! one entry per text, shorter paths win.

use pathfinder::attempts::{update_attempts_list, BestAttempt};

fn assert_sorted(list: &Vec<BestAttempt>) {
    for w in list.windows(2) {
        assert!(w[0].distance <= w[1].distance);
    }
}

#[test]
fn list_stays_sorted_and_bounded() {
    let mut list: Vec<BestAttempt> = Vec::new();
    for i in 0..40u64 {
        // Interleave distances so insertions land everywhere.
        let d = (i * 7919) % 1000;
        update_attempts_list(&mut list, format!("t{}", i), vec![], d);
        assert!(list.len() <= 30);
        assert_sorted(&list);
    }
    assert_eq!(list.len(), 30);
}

#[test]
fn truncation_keeps_the_closest() {
    let mut list: Vec<BestAttempt> = Vec::new();
    for i in 0..35u64 {
        update_attempts_list(&mut list, format!("t{}", i), vec![], i * 10);
    }
    assert_eq!(list.len(), 30);
    assert_eq!(list[0].distance, 0);
    assert_eq!(list[29].distance, 290);
}

#[test]
fn duplicate_text_keeps_shorter_path() {
    let mut list: Vec<BestAttempt> = Vec::new();
    update_attempts_list(
        &mut list,
        "abc".to_string(),
        vec!["x".to_string(), "y".to_string()],
        500,
    );
    assert_eq!(list.len(), 1);
    assert_eq!(list[0].path.len(), 2);
    // A shorter path to the same text replaces the entry.
    update_attempts_list(&mut list, "abc".to_string(), vec!["z".to_string()], 500);
    assert_eq!(list.len(), 1);
    assert_eq!(list[0].path, vec!["z".to_string()]);
    // A longer path does not.
    update_attempts_list(
        &mut list,
        "abc".to_string(),
        vec!["p".to_string(), "q".to_string(), "r".to_string()],
        500,
    );
    assert_eq!(list.len(), 1);
    assert_eq!(list[0].path, vec!["z".to_string()]);
}

#[test]
fn equal_distances_keep_insertion_order() {
    let mut list: Vec<BestAttempt> = Vec::new();
    update_attempts_list(&mut list, "first".to_string(), vec![], 100);
    update_attempts_list(&mut list, "second".to_string(), vec![], 100);
    update_attempts_list(&mut list, "third".to_string(), vec![], 100);
    assert_eq!(list[0].text, "first");
    assert_eq!(list[1].text, "second");
    assert_eq!(list[2].text, "third");
}
