use clawmation::logbuf::{LogBuffer, CAPACITY, TAIL};

#[test]
fn the_buffer_keeps_only_the_newest_entries() {
    let mut log = LogBuffer::new();
    for i in 0..(CAPACITY + 25) {
        log.push_at(format!("00:00:{:02}", i % 60), "info", format!("line {i}"));
    }
    assert_eq!(log.len(), CAPACITY);
    let all = log.tail(usize::MAX);
    assert_eq!(all.len(), CAPACITY);
    assert_eq!(all[0].msg, "line 25");
    assert_eq!(all[CAPACITY - 1].msg, format!("line {}", CAPACITY + 24));
}

#[test]
fn the_tail_is_the_newest_entries_oldest_first() {
    let mut log = LogBuffer::default();
    for i in 0..100 {
        log.push_at("12:00:00".to_string(), "warn", format!("m{i}"));
    }
    let tail = log.tail(TAIL);
    assert_eq!(tail.len(), TAIL);
    assert_eq!(tail[0].msg, "m40");
    assert_eq!(tail[TAIL - 1].msg, "m99");
    assert_eq!(tail[0].level, "warn");
    assert_eq!(log.tail(0).len(), 0);
    assert_eq!(LogBuffer::new().tail(5).len(), 0);
}

#[test]
fn a_pushed_entry_is_stamped_with_the_time_of_day() {
    let mut log = LogBuffer::new();
    log.push("error", "boom".to_string());
    let last = log.tail(1);
    assert_eq!(last.len(), 1);
    assert_eq!(last[0].level, "error");
    assert_eq!(last[0].msg, "boom");
    let t: Vec<char> = last[0].t.chars().collect();
    assert_eq!(t.len(), 8);
    assert_eq!(t[2], ':');
    assert_eq!(t[5], ':');
    for (i, c) in t.iter().enumerate() {
        if i != 2 && i != 5 {
            assert!(c.is_ascii_digit());
        }
    }
}
