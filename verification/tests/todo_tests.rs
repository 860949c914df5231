use rlibs::commands::{parse_command, parse_priority, Command, PriorityError};
use rlibs::todo::{Listing, TodoEntry, TodoList};

fn entry(ts: u64, text: &str, pri: i32) -> TodoEntry {
    TodoEntry::new(ts, text.to_string(), pri)
}

fn summary(list: &TodoList) -> Vec<(i32, String)> {
    list.entries.iter().map(|e| (e.priority, e.entry_text.clone())).collect()
}

#[test]
fn new_entry_keeps_fields() {
    let e = entry(1700000000, "buy milk\n", 3);
    assert_eq!(e.timestamp_seconds, 1700000000);
    assert_eq!(e.entry_text, "buy milk\n");
    assert_eq!(e.priority, 3);
}

#[test]
fn new_list_is_empty() {
    let list = TodoList::new();
    assert!(list.entries.is_empty());
}

#[test]
fn add_entry_appends_at_end() {
    let mut list = TodoList::new();
    list.add_entry(entry(1, "a", 5));
    list.add_entry(entry(2, "b", 1));
    assert_eq!(summary(&list), vec![(5, "a".to_string()), (1, "b".to_string())]);
}

#[test]
fn sort_orders_by_ascending_priority() {
    let mut list = TodoList::new();
    list.add_entry(entry(1, "c", 3));
    list.add_entry(entry(2, "a", 1));
    list.add_entry(entry(3, "b", 2));
    list.sort();
    assert_eq!(
        summary(&list),
        vec![(1, "a".to_string()), (2, "b".to_string()), (3, "c".to_string())]
    );
}

#[test]
fn sort_is_stable_for_equal_priorities() {
    let mut list = TodoList::new();
    list.add_entry(entry(1, "first two", 2));
    list.add_entry(entry(2, "one", 1));
    list.add_entry(entry(3, "second two", 2));
    list.add_entry(entry(4, "third two", 2));
    list.add_entry(entry(5, "another one", 1));
    list.sort();
    assert_eq!(
        summary(&list),
        vec![
            (1, "one".to_string()),
            (1, "another one".to_string()),
            (2, "first two".to_string()),
            (2, "second two".to_string()),
            (2, "third two".to_string()),
        ]
    );
    let stamps: Vec<u64> = list.entries.iter().map(|e| e.timestamp_seconds).collect();
    assert_eq!(stamps, vec![2, 5, 1, 3, 4]);
}

#[test]
fn sort_handles_extreme_priorities() {
    let mut list = TodoList::new();
    list.add_entry(entry(1, "max", i32::MAX));
    list.add_entry(entry(2, "min", i32::MIN));
    list.add_entry(entry(3, "zero", 0));
    list.sort();
    let pris: Vec<i32> = list.entries.iter().map(|e| e.priority).collect();
    assert_eq!(pris, vec![i32::MIN, 0, i32::MAX]);
}

#[test]
fn sort_of_sorted_list_changes_nothing() {
    let mut list = TodoList::new();
    list.add_entry(entry(1, "a", 1));
    list.add_entry(entry(2, "b", 1));
    list.add_entry(entry(3, "c", 4));
    let before = summary(&list);
    list.sort();
    assert_eq!(summary(&list), before);
    list.sort();
    assert_eq!(summary(&list), before);
}

#[test]
fn sort_keeps_every_entry() {
    let mut list = TodoList::new();
    for (i, p) in [4, 2, 9, 2, 7, 1, 4].iter().enumerate() {
        list.add_entry(entry(i as u64, &format!("t{}", i), *p));
    }
    let mut before = summary(&list);
    list.sort();
    let mut after = summary(&list);
    before.sort();
    after.sort();
    assert_eq!(before, after);
}

#[test]
fn listing_of_empty_list_is_notice() {
    let mut list = TodoList::new();
    assert!(matches!(list.listing(), Listing::NoTasks));
    assert!(list.entries.is_empty());
}

#[test]
fn listing_numbers_sorted_tasks_from_one() {
    let mut list = TodoList::new();
    list.add_entry(entry(1, "water plants\n", 2));
    list.add_entry(entry(2, "pay rent\n", 1));
    match list.listing() {
        Listing::Lines(lines) => {
            assert_eq!(lines, vec!["1: pay rent\n".to_string(), "2: water plants\n".to_string()]);
        }
        Listing::NoTasks => panic!("expected lines"),
    }
    assert_eq!(list.entries[0].entry_text, "pay rent\n");
}

#[test]
fn listing_numbers_beyond_nine() {
    let mut list = TodoList::new();
    for i in 0..12 {
        list.add_entry(entry(i, "x", 1));
    }
    match list.listing() {
        Listing::Lines(lines) => {
            assert_eq!(lines.len(), 12);
            assert_eq!(lines[9], "10: x");
            assert_eq!(lines[11], "12: x");
        }
        Listing::NoTasks => panic!("expected lines"),
    }
}

#[test]
fn command_words_and_abbreviations() {
    assert_eq!(parse_command("l\n"), Command::List);
    assert_eq!(parse_command("list\n"), Command::List);
    assert_eq!(parse_command("a\n"), Command::Add);
    assert_eq!(parse_command("add"), Command::Add);
    assert_eq!(parse_command("e\r\n"), Command::Exit);
    assert_eq!(parse_command("exit\n"), Command::Exit);
}

#[test]
fn command_ignores_case_and_surrounding_space() {
    assert_eq!(parse_command("  LIST \t\n"), Command::List);
    assert_eq!(parse_command("Add\n"), Command::Add);
    assert_eq!(parse_command("\u{3000}ExIt\u{a0}"), Command::Exit);
}

#[test]
fn unknown_commands_ask_for_help() {
    assert_eq!(parse_command("h\n"), Command::Help);
    assert_eq!(parse_command("help\n"), Command::Help);
    assert_eq!(parse_command("\n"), Command::Help);
    assert_eq!(parse_command("li st\n"), Command::Help);
    assert_eq!(parse_command("lists\n"), Command::Help);
    assert_eq!(parse_command("L\u{130}ST\n"), Command::Help);
}

#[test]
fn priority_accepts_positive_numbers() {
    assert_eq!(parse_priority("3\n"), Ok(3));
    assert_eq!(parse_priority("  +12 \n"), Ok(12));
    assert_eq!(parse_priority("2147483647\n"), Ok(i32::MAX));
    assert_eq!(parse_priority("007\n"), Ok(7));
}

#[test]
fn priority_rejects_non_numbers() {
    assert_eq!(parse_priority("three\n"), Err(PriorityError::NotANumber));
    assert_eq!(parse_priority("\n"), Err(PriorityError::NotANumber));
    assert_eq!(parse_priority("-\n"), Err(PriorityError::NotANumber));
    assert_eq!(parse_priority("1 2\n"), Err(PriorityError::NotANumber));
    assert_eq!(parse_priority("2147483648\n"), Err(PriorityError::NotANumber));
    assert_eq!(parse_priority("99999999999999999999\n"), Err(PriorityError::NotANumber));
}

#[test]
fn priority_rejects_numbers_below_one() {
    assert_eq!(parse_priority("0\n"), Err(PriorityError::NotPositive));
    assert_eq!(parse_priority("-5\n"), Err(PriorityError::NotPositive));
    assert_eq!(parse_priority("-2147483648\n"), Err(PriorityError::NotPositive));
}

#[test]
fn priority_agrees_with_std_parse() {
    let samples = [
        "1", "-1", "+1", "0", "12a", "", " 5 ", "-2147483648", "-2147483649", "2147483647",
        "2147483648", "+-3", "--3", "٣", "1_000", "\t42\n",
    ];
    for s in samples.iter() {
        let expected = match s.trim().parse::<i32>() {
            Err(_) => Err(PriorityError::NotANumber),
            Ok(p) if p < 1 => Err(PriorityError::NotPositive),
            Ok(p) => Ok(p),
        };
        assert_eq!(parse_priority(s), expected, "input {:?}", s);
    }
}
