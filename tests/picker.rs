use pepper_core::picker::{enter_mode, Picker, PickerKey};

fn strings(v: &[&str]) -> Vec<String> {
    v.iter().map(|s| s.to_string()).collect()
}

#[test]
fn filter_sorts_by_score() {
    let mut picker = Picker::new();
    let words = strings(&["apple", "banana", "grape", "pineapple", "zzz"]);
    picker.filter(&words, &Vec::new(), "ape");
    let entries = picker.entries(&words, &Vec::new());
    assert!(!entries.is_empty());
    for pair in entries.windows(2) {
        assert!(pair[0].score >= pair[1].score);
    }
    assert!(entries.iter().all(|e| e.name != "zzz"));
}

#[test]
fn exact_length_match_gets_a_bonus() {
    let picker = Picker::new();
    let plain = picker.fuzzy_match("abc", "abc").unwrap();
    let longer = picker.fuzzy_match("abcd", "abc");
    assert!(longer.map_or(true, |s| s < plain));
    assert_eq!(Some(1), picker.fuzzy_match("", ""));
    assert_eq!(Some(0), picker.fuzzy_match("x", ""));
}

#[test]
fn empty_pattern_keeps_everything() {
    let mut picker = Picker::new();
    picker.add_custom_entry("one", "first");
    picker.add_custom_entry("two", "second");
    let commands = strings(&["quit"]);
    picker.filter(&Vec::new(), &commands, "");
    assert_eq!(3, picker.len());
    assert_eq!(0, picker.cursor());
}

#[test]
fn move_cursor_wraps_and_round_trips() {
    let mut picker = Picker::new();
    for name in ["a", "b", "c", "d", "e"] {
        picker.add_custom_entry(name, "");
    }
    picker.filter(&Vec::new(), &Vec::new(), "");
    assert_eq!(5, picker.len());
    picker.move_cursor(2);
    assert_eq!(2, picker.cursor());
    picker.move_cursor(-2);
    assert_eq!(0, picker.cursor());
    picker.move_cursor(-1);
    assert_eq!(4, picker.cursor());
    picker.move_cursor(1);
    assert_eq!(0, picker.cursor());
    picker.move_cursor(99);
    assert_eq!(4, picker.cursor());
    picker.move_cursor(isize::MIN);
    assert_eq!(0, picker.cursor());
}

#[test]
fn update_scroll_keeps_cursor_visible() {
    let mut picker = Picker::new();
    for name in ["a", "b", "c", "d", "e", "f"] {
        picker.add_custom_entry(name, "");
    }
    picker.filter(&Vec::new(), &Vec::new(), "");
    picker.move_cursor(4);
    let height = picker.update_scroll(3);
    assert_eq!(3, height);
    assert_eq!(2, picker.scroll());
    picker.move_cursor(-4);
    picker.update_scroll(3);
    assert_eq!(0, picker.scroll());
}

#[test]
fn custom_entry_filtered_goes_in_order() {
    let mut picker = Picker::new();
    picker.add_custom_entry_filtered("abc", "", "abc");
    picker.add_custom_entry_filtered("xyz", "", "abc");
    picker.add_custom_entry_filtered("a_b_c_d", "", "abc");
    let entries = picker.entries(&Vec::new(), &Vec::new());
    assert_eq!(2, entries.len());
    assert_eq!("abc", entries[0].name);
    assert_eq!("abc", picker.current_entry(&Vec::new(), &Vec::new()).unwrap().name);
}

#[test]
fn equal_scores_keep_source_order() {
    let mut picker = Picker::new();
    let words = strings(&["ax1", "ax2", "ax3"]);
    picker.filter(&words, &Vec::new(), "ax");
    let entries = picker.entries(&words, &Vec::new());
    assert_eq!(3, entries.len());
    assert_eq!(entries[0].score, entries[1].score);
    assert_eq!(entries[1].score, entries[2].score);
    assert_eq!("ax1", entries[0].name);
    assert_eq!("ax2", entries[1].name);
    assert_eq!("ax3", entries[2].name);
}

#[test]
fn enter_mode_lists_every_entry() {
    let mut picker = Picker::new();
    picker.add_custom_entry("old", "");
    assert!(!enter_mode(&mut picker, &Vec::new()));
    assert_eq!(0, picker.len());
    let paths = strings(&["src/a.rs", "src/b.rs"]);
    assert!(enter_mode(&mut picker, &paths));
    let entries = picker.entries(&Vec::new(), &Vec::new());
    assert_eq!(vec!["src/a.rs", "src/b.rs"], entries.iter().map(|e| e.name.as_str()).collect::<Vec<_>>());
    assert_eq!(0, picker.cursor());
}

#[test]
fn keys_move_the_cursor() {
    let mut picker = Picker::new();
    let names = strings(&["a", "b", "c", "d", "e", "f", "g", "h"]);
    enter_mode(&mut picker, &names);
    picker.on_key(PickerKey::Next, 4);
    assert_eq!(1, picker.cursor());
    picker.on_key(PickerKey::HalfPageDown, 4);
    assert_eq!(3, picker.cursor());
    picker.on_key(PickerKey::Last, 4);
    assert_eq!(7, picker.cursor());
    picker.on_key(PickerKey::HalfPageUp, 4);
    assert_eq!(5, picker.cursor());
    picker.on_key(PickerKey::First, 4);
    assert_eq!(0, picker.cursor());
    picker.on_key(PickerKey::Previous, 4);
    assert_eq!(7, picker.cursor());
}
