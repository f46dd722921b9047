use clog_journal::menu::{
    centered_margin, handle_menu_input, metadata_label, prompt_input, select_menu_result,
    should_render, Key, MenuAction, NavigationResult, PromptAction,
};

fn press(selected: usize, len: usize, allow_back: bool, key: Key) -> (usize, Option<MenuAction>) {
    let mut index = selected;
    let action = handle_menu_input(&mut index, len, allow_back, key);
    (index, action)
}

#[test]
fn down_moves_to_the_next_item_and_wraps() {
    assert_eq!(press(0, 3, false, Key::Down), (1, None));
    assert_eq!(press(1, 3, false, Key::Down), (2, None));
    assert_eq!(press(2, 3, false, Key::Down), (0, None));
    assert_eq!(press(0, 3, false, Key::Char('j')), (1, None));
}

#[test]
fn up_moves_to_the_item_before_and_wraps() {
    assert_eq!(press(2, 3, false, Key::Up), (1, None));
    assert_eq!(press(1, 3, false, Key::Up), (0, None));
    assert_eq!(press(0, 3, false, Key::Up), (2, None));
    assert_eq!(press(2, 3, false, Key::Char('k')), (1, None));
}

#[test]
fn an_empty_menu_keeps_the_selection_at_zero() {
    assert_eq!(press(0, 0, true, Key::Up), (0, None));
    assert_eq!(press(0, 0, true, Key::Down), (0, None));
    assert_eq!(press(0, 0, true, Key::Enter), (0, None));
}

#[test]
fn a_menu_of_one_item_keeps_the_selection() {
    assert_eq!(press(0, 1, true, Key::Up), (0, None));
    assert_eq!(press(0, 1, true, Key::Down), (0, None));
}

#[test]
fn a_selection_beyond_the_end_comes_back() {
    assert_eq!(press(7, 3, false, Key::Down), (0, None));
    assert_eq!(press(7, 3, false, Key::Up), (6, None));
}

#[test]
fn every_selection_in_range_stays_in_range() {
    for len in 1..6usize {
        for selected in 0..len {
            for key in [Key::Up, Key::Down, Key::Enter, Key::Esc, Key::Char('x'), Key::Other] {
                let (index, _) = press(selected, len, true, key);
                assert!(index < len);
            }
            let (up, _) = press(selected, len, true, Key::Up);
            assert_eq!(press(up, len, true, Key::Down).0, selected);
        }
    }
}

#[test]
fn enter_takes_an_item() {
    assert_eq!(press(1, 3, false, Key::Enter), (1, Some(MenuAction::Select)));
}

#[test]
fn back_needs_leave() {
    assert_eq!(press(1, 3, true, Key::Esc), (1, Some(MenuAction::Back)));
    assert_eq!(press(1, 3, true, Key::Char('b')), (1, Some(MenuAction::Back)));
    assert_eq!(press(1, 3, false, Key::Esc), (1, None));
    assert_eq!(press(1, 3, false, Key::Char('b')), (1, None));
}

#[test]
fn q_leaves_the_program() {
    assert_eq!(press(1, 3, false, Key::Char('q')), (1, Some(MenuAction::Quit)));
    assert_eq!(press(0, 0, true, Key::Char('q')), (0, Some(MenuAction::Quit)));
}

#[test]
fn other_keys_do_nothing_to_a_menu() {
    assert_eq!(press(1, 3, true, Key::Backspace), (1, None));
    assert_eq!(press(1, 3, true, Key::Char('x')), (1, None));
    assert_eq!(press(1, 3, true, Key::Other), (1, None));
}

fn items() -> Vec<(String, String)> {
    vec![("alice.clog".to_string(), "01/01/2024 08:00".to_string()), ("Add New User".to_string(), String::new())]
}

#[test]
fn select_gives_the_name_of_the_selected_item() {
    assert_eq!(
        select_menu_result(&items(), 0, MenuAction::Select),
        Some(NavigationResult::Selected("alice.clog".to_string()))
    );
    assert_eq!(
        select_menu_result(&items(), 1, MenuAction::Select),
        Some(NavigationResult::Selected("Add New User".to_string()))
    );
    assert_eq!(select_menu_result(&items(), 2, MenuAction::Select), None);
    assert_eq!(select_menu_result(&vec![], 0, MenuAction::Select), None);
}

#[test]
fn back_and_quit_end_the_menu() {
    assert_eq!(select_menu_result(&items(), 0, MenuAction::Back), Some(NavigationResult::Back));
    assert_eq!(select_menu_result(&items(), 0, MenuAction::Quit), Some(NavigationResult::Quit));
}

fn type_keys(start: &str, keys: &[Key]) -> (String, PromptAction) {
    let mut buffer = start.to_string();
    let mut last = PromptAction::Continue;
    for key in keys {
        last = prompt_input(&mut buffer, *key);
    }
    (buffer, last)
}

#[test]
fn characters_are_typed() {
    assert_eq!(
        type_keys("", &[Key::Char('a'), Key::Char('é'), Key::Char('q')]),
        ("aéq".to_string(), PromptAction::Continue)
    );
}

#[test]
fn backspace_removes_the_last_character() {
    assert_eq!(type_keys("aé", &[Key::Backspace]), ("a".to_string(), PromptAction::Continue));
    assert_eq!(type_keys("", &[Key::Backspace]), (String::new(), PromptAction::Continue));
}

#[test]
fn enter_confirms_a_text_that_is_not_empty() {
    assert_eq!(
        type_keys("alice", &[Key::Enter]),
        ("alice".to_string(), PromptAction::Submit("alice".to_string()))
    );
    assert_eq!(type_keys("", &[Key::Enter]), (String::new(), PromptAction::Continue));
}

#[test]
fn esc_cancels_a_prompt() {
    assert_eq!(type_keys("alice", &[Key::Esc]), ("alice".to_string(), PromptAction::Cancel));
}

#[test]
fn other_keys_do_nothing_to_a_prompt() {
    assert_eq!(
        type_keys("alice", &[Key::Up, Key::Down, Key::Other]),
        ("alice".to_string(), PromptAction::Continue)
    );
}

#[test]
fn a_frame_is_due_after_sixteen_milliseconds() {
    assert!(!should_render(0));
    assert!(!should_render(15));
    assert!(should_render(16));
    assert!(should_render(1000));
}

#[test]
fn margins_center_a_part() {
    assert_eq!(centered_margin(80), 10);
    assert_eq!(centered_margin(60), 20);
    assert_eq!(centered_margin(100), 0);
    assert_eq!(centered_margin(0), 50);
    assert_eq!(centered_margin(75), 12);
    assert_eq!(centered_margin(101), 0);
    assert_eq!(centered_margin(u16::MAX), 0);
}

#[test]
fn metadata_stands_in_square_brackets() {
    assert_eq!(metadata_label("08:15"), Some("[08:15]".to_string()));
    assert_eq!(metadata_label(""), None);
}
