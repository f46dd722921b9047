use clog_journal::menu::NavigationResult;
use clog_journal::screen::{
    after_authentication, after_folder_menu, after_page_menu, after_prompt, after_user_menu,
    content_changed, get_help_text, is_blank, is_store_file_name, is_writable, page_menu_items,
    store_file_name, AfterPrompt, AppState,
};

fn s(text: &str) -> String {
    text.to_string()
}

fn prompt(text: &str, next: AppState) -> AppState {
    AppState::InputPrompt(s(text), Box::new(next))
}

#[test]
fn help_texts_go_with_the_screens() {
    assert_eq!(get_help_text(&AppState::SelectUser), "↑/↓ or j/k: Navigate | Enter: Select | q: Quit");
    assert_eq!(get_help_text(&AppState::EnterNewUser), "Enter when prompted | Esc: Back | q: Quit");
    assert_eq!(
        get_help_text(&AppState::EnterPassword(s("a"))),
        "Enter when prompted | Esc: Back | q: Quit"
    );
    assert_eq!(
        get_help_text(&AppState::SelectFolder(s("a"), s("p"))),
        "↑/↓ or j/k: Navigate | Enter: Select | b/Esc: Back | q: Quit"
    );
    assert_eq!(
        get_help_text(&AppState::SelectFile(s("a"), s("p"), s("f"))),
        "↑/↓ or j/k: Navigate | Enter: Select | b/Esc: Back | q: Quit"
    );
    assert_eq!(
        get_help_text(&AppState::EditOrViewFile(s("a"), s("p"), s("f"), s("x"))),
        "Page will open in editor | q: Quit"
    );
    assert_eq!(
        get_help_text(&prompt("Enter password:", AppState::EnterNewUser)),
        "Type input | Enter: Confirm | Esc: Cancel"
    );
    assert_eq!(
        get_help_text(&AppState::AddPagePrompt(s("a"), s("p"), s("f"))),
        "Type input | Enter: Confirm | Esc: Cancel"
    );
    assert_eq!(get_help_text(&AppState::Done), "Press any key to exit");
}

#[test]
fn a_new_user_is_asked_for_a_name() {
    assert_eq!(
        after_user_menu(s("Add New User")),
        prompt("Enter new username:", AppState::EnterNewUser)
    );
}

#[test]
fn a_known_user_is_asked_for_the_password() {
    assert_eq!(
        after_user_menu(s("alice.clog")),
        prompt("Enter password:", AppState::EnterPassword(s("alice.clog")))
    );
}

#[test]
fn a_cancelled_prompt_leads_to_the_users() {
    assert_eq!(
        after_prompt(s("Enter password:"), AppState::EnterPassword(s("alice.clog")), None),
        AfterPrompt::Show(AppState::SelectUser)
    );
}

#[test]
fn a_new_name_leads_to_the_prompt_for_a_password() {
    assert_eq!(
        after_prompt(s("Enter new username:"), AppState::EnterNewUser, Some(s("bob"))),
        AfterPrompt::Show(prompt("Enter password:", AppState::SelectFolder(s("bob.clog"), s(""))))
    );
}

#[test]
fn a_password_for_a_known_user_is_checked() {
    assert_eq!(
        after_prompt(s("Enter password:"), AppState::EnterPassword(s("alice.clog")), Some(s("pw1"))),
        AfterPrompt::Authenticate(s("alice.clog"), s("pw1"))
    );
}

#[test]
fn a_password_for_a_new_user_creates_the_store() {
    assert_eq!(
        after_prompt(
            s("Enter password:"),
            AppState::SelectFolder(s("bob.clog"), s("")),
            Some(s("pw2"))
        ),
        AfterPrompt::CreateUser(s("bob.clog"), s("pw2"))
    );
}

#[test]
fn a_prompt_that_leads_nowhere_is_shown_again() {
    assert_eq!(
        after_prompt(s("What?"), AppState::Done, Some(s("x"))),
        AfterPrompt::Show(prompt("What?", AppState::Done))
    );
}

#[test]
fn the_store_that_opens_shows_its_folders() {
    assert_eq!(
        after_authentication(s("alice.clog"), s("pw1"), true),
        AppState::SelectFolder(s("alice.clog"), s("pw1"))
    );
    assert_eq!(after_authentication(s("alice.clog"), s("pw1"), false), AppState::SelectUser);
}

#[test]
fn a_folder_that_is_taken_shows_its_pages() {
    assert_eq!(
        after_folder_menu(s("a"), s("p"), Some(NavigationResult::Selected(s("01/01/2024")))),
        AppState::SelectFile(s("a"), s("p"), s("01/01/2024"))
    );
    assert_eq!(after_folder_menu(s("a"), s("p"), Some(NavigationResult::Back)), AppState::SelectUser);
    assert_eq!(after_folder_menu(s("a"), s("p"), None), AppState::SelectUser);
}

#[test]
fn a_page_that_is_taken_is_opened() {
    assert_eq!(
        after_page_menu(s("a"), s("p"), s("f"), Some(NavigationResult::Selected(s("intro")))),
        AppState::EditOrViewFile(s("a"), s("p"), s("f"), s("intro"))
    );
    assert_eq!(
        after_page_menu(s("a"), s("p"), s("f"), Some(NavigationResult::Selected(s("Add Page")))),
        AppState::AddPagePrompt(s("a"), s("p"), s("f"))
    );
    assert_eq!(
        after_page_menu(s("a"), s("p"), s("f"), Some(NavigationResult::Back)),
        AppState::SelectFolder(s("a"), s("p"))
    );
    assert_eq!(after_page_menu(s("a"), s("p"), s("f"), None), AppState::SelectFolder(s("a"), s("p")));
}

#[test]
fn only_today_s_folder_is_writable() {
    assert!(is_writable("01/01/2024", "01/01/2024"));
    assert!(!is_writable("01/01/2024", "02/01/2024"));
}

#[test]
fn add_page_is_offered_for_today_s_folder() {
    let pages = vec![(s("intro"), s("t"))];
    assert_eq!(
        page_menu_items(pages.clone(), "01/01/2024", "01/01/2024"),
        vec![(s("intro"), s("t")), (s("Add Page"), s(""))]
    );
    assert_eq!(page_menu_items(pages.clone(), "01/01/2024", "02/01/2024"), pages);
    assert_eq!(page_menu_items(vec![], "x", "x"), vec![(s("Add Page"), s(""))]);
}

#[test]
fn a_store_file_is_named_after_its_user() {
    assert_eq!(store_file_name("alice"), "alice.clog");
    assert_eq!(store_file_name(""), ".clog");
}

#[test]
fn store_files_end_with_the_extension() {
    assert!(is_store_file_name("alice.clog"));
    assert!(is_store_file_name("a.b.clog"));
    assert!(is_store_file_name("..clog"));
    assert!(is_store_file_name("é.clog"));
    assert!(!is_store_file_name(".clog"));
    assert!(!is_store_file_name("clog"));
    assert!(!is_store_file_name("alice.clog.bak"));
    assert!(!is_store_file_name("alice.CLOG"));
    assert!(!is_store_file_name("alice"));
    assert!(!is_store_file_name(""));
}

#[test]
fn store_file_names_agree_with_path_extensions() {
    for name in ["alice.clog", "a.b.clog", "..clog", ".clog", "clog", "x.clog.bak", "x.", "x", "é.clog"] {
        let expected = std::path::Path::new(name).extension().map_or(false, |ext| ext == "clog");
        assert_eq!(is_store_file_name(name), expected);
    }
}

#[test]
fn blank_content_is_white_space_alone() {
    assert!(is_blank(""));
    assert!(is_blank(" \t\r\n"));
    assert!(is_blank("\u{a0}\u{3000}\u{2028}"));
    assert!(!is_blank("a"));
    assert!(!is_blank("  a  "));
    assert!(!is_blank("\u{200b}"));
}

#[test]
fn blank_agrees_with_trim() {
    for code in 0u32..0x3100 {
        if let Some(c) = char::from_u32(code) {
            let text = format!(" {} ", c);
            assert_eq!(is_blank(&text), text.trim().is_empty());
        }
    }
}

#[test]
fn an_edit_that_changes_nothing_is_not_saved() {
    assert!(!content_changed("hello", "hello"));
    assert!(content_changed("hello", "hello\n"));
    assert!(content_changed("", "x"));
}
