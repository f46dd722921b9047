//! The screens of the journal's terminal front end and the ways from one
//! to the next.
//!
//! The front end shows a screen, lets the user choose or type, and does
//! what touches the disk. Which screen comes next is decided here.

use crate::menu::NavigationResult;
use crate::order::same_text;
use vstd::prelude::*;
use vstd::std_specs::iter::IteratorSpec;
use vstd::utf8::encode_utf8;

verus! {

/// Where the front end stands, with what it has learned so far: the
/// user's file, the password, the folder and the page.
#[derive(Debug, PartialEq, Eq)]
pub enum AppState {
    SelectUser,
    EnterNewUser,
    EnterPassword(String),
    SelectFolder(String, String),
    SelectFile(String, String, String),
    EditOrViewFile(String, String, String, String),
    InputPrompt(String, Box<AppState>),
    AddPagePrompt(String, String, String),
    Done,
}

/// A screen as plain text.
pub enum Screen {
    SelectUser,
    EnterNewUser,
    EnterPassword(Seq<char>),
    SelectFolder(Seq<char>, Seq<char>),
    SelectFile(Seq<char>, Seq<char>, Seq<char>),
    EditOrViewFile(Seq<char>, Seq<char>, Seq<char>, Seq<char>),
    InputPrompt(Seq<char>, Box<Screen>),
    AddPagePrompt(Seq<char>, Seq<char>, Seq<char>),
    Done,
}

impl View for AppState {
    type V = Screen;

    open spec fn view(&self) -> Screen
        decreases self,
    {
        match self {
            AppState::SelectUser => Screen::SelectUser,
            AppState::EnterNewUser => Screen::EnterNewUser,
            AppState::EnterPassword(user) => Screen::EnterPassword(user@),
            AppState::SelectFolder(user, password) => Screen::SelectFolder(user@, password@),
            AppState::SelectFile(user, password, folder) => Screen::SelectFile(
                user@,
                password@,
                folder@,
            ),
            AppState::EditOrViewFile(user, password, folder, page) => Screen::EditOrViewFile(
                user@,
                password@,
                folder@,
                page@,
            ),
            AppState::InputPrompt(prompt, next) => Screen::InputPrompt(
                prompt@,
                Box::new((**next)@),
            ),
            AppState::AddPagePrompt(user, password, folder) => Screen::AddPagePrompt(
                user@,
                password@,
                folder@,
            ),
            AppState::Done => Screen::Done,
        }
    }
}

/// What the front end is to do after a prompt.
#[derive(Debug, PartialEq, Eq)]
pub enum AfterPrompt {
    /// Show this screen.
    Show(AppState),
    /// Open the user's store under the password, then go on as
    /// `after_authentication` says.
    Authenticate(String, String),
    /// Create the user's store under the password, then show the user's
    /// folders.
    CreateUser(String, String),
}

/// `AfterPrompt` as plain text.
pub enum AfterPromptView {
    Show(Screen),
    Authenticate(Seq<char>, Seq<char>),
    CreateUser(Seq<char>, Seq<char>),
}

impl View for AfterPrompt {
    type V = AfterPromptView;

    open spec fn view(&self) -> AfterPromptView {
        match self {
            AfterPrompt::Show(state) => AfterPromptView::Show(state@),
            AfterPrompt::Authenticate(user, password) => AfterPromptView::Authenticate(
                user@,
                password@,
            ),
            AfterPrompt::CreateUser(user, password) => AfterPromptView::CreateUser(
                user@,
                password@,
            ),
        }
    }
}

/// The help line of a screen.
pub open spec fn help_text_of(screen: Screen) -> Seq<char> {
    match screen {
        Screen::SelectUser => "↑/↓ or j/k: Navigate | Enter: Select | q: Quit"@,
        Screen::EnterNewUser | Screen::EnterPassword(_) => {
            "Enter when prompted | Esc: Back | q: Quit"@
        },
        Screen::SelectFolder(_, _) | Screen::SelectFile(_, _, _) => {
            "↑/↓ or j/k: Navigate | Enter: Select | b/Esc: Back | q: Quit"@
        },
        Screen::EditOrViewFile(_, _, _, _) => "Page will open in editor | q: Quit"@,
        Screen::InputPrompt(_, _) | Screen::AddPagePrompt(_, _, _) => {
            "Type input | Enter: Confirm | Esc: Cancel"@
        },
        Screen::Done => "Press any key to exit"@,
    }
}

/// The help line that goes with a screen.
pub fn get_help_text(state: &AppState) -> (text: &'static str)
    ensures
        text@ == help_text_of(state@),
{
    match state {
        AppState::SelectUser => "↑/↓ or j/k: Navigate | Enter: Select | q: Quit",
        AppState::EnterNewUser | AppState::EnterPassword(_) => {
            "Enter when prompted | Esc: Back | q: Quit"
        },
        AppState::SelectFolder(_, _) | AppState::SelectFile(_, _, _) => {
            "↑/↓ or j/k: Navigate | Enter: Select | b/Esc: Back | q: Quit"
        },
        AppState::EditOrViewFile(_, _, _, _) => "Page will open in editor | q: Quit",
        AppState::InputPrompt(_, _) | AppState::AddPagePrompt(_, _, _) => {
            "Type input | Enter: Confirm | Esc: Cancel"
        },
        AppState::Done => "Press any key to exit",
    }
}

/// The screen after the menu of users: the prompt for a new user's name
/// where `Add New User` was taken, else the prompt for the password of
/// the user that was taken.
pub open spec fn after_user_menu_spec(selection: Seq<char>) -> Screen {
    if selection == "Add New User"@ {
        Screen::InputPrompt("Enter new username:"@, Box::new(Screen::EnterNewUser))
    } else {
        Screen::InputPrompt("Enter password:"@, Box::new(Screen::EnterPassword(selection)))
    }
}

/// Decides the screen after the menu of users.
pub fn after_user_menu(selection: String) -> (next: AppState)
    ensures
        next@ == after_user_menu_spec(selection@),
{
    if same_text(selection.as_str(), "Add New User") {
        let inner = AppState::EnterNewUser;
        assert(inner@ == Screen::EnterNewUser);
        AppState::InputPrompt("Enter new username:".to_owned(), Box::new(inner))
    } else {
        let inner = AppState::EnterPassword(selection);
        assert(inner@ == Screen::EnterPassword(selection@));
        AppState::InputPrompt("Enter password:".to_owned(), Box::new(inner))
    }
}

/// What follows a prompt that was to lead to `next`. A cancelled prompt
/// leads back to the menu of users. A new user's name leads to the prompt
/// for the password of the store named after the user; a password leads
/// to the opening or the creation of the store.
pub open spec fn after_prompt_spec(
    prompt: Seq<char>,
    next: Screen,
    input: Option<Seq<char>>,
) -> AfterPromptView {
    match input {
        None => AfterPromptView::Show(Screen::SelectUser),
        Some(text) => match next {
            Screen::EnterNewUser => AfterPromptView::Show(
                Screen::InputPrompt(
                    "Enter password:"@,
                    Box::new(Screen::SelectFolder(text + ".clog"@, Seq::empty())),
                ),
            ),
            Screen::EnterPassword(user) => AfterPromptView::Authenticate(user, text),
            Screen::SelectFolder(user, _) => AfterPromptView::CreateUser(user, text),
            _ => AfterPromptView::Show(Screen::InputPrompt(prompt, Box::new(next))),
        },
    }
}

/// Decides what follows a prompt.
pub fn after_prompt(prompt: String, next: AppState, input: Option<String>) -> (r: AfterPrompt)
    ensures
        r@ == after_prompt_spec(
            prompt@,
            next@,
            match input {
                Some(text) => Some(text@),
                None => None,
            },
        ),
{
    let text = match input {
        Some(text) => text,
        None => {
            return AfterPrompt::Show(AppState::SelectUser);
        },
    };
    match next {
        AppState::EnterNewUser => {
            let mut file = text;
            file.append(".clog");
            let inner = AppState::SelectFolder(file, String::new());
            assert(inner@ == Screen::SelectFolder(file@, Seq::empty()));
            AfterPrompt::Show(AppState::InputPrompt("Enter password:".to_owned(), Box::new(inner)))
        },
        AppState::EnterPassword(user) => AfterPrompt::Authenticate(user, text),
        AppState::SelectFolder(user, _) => AfterPrompt::CreateUser(user, text),
        other => AfterPrompt::Show(AppState::InputPrompt(prompt, Box::new(other))),
    }
}

/// The screen after the store was opened or was not: the user's folders,
/// or the menu of users again.
pub fn after_authentication(user: String, password: String, opened: bool) -> (next: AppState)
    ensures
        next@ == if opened {
            Screen::SelectFolder(user@, password@)
        } else {
            Screen::SelectUser
        },
{
    if opened {
        AppState::SelectFolder(user, password)
    } else {
        AppState::SelectUser
    }
}

/// What was taken from a menu, as plain text.
pub open spec fn taken(result: Option<NavigationResult>) -> Option<Seq<char>> {
    match result {
        Some(NavigationResult::Selected(name)) => Some(name@),
        _ => None,
    }
}

/// The screen after the menu of folders: the pages of the folder that was
/// taken, or the menu of users.
pub fn after_folder_menu(user: String, password: String, result: Option<NavigationResult>) -> (next:
    AppState)
    ensures
        next@ == match taken(result) {
            Some(folder) => Screen::SelectFile(user@, password@, folder),
            None => Screen::SelectUser,
        },
{
    match result {
        Some(NavigationResult::Selected(folder)) => AppState::SelectFile(user, password, folder),
        _ => AppState::SelectUser,
    }
}

/// The screen after the menu of pages: the prompt for a new page where
/// `Add Page` was taken, the page that was taken, or the menu of folders.
pub fn after_page_menu(
    user: String,
    password: String,
    folder: String,
    result: Option<NavigationResult>,
) -> (next: AppState)
    ensures
        next@ == match taken(result) {
            Some(page) => if page == "Add Page"@ {
                Screen::AddPagePrompt(user@, password@, folder@)
            } else {
                Screen::EditOrViewFile(user@, password@, folder@, page)
            },
            None => Screen::SelectFolder(user@, password@),
        },
{
    match result {
        Some(NavigationResult::Selected(page)) => {
            if same_text(page.as_str(), "Add Page") {
                AppState::AddPagePrompt(user, password, folder)
            } else {
                AppState::EditOrViewFile(user, password, folder, page)
            }
        },
        _ => AppState::SelectFolder(user, password),
    }
}

/// Whether the pages of a folder may be written: only today's folder is.
pub fn is_writable(folder: &str, today: &str) -> (writable: bool)
    ensures
        writable == (folder@ == today@),
{
    same_text(folder, today)
}

/// The items of the menu of pages: the pages with their creation times,
/// and after them `Add Page` where the folder is today's.
pub fn page_menu_items(pages: Vec<(String, String)>, folder: &str, today: &str) -> (items: Vec<
    (String, String),
>)
    ensures
        items@.len() == pages@.len() + if folder@ == today@ {
            1int
        } else {
            0int
        },
        forall|i: int| 0 <= i < pages@.len() ==> items@[i] == pages@[i],
        folder@ == today@ ==> items@.last().0@ == "Add Page"@ && items@.last().1@ == Seq::<
            char,
        >::empty(),
{
    let mut items = pages;
    if same_text(folder, today) {
        items.push(("Add Page".to_owned(), String::new()));
    }
    items
}

/// The name of the store file of a user: the user's name and `.clog`.
pub fn store_file_name(user_name: &str) -> (file: String)
    ensures
        file@ == user_name@ + ".clog"@,
{
    let mut file = user_name.to_owned();
    file.append(".clog");
    file
}

/// The extension of a store file's name, with its dot.
pub const EXTENSION: [u8; 5] = [46, 99, 108, 111, 103];

/// Whether a file name, in UTF-8, ends with `.clog` and has something
/// before it.
pub open spec fn has_store_extension(name: Seq<u8>) -> bool {
    name.len() > EXTENSION@.len() && name.skip(name.len() - EXTENSION@.len()) == EXTENSION@
}

/// Whether a directory entry of this name is a store file.
pub fn is_store_file_name(name: &str) -> (r: bool)
    ensures
        r == has_store_extension(encode_utf8(name@)),
{
    let bytes = name.as_bytes();
    let len = bytes.len();
    if len <= EXTENSION.len() {
        return false;
    }
    let start = len - EXTENSION.len();
    let mut i: usize = 0;
    while i < EXTENSION.len()
        invariant
            i <= EXTENSION@.len(),
            bytes@ == encode_utf8(name@),
            len == bytes@.len(),
            start == len - EXTENSION@.len(),
            len > EXTENSION@.len(),
            forall|j: int| 0 <= j < i ==> bytes@[start + j] == EXTENSION@[j],
        decreases EXTENSION@.len() - i,
    {
        if bytes[start + i] != EXTENSION[i] {
            proof {
                let tail = bytes@.skip(len - EXTENSION@.len());
                assert(tail[i as int] == bytes@[start + i]);
            }
            return false;
        }
        i += 1;
    }
    proof {
        assert(bytes@.skip(start as int) =~= EXTENSION@);
    }
    true
}

/// Whether a character is white space.
pub open spec fn is_white_space(c: char) -> bool {
    let u = c as u32;
    ||| 0x09 <= u <= 0x0d
    ||| u == 0x20
    ||| u == 0x85
    ||| u == 0xa0
    ||| u == 0x1680
    ||| 0x2000 <= u <= 0x200a
    ||| u == 0x2028
    ||| u == 0x2029
    ||| u == 0x202f
    ||| u == 0x205f
    ||| u == 0x3000
}

/// Whether a text consists of white space alone.
pub open spec fn is_blank_text(text: Seq<char>) -> bool {
    forall|i: int| 0 <= i < text.len() ==> is_white_space(#[trigger] text[i])
}

/// Whether a character is white space.
fn white_space(c: char) -> (r: bool)
    ensures
        r == is_white_space(c),
{
    let u = c as u32;
    (0x09 <= u && u <= 0x0d) || u == 0x20 || u == 0x85 || u == 0xa0 || u == 0x1680 || (0x2000 <= u
        && u <= 0x200a) || u == 0x2028 || u == 0x2029 || u == 0x202f || u == 0x205f || u == 0x3000
}

/// Whether a page's content is blank, so that no page is made of it.
pub fn is_blank(content: &str) -> (r: bool)
    ensures
        r == is_blank_text(content@),
{
    let mut chars = content.chars();
    let ghost mut seen: int = 0;
    loop
        invariant
            0 <= seen <= content@.len(),
            chars.remaining() == content@.skip(seen),
            chars.obeys_prophetic_iter_laws(),
            forall|i: int| 0 <= i < seen ==> is_white_space(#[trigger] content@[i]),
        decreases content@.len() - seen,
    {
        match chars.next() {
            Some(c) => {
                proof {
                    assert(c == content@.skip(seen)[0]);
                    assert(content@.skip(seen).drop_first() =~= content@.skip(seen + 1));
                }
                if !white_space(c) {
                    return false;
                }
                proof {
                    seen = seen + 1;
                }
            },
            None => {
                return true;
            },
        }
    }
}

/// Whether an edit changed a page's content, so that the page is saved.
pub fn content_changed(old_content: &str, new_content: &str) -> (changed: bool)
    ensures
        changed == (old_content@ != new_content@),
{
    !same_text(old_content, new_content)
}

} // verus!
