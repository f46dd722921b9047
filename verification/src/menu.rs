//! Menus and prompts of the journal's terminal front end: what a key
//! press does to the selection of a menu and to the text of a prompt.
//!
//! The front end reads the keyboard and draws; what follows from a key is
//! decided here.

use vstd::prelude::*;

verus! {

/// A key press, as far as menus and prompts tell keys apart.
#[derive(Clone, Copy, Debug, PartialEq, Eq, Structural)]
pub enum Key {
    Up,
    Down,
    Enter,
    Esc,
    Backspace,
    Char(char),
    Other,
}

/// What a key press asks of a menu beyond moving the selection.
#[derive(Clone, Copy, Debug, PartialEq, Eq, Structural)]
pub enum MenuAction {
    /// Take the selected item.
    Select,
    /// Leave the menu for the one before.
    Back,
    /// Leave the program.
    Quit,
}

/// How a menu ends.
#[derive(Clone, Debug, PartialEq, Eq)]
pub enum NavigationResult {
    /// The item that was taken.
    Selected(String),
    /// The user went back.
    Back,
    /// The user left the program.
    Quit,
}

/// What a key press does to a prompt.
#[derive(Clone, Debug, PartialEq, Eq)]
pub enum PromptAction {
    /// The prompt goes on.
    Continue,
    /// The text was confirmed.
    Submit(String),
    /// The prompt was cancelled.
    Cancel,
}

/// The least time between two frames, in milliseconds.
pub const FRAME_MILLIS: u128 = 16;

/// The index of the last item of a menu of `len` items, or zero for an
/// empty menu.
pub open spec fn last_index(len: usize) -> usize {
    if len == 0 {
        0
    } else {
        (len - 1) as usize
    }
}

/// Where the selection stands after a key press. `Up` and `k` move it up
/// and from the first item to the last; `Down` and `j` move it down and
/// from the last item to the first; no other key moves it.
pub open spec fn moved_index(selected: usize, len: usize, key: Key) -> usize {
    match key {
        Key::Up | Key::Char('k') => if selected > 0 {
            (selected - 1) as usize
        } else {
            last_index(len)
        },
        Key::Down | Key::Char('j') => if selected < last_index(len) {
            (selected + 1) as usize
        } else {
            0
        },
        _ => selected,
    }
}

/// What a key press asks of a menu. `Enter` takes an item if there is one;
/// `b` and `Esc` go back where the menu allows it; `q` leaves the program.
pub open spec fn menu_action(len: usize, allow_back: bool, key: Key) -> Option<MenuAction> {
    match key {
        Key::Enter => if len > 0 {
            Some(MenuAction::Select)
        } else {
            None
        },
        Key::Char('b') | Key::Esc => if allow_back {
            Some(MenuAction::Back)
        } else {
            None
        },
        Key::Char('q') => Some(MenuAction::Quit),
        _ => None,
    }
}

/// Applies a key press to a menu of `items_len` items: moves the selection
/// and returns what else the key asks for. A selection within the menu
/// stays within it.
pub fn handle_menu_input(
    selected_index: &mut usize,
    items_len: usize,
    allow_back: bool,
    key: Key,
) -> (action: Option<MenuAction>)
    ensures
        *final(selected_index) == moved_index(*old(selected_index), items_len, key),
        *old(selected_index) < items_len ==> *final(selected_index) < items_len,
        action == menu_action(items_len, allow_back, key),
{
    let last = if items_len == 0 {
        0
    } else {
        items_len - 1
    };
    match key {
        Key::Up | Key::Char('k') => {
            if *selected_index > 0 {
                *selected_index = *selected_index - 1;
            } else {
                *selected_index = last;
            }
            None
        },
        Key::Down | Key::Char('j') => {
            if *selected_index < last {
                *selected_index = *selected_index + 1;
            } else {
                *selected_index = 0;
            }
            None
        },
        Key::Enter => {
            if items_len > 0 {
                Some(MenuAction::Select)
            } else {
                None
            }
        },
        Key::Char('b') | Key::Esc => {
            if allow_back {
                Some(MenuAction::Back)
            } else {
                None
            }
        },
        Key::Char('q') => Some(MenuAction::Quit),
        _ => None,
    }
}

/// Decides how a menu ends on an action, if it ends: `Select` takes the
/// selected item's name, if the selection is within the menu.
pub fn select_menu_result(
    items: &Vec<(String, String)>,
    selected_index: usize,
    action: MenuAction,
) -> (r: Option<NavigationResult>)
    ensures
        match r {
            Some(NavigationResult::Selected(name)) => action == MenuAction::Select && selected_index
                < items@.len() && name@ == items@[selected_index as int].0@,
            Some(NavigationResult::Back) => action == MenuAction::Back,
            Some(NavigationResult::Quit) => action == MenuAction::Quit,
            None => action == MenuAction::Select && selected_index >= items@.len(),
        },
{
    match action {
        MenuAction::Select => {
            if selected_index < items.len() {
                Some(NavigationResult::Selected(items[selected_index].0.clone()))
            } else {
                None
            }
        },
        MenuAction::Back => Some(NavigationResult::Back),
        MenuAction::Quit => Some(NavigationResult::Quit),
    }
}

pub assume_specification[ String::push ](text: &mut String, c: char)
    ensures
        final(text)@ == old(text)@.push(c),
;

pub assume_specification[ String::pop ](text: &mut String) -> (r: Option<char>)
    ensures
        old(text)@.len() == 0 ==> r is None && final(text)@ == old(text)@,
        old(text)@.len() > 0 ==> r == Some(old(text)@.last()) && final(text)@ == old(
            text,
        )@.drop_last(),
;

/// The text of a prompt after a key press: a character is appended,
/// `Backspace` removes the last one, no other key changes the text.
pub open spec fn edited(text: Seq<char>, key: Key) -> Seq<char> {
    match key {
        Key::Char(c) => text.push(c),
        Key::Backspace => if text.len() > 0 {
            text.drop_last()
        } else {
            text
        },
        _ => text,
    }
}

/// Applies a key press to the text of a prompt. `Enter` confirms a text
/// that is not empty, `Esc` cancels, every character is typed.
pub fn prompt_input(input_buffer: &mut String, key: Key) -> (action: PromptAction)
    ensures
        final(input_buffer)@ == edited(old(input_buffer)@, key),
        match action {
            PromptAction::Submit(text) => key == Key::Enter && old(input_buffer)@.len() > 0
                && text@ == old(input_buffer)@,
            PromptAction::Cancel => key == Key::Esc,
            PromptAction::Continue => key != Key::Esc && (key == Key::Enter ==> old(
                input_buffer,
            )@.len() == 0),
        },
{
    match key {
        Key::Char(c) => {
            input_buffer.push(c);
            PromptAction::Continue
        },
        Key::Backspace => {
            input_buffer.pop();
            PromptAction::Continue
        },
        Key::Enter => {
            if !input_buffer.as_str().is_empty() {
                PromptAction::Submit(input_buffer.clone())
            } else {
                PromptAction::Continue
            }
        },
        Key::Esc => PromptAction::Cancel,
        _ => PromptAction::Continue,
    }
}

/// Whether a frame is due after `elapsed_millis` since the last one.
pub fn should_render(elapsed_millis: u128) -> (due: bool)
    ensures
        due == (elapsed_millis >= FRAME_MILLIS),
{
    elapsed_millis >= FRAME_MILLIS
}

/// The share of an area, in percent, that is left free on either side of
/// a part that takes `percent` of it in the middle; nothing where the part
/// takes all of it or more.
pub fn centered_margin(percent: u16) -> (margin: u16)
    ensures
        margin == if percent <= 100 {
            (100 - percent) / 2
        } else {
            0
        },
        percent <= 100 ==> margin + percent + margin <= 100,
{
    if percent <= 100 {
        (100 - percent) / 2
    } else {
        0
    }
}

/// What a menu shows beside an item: the metadata in square brackets, or
/// nothing where there is none.
pub fn metadata_label(metadata: &str) -> (label: Option<String>)
    ensures
        match label {
            Some(text) => metadata@.len() > 0 && text@ == seq!['['] + metadata@ + seq![']'],
            None => metadata@.len() == 0,
        },
{
    if metadata.is_empty() {
        None
    } else {
        let mut text = String::new();
        text.push('[');
        text.append(metadata);
        text.push(']');
        proof {
            assert(text@ =~= seq!['['] + metadata@ + seq![']']);
        }
        Some(text)
    }
}

} // verus!
