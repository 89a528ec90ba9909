//! The main menu's selection: which entry is highlighted, and when the user
//! has confirmed it.
//!
//! The menu is told what the pointer hovers over; where the entries are drawn
//! is the presentation's business.

use vstd::prelude::*;

verus! {

/// An entry of the main menu.
#[derive(Clone, Copy, Debug, PartialEq, Eq, Structural)]
pub enum MainMenuSelection {
    Multiplayer,
    Exit,
}

/// A key, as far as the menu tells keys apart.
#[derive(Clone, Copy, Debug, PartialEq, Eq, Structural)]
pub enum MenuKey {
    Up,
    Down,
    Return,
    Other,
}

/// A mouse button, as far as the menu tells buttons apart.
#[derive(Clone, Copy, Debug, PartialEq, Eq, Structural)]
pub enum MenuButton {
    Left,
    Right,
    Other,
}

/// An input event, as far as the menu reacts to it. Events of the pointer
/// carry the entry that the pointer is over, if any.
#[derive(Clone, Copy, Debug, PartialEq, Eq, Structural)]
pub enum MenuEvent {
    MouseCursor(Option<MainMenuSelection>),
    KeyPress(MenuKey),
    MousePress(MenuButton, Option<MainMenuSelection>),
    Other,
}

/// The other entry of the menu.
pub open spec fn other_entry(entry: MainMenuSelection) -> MainMenuSelection {
    match entry {
        MainMenuSelection::Multiplayer => MainMenuSelection::Exit,
        MainMenuSelection::Exit => MainMenuSelection::Multiplayer,
    }
}

/// The menu's state.
pub struct MenuView {
    /// The highlighted entry.
    pub selected: MainMenuSelection,
    /// The user has confirmed the highlighted entry, and the confirmation
    /// was not taken yet.
    pub done: bool,
}

impl MenuView {
    /// The state after a key was pressed. Up and down move the highlight,
    /// wrapping around; return confirms.
    pub open spec fn key_pressed(self, key: MenuKey) -> MenuView {
        match key {
            MenuKey::Up => MenuView { selected: other_entry(self.selected), ..self },
            MenuKey::Down => MenuView { selected: other_entry(self.selected), ..self },
            MenuKey::Return => MenuView { done: true, ..self },
            MenuKey::Other => self,
        }
    }

    /// The state after the pointer moved: an entry under the pointer is
    /// highlighted.
    pub open spec fn mouse_moved(self, over: Option<MainMenuSelection>) -> MenuView {
        match over {
            Some(entry) => MenuView { selected: entry, ..self },
            None => self,
        }
    }

    /// The state after a mouse button was pressed: the left button confirms.
    pub open spec fn mouse_pressed(self, button: MenuButton) -> MenuView {
        match button {
            MenuButton::Left => MenuView { done: true, ..self },
            MenuButton::Right => self,
            MenuButton::Other => self,
        }
    }

    /// The state after one input event.
    pub open spec fn event(self, e: MenuEvent) -> MenuView {
        match e {
            MenuEvent::MouseCursor(over) => self.mouse_moved(over),
            MenuEvent::KeyPress(key) => self.key_pressed(key),
            MenuEvent::MousePress(button, _) => self.mouse_pressed(button),
            MenuEvent::Other => self,
        }
    }
}

/// The main menu.
pub struct MainMenu {
    selected: MainMenuSelection,
    done: bool,
}

impl View for MainMenu {
    type V = MenuView;

    closed spec fn view(&self) -> MenuView {
        MenuView { selected: self.selected, done: self.done }
    }
}

impl MainMenu {
    /// A menu with its first entry highlighted and nothing confirmed.
    pub fn new() -> (menu: MainMenu)
        ensures
            menu@ == (MenuView { selected: MainMenuSelection::Multiplayer, done: false }),
    {
        MainMenu { selected: MainMenuSelection::Multiplayer, done: false }
    }

    /// The highlighted entry.
    pub fn selected(&self) -> (entry: MainMenuSelection)
        ensures
            entry == self@.selected,
    {
        self.selected
    }

    /// Whether a confirmation waits to be taken.
    pub fn is_done(&self) -> (done: bool)
        ensures
            done == self@.done,
    {
        self.done
    }

    /// Takes one input event.
    pub fn event(&mut self, e: MenuEvent)
        ensures
            final(self)@ == old(self)@.event(e),
    {
        match e {
            MenuEvent::MouseCursor(over) => self.on_mouse_moved(over),
            MenuEvent::KeyPress(key) => self.on_key_pressed(key),
            MenuEvent::MousePress(button, over) => self.on_mouse_pressed(button, over),
            MenuEvent::Other => {},
        }
    }

    /// A key was pressed.
    pub fn on_key_pressed(&mut self, key: MenuKey)
        ensures
            final(self)@ == old(self)@.key_pressed(key),
    {
        match key {
            MenuKey::Up => {
                self.selected = Self::next_entry(self.selected);
            },
            MenuKey::Down => {
                self.selected = Self::next_entry(self.selected);
            },
            MenuKey::Return => {
                self.done = true;
            },
            MenuKey::Other => {},
        }
    }

    /// A mouse button was pressed while the pointer was over `over`. The
    /// left button confirms the entry under the pointer, or the highlighted
    /// one where the pointer is over none.
    pub fn on_mouse_pressed(&mut self, button: MenuButton, over: Option<MainMenuSelection>)
        ensures
            final(self)@ == old(self)@.mouse_pressed(button),
    {
        match button {
            MenuButton::Left => {
                match self.is_mouse_over_button(over) {
                    MainMenuSelection::Multiplayer => {
                        self.done = true;
                    },
                    MainMenuSelection::Exit => {
                        self.done = true;
                    },
                }
            },
            MenuButton::Right => {},
            MenuButton::Other => {},
        }
    }

    /// The pointer moved and is now over `over`.
    pub fn on_mouse_moved(&mut self, over: Option<MainMenuSelection>)
        ensures
            final(self)@ == old(self)@.mouse_moved(over),
    {
        self.selected = self.is_mouse_over_button(over);
    }

    /// The entry that counts as being under the pointer: the one it is over,
    /// or the highlighted one where it is over none.
    pub fn is_mouse_over_button(&self, over: Option<MainMenuSelection>) -> (entry:
        MainMenuSelection)
        ensures
            entry == match over {
                Some(e) => e,
                None => self@.selected,
            },
    {
        match over {
            Some(entry) => entry,
            None => self.selected,
        }
    }

    /// Takes the confirmation, if there is one: the result is the confirmed
    /// entry, and the menu is ready for the next.
    pub fn take_selection(&mut self) -> (choice: Option<MainMenuSelection>)
        ensures
            choice == if old(self)@.done {
                Some(old(self)@.selected)
            } else {
                None::<MainMenuSelection>
            },
            final(self)@ == (MenuView { done: false, ..old(self)@ }),
    {
        if self.done {
            self.done = false;
            Some(self.selected)
        } else {
            None
        }
    }

    fn next_entry(entry: MainMenuSelection) -> (next: MainMenuSelection)
        ensures
            next == other_entry(entry),
    {
        match entry {
            MainMenuSelection::Multiplayer => MainMenuSelection::Exit,
            MainMenuSelection::Exit => MainMenuSelection::Multiplayer,
        }
    }
}

} // verus!
