//! What the picker does on each key and before each frame.
//!
//! The program around the library reads the keys, draws the frames, runs the
//! searches and owns the clipboard. Between those it asks here: what a key
//! does to the query and to the selection, and what a frame is to show.

use vstd::prelude::*;
use vstd::string::*;
use crate::text::{drop_last_char, push_char, same_text};

verus! {

/// The number of frames for which the notice is shown at the start.
pub const SPLASH_TICKS: u16 = 12;

/// A key, as far as the picker tells keys apart.
#[derive(Clone, Copy, Debug, PartialEq, Eq, Structural)]
pub enum Key {
    Down,
    Up,
    Esc,
    Backspace,
    Char(char),
    Other,
}

/// What the event loop hands over: an input, or the tick of its clock.
#[derive(Clone, Copy, Debug, PartialEq, Eq)]
pub enum Event<I> {
    Input(I),
    Tick,
}

/// What the program is to do after an event.
#[derive(Clone, Copy, Debug, PartialEq, Eq, Structural)]
pub enum Action {
    /// Draw the next frame and wait for the next event.
    Continue,
    /// Leave.
    Quit,
    /// Copy the character of the record in this place to the clipboard.
    Copy(usize),
}

/// The state of the picker between two events.
#[derive(Debug)]
pub struct Session {
    /// What the user has typed.
    pub query: String,
    /// The query of the last search.
    pub last_query: String,
    /// The place of the selected record.
    pub selected: usize,
    /// Whether the next frame is drawn inverted, to confirm a copy.
    pub flash: bool,
    /// The number of frames for which the notice is still shown.
    pub splash: u16,
}

/// What a [`Session`] holds, as plain texts and numbers.
pub struct SessionView {
    pub query: Seq<char>,
    pub last_query: Seq<char>,
    pub selected: usize,
    pub flash: bool,
    pub splash: u16,
}

impl View for Session {
    type V = SessionView;

    open spec fn view(&self) -> SessionView {
        SessionView {
            query: self.query@,
            last_query: self.last_query@,
            selected: self.selected,
            flash: self.flash,
            splash: self.splash,
        }
    }
}

/// What one frame is to show.
#[derive(Debug)]
pub struct Frame {
    /// The line above the list.
    pub prompt: String,
    /// Whether the notice is shown in place of the picture.
    pub show_splash: bool,
    /// Whether the frame is drawn inverted.
    pub inverted: bool,
    /// Whether the index is to be searched for the query before the frame is
    /// drawn.
    pub search: bool,
}

impl SessionView {
    /// The state after a key, with `count` records in the list.
    pub open spec fn after_key(self, key: Key, count: usize) -> SessionView {
        match key {
            Key::Down => SessionView {
                selected: if self.selected + 1 < count {
                    (self.selected + 1) as usize
                } else {
                    self.selected
                },
                splash: 0,
                ..self
            },
            Key::Up => SessionView {
                selected: if self.selected > 0 {
                    (self.selected - 1) as usize
                } else {
                    0
                },
                splash: 0,
                ..self
            },
            Key::Esc => self,
            Key::Backspace => SessionView {
                query: if self.query.len() > 0 {
                    self.query.drop_last()
                } else {
                    self.query
                },
                selected: 0,
                splash: 0,
                ..self
            },
            Key::Char(c) => if c == '\n' {
                SessionView { flash: self.flash || self.selected < count, splash: 0, ..self }
            } else {
                SessionView { query: self.query.push(c), selected: 0, splash: 0, ..self }
            },
            Key::Other => SessionView { splash: 0, ..self },
        }
    }

    /// What the program is to do after a key.
    pub open spec fn action_of(self, key: Key, count: usize) -> Action {
        match key {
            Key::Esc => Action::Quit,
            Key::Char(c) => if c == '\n' && self.selected < count {
                Action::Copy(self.selected)
            } else {
                Action::Continue
            },
            _ => Action::Continue,
        }
    }

    /// Whether the next frame needs a search first: the query holds
    /// something, and it is not the query of the last search. An emptied
    /// query asks for no search: the list stays in the order of the last.
    pub open spec fn is_stale(self) -> bool {
        self.query.len() > 0 && self.query != self.last_query
    }

    /// The line above the list.
    pub open spec fn prompt(self) -> Seq<char> {
        "Search: "@ + if self.query.len() == 0 {
            "[Start typing to find an Emoji]"@
        } else {
            self.query
        }
    }

    /// The state after a frame.
    pub open spec fn after_frame(self) -> SessionView {
        SessionView {
            last_query: if self.is_stale() {
                self.query
            } else {
                self.last_query
            },
            flash: false,
            splash: if self.splash > 0 {
                (self.splash - 1) as u16
            } else {
                0
            },
            ..self
        }
    }
}

impl Session {
    /// The state at the start: nothing typed, the first record selected, the
    /// notice shown.
    pub fn new() -> (session: Session)
        ensures
            session@ == (SessionView {
                query: Seq::empty(),
                last_query: Seq::empty(),
                selected: 0,
                flash: false,
                splash: SPLASH_TICKS,
            }),
    {
        Session {
            query: String::new(),
            last_query: String::new(),
            selected: 0,
            flash: false,
            splash: SPLASH_TICKS,
        }
    }

    /// Takes one event in, with `count` records in the list. A tick changes
    /// nothing. The arrows move the selection within the list. A character
    /// goes to the end of the query and backspace takes the last one off;
    /// both put the selection back to the first record. A line feed asks for
    /// a copy of the selected record, if there is one, and has the next
    /// frame drawn inverted. Escape asks to leave.
    pub fn handle(&mut self, event: Event<Key>, count: usize) -> (action: Action)
        ensures
            match event {
                Event::Input(key) => final(self)@ == old(self)@.after_key(key, count) && action
                    == old(self)@.action_of(key, count),
                Event::Tick => final(self)@ == old(self)@ && action == Action::Continue,
            },
            old(self).selected < count ==> final(self).selected < count,
    {
        let key = match event {
            Event::Input(key) => key,
            Event::Tick => { return Action::Continue; },
        };
        match key {
            Key::Down => {
                if self.selected < usize::MAX && self.selected + 1 < count {
                    self.selected = self.selected + 1;
                }
            },
            Key::Up => {
                if self.selected > 0 {
                    self.selected = self.selected - 1;
                }
            },
            Key::Esc => { return Action::Quit; },
            Key::Backspace => {
                drop_last_char(&mut self.query);
                self.selected = 0;
            },
            Key::Char(c) => {
                if c == '\n' {
                    self.splash = 0;
                    if self.selected < count {
                        self.flash = true;
                        return Action::Copy(self.selected);
                    }
                    return Action::Continue;
                }
                push_char(&mut self.query, c);
                self.selected = 0;
            },
            Key::Other => {},
        }
        self.splash = 0;
        Action::Continue
    }

    /// Prepares one frame: says what it is to show, and whether the index is
    /// to be searched for the query first, which is so if the query has
    /// changed since the last search. The search is then taken as made.
    pub fn frame(&mut self) -> (frame: Frame)
        ensures
            final(self)@ == old(self)@.after_frame(),
            frame.prompt@ == old(self)@.prompt(),
            frame.show_splash == (old(self).splash > 0),
            frame.inverted == old(self).flash,
            frame.search == old(self)@.is_stale(),
    {
        let mut prompt = String::from_str("Search: ");
        let mut search = false;
        if self.query.as_str().is_empty() {
            prompt.append("[Start typing to find an Emoji]");
        } else {
            prompt.append(self.query.as_str());
            if !same_text(self.query.as_str(), self.last_query.as_str()) {
                search = true;
                self.last_query = self.query.clone();
            }
        }
        let show_splash = self.splash > 0;
        if show_splash {
            self.splash = self.splash - 1;
        }
        let inverted = self.flash;
        self.flash = false;
        Frame { prompt, show_splash, inverted, search }
    }
}

} // verus!
