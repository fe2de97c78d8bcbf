//! The controller: one state machine that owns the store and the
//! input line, takes one key at a time, and decides every transition
//! the interactive loop can make. The loop around it only receives
//! events, draws, and performs the quit it is told about.

use vstd::prelude::*;

use crate::editor::{
    transpose_chars_model, transpose_words_model, next_word_stop, prev_word_start, Editor,
};
use crate::events::Key;
use crate::storage::{has_key, upsert_model, Storage};
use crate::timezones::{parse_user_timezone, parsed_name, parsed_offset, valid_line};

verus! {

/// Which mode the controller is in.
#[derive(Clone, Copy, PartialEq, Eq, Structural, Debug)]
pub enum State {
    Normal,
    Input,
}

/// What the input line currently holds, as the render boundary
/// colours it.
#[derive(Clone, Copy, PartialEq, Eq, Structural, Debug)]
pub enum Validity {
    /// Nothing judged yet.
    Neutral,
    /// A well-formed line naming a new entry.
    Valid,
    /// A well-formed line naming an entry that already exists.
    Exists,
    /// A line the grammar rejects.
    Invalid,
}

/// What a movement or editing key does to the input line's clusters
/// and cursor while in input mode; keys with no editing meaning
/// leave both alone.
pub open spec fn edit_effect(cs: Seq<Seq<char>>, cur: int, key: Key) -> (Seq<Seq<char>>, int) {
    match key {
        Key::Ctrl(c) => if c == 'f' {
            (cs, if cur + 1 <= cs.len() {
                cur + 1
            } else {
                cs.len() as int
            })
        } else if c == 'b' {
            (cs, if 1 <= cur {
                cur - 1
            } else {
                0
            })
        } else if c == 'a' {
            (cs, 0)
        } else if c == 'e' {
            (cs, cs.len() as int)
        } else if c == 't' {
            transpose_chars_model(cs, cur)
        } else if c == 'u' {
            (cs.skip(cur), 0)
        } else if c == 'k' {
            (cs.take(cur), cur)
        } else if c == 'w' {
            (cs.take(prev_word_start(cs, cur)) + cs.skip(cur), prev_word_start(cs, cur))
        } else if c == 'd' {
            (
                cs.take(cur) + cs.skip(
                    if cur + 1 <= cs.len() {
                        cur + 1
                    } else {
                        cs.len() as int
                    },
                ),
                cur,
            )
        } else {
            (cs, cur)
        },
        Key::Right => (cs, if cur + 1 <= cs.len() {
            cur + 1
        } else {
            cs.len() as int
        }),
        Key::Left => (cs, if 1 <= cur {
            cur - 1
        } else {
            0
        }),
        Key::Home => (cs, 0),
        Key::End => (cs, cs.len() as int),
        Key::Alt(c) => if c == 'f' {
            (cs, next_word_stop(cs, cur))
        } else if c == 'b' {
            (cs, prev_word_start(cs, cur))
        } else if c == 't' {
            transpose_words_model(cs, cur)
        } else {
            (cs, cur)
        },
        Key::Backspace => (
            cs.take(
                if 1 <= cur {
                    cur - 1
                } else {
                    0
                },
            ) + cs.skip(cur),
            if 1 <= cur {
                cur - 1
            } else {
                0
            },
        ),
        Key::Delete => (
            cs.take(
                if 1 <= cur {
                    cur - 1
                } else {
                    0
                },
            ) + cs.skip(cur),
            if 1 <= cur {
                cur - 1
            } else {
                0
            },
        ),
        Key::Char(c) => (cs.insert(cur, seq![c]), cur + 1),
        _ => (cs, cur),
    }
}

/// The application: mode, store, input line, and the line's current
/// validity colouring.
pub struct App {
    /// State of the application.
    pub state: State,
    /// Storing information of timezones.
    pub storage: Storage,
    /// The single box for inserting information into.
    pub input_buffer: Editor,
    /// The different validity states that the input buffer contains.
    pub buffer_validity: Validity,
}

impl App {
    /// The store's names are unique and the input line is sound.
    pub open spec fn wf(&self) -> bool {
        &&& self.storage.wf()
        &&& self.input_buffer.wf()
    }

    /// A fresh controller over a loaded store: normal mode, an empty
    /// input line, nothing judged yet.
    pub fn new(storage: Storage) -> (r: App)
        requires
            storage.wf(),
        ensures
            r.state == State::Normal,
            r.storage == storage,
            r.input_buffer.cells().len() == 0,
            r.input_buffer.cursor_at() == 0,
            r.buffer_validity == Validity::Neutral,
            r.wf(),
    {
        App {
            state: State::Normal,
            storage,
            input_buffer: Editor::new(),
            buffer_validity: Validity::Neutral,
        }
    }

    /// The store's text, for the caller to write out at shutdown.
    pub fn cleanup(&self) -> (r: String)
        ensures
            r@ == crate::codec::map_text(self.storage@),
    {
        self.storage.dump_data()
    }

    /// Dispatches one key. In normal mode, the quit key asks the
    /// caller to stop and the edit key enters input mode. In input
    /// mode, movement and editing keys drive the input line; a commit
    /// parses the line and, only when the grammar accepts it, upserts
    /// the entry and clears the line; a cancel clears the line and
    /// returns to normal mode; nothing else changes the store.
    pub fn handle_key(&mut self, key: Key) -> (quit: bool)
        requires
            old(self).wf(),
        ensures
            final(self).wf(),
            quit == (old(self).state == State::Normal && key == Key::Char('q')),
            final(self).buffer_validity == old(self).buffer_validity,
            old(self).state == State::Normal ==> final(self).storage == old(self).storage
                && final(self).input_buffer == old(self).input_buffer && final(self).state == (
            if key == Key::Char('i') {
                State::Input
            } else {
                State::Normal
            }),
            old(self).state == State::Input ==> ({
                let cs = old(self).input_buffer.cells();
                let cur = old(self).input_buffer.cursor_at();
                let tv = old(self).input_buffer.text_view();
                if key == Key::Enter {
                    &&& final(self).state == State::Input
                    &&& if tv.len() > 0 && valid_line(tv) {
                        &&& final(self).storage@ == upsert_model(
                            old(self).storage@,
                            parsed_name(tv),
                            parsed_offset(tv),
                        )
                        &&& final(self).input_buffer.cells().len() == 0
                        &&& final(self).input_buffer.cursor_at() == 0
                    } else {
                        &&& final(self).storage == old(self).storage
                        &&& final(self).input_buffer == old(self).input_buffer
                    }
                } else if key == Key::Esc {
                    &&& final(self).state == State::Normal
                    &&& final(self).storage == old(self).storage
                    &&& final(self).input_buffer.cells().len() == 0
                    &&& final(self).input_buffer.cursor_at() == 0
                } else {
                    &&& final(self).state == State::Input
                    &&& final(self).storage == old(self).storage
                    &&& final(self).input_buffer.cells() == edit_effect(cs, cur, key).0
                    &&& final(self).input_buffer.cursor_at() == edit_effect(cs, cur, key).1
                }
            }),
    {
        match self.state {
            State::Normal => {
                match key {
                    Key::Char(c) => {
                        if c == 'q' {
                            return true;
                        }
                        if c == 'i' {
                            self.state = State::Input;
                        }
                    },
                    _ => {},
                }
                false
            },
            State::Input => {
                match key {
                    Key::Ctrl(c) => {
                        if c == 'f' {
                            self.input_buffer.move_forward(1);
                        } else if c == 'b' {
                            self.input_buffer.move_backward(1);
                        } else if c == 'a' {
                            self.input_buffer.move_home();
                        } else if c == 'e' {
                            self.input_buffer.move_end();
                        } else if c == 't' {
                            self.input_buffer.transpose_chars();
                        } else if c == 'u' {
                            self.input_buffer.discard_line();
                        } else if c == 'k' {
                            self.input_buffer.kill_line();
                        } else if c == 'w' {
                            self.input_buffer.delete_prev_word();
                        } else if c == 'd' {
                            self.input_buffer.delete(1);
                        }
                    },
                    Key::Right => {
                        self.input_buffer.move_forward(1);
                    },
                    Key::Left => {
                        self.input_buffer.move_backward(1);
                    },
                    Key::Home => {
                        self.input_buffer.move_home();
                    },
                    Key::End => {
                        self.input_buffer.move_end();
                    },
                    Key::Alt(c) => {
                        if c == 'f' {
                            self.input_buffer.move_to_next_word();
                        } else if c == 'b' {
                            self.input_buffer.move_to_prev_word();
                        } else if c == 't' {
                            self.input_buffer.transpose_words();
                        }
                    },
                    Key::Backspace => {
                        self.input_buffer.backspace(1);
                    },
                    Key::Delete => {
                        self.input_buffer.backspace(1);
                    },
                    Key::Enter => {
                        if !self.input_buffer.is_empty() {
                            let input_message = self.input_buffer.as_string();
                            match parse_user_timezone(input_message.as_str()) {
                                Ok((user, offset)) => {
                                    self.storage.add(user.as_str(), offset);
                                    self.input_buffer.update("", 0);
                                    proof {
                                        reveal_strlit("");
                                        self.input_buffer.lemma_empty_text_no_cells();
                                    }
                                },
                                Err(_) => {},
                            }
                        }
                    },
                    Key::Char(c) => {
                        self.input_buffer.insert(c);
                    },
                    Key::Esc => {
                        self.input_buffer.update("", 0);
                        proof {
                            reveal_strlit("");
                            self.input_buffer.lemma_empty_text_no_cells();
                        }
                        self.state = State::Normal;
                    },
                    Key::Null => {},
                }
                false
            },
        }
    }

    /// Re-judges the input line for the render boundary: in input
    /// mode with a non-empty line, the line is valid, valid but
    /// naming an existing entry, or invalid; otherwise the judgement
    /// keeps its previous value.
    pub fn update_validity(&mut self)
        requires
            old(self).wf(),
        ensures
            final(self).wf(),
            final(self).state == old(self).state,
            final(self).storage == old(self).storage,
            final(self).input_buffer == old(self).input_buffer,
            ({
                let tv = old(self).input_buffer.text_view();
                if old(self).state == State::Input && tv.len() > 0 {
                    final(self).buffer_validity == if valid_line(tv) {
                        if has_key(old(self).storage@, parsed_name(tv)) {
                            Validity::Exists
                        } else {
                            Validity::Valid
                        }
                    } else {
                        Validity::Invalid
                    }
                } else {
                    final(self).buffer_validity == old(self).buffer_validity
                }
            }),
    {
        match self.state {
            State::Input => {
                if !self.input_buffer.is_empty() {
                    let text = self.input_buffer.as_string();
                    match parse_user_timezone(text.as_str()) {
                        Ok((user, _offset)) => {
                            if self.storage.contains(user.as_str()) {
                                self.buffer_validity = Validity::Exists;
                            } else {
                                self.buffer_validity = Validity::Valid;
                            }
                        },
                        Err(_) => {
                            self.buffer_validity = Validity::Invalid;
                        },
                    }
                }
            },
            State::Normal => {},
        }
    }
}

} // verus!
