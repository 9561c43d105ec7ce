//! The dashboard's state machine: the current session list, the selection
//! cursor with cyclic movement, and selection-preserving replacement of the
//! list on refresh.

use vstd::prelude::*;

use crate::session::{Session, SessionModel};

verus! {

/// A key press, in the terms the state machine cares about.
pub enum InputEvent {
    Quit,
    MoveNext,
    MovePrevious,
    Confirm,
    Other,
}

/// What the render/input loop does after one event: keep looping, stop with
/// no selection, or stop and activate the session with the carried id.
pub enum LoopDecision {
    Continue,
    ExitWithout,
    ExitWith(String),
}

/// The selection after the list is replaced by one of length `new_len`: a
/// still-in-bounds index is kept, a too-large one is clamped to the new last
/// index, an empty list clears the selection, and a non-empty list with no
/// prior selection selects the first row.
pub open spec fn spec_replace_selection(sel: Option<usize>, new_len: int) -> Option<usize> {
    if new_len == 0 {
        None
    } else {
        match sel {
            None => Some(0usize),
            Some(i) => if i < new_len {
                Some(i)
            } else {
                Some((new_len - 1) as usize)
            },
        }
    }
}

/// The selection after moving one row down, wrapping from the last row to
/// the first; an empty list leaves the selection alone.
pub open spec fn spec_move_next(sel: Option<usize>, len: int) -> Option<usize> {
    if len == 0 {
        sel
    } else {
        match sel {
            None => Some(0usize),
            Some(i) => if i as int >= len - 1 {
                Some(0usize)
            } else {
                Some((i + 1) as usize)
            },
        }
    }
}

/// The selection after moving one row up, wrapping from the first row to the
/// last; an empty list leaves the selection alone.
pub open spec fn spec_move_previous(sel: Option<usize>, len: int) -> Option<usize> {
    if len == 0 {
        sel
    } else {
        match sel {
            None => Some(0usize),
            Some(i) => if i == 0 {
                Some((len - 1) as usize)
            } else {
                Some((i - 1) as usize)
            },
        }
    }
}

/// Selection preservation: a selected row index `i` survives replacement by
/// a list long enough to keep it in bounds, is clamped to the new last row
/// by a shorter non-empty list, and is cleared by an empty list.
pub proof fn lemma_selection_preservation(i: usize, m: int)
    ensures
        m >= i + 1 ==> spec_replace_selection(Some(i), m) == Some(i),
        0 < m <= i ==> spec_replace_selection(Some(i), m) == Some((m - 1) as usize),
        spec_replace_selection(Some(i), 0) == None::<usize>,
{
}

/// Cyclic movement: moving next on the last row selects the first row, and
/// moving previous on the first row selects the last.
pub proof fn lemma_cyclic_movement(len: int)
    requires
        1 <= len <= usize::MAX,
    ensures
        spec_move_next(Some((len - 1) as usize), len) == Some(0usize),
        spec_move_previous(Some(0usize), len) == Some((len - 1) as usize),
{
}

/// The dashboard state: the sessions shown, the selection cursor and the
/// quit flag.
pub struct App {
    sessions: Vec<Session>,
    selected: Option<usize>,
    should_quit: bool,
}

impl App {
    /// The sessions currently shown.
    pub closed spec fn spec_sessions(&self) -> Seq<SessionModel> {
        self.sessions.deep_view()
    }

    /// The selection cursor.
    pub closed spec fn spec_selected(&self) -> Option<usize> {
        self.selected
    }

    /// The quit flag.
    pub closed spec fn spec_should_quit(&self) -> bool {
        self.should_quit
    }

    /// The selection cursor is in bounds, and is set exactly when the list
    /// is non-empty.
    pub open spec fn wf(&self) -> bool {
        match self.spec_selected() {
            Some(i) => (i as int) < self.spec_sessions().len(),
            None => self.spec_sessions().len() == 0,
        }
    }

    /// A dashboard showing `sessions`, with the first row selected when
    /// there is one, not yet asked to quit.
    pub fn new(sessions: Vec<Session>) -> (r: App)
        ensures
            r.wf(),
            r.spec_sessions() == sessions.deep_view(),
            r.spec_selected() == spec_replace_selection(None, sessions.deep_view().len() as int),
            !r.spec_should_quit(),
    {
        let selected: Option<usize> = if sessions.len() > 0 {
            Some(0)
        } else {
            None
        };
        App { sessions, selected, should_quit: false }
    }

    /// Replace the shown sessions with a fresh aggregation result, keeping
    /// the positional selection when possible: an in-bounds index stays, a
    /// too-large one clamps to the new last row, an empty list clears the
    /// selection, and a non-empty list is never left without one.
    pub fn update_sessions(&mut self, sessions: Vec<Session>)
        ensures
            final(self).wf(),
            final(self).spec_sessions() == sessions.deep_view(),
            final(self).spec_selected() == spec_replace_selection(
                old(self).spec_selected(),
                sessions.deep_view().len() as int,
            ),
            final(self).spec_should_quit() == old(self).spec_should_quit(),
    {
        let selected = self.selected;
        self.sessions = sessions;
        if self.sessions.len() > 0 {
            match selected {
                Some(idx) => {
                    if idx >= self.sessions.len() {
                        self.selected = Some(self.sessions.len() - 1);
                    } else {
                        self.selected = Some(idx);
                    }
                },
                None => {
                    self.selected = Some(0);
                },
            }
        } else {
            self.selected = None;
        }
    }

    /// Move the selection one row down, cyclically.
    pub fn next(&mut self)
        requires
            old(self).wf(),
        ensures
            final(self).wf(),
            final(self).spec_sessions() == old(self).spec_sessions(),
            final(self).spec_should_quit() == old(self).spec_should_quit(),
            final(self).spec_selected() == spec_move_next(
                old(self).spec_selected(),
                old(self).spec_sessions().len() as int,
            ),
    {
        if self.sessions.len() == 0 {
            return ;
        }
        let i: usize = match self.selected {
            Some(i) => {
                if i >= self.sessions.len() - 1 {
                    0
                } else {
                    i + 1
                }
            },
            None => 0,
        };
        self.selected = Some(i);
    }

    /// Move the selection one row up, cyclically.
    pub fn previous(&mut self)
        requires
            old(self).wf(),
        ensures
            final(self).wf(),
            final(self).spec_sessions() == old(self).spec_sessions(),
            final(self).spec_should_quit() == old(self).spec_should_quit(),
            final(self).spec_selected() == spec_move_previous(
                old(self).spec_selected(),
                old(self).spec_sessions().len() as int,
            ),
    {
        if self.sessions.len() == 0 {
            return ;
        }
        let i: usize = match self.selected {
            Some(i) => {
                if i == 0 {
                    self.sessions.len() - 1
                } else {
                    i - 1
                }
            },
            None => 0,
        };
        self.selected = Some(i);
    }

    /// The selection cursor, for rendering the highlighted row.
    pub fn selected_index(&self) -> (r: Option<usize>)
        ensures
            r == self.spec_selected(),
    {
        self.selected
    }

    /// The sessions currently shown, for rendering.
    pub fn sessions(&self) -> (r: &Vec<Session>)
        ensures
            r.deep_view() == self.spec_sessions(),
    {
        &self.sessions
    }

    /// The session under the cursor: none exactly when the list is empty.
    pub fn selected_session(&self) -> (r: Option<&Session>)
        requires
            self.wf(),
        ensures
            match r {
                Some(s) => {
                    &&& self.spec_selected() is Some
                    &&& s.deep_view() == self.spec_sessions()[self.spec_selected()->0 as int]
                },
                None => self.spec_sessions().len() == 0,
            },
    {
        match self.selected {
            Some(i) => Some(&self.sessions[i]),
            None => None,
        }
    }

    /// Ask the enclosing loop to stop.
    pub fn quit(&mut self)
        ensures
            final(self).spec_should_quit(),
            final(self).spec_sessions() == old(self).spec_sessions(),
            final(self).spec_selected() == old(self).spec_selected(),
    {
        self.should_quit = true;
    }

    /// Whether the enclosing loop was asked to stop.
    pub fn should_quit(&self) -> (r: bool)
        ensures
            r == self.spec_should_quit(),
    {
        self.should_quit
    }

    /// Apply one key press: quit stops the loop with no selection, confirm
    /// stops it with the selected session's id (and keeps looping when
    /// nothing is selected), the movement keys move the cursor, and any
    /// other key does nothing.
    pub fn handle_input(&mut self, ev: InputEvent) -> (d: LoopDecision)
        requires
            old(self).wf(),
        ensures
            final(self).wf(),
            match ev {
                InputEvent::Quit => {
                    &&& d is ExitWithout
                    &&& final(self).spec_should_quit()
                    &&& final(self).spec_sessions() == old(self).spec_sessions()
                    &&& final(self).spec_selected() == old(self).spec_selected()
                },
                InputEvent::MoveNext => {
                    &&& d is Continue
                    &&& final(self).spec_sessions() == old(self).spec_sessions()
                    &&& final(self).spec_should_quit() == old(self).spec_should_quit()
                    &&& final(self).spec_selected() == spec_move_next(
                        old(self).spec_selected(),
                        old(self).spec_sessions().len() as int,
                    )
                },
                InputEvent::MovePrevious => {
                    &&& d is Continue
                    &&& final(self).spec_sessions() == old(self).spec_sessions()
                    &&& final(self).spec_should_quit() == old(self).spec_should_quit()
                    &&& final(self).spec_selected() == spec_move_previous(
                        old(self).spec_selected(),
                        old(self).spec_sessions().len() as int,
                    )
                },
                InputEvent::Confirm => {
                    &&& *final(self) == *old(self)
                    &&& if old(self).spec_sessions().len() == 0 {
                        d is Continue
                    } else {
                        &&& old(self).spec_selected() is Some
                        &&& (d matches LoopDecision::ExitWith(id) && id@ == old(
                            self,
                        ).spec_sessions()[old(self).spec_selected()->0 as int].session_id)
                    }
                },
                InputEvent::Other => {
                    &&& d is Continue
                    &&& *final(self) == *old(self)
                },
            },
    {
        match ev {
            InputEvent::Quit => {
                self.quit();
                LoopDecision::ExitWithout
            },
            InputEvent::MoveNext => {
                self.next();
                LoopDecision::Continue
            },
            InputEvent::MovePrevious => {
                self.previous();
                LoopDecision::Continue
            },
            InputEvent::Confirm => {
                match self.selected_session() {
                    Some(s) => {
                        let id = s.session_id.clone();
                        LoopDecision::ExitWith(id)
                    },
                    None => LoopDecision::Continue,
                }
            },
            InputEvent::Other => LoopDecision::Continue,
        }
    }
}

} // verus!
