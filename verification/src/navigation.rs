//! Moving through the image list by keyboard.
//!
//! The viewer shows one image of a non-empty list at a time. A key that is
//! pressed asks to quit, to step to the next or the previous image, or for
//! nothing; stepping wraps around at both ends of the list. What the loop
//! around the window has to do after each key is told by [`ViewState::handle`].

use crate::config::Config;
use crate::sizing::{checked_display_size, spec_display_size};
use vstd::prelude::*;

verus! {

/// The keys that the viewer tells apart.
#[derive(Clone, Copy, Debug, PartialEq, Eq, Structural)]
pub enum Key {
    Return,
    Escape,
    F4,
    Right,
    X,
    Left,
    Z,
    /// Any key that is none of the above.
    Other,
}

/// A keyboard event: a key that went down or up, and whether Alt was held.
#[derive(Clone, Copy, Debug, PartialEq, Eq, Structural)]
pub struct KeyEvent {
    pub key: Key,
    /// `true` where the key went down, `false` where it was released.
    pub pressed: bool,
    pub alt: bool,
}

/// What a keyboard event asks of the viewer.
#[derive(Clone, Copy, Debug, PartialEq, Eq, Structural)]
pub enum Command {
    Quit,
    Next,
    Previous,
    Nothing,
}

/// What the loop around the window does after an event.
#[derive(Clone, Copy, Debug, PartialEq, Eq, Structural)]
pub enum Action {
    /// Leave the loop.
    Exit,
    /// Decode and show the image at this position of the list.
    Show { index: usize },
    /// Keep what is shown and wait for the next event.
    Wait,
}

/// What an event asks for. Only a key that goes down asks for anything:
/// Return, Escape and Alt+F4 quit, Right and X step forward, Left and Z step
/// back.
pub open spec fn spec_command(event: KeyEvent) -> Command {
    if !event.pressed {
        Command::Nothing
    } else {
        match event.key {
            Key::Return | Key::Escape => Command::Quit,
            Key::F4 => if event.alt {
                Command::Quit
            } else {
                Command::Nothing
            },
            Key::Right | Key::X => Command::Next,
            Key::Left | Key::Z => Command::Previous,
            Key::Other => Command::Nothing,
        }
    }
}

/// The position after `index` in a list of `count` images; after the last
/// comes the first.
pub open spec fn spec_next_index(index: int, count: int) -> int
    recommends
        0 <= index < count,
{
    (index + 1) % count
}

/// The position before `index` in a list of `count` images; before the first
/// comes the last.
pub open spec fn spec_previous_index(index: int, count: int) -> int
    recommends
        0 <= index < count,
{
    (index + count - 1) % count
}

/// Tells what an event asks of the viewer.
pub fn command_for(event: &KeyEvent) -> (command: Command)
    ensures
        command == spec_command(*event),
{
    if !event.pressed {
        return Command::Nothing;
    }
    match event.key {
        Key::Return | Key::Escape => Command::Quit,
        Key::F4 => if event.alt {
            Command::Quit
        } else {
            Command::Nothing
        },
        Key::Right | Key::X => Command::Next,
        Key::Left | Key::Z => Command::Previous,
        Key::Other => Command::Nothing,
    }
}

/// The position after `index` in a list of `count` images.
pub fn next_index(index: usize, count: usize) -> (next: usize)
    requires
        index < count,
    ensures
        next == spec_next_index(index as int, count as int),
        next < count,
        next == if index + 1 == count {
            0
        } else {
            index + 1
        },
{
    if index + 1 == count {
        assert((index + 1) % (count as int) == 0) by (nonlinear_arith)
            requires
                index + 1 == count,
                count > 0,
        ;
        0
    } else {
        assert((index + 1) % (count as int) == index + 1) by (nonlinear_arith)
            requires
                0 <= index + 1 < count,
        ;
        index + 1
    }
}

/// The position before `index` in a list of `count` images.
pub fn previous_index(index: usize, count: usize) -> (previous: usize)
    requires
        index < count,
    ensures
        previous == spec_previous_index(index as int, count as int),
        previous < count,
        previous == if index == 0 {
            count - 1
        } else {
            index - 1
        },
{
    if index == 0 {
        assert((0 + count - 1) % (count as int) == count - 1) by (nonlinear_arith)
            requires
                count > 0,
        ;
        count - 1
    } else {
        assert((index + count - 1) % (count as int) == index - 1) by (nonlinear_arith)
            requires
                0 < index < count,
        ;
        index - 1
    }
}

/// Stepping forward and then back, or back and then forward, returns to the
/// image one started from.
pub proof fn lemma_steps_cancel(index: int, count: int)
    requires
        0 <= index < count,
    ensures
        spec_previous_index(spec_next_index(index, count), count) == index,
        spec_next_index(spec_previous_index(index, count), count) == index,
        0 <= spec_next_index(index, count) < count,
        0 <= spec_previous_index(index, count) < count,
{
    lemma_step_values(index, count);
    lemma_step_values(spec_next_index(index, count), count);
    lemma_step_values(spec_previous_index(index, count), count);
}

/// Stepping without the remainder: one up or down, and around at the ends.
pub proof fn lemma_step_values(index: int, count: int)
    requires
        0 <= index < count,
    ensures
        spec_next_index(index, count) == if index + 1 == count {
            0
        } else {
            index + 1
        },
        spec_previous_index(index, count) == if index == 0 {
            count - 1
        } else {
            index - 1
        },
{
    assert((index + 1) % count == if index + 1 == count {
        0
    } else {
        index + 1
    }) by (nonlinear_arith)
        requires
            0 <= index < count,
    ;
    assert((index + count - 1) % count == if index == 0 {
        count - 1
    } else {
        index - 1
    }) by (nonlinear_arith)
        requires
            0 <= index < count,
    ;
}

/// The state of the viewer as the contracts speak of it.
pub struct ViewStateView {
    /// How many images the list holds.
    pub count: nat,
    /// The position of the image that is shown.
    pub index: nat,
    /// The size at which an image was last displayed; `None` before the
    /// first image is.
    pub display_size: Option<(u32, u32)>,
    /// Whether the viewer was asked to quit.
    pub exiting: bool,
}

impl ViewStateView {
    /// The list is not empty and the position is one of the list.
    pub open spec fn wf(self) -> bool {
        self.index < self.count
    }

    /// The state after `event`, and what the loop does then. Once the viewer
    /// was asked to quit, nothing changes any more.
    pub open spec fn step(self, event: KeyEvent) -> (ViewStateView, Action) {
        if self.exiting {
            (self, Action::Exit)
        } else {
            match spec_command(event) {
                Command::Quit => (ViewStateView { exiting: true, ..self }, Action::Exit),
                Command::Next => {
                    let index = spec_next_index(self.index as int, self.count as int) as nat;
                    (ViewStateView { index, ..self }, Action::Show { index: index as usize })
                },
                Command::Previous => {
                    let index = spec_previous_index(self.index as int, self.count as int) as nat;
                    (ViewStateView { index, ..self }, Action::Show { index: index as usize })
                },
                Command::Nothing => (self, Action::Wait),
            }
        }
    }
}

/// The state of the viewer: which image of the list is shown, at what size
/// the last one was displayed, and whether the viewer is still running.
#[derive(Debug)]
pub struct ViewState {
    count: usize,
    index: usize,
    display_size: Option<(u32, u32)>,
    exiting: bool,
}

impl View for ViewState {
    type V = ViewStateView;

    closed spec fn view(&self) -> ViewStateView {
        ViewStateView {
            count: self.count as nat,
            index: self.index as nat,
            display_size: self.display_size,
            exiting: self.exiting,
        }
    }
}

impl ViewState {
    #[verifier::type_invariant]
    spec fn in_range(self) -> bool {
        self.index < self.count
    }

    /// Starts the viewer on a list of `count` images, at the image at
    /// `start`. There is no viewer on an empty list, and none that starts
    /// outside its list.
    pub fn new(count: usize, start: usize) -> (state: Option<ViewState>)
        ensures
            state is Some <==> start < count,
            state matches Some(s) ==> s@ == (ViewStateView {
                count: count as nat,
                index: start as nat,
                display_size: None,
                exiting: false,
            }) && s@.wf(),
    {
        if start < count {
            Some(ViewState { count, index: start, display_size: None, exiting: false })
        } else {
            None
        }
    }

    /// The position of the image that is shown.
    pub fn index(&self) -> (index: usize)
        ensures
            index == self@.index,
            index < self@.count,
    {
        proof {
            use_type_invariant(self);
        }
        self.index
    }

    /// How many images the list holds.
    pub fn count(&self) -> (count: usize)
        ensures
            count == self@.count,
            count > 0,
    {
        proof {
            use_type_invariant(self);
        }
        self.count
    }

    /// The size at which an image was last displayed.
    pub fn display_size(&self) -> (size: Option<(u32, u32)>)
        ensures
            size == self@.display_size,
    {
        self.display_size
    }

    /// Whether the viewer was asked to quit.
    pub fn is_exiting(&self) -> (exiting: bool)
        ensures
            exiting == self@.exiting,
    {
        self.exiting
    }

    /// Takes in that the image to show was decoded, `image_width` by
    /// `image_height` pixels, and tells the size at which it is displayed on
    /// a screen of `screen_width` by `screen_height`. The state keeps that
    /// size. An image without pixels is not displayed and changes nothing.
    pub fn image_decoded(
        &mut self,
        image_width: u32,
        image_height: u32,
        screen_width: u32,
        screen_height: u32,
        config: &Config,
    ) -> (size: Option<(u32, u32)>)
        ensures
            size is Some <==> image_width > 0 && image_height > 0,
            size matches Some(s) ==> (s.0 as int, s.1 as int) == spec_display_size(
                image_width as int,
                image_height as int,
                screen_width as int,
                screen_height as int,
                config.min_window_width as int,
                config.min_window_height as int,
            ),
            final(self)@ == if size is Some {
                ViewStateView { display_size: size, ..old(self)@ }
            } else {
                old(self)@
            },
            final(self)@.wf(),
    {
        proof {
            use_type_invariant(&*self);
        }
        let size = checked_display_size(
            image_width,
            image_height,
            screen_width,
            screen_height,
            config,
        );
        if size.is_some() {
            self.display_size = size;
        }
        size
    }

    /// Takes in one keyboard event and tells what the loop does next.
    pub fn handle(&mut self, event: &KeyEvent) -> (action: Action)
        ensures
            old(self)@.wf(),
            final(self)@ == old(self)@.step(*event).0,
            action == old(self)@.step(*event).1,
            final(self)@.wf(),
            final(self)@.count == old(self)@.count,
    {
        proof {
            use_type_invariant(&*self);
            lemma_step_values(self.index as int, self.count as int);
        }
        if self.exiting {
            return Action::Exit;
        }
        match command_for(event) {
            Command::Quit => {
                self.exiting = true;
                Action::Exit
            },
            Command::Next => {
                let index = next_index(self.index, self.count);
                self.index = index;
                Action::Show { index }
            },
            Command::Previous => {
                let index = previous_index(self.index, self.count);
                self.index = index;
                Action::Show { index }
            },
            Command::Nothing => Action::Wait,
        }
    }
}

} // verus!
