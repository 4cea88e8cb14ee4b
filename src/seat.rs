//! The seat: keyboard delivery and the focus policy driven by input events.
use vstd::prelude::*;

verus! {

#[derive(Clone, Copy, Debug, PartialEq, Eq, Structural)]
pub enum KeyState {
    Released,
    Pressed,
}

/// A backend input event, as far as the core tells them apart.
#[derive(Clone, Copy, Debug, PartialEq, Eq, Structural)]
pub enum InputEvent {
    Keyboard { key_code: u32, state: KeyState },
    PointerMotionAbsolute,
    Resized { width: u32, height: u32 },
    Other,
}

/// Whether a key event goes on to the focused client.
#[derive(Clone, Copy, Debug, PartialEq, Eq, Structural)]
pub enum FilterResult {
    Forward,
    Intercept,
}

/// A key event handed to the keyboard, with its serial and the focus it
/// goes to.
#[derive(Clone, Copy, Debug, PartialEq, Eq, Structural)]
pub struct KeyDelivery {
    pub key_code: u32,
    pub state: KeyState,
    pub serial: u32,
    pub focus: Option<usize>,
}

/// The serial that follows `s`, wrapping at the top of the range.
pub open spec fn next_serial(s: u32) -> u32 {
    if s == u32::MAX {
        0
    } else {
        (s + 1) as u32
    }
}

/// The compositor's key filter: no shortcut is taken, every key is forwarded.
pub fn key_filter(key_code: u32, state: KeyState) -> (r: FilterResult)
    ensures
        r == FilterResult::Forward,
{
    FilterResult::Forward
}

/// The single seat: keyboard focus and the next key serial.
pub struct Seat {
    pub focus: Option<usize>,
    pub serial: u32,
}

impl Seat {
    pub fn new() -> (s: Seat)
        ensures
            s.focus.is_none(),
            s.serial == 0,
    {
        Seat { focus: None, serial: 0 }
    }

    /// Applies one input event. A key event goes to the keyboard under a
    /// fresh serial; a pointer motion moves keyboard focus to
    /// `first_toplevel`, the first toplevel's surface, whatever the pointer
    /// position; other events change nothing.
    pub fn handle_event(&mut self, event: InputEvent, first_toplevel: Option<usize>) -> (r: Option<
        KeyDelivery,
    >)
        ensures
            match event {
                InputEvent::Keyboard { key_code, state } => {
                    &&& r == Some(
                        KeyDelivery { key_code, state, serial: old(self).serial, focus: old(self).focus },
                    )
                    &&& final(self).serial == next_serial(old(self).serial)
                    &&& final(self).focus == old(self).focus
                },
                InputEvent::PointerMotionAbsolute => {
                    &&& r.is_none()
                    &&& final(self).serial == old(self).serial
                    &&& final(self).focus == if first_toplevel.is_some() {
                        first_toplevel
                    } else {
                        old(self).focus
                    }
                },
                _ => r.is_none() && final(self).serial == old(self).serial && final(self).focus
                    == old(self).focus,
            },
    {
        match event {
            InputEvent::Keyboard { key_code, state } => {
                let serial = self.serial;
                self.serial = if serial == u32::MAX {
                    0
                } else {
                    serial + 1
                };
                match key_filter(key_code, state) {
                    FilterResult::Forward => Some(
                        KeyDelivery { key_code, state, serial, focus: self.focus },
                    ),
                    FilterResult::Intercept => None,
                }
            },
            InputEvent::PointerMotionAbsolute => {
                if first_toplevel.is_some() {
                    self.focus = first_toplevel;
                }
                None
            },
            _ => None,
        }
    }
}

} // verus!
