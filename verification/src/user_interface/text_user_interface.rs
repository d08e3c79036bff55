//! Keyboard navigation state of the text user interface: which arrow keys
//! are held down, and where the on-screen pointer moves because of them.

use vstd::prelude::*;

verus! {

/// The arrow keys currently held down.
#[derive(Debug, Clone, Copy, PartialEq, Eq, Structural)]
pub struct KeyboardNavEvent {
    pub up: bool,
    pub right: bool,
    pub left: bool,
    pub down: bool,
}

impl Default for KeyboardNavEvent {
    fn default() -> (e: Self)
        ensures
            e == (KeyboardNavEvent { up: false, right: false, left: false, down: false }),
    {
        Self { up: false, right: false, left: false, down: false }
    }
}

/// A move of the pointer by one cell.
#[derive(Debug, Clone, Copy, PartialEq, Eq, Structural)]
pub enum NavDirection {
    Left,
    Right,
    Up,
    Down,
}

/// The held keys after a key event with scancode `scancode`: a press of an
/// arrow key sets it, its release (the scancode plus 0x80) clears it, and
/// any other scancode changes nothing.
pub open spec fn nav_after(e: KeyboardNavEvent, scancode: u8) -> KeyboardNavEvent {
    if scancode == 0x48 {
        KeyboardNavEvent { up: true, ..e }
    } else if scancode == 0x50 {
        KeyboardNavEvent { down: true, ..e }
    } else if scancode == 0x4B {
        KeyboardNavEvent { left: true, ..e }
    } else if scancode == 0x4D {
        KeyboardNavEvent { right: true, ..e }
    } else if scancode == 0xC8 {
        KeyboardNavEvent { up: false, ..e }
    } else if scancode == 0xD0 {
        KeyboardNavEvent { down: false, ..e }
    } else if scancode == 0xCB {
        KeyboardNavEvent { left: false, ..e }
    } else if scancode == 0xCD {
        KeyboardNavEvent { right: false, ..e }
    } else {
        e
    }
}

/// The move the held keys ask for: left wins over right, right over up,
/// up over down; none when no arrow key is held.
pub open spec fn nav_direction(e: KeyboardNavEvent) -> Option<NavDirection> {
    if e.left {
        Some(NavDirection::Left)
    } else if e.right {
        Some(NavDirection::Right)
    } else if e.up {
        Some(NavDirection::Up)
    } else if e.down {
        Some(NavDirection::Down)
    } else {
        None
    }
}

impl KeyboardNavEvent {
    /// Records an arrow key press or release.
    pub fn on_scancode(&mut self, scancode: u8)
        ensures
            *final(self) == nav_after(*old(self), scancode),
    {
        match scancode {
            0x48 => self.up = true,
            0x50 => self.down = true,
            0x4B => self.left = true,
            0x4D => self.right = true,
            0xC8 => self.up = false,
            0xD0 => self.down = false,
            0xCB => self.left = false,
            0xCD => self.right = false,
            _ => {},
        }
    }

    /// The pointer move the held keys ask for.
    pub fn direction(&self) -> (d: Option<NavDirection>)
        ensures
            d == nav_direction(*self),
    {
        if self.up || self.down || self.left || self.right {
            if self.left {
                Some(NavDirection::Left)
            } else if self.right {
                Some(NavDirection::Right)
            } else if self.up {
                Some(NavDirection::Up)
            } else {
                Some(NavDirection::Down)
            }
        } else {
            None
        }
    }
}

/// Releasing a key right after pressing it leaves that key released, and
/// the other keys as they were.
pub proof fn press_then_release(e: KeyboardNavEvent, press: u8)
    requires
        press == 0x48 || press == 0x50 || press == 0x4B || press == 0x4D,
    ensures
        nav_after(nav_after(e, press), (press + 0x80) as u8) == nav_after(e, (press + 0x80) as u8),
{
}

/// Each scancode touches only its own arrow key: the press of a key
/// (0x48 up, 0x50 down, 0x4B left, 0x4D right) sets that key, its release
/// (the press plus 0x80) clears it, and every other key keeps its state.
pub proof fn scancode_touches_only_its_key(e: KeyboardNavEvent, scancode: u8)
    ensures
        nav_after(e, scancode).up == (if scancode == 0x48 {
            true
        } else if scancode == 0xC8 {
            false
        } else {
            e.up
        }),
        nav_after(e, scancode).down == (if scancode == 0x50 {
            true
        } else if scancode == 0xD0 {
            false
        } else {
            e.down
        }),
        nav_after(e, scancode).left == (if scancode == 0x4B {
            true
        } else if scancode == 0xCB {
            false
        } else {
            e.left
        }),
        nav_after(e, scancode).right == (if scancode == 0x4D {
            true
        } else if scancode == 0xCD {
            false
        } else {
            e.right
        }),
{
}

/// The pointer moves exactly when an arrow key is held, and then in the
/// direction of a held key, left before right before up before down.
pub proof fn direction_follows_held_keys(e: KeyboardNavEvent)
    ensures
        nav_direction(e) is None <==> !e.up && !e.down && !e.left && !e.right,
        nav_direction(e) == Some(NavDirection::Left) <==> e.left,
        nav_direction(e) == Some(NavDirection::Right) <==> e.right && !e.left,
        nav_direction(e) == Some(NavDirection::Up) <==> e.up && !e.left && !e.right,
        nav_direction(e) == Some(NavDirection::Down) <==> e.down && !e.up && !e.left && !e.right,
{
}

} // verus!
