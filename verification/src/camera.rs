use vstd::prelude::*;

verus! {

/// The keys the application reacts to; every other key is `Other`.
#[derive(Clone, Copy, Debug, PartialEq, Eq, Structural)]
pub enum KeyCode {
    KeyW,
    KeyA,
    KeyS,
    KeyD,
    ArrowUp,
    ArrowDown,
    ArrowLeft,
    ArrowRight,
    Space,
    ShiftLeft,
    F11,
    Escape,
    Other,
}

/// Which movement keys of the camera are held down.
#[derive(Clone, Copy, Debug, PartialEq, Eq, Structural)]
pub struct MovementKeys {
    pub move_forward: bool,
    pub move_back: bool,
    pub move_left: bool,
    pub move_right: bool,
    pub move_up: bool,
    pub move_down: bool,
}

/// A held key counts as 1 and a released one as 0.
pub open spec fn key_value(pressed: bool) -> int {
    if pressed {
        1
    } else {
        0
    }
}

impl MovementKeys {
    /// No key held.
    pub fn new() -> (r: Self)
        ensures
            !r.move_forward && !r.move_back && !r.move_left && !r.move_right && !r.move_up
                && !r.move_down,
    {
        MovementKeys {
            move_forward: false,
            move_back: false,
            move_left: false,
            move_right: false,
            move_up: false,
            move_down: false,
        }
    }

    /// Records a key press or release: W or Up moves forward, S or Down back,
    /// D or Right right, A or Left left, Space up and left Shift down. Other
    /// keys change nothing.
    pub fn process_key_event(&mut self, key_code: KeyCode, is_pressed: bool)
        ensures
            *final(self) == match key_code {
                KeyCode::KeyW | KeyCode::ArrowUp => MovementKeys {
                    move_forward: is_pressed,
                    ..*old(self)
                },
                KeyCode::KeyS | KeyCode::ArrowDown => MovementKeys {
                    move_back: is_pressed,
                    ..*old(self)
                },
                KeyCode::KeyD | KeyCode::ArrowRight => MovementKeys {
                    move_right: is_pressed,
                    ..*old(self)
                },
                KeyCode::KeyA | KeyCode::ArrowLeft => MovementKeys {
                    move_left: is_pressed,
                    ..*old(self)
                },
                KeyCode::Space => MovementKeys { move_up: is_pressed, ..*old(self) },
                KeyCode::ShiftLeft => MovementKeys { move_down: is_pressed, ..*old(self) },
                _ => *old(self),
            },
    {
        match key_code {
            KeyCode::KeyW | KeyCode::ArrowUp => self.move_forward = is_pressed,
            KeyCode::KeyS | KeyCode::ArrowDown => self.move_back = is_pressed,
            KeyCode::KeyD | KeyCode::ArrowRight => self.move_right = is_pressed,
            KeyCode::KeyA | KeyCode::ArrowLeft => self.move_left = is_pressed,
            KeyCode::Space => self.move_up = is_pressed,
            KeyCode::ShiftLeft => self.move_down = is_pressed,
            _ => {},
        }
    }

    /// The movement along each axis the held keys ask for, each in -1..=1:
    /// right minus left, forward minus back, up minus down.
    pub fn axes(&self) -> (r: (i8, i8, i8))
        ensures
            r.0 == key_value(self.move_right) - key_value(self.move_left),
            r.1 == key_value(self.move_forward) - key_value(self.move_back),
            r.2 == key_value(self.move_up) - key_value(self.move_down),
    {
        (
            self.move_right as i8 - self.move_left as i8,
            self.move_forward as i8 - self.move_back as i8,
            self.move_up as i8 - self.move_down as i8,
        )
    }
}

} // verus!
