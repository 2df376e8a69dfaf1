use vstd::prelude::*;

use crate::camera::KeyCode;

verus! {

/// What a key event asks of the window, apart from camera movement.
#[derive(Clone, Copy, Debug, PartialEq, Eq, Structural)]
pub enum KeyAction {
    /// Switch to the given fullscreen state (`true`: borderless fullscreen).
    SetFullscreen(bool),
    /// Release the cursor grab and show the cursor.
    ReleaseCursor,
    /// Nothing.
    Nothing,
}

/// F11 pressed toggles fullscreen; Escape pressed releases the cursor.
pub fn key_action(key_code: KeyCode, is_pressed: bool, is_fullscreen: bool) -> (r: KeyAction)
    ensures
        r == if is_pressed && key_code == KeyCode::F11 {
            KeyAction::SetFullscreen(!is_fullscreen)
        } else if is_pressed && key_code == KeyCode::Escape {
            KeyAction::ReleaseCursor
        } else {
            KeyAction::Nothing
        },
{
    match (key_code, is_pressed) {
        (KeyCode::F11, true) => {
            if is_fullscreen {
                KeyAction::SetFullscreen(false)
            } else {
                KeyAction::SetFullscreen(true)
            }
        },
        (KeyCode::Escape, true) => KeyAction::ReleaseCursor,
        _ => KeyAction::Nothing,
    }
}

/// Some heap is device-local.
pub open spec fn has_device_local_heap(device_local: Seq<bool>) -> bool {
    exists|i: int| 0 <= i < device_local.len() && #[trigger] device_local[i]
}

/// The first device-local heap.
pub open spec fn first_device_local_heap(device_local: Seq<bool>, i: int) -> bool {
    &&& 0 <= i < device_local.len()
    &&& device_local[i]
    &&& forall|j: int| 0 <= j < i ==> !#[trigger] device_local[j]
}

/// The VRAM usage and budget to show: those of the first device-local
/// memory heap. `device_local[i]` says whether heap `i` is device-local.
pub fn vram_stats(device_local: &Vec<bool>, usage: &Vec<u64>, budget: &Vec<u64>) -> (r: (u64, u64))
    requires
        device_local@.len() == usage@.len(),
        device_local@.len() == budget@.len(),
        has_device_local_heap(device_local@),
    ensures
        exists|i: int|
            first_device_local_heap(device_local@, i) && r == (usage@[i], budget@[i]),
{
    let mut i: usize = 0;
    while i < device_local.len()
        invariant
            0 <= i <= device_local@.len(),
            device_local@.len() == usage@.len(),
            device_local@.len() == budget@.len(),
            has_device_local_heap(device_local@),
            forall|j: int| 0 <= j < i ==> !#[trigger] device_local@[j],
        decreases device_local@.len() - i,
    {
        if device_local[i] {
            assert(first_device_local_heap(device_local@, i as int));
            return (usage[i], budget[i]);
        }
        i = i + 1;
    }
    proof {
        let k = choose|k: int| 0 <= k < device_local@.len() && #[trigger] device_local@[k];
        assert(!device_local@[k]);
    }
    (0, 0)
}

} // verus!
