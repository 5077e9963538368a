use vstd::prelude::*;

use crate::geometry::Rect;

verus! {

/// How a button looks in a frame.
#[derive(Clone, Copy, Debug, PartialEq, Eq, Structural, Hash)]
pub enum ButtonState {
    Idle,
    Hover,
    Clicked,
}

/// How a button shows that it is on.
#[derive(Clone, Copy, Debug, PartialEq, Eq, Structural, Hash)]
pub enum ButtonIndicatorMode {
    Off,
    Light,
    Border,
}

/// A button's place, label and look.
pub struct ButtonConfig {
    pub rect: Rect,
    pub text: String,
    pub untoggle: bool,
    pub indicator_mode: ButtonIndicatorMode,
}

/// The pointer is over a button that may react: a button that can only be
/// switched on once ignores the pointer while on.
pub open spec fn hovered(rect: Rect, pointer: (i64, i64), active: bool, toggle_once: bool) -> bool {
    rect.contains_spec(pointer.0 as int, pointer.1 as int) && !(active && toggle_once)
}

/// Whether a button is on after a frame: a click over it flips it.
pub open spec fn pressed(rect: Rect, pointer: (i64, i64), left_click: bool, active: bool, toggle_once: bool) -> bool {
    if hovered(rect, pointer, active, toggle_once) && left_click {
        !active
    } else {
        active
    }
}

/// How a button looks after a frame.
pub open spec fn button_look(rect: Rect, pointer: (i64, i64), left_click: bool, active: bool, toggle_once: bool) -> ButtonState {
    if hovered(rect, pointer, active, toggle_once) && !left_click {
        ButtonState::Hover
    } else if pressed(rect, pointer, left_click, active, toggle_once) {
        ButtonState::Clicked
    } else {
        ButtonState::Idle
    }
}

/// One frame of a button: a click over it flips `active`; it shows hovered
/// under the pointer, else clicked while on, else idle.
pub fn button_step(config: &ButtonConfig, pointer: (i64, i64), left_click: bool, active: &mut bool, toggle_once: bool) -> (s: ButtonState)
    ensures
        *final(active) == pressed(config.rect, pointer, left_click, *old(active), toggle_once),
        s == button_look(config.rect, pointer, left_click, *old(active), toggle_once),
{
    let is_hovered = config.rect.check_contains_point(pointer.0, pointer.1) && !(*active && toggle_once);
    let clicked = is_hovered && left_click;
    if is_hovered && !clicked {
        ButtonState::Hover
    } else {
        if clicked {
            *active = !*active;
        }
        if *active {
            ButtonState::Clicked
        } else {
            ButtonState::Idle
        }
    }
}

/// A push button: whether it was clicked in this frame.
pub fn button(config: &ButtonConfig, pointer: (i64, i64), left_click: bool) -> (clicked: bool)
    ensures
        clicked == (config.rect.contains_spec(pointer.0 as int, pointer.1 as int) && left_click),
{
    let mut active = false;
    button_step(config, pointer, left_click, &mut active, false);
    active
}

/// A toggle button: a click flips `active`.
pub fn button_toggle(config: &ButtonConfig, pointer: (i64, i64), left_click: bool, active: &mut bool) -> (s: ButtonState)
    ensures
        *final(active) == pressed(config.rect, pointer, left_click, *old(active), false),
        s == button_look(config.rect, pointer, left_click, *old(active), false),
{
    button_step(config, pointer, left_click, active, false)
}

/// A button that a click can switch on but not off.
pub fn button_toggle_once(config: &ButtonConfig, pointer: (i64, i64), left_click: bool, active: &mut bool) -> (s: ButtonState)
    ensures
        *final(active) == pressed(config.rect, pointer, left_click, *old(active), true),
        s == button_look(config.rect, pointer, left_click, *old(active), true),
{
    button_step(config, pointer, left_click, active, true)
}

/// The choice selected after the buttons `rects[..k]` had their frame: the
/// last one, other than the selected one, that a click switched on.
pub open spec fn exclusive_choice(rects: Seq<Rect>, k: int, pointer: (i64, i64), left_click: bool, selected: usize) -> usize
    decreases k,
{
    if k <= 0 {
        selected
    } else {
        let i = k - 1;
        if i != selected && pressed(rects[i], pointer, left_click, false, false) {
            i as usize
        } else {
            exclusive_choice(rects, i, pointer, left_click, selected)
        }
    }
}

/// One frame of a row of exclusive choices, one button per rectangle: a click
/// on another choice selects it.
pub fn choice_buttons_exclusive(rects: &Vec<Rect>, pointer: (i64, i64), left_click: bool, selected: &mut usize)
    ensures
        *final(selected) == exclusive_choice(rects@, rects@.len() as int, pointer, left_click, *old(selected)),
{
    let old_selected = *selected;
    let mut new_selected = old_selected;
    let n = rects.len();
    let mut i: usize = 0;
    while i < n
        invariant
            n == rects@.len(),
            i <= n,
            new_selected == exclusive_choice(rects@, i as int, pointer, left_click, old_selected),
        decreases n - i,
    {
        let config = ButtonConfig {
            rect: rects[i],
            text: String::new(),
            untoggle: true,
            indicator_mode: ButtonIndicatorMode::Off,
        };
        let mut active = i == old_selected;
        button_toggle(&config, pointer, left_click, &mut active);
        if active && i != old_selected {
            new_selected = i;
        }
        i = i + 1;
    }
    *selected = new_selected;
}

/// The choices on after a frame of the buttons `rects[..k]`, in order: each
/// one flipped by a click over it.
pub open spec fn multi_choice(rects: Seq<Rect>, k: int, pointer: (i64, i64), left_click: bool, on: Seq<usize>) -> Seq<usize>
    decreases k,
{
    if k <= 0 {
        seq![]
    } else {
        let i = k - 1;
        let prev = multi_choice(rects, i, pointer, left_click, on);
        if pressed(rects[i], pointer, left_click, on.contains(i as usize), false) {
            prev.push(i as usize)
        } else {
            prev
        }
    }
}

fn contains_index(v: &Vec<usize>, x: usize) -> (r: bool)
    ensures
        r == v@.contains(x),
{
    let n = v.len();
    let mut i: usize = 0;
    while i < n
        invariant
            n == v@.len(),
            i <= n,
            forall|j: int| 0 <= j < i ==> v@[j] != x,
        decreases n - i,
    {
        if v[i] == x {
            return true;
        }
        i = i + 1;
    }
    false
}

/// One frame of a row of choices that are each on or off: a click flips one.
pub fn choice_buttons_multi(rects: &Vec<Rect>, pointer: (i64, i64), left_click: bool, selected: &mut Vec<usize>)
    ensures
        final(selected)@ == multi_choice(rects@, rects@.len() as int, pointer, left_click, old(selected)@),
{
    let mut new_selected: Vec<usize> = Vec::new();
    let n = rects.len();
    let mut i: usize = 0;
    while i < n
        invariant
            n == rects@.len(),
            i <= n,
            *selected == *old(selected),
            new_selected@ == multi_choice(rects@, i as int, pointer, left_click, old(selected)@),
        decreases n - i,
    {
        let config = ButtonConfig {
            rect: rects[i],
            text: String::new(),
            untoggle: true,
            indicator_mode: ButtonIndicatorMode::Off,
        };
        let mut active = contains_index(selected, i);
        button_toggle(&config, pointer, left_click, &mut active);
        if active {
            new_selected.push(i);
        }
        i = i + 1;
    }
    *selected = new_selected;
}

} // verus!
