use applib::geometry::Rect;
use applib::widgets::{
    button, button_toggle, button_toggle_once, choice_buttons_exclusive, choice_buttons_multi, ButtonConfig,
    ButtonIndicatorMode, ButtonState,
};

fn config(x0: i64) -> ButtonConfig {
    ButtonConfig {
        rect: Rect { x0, y0: 0, w: 10, h: 10 },
        text: String::from("ok"),
        untoggle: true,
        indicator_mode: ButtonIndicatorMode::Off,
    }
}

#[test]
fn push_button_reports_click() {
    assert!(button(&config(0), (5, 5), true));
    assert!(!button(&config(0), (5, 5), false));
    assert!(!button(&config(0), (50, 5), true));
}

#[test]
fn toggle_button_flips_and_looks() {
    let mut active = false;
    assert_eq!(button_toggle(&config(0), (5, 5), false, &mut active), ButtonState::Hover);
    assert!(!active);
    assert_eq!(button_toggle(&config(0), (5, 5), true, &mut active), ButtonState::Clicked);
    assert!(active);
    assert_eq!(button_toggle(&config(0), (50, 5), false, &mut active), ButtonState::Clicked);
    assert_eq!(button_toggle(&config(0), (5, 5), true, &mut active), ButtonState::Idle);
    assert!(!active);
}

#[test]
fn toggle_once_stays_on() {
    let mut active = true;
    assert_eq!(button_toggle_once(&config(0), (5, 5), true, &mut active), ButtonState::Clicked);
    assert!(active);
}

#[test]
fn exclusive_choice_moves_selection() {
    let rects = vec![config(0).rect, config(10).rect, config(20).rect];
    let mut selected = 0usize;
    choice_buttons_exclusive(&rects, (25, 5), true, &mut selected);
    assert_eq!(selected, 2);
    // Clicking the selected choice keeps it.
    choice_buttons_exclusive(&rects, (25, 5), true, &mut selected);
    assert_eq!(selected, 2);
    choice_buttons_exclusive(&rects, (5, 5), false, &mut selected);
    assert_eq!(selected, 2);
}

#[test]
fn multi_choice_flips_one() {
    let rects = vec![config(0).rect, config(10).rect, config(20).rect];
    let mut selected = vec![0usize, 2];
    choice_buttons_multi(&rects, (15, 5), true, &mut selected);
    assert_eq!(selected, vec![0, 1, 2]);
    choice_buttons_multi(&rects, (5, 5), true, &mut selected);
    assert_eq!(selected, vec![1, 2]);
}
