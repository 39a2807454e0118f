use lib::ui::element::{UpdateResult, WindowFocusUse};

#[test]
fn window_focus_use_follows_keyboard_focus_only_when_asked() {
    assert!(!WindowFocusUse::Never.is_usesd(true));
    assert!(WindowFocusUse::WithKeyboardFocus.is_usesd(true));
    assert!(!WindowFocusUse::WithKeyboardFocus.is_usesd(false));
    assert!(WindowFocusUse::Always.is_usesd(false));
}

#[test]
fn update_results_combine_every_request() {
    let graphics = UpdateResult { update_graphics: true, ..UpdateResult::default() };
    let focus = UpdateResult { take_keyboard_focus: true, grab_mouse: true, ..UpdateResult::default() };
    let both = graphics.union(focus);
    assert!(both.update_graphics);
    assert!(both.grab_mouse);
    assert!(!both.grab_window);
    assert!(both.take_keyboard_focus);
}

use lib::ui::element::Focus;
use lib::ui::window::{ElementState, WindowElements};

fn element(keyboard: bool) -> ElementState {
    ElementState { focus: Focus { keyboard, ..Focus::default() }, needs_update: false }
}

fn focused(window: &WindowElements) -> Vec<bool> {
    window.elements.iter().map(|element| element.focus.keyboard).collect()
}

#[test]
fn only_the_topmost_focused_element_keeps_the_focus() {
    let mut window = WindowElements {
        elements: vec![element(false), element(true), element(false), element(true)],
        update_any: false,
    };
    assert!(window.deduplicate_keyboard_focus());
    assert_eq!(focused(&window), vec![false, true, false, false]);
    assert!(!window.elements[0].needs_update);
    assert!(!window.elements[1].needs_update);
    assert!(window.elements[2].needs_update);
    assert!(window.elements[3].needs_update);
    assert!(window.update_any);
}

#[test]
fn without_a_focused_element_nothing_changes() {
    let mut window = WindowElements { elements: vec![element(false), element(false)], update_any: false };
    assert!(!window.deduplicate_keyboard_focus());
    assert!(!window.update_any);
    assert!(!window.clear_keyboard_focus());
    assert!(!window.update_any);
}

#[test]
fn clearing_takes_every_focus() {
    let mut window = WindowElements {
        elements: vec![element(true), element(false), element(true)],
        update_any: false,
    };
    assert!(window.clear_keyboard_focus());
    assert_eq!(focused(&window), vec![false, false, false]);
    assert!(window.elements[0].needs_update);
    assert!(!window.elements[1].needs_update);
    assert!(window.update_any);
}

#[test]
fn giving_the_focus_takes_it_from_the_others() {
    let mut window = WindowElements {
        elements: vec![element(true), element(false), element(false)],
        update_any: false,
    };
    window.give_keyboard_focus(2);
    assert_eq!(focused(&window), vec![false, false, true]);
    assert!(window.elements[2].needs_update);
    assert!(window.update_any);
    let mut settled = WindowElements { elements: vec![element(true)], update_any: false };
    settled.give_keyboard_focus(0);
    assert!(!settled.update_any);
    assert!(!settled.elements[0].needs_update);
}

use lib::interface::simulation_control_panel::SimulationControlPanel;

#[test]
fn the_control_panel_reports_a_change_of_button() {
    let mut panel = SimulationControlPanel::default();
    assert!(panel.set_mouse_position(Some(2)));
    assert!(panel.is_selected(2));
    assert!(!panel.is_selected(1));
    assert!(!panel.set_mouse_position(Some(2)));
    assert!(panel.set_mouse_position(None));
    assert!(!panel.set_mouse_position(None));
    assert_eq!(SimulationControlPanel::NUM_BUTTONS, 5);
}

use lib::ui::header::Header;

#[test]
fn the_header_grabs_its_window_when_clicked_or_dragged() {
    let mut header = Header { title: "main".to_owned() };
    assert!(matches!(header.uses_window_focus(), WindowFocusUse::Always));
    assert!(header.update(true, false).grab_window);
    assert!(header.update(false, true).grab_window);
    let idle = header.update(false, false);
    assert!(!idle.grab_window && !idle.update_graphics && !idle.grab_mouse && !idle.take_keyboard_focus);
    assert_eq!(header.title, "main");
}
