use aetherquill::render::{Fb, BLACK, GRAY, H, W, WHITE};
use aetherquill::toolbar::{
    activation_due, clear_strokes, commit_stroke, draw_eraser_menu, ring_snap_due, draw_status, emenu_y, eraser_menu_option, icon_frame, icon_slot, icon_y, redo_stroke,
    sidebar_command, undo_stroke, SidebarCommand, EMENU_H, EMENU_W, EMENU_X, ICON_H, ICON_W, ICON_X, STATUS_H,
};

fn at(px: &[u16], x: i32, y: i32) -> u16 {
    px[(y * W + x) as usize]
}

#[test]
fn icon_geometry() {
    assert_eq!(icon_y(0), 15);
    assert_eq!(icon_y(4), 15 + 4 * 92);
    assert_eq!(emenu_y(0), 107);
    assert_eq!(emenu_y(3), 107 + 3 * 64);
}

#[test]
fn icon_slot_inverts_icon_y() {
    for slot in 0..5 {
        for k in 0..ICON_H {
            assert_eq!(icon_slot(icon_y(slot) + k), Some(slot));
        }
        for k in ICON_H..92 {
            assert_eq!(icon_slot(icon_y(slot) + k), None);
        }
    }
    assert_eq!(icon_slot(14), None);
    assert_eq!(icon_slot(-100), None);
    assert_eq!(icon_slot(icon_y(5)), None);
}

#[test]
fn eraser_menu_taps() {
    assert_eq!(eraser_menu_option(EMENU_X, emenu_y(0)), Some(0));
    assert_eq!(eraser_menu_option(EMENU_X + EMENU_W - 1, emenu_y(3) + EMENU_H - 1), Some(3));
    assert_eq!(eraser_menu_option(EMENU_X, emenu_y(1) + EMENU_H + 2), Some(1));
    assert_eq!(eraser_menu_option(EMENU_X - 1, emenu_y(1)), None);
    assert_eq!(eraser_menu_option(EMENU_X, emenu_y(3) + EMENU_H), None);
    assert_eq!(eraser_menu_option(EMENU_X, emenu_y(0) - 1), None);
}

#[test]
fn sidebar_commands() {
    assert_eq!(sidebar_command(Some(0)), Some(SidebarCommand::Pen));
    assert_eq!(sidebar_command(Some(1)), Some(SidebarCommand::Eraser));
    assert_eq!(sidebar_command(Some(2)), Some(SidebarCommand::Undo));
    assert_eq!(sidebar_command(Some(3)), Some(SidebarCommand::Redo));
    assert_eq!(sidebar_command(Some(4)), Some(SidebarCommand::Clear));
    assert_eq!(sidebar_command(Some(5)), None);
    assert_eq!(sidebar_command(None), None);
}

#[test]
fn undo_redo_and_clear() {
    let mut strokes = vec!["s1", "s2", "s3"];
    let mut redo: Vec<&str> = vec![];
    undo_stroke(&mut strokes, &mut redo);
    assert_eq!(strokes, vec!["s1", "s2"]);
    assert_eq!(redo, vec!["s3"]);
    redo_stroke(&mut strokes, &mut redo);
    assert_eq!(strokes, vec!["s1", "s2", "s3"]);
    assert!(redo.is_empty());
    redo_stroke(&mut strokes, &mut redo);
    assert_eq!(strokes.len(), 3);
    clear_strokes(&mut strokes, &mut redo);
    assert!(strokes.is_empty());
    assert_eq!(redo, vec!["s1", "s2", "s3"]);
    redo_stroke(&mut strokes, &mut redo);
    redo_stroke(&mut strokes, &mut redo);
    assert_eq!(strokes, vec!["s3", "s2"]);
    let mut empty: Vec<&str> = vec![];
    undo_stroke(&mut empty, &mut redo);
    assert_eq!(redo, vec!["s1"]);
}

#[test]
fn icon_frame_fills_or_outlines() {
    let mut px = vec![GRAY; (W * H) as usize];
    let mut fb = Fb { px: &mut px };
    assert_eq!(icon_frame(&mut fb, 0, true), WHITE);
    assert_eq!(icon_frame(&mut fb, 1, false), BLACK);
    assert_eq!(at(&px, ICON_X + 40, icon_y(0) + 40), BLACK);
    assert_eq!(at(&px, ICON_X, icon_y(1)), BLACK);
    assert_eq!(at(&px, ICON_X + 2, icon_y(1) + 2), BLACK);
    assert_eq!(at(&px, ICON_X + 3, icon_y(1) + 3), GRAY);
    assert_eq!(at(&px, ICON_X + ICON_W - 1, icon_y(1) + ICON_H - 1), BLACK);
    assert_eq!(at(&px, ICON_X + ICON_W, icon_y(1)), GRAY);
}

#[test]
fn eraser_menu_highlights_the_chosen_option() {
    let mut px = vec![GRAY; (W * H) as usize];
    let mut fb = Fb { px: &mut px };
    draw_eraser_menu(&mut fb, 1, false);
    // Option 1 (M) is highlighted: black box; the others are white boxes.
    assert_eq!(at(&px, EMENU_X + 1, emenu_y(1) + 50), BLACK);
    assert_eq!(at(&px, EMENU_X + 4, emenu_y(0) + 50), WHITE);
    assert_eq!(at(&px, EMENU_X, emenu_y(0)), BLACK);
    assert_eq!(at(&px, EMENU_X + 4, emenu_y(3) + 50), WHITE);
    assert_eq!(at(&px, EMENU_X, emenu_y(0) + EMENU_H + 2), GRAY);
    let mut sel = vec![GRAY; (W * H) as usize];
    let mut fb = Fb { px: &mut sel };
    draw_eraser_menu(&mut fb, 1, true);
    assert_eq!(at(&sel, EMENU_X + 4, emenu_y(1) + 50), WHITE);
    assert_eq!(at(&sel, EMENU_X + 1, emenu_y(3) + 50), BLACK);
}

#[test]
fn status_strip_is_blanked_and_refreshed() {
    let mut px = vec![BLACK; (W * H) as usize];
    let mut fb = Fb { px: &mut px };
    let rect = draw_status(&mut fb, "", "");
    assert_eq!(rect, (122, 0, W - 122 - 12, STATUS_H));
    assert_eq!(at(&px, 122, 0), WHITE);
    assert_eq!(at(&px, W - 13, STATUS_H - 5), WHITE);
    assert_eq!(at(&px, W - 12, 0), BLACK);
    assert_eq!(at(&px, 122, STATUS_H - 4), BLACK);
}

use aetherquill::toolbar::{choose_eraser_option, pen_target, touch_target, EraserSettings, PenTarget, TouchTarget};

#[test]
fn touch_dispatch() {
    // Nothing while the pen is down.
    assert_eq!(touch_target(50, 20, true, false), TouchTarget::Ignore);
    // Toolbar slots, and the gaps between them.
    assert_eq!(touch_target(50, 20, false, false), TouchTarget::Sidebar(Some(SidebarCommand::Pen)));
    assert_eq!(touch_target(50, 15 + 92 + 10, false, false), TouchTarget::Sidebar(Some(SidebarCommand::Eraser)));
    assert_eq!(touch_target(50, 15 + 4 * 92, false, false), TouchTarget::Sidebar(Some(SidebarCommand::Clear)));
    assert_eq!(touch_target(50, 15 + 80, false, false), TouchTarget::Sidebar(None));
    assert_eq!(touch_target(50, 5, false, false), TouchTarget::Sidebar(None));
    assert_eq!(touch_target(50, i32::MIN, false, false), TouchTarget::Sidebar(None));
    // Status strip and canvas.
    assert_eq!(touch_target(400, 30, false, false), TouchTarget::StatusStrip);
    assert_eq!(touch_target(400, 300, false, false), TouchTarget::Canvas);
    // The eraser flyout only in eraser mode.
    assert_eq!(touch_target(EMENU_X + 5, 107 + 64 * 2 + 3, false, true), TouchTarget::EraserOption(2));
    assert_eq!(touch_target(EMENU_X + 5, 107 + 64 * 2 + 3, false, false), TouchTarget::Canvas);
}

#[test]
fn pen_dispatch() {
    assert_eq!(pen_target(100, 500, false), PenTarget::Chrome);
    assert_eq!(pen_target(500, 40, false), PenTarget::Chrome);
    assert_eq!(pen_target(150, 500, false), PenTarget::Ink);
    assert_eq!(pen_target(150, 500, true), PenTarget::EraserMenu);
    assert_eq!(pen_target(186, 500, true), PenTarget::Erase);
}

#[test]
fn eraser_options() {
    let medium = EraserSettings { size_idx: 1, select_mode: false };
    let select = choose_eraser_option(medium, 3);
    assert_eq!(select, EraserSettings { size_idx: 1, select_mode: true });
    assert_eq!(choose_eraser_option(select, 0), EraserSettings { size_idx: 0, select_mode: false });
    assert_eq!(choose_eraser_option(medium, 2), EraserSettings { size_idx: 2, select_mode: false });
}

#[test]
fn icon_frame_of_a_far_slot_leaves_the_screen_alone() {
    let mut px = vec![GRAY; (W * H) as usize];
    let mut fb = Fb { px: &mut px };
    assert_eq!(icon_frame(&mut fb, 2_000_000, false), BLACK);
    assert_eq!(icon_frame(&mut fb, -2_000_000, true), WHITE);
    assert!(px.iter().all(|&p| p == GRAY));
}

#[test]
fn a_new_stroke_clears_the_redo_stack_and_undo_takes_it_back() {
    let mut strokes = vec![1, 2];
    let mut redo = vec![7, 8];
    commit_stroke(&mut strokes, &mut redo, 3);
    assert_eq!(strokes, vec![1, 2, 3]);
    assert!(redo.is_empty());
    undo_stroke(&mut strokes, &mut redo);
    assert_eq!(strokes, vec![1, 2]);
    assert_eq!(redo, vec![3]);
}

#[test]
fn a_spell_activates_once_per_signature() {
    assert!(activation_due(true, "fire:a", ""));
    assert!(!activation_due(true, "fire:a", "fire:a"));
    assert!(!activation_due(false, "fire:b", "fire:a"));
    assert!(activation_due(true, "fire:b", "fire:a"));
}

#[test]
fn ring_snap_redraws_once_per_new_list_of_ring_strokes() {
    let a = vec!["s1".to_string(), "s2".to_string()];
    let b = vec!["s1".to_string(), "s3".to_string()];
    assert!(!ring_snap_due(&a, &a.clone()));
    assert!(ring_snap_due(&a, &b));
    assert!(ring_snap_due(&a, &a[..1]));
    assert!(ring_snap_due(&a, &[]));
    assert!(!ring_snap_due(&[], &[]));
}
