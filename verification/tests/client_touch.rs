use aetherquill::client::{finger_down, finger_up, touch_press, TouchOutcome, BTN_W, CHROME_H};

#[test]
fn fingers_form_a_set() {
    let mut fingers = Vec::new();
    finger_down(&mut fingers, 7);
    finger_down(&mut fingers, 7);
    finger_down(&mut fingers, 3);
    assert_eq!(fingers.len(), 2);
    finger_up(&mut fingers, 7);
    assert_eq!(fingers, vec![3]);
    finger_up(&mut fingers, 9);
    assert_eq!(fingers, vec![3]);
}

#[test]
fn four_fingers_exit() {
    let mut fingers = Vec::new();
    assert_eq!(touch_press(&mut fingers, 1, false, 700, 500), TouchOutcome::Ignore);
    assert_eq!(touch_press(&mut fingers, 2, false, 700, 500), TouchOutcome::Ignore);
    assert_eq!(touch_press(&mut fingers, 2, false, 700, 500), TouchOutcome::Ignore);
    assert_eq!(touch_press(&mut fingers, 3, false, 700, 500), TouchOutcome::Ignore);
    assert_eq!(touch_press(&mut fingers, 4, false, 700, 500), TouchOutcome::Exit);
}

#[test]
fn chrome_buttons() {
    let mut fingers = Vec::new();
    assert_eq!(touch_press(&mut fingers, 1, false, 12 + BTN_W, 40), TouchOutcome::Undo);
    finger_up(&mut fingers, 1);
    assert_eq!(touch_press(&mut fingers, 1, false, 1404 - 12 - BTN_W, 40), TouchOutcome::Clear);
    finger_up(&mut fingers, 1);
    assert_eq!(touch_press(&mut fingers, 1, false, 700, 40), TouchOutcome::Ignore);
    finger_up(&mut fingers, 1);
    assert_eq!(touch_press(&mut fingers, 1, false, 20, CHROME_H), TouchOutcome::Ignore);
    finger_up(&mut fingers, 1);
    assert_eq!(touch_press(&mut fingers, 1, true, 20, 40), TouchOutcome::Ignore);
    assert!(fingers.is_empty() == false);
}
