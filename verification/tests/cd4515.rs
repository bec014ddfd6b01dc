use chip_8::cd4515::Cd4515;

#[test]
fn pressed() {
    let mut cd4515 = Cd4515::default();

    assert!(!cd4515.key_pressed(2));
    assert!(!cd4515.key_pressed(0xf));

    cd4515.key_event(2, true);

    assert!(cd4515.key_pressed(2));
    assert!(!cd4515.key_pressed(0xf));

    cd4515.key_event(0xf, true);

    assert!(cd4515.key_pressed(2));
    assert!(cd4515.key_pressed(0xf));

    cd4515.key_event(2, false);

    assert!(!cd4515.key_pressed(2));
    assert!(cd4515.key_pressed(0xf));

    cd4515.key_event(0xf, false);

    assert!(!cd4515.key_pressed(2));
    assert!(!cd4515.key_pressed(0xf));
}

#[test]
fn wait_key() {
    let mut cd4515 = Cd4515::default();

    assert_eq!(cd4515.wait_key(), None);

    cd4515.key_event(3, true);

    assert_eq!(cd4515.wait_key(), None);

    cd4515.key_event(3, false);

    assert_eq!(cd4515.wait_key(), Some(3));

    assert_eq!(cd4515.wait_key(), None);
}

#[test]
fn wait_key_first_released() {
    let mut cd4515 = Cd4515::default();

    cd4515.key_event(3, true);
    cd4515.key_event(5, true);
    cd4515.key_event(0xa, true);

    assert_eq!(cd4515.wait_key(), None);

    cd4515.key_event(0xa, false);
    cd4515.key_event(3, false);
    cd4515.key_event(5, false);

    assert_eq!(cd4515.wait_key(), Some(0xa));

    assert_eq!(cd4515.wait_key(), None);
}

#[test]
fn wait_key_already_pressed() {
    let mut cd4515 = Cd4515::default();

    cd4515.key_event(5, true);

    assert_eq!(cd4515.wait_key(), None);

    cd4515.key_event(3, true);

    assert_eq!(cd4515.wait_key(), None);

    cd4515.key_event(5, false);

    assert_eq!(cd4515.wait_key(), Some(5));

    assert_eq!(cd4515.wait_key(), None);
}

#[test]
fn new_keypad_has_no_key_down() {
    let cd4515 = Cd4515::new();

    for key in 0..16 {
        assert!(!cd4515.key_pressed(key));
    }
}

#[test]
fn release_without_press_toggles_key() {
    let mut cd4515 = Cd4515::new();

    cd4515.key_event(7, false);

    assert!(cd4515.key_pressed(7));
    assert!(!cd4515.key_pressed(6));
    assert!(!cd4515.key_pressed(8));
}

#[test]
fn release_before_wait_is_not_awaited() {
    let mut cd4515 = Cd4515::new();

    cd4515.key_event(4, true);
    cd4515.key_event(4, false);

    assert_eq!(cd4515.wait_key(), None);
    assert_eq!(cd4515.wait_key(), None);

    cd4515.key_event(9, true);
    cd4515.key_event(9, false);

    assert_eq!(cd4515.wait_key(), Some(9));
}

#[test]
fn wait_gives_first_release_after_start() {
    let mut cd4515 = Cd4515::new();

    cd4515.key_event(1, true);
    assert_eq!(cd4515.wait_key(), None);
    cd4515.key_event(2, true);
    cd4515.key_event(1, false);
    cd4515.key_event(2, false);
    cd4515.key_event(3, true);
    cd4515.key_event(3, false);

    assert_eq!(cd4515.wait_key(), Some(1));
    assert_eq!(cd4515.wait_key(), None);
    assert!(!cd4515.key_pressed(1));
    assert!(!cd4515.key_pressed(2));
    assert!(!cd4515.key_pressed(3));
}
