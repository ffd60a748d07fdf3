use cheesecake_kernel::input::keyboard::{poll, scancode_available, scancode_to_char, Keyboard};

#[test]
fn letters_follow_shift_and_caps() {
    let mut k = Keyboard::new();
    assert_eq!(k.process(0x1E), Some('a'));
    assert_eq!(k.process(0x2A), None); // left shift down
    assert_eq!(k.process(0x1E), Some('A'));
    assert_eq!(k.process(0xAA), None); // left shift up
    assert_eq!(k.process(0x1E), Some('a'));
    assert_eq!(k.process(0x3A), None); // caps lock
    assert_eq!(k.process(0x1E), Some('A'));
    assert_eq!(k.process(0x36), None); // right shift with caps: lower case again
    assert_eq!(k.process(0x1E), Some('a'));
    assert_eq!(k.process(0xB6), None);
    assert_eq!(k.process(0x1E), Some('A'));
}

#[test]
fn caps_lock_twice_restores_state() {
    let mut k = Keyboard::new();
    k.process(0x3A);
    assert!(k.caps);
    k.process(0x3A);
    assert_eq!(k, Keyboard::new());
}

#[test]
fn escape_and_break_codes_give_nothing() {
    let mut k = Keyboard::new();
    assert_eq!(k.process(0x01), None);
    assert_eq!(k.process(0x9E), None); // release of 'a'
    assert_eq!(k.process(0xFF), None);
    assert_eq!(k, Keyboard::new());
}

#[test]
fn digits_and_symbols() {
    let mut k = Keyboard::new();
    assert_eq!(k.process(0x02), Some('1'));
    assert_eq!(k.process(0x0B), Some('0'));
    assert_eq!(k.process(0x1C), Some('\n'));
    assert_eq!(k.process(0x39), Some(' '));
    assert_eq!(k.process(0x0E), Some('\x08'));
    k.process(0x2A);
    assert_eq!(k.process(0x02), Some('!'));
    assert_eq!(k.process(0x28), Some('"'));
    assert_eq!(k.process(0x2B), Some('|'));
}

#[test]
fn keys_without_character() {
    assert_eq!(scancode_to_char(0x00, false), None);
    assert_eq!(scancode_to_char(0x1D, false), None); // control
    assert_eq!(scancode_to_char(0x38, true), None); // alt
    assert_eq!(scancode_to_char(0x3A, false), None); // beyond the table
    assert_eq!(scancode_to_char(0x7F, false), None);
    assert_eq!(scancode_to_char(0x37, false), Some('*'));
    assert_eq!(scancode_to_char(0x37, true), Some('*'));
}

#[test]
fn poll_decodes_waiting_scancode() {
    let mut k = Keyboard::new();
    assert_eq!(poll(&mut k, None), None);
    assert_eq!(poll(&mut k, Some(0x10)), Some('q'));
    assert!(scancode_available(0x01));
    assert!(scancode_available(0x1D));
    assert!(!scancode_available(0x1C));
}
