//! PS/2 keyboard decoding: scancode set 1 to characters, tracking the
//! shift keys and caps lock.  Reading the controller's ports is the
//! caller's part.
use vstd::prelude::*;

verus! {

/// The controller's status byte says a scancode is waiting.
pub open spec fn scancode_ready(status: u8) -> bool {
    status & 1 != 0
}

/// Whether the status byte read from the controller says a scancode is
/// waiting in the data port.
pub fn scancode_available(status: u8) -> (r: bool)
    ensures
        r == scancode_ready(status),
{
    status & 0x01 != 0
}

/// Characters of scancodes 0 to 57 without shift; `'\0'` where a key
/// gives none.
pub open spec fn normal_map() -> Seq<char> {
    seq![
        '\0', '\0', '1', '2', '3', '4', '5', '6', '7', '8', '9', '0', '-', '=', '\x08', '\t', 'q',
        'w', 'e', 'r', 't', 'y', 'u', 'i', 'o', 'p', '[', ']', '\n', '\0', 'a', 's', 'd', 'f', 'g',
        'h', 'j', 'k', 'l', ';', '\'', '`', '\0', '\\', 'z', 'x', 'c', 'v', 'b', 'n', 'm', ',',
        '.', '/', '\0', '*', '\0', ' ',
    ]
}

/// Characters of scancodes 0 to 57 with shift; `'\0'` where a key gives
/// none.
pub open spec fn shifted_map() -> Seq<char> {
    seq![
        '\0', '\0', '!', '@', '#', '$', '%', '^', '&', '*', '(', ')', '_', '+', '\x08', '\t', 'Q',
        'W', 'E', 'R', 'T', 'Y', 'U', 'I', 'O', 'P', '{', '}', '\n', '\0', 'A', 'S', 'D', 'F', 'G',
        'H', 'J', 'K', 'L', ':', '"', '~', '\0', '|', 'Z', 'X', 'C', 'V', 'B', 'N', 'M', '<', '>',
        '?', '\0', '*', '\0', ' ',
    ]
}

/// The character a make code gives, if any.
pub open spec fn key_char(sc: u8, shifted: bool) -> Option<char> {
    let map = if shifted {
        shifted_map()
    } else {
        normal_map()
    };
    if (sc as int) < map.len() && map[sc as int] != '\0' {
        Some(map[sc as int])
    } else {
        None
    }
}

/// The character of scancode `sc`, from the shifted table when `shifted`.
pub fn scancode_to_char(sc: u8, shifted: bool) -> (r: Option<char>)
    ensures
        r == key_char(sc, shifted),
{
    let normal: [char; 58] = [
        '\0', '\0', '1', '2', '3', '4', '5', '6', '7', '8', '9', '0', '-', '=', '\x08', '\t', 'q',
        'w', 'e', 'r', 't', 'y', 'u', 'i', 'o', 'p', '[', ']', '\n', '\0', 'a', 's', 'd', 'f', 'g',
        'h', 'j', 'k', 'l', ';', '\'', '`', '\0', '\\', 'z', 'x', 'c', 'v', 'b', 'n', 'm', ',',
        '.', '/', '\0', '*', '\0', ' ',
    ];
    let shifted_tbl: [char; 58] = [
        '\0', '\0', '!', '@', '#', '$', '%', '^', '&', '*', '(', ')', '_', '+', '\x08', '\t', 'Q',
        'W', 'E', 'R', 'T', 'Y', 'U', 'I', 'O', 'P', '{', '}', '\n', '\0', 'A', 'S', 'D', 'F', 'G',
        'H', 'J', 'K', 'L', ':', '"', '~', '\0', '|', 'Z', 'X', 'C', 'V', 'B', 'N', 'M', '<', '>',
        '?', '\0', '*', '\0', ' ',
    ];
    proof {
        assert(normal@ =~= normal_map());
        assert(shifted_tbl@ =~= shifted_map());
    }
    let map = if shifted {
        &shifted_tbl
    } else {
        &normal
    };
    let idx = sc as usize;
    if idx < map.len() {
        let c = map[idx];
        if c != '\0' {
            Some(c)
        } else {
            None
        }
    } else {
        None
    }
}

/// The state of the keyboard decoder.
#[derive(Clone, Copy, PartialEq, Eq, Structural, Debug)]
pub struct Keyboard {
    pub shift: bool,
    pub caps: bool,
}

/// What a scancode does: shift release or press codes set the shift state,
/// caps lock toggles caps, escape and break codes give nothing, and any
/// other make code gives its character, shifted when exactly one of shift
/// and caps is on.
pub open spec fn process_spec(k: Keyboard, sc: u8) -> (Keyboard, Option<char>) {
    if sc == 0xAA || sc == 0xB6 {
        (Keyboard { shift: false, ..k }, None)
    } else if sc == 0x2A || sc == 0x36 {
        (Keyboard { shift: true, ..k }, None)
    } else if sc == 0x3A {
        (Keyboard { caps: !k.caps, ..k }, None)
    } else if sc == 0x01 {
        (k, None)
    } else if sc < 0x80 {
        (k, key_char(sc, k.shift != k.caps))
    } else {
        (k, None)
    }
}

impl Keyboard {
    /// A decoder with shift and caps lock off.
    pub fn new() -> (r: Self)
        ensures
            r == (Keyboard { shift: false, caps: false }),
    {
        Keyboard { shift: false, caps: false }
    }

    /// Decodes one scancode.
    pub fn process(&mut self, sc: u8) -> (r: Option<char>)
        ensures
            (*final(self), r) == process_spec(*old(self), sc),
    {
        if sc == 0xAA || sc == 0xB6 {
            self.shift = false;
            None
        } else if sc == 0x2A || sc == 0x36 {
            self.shift = true;
            None
        } else if sc == 0x3A {
            self.caps = !self.caps;
            None
        } else if sc == 0x01 {
            None
        } else if sc < 0x80 {
            scancode_to_char(sc, self.shift ^ self.caps)
        } else {
            None
        }
    }
}

/// Polls the keyboard: decodes the waiting scancode, if there is one.
pub fn poll(keyboard: &mut Keyboard, scancode: Option<u8>) -> (r: Option<char>)
    ensures
        match scancode {
            None => r is None && *final(keyboard) == *old(keyboard),
            Some(sc) => (*final(keyboard), r) == process_spec(*old(keyboard), sc),
        },
{
    match scancode {
        Some(sc) => keyboard.process(sc),
        None => None,
    }
}

/// Pressing caps lock twice leaves the decoder as it was.
pub proof fn law_caps_lock_twice(k: Keyboard)
    ensures
        process_spec(process_spec(k, 0x3A).0, 0x3A).0 == k,
{
}

/// Pressing and releasing shift leaves shift off, whatever it was.
pub proof fn law_shift_press_release(k: Keyboard, press: u8, release: u8)
    requires
        press == 0x2A || press == 0x36,
        release == 0xAA || release == 0xB6,
    ensures
        process_spec(process_spec(k, press).0, release).0 == (Keyboard { shift: false, ..k }),
{
}

/// The decoder never hands out the NUL character, and only make codes
/// (below 0x80) give a character.
pub proof fn law_decoded_chars(k: Keyboard, sc: u8)
    ensures
        process_spec(k, sc).1 != Some('\0'),
        process_spec(k, sc).1 is Some ==> sc < 0x80,
{
}

/// Shift turns a letter key's lower-case letter into the upper-case one:
/// whenever a key gives an upper-case letter with shift, it gives the same
/// letter in lower case without.
pub proof fn law_letter_case(sc: u8, upper: char)
    requires
        key_char(sc, true) == Some(upper),
        'A' <= upper <= 'Z',
    ensures
        key_char(sc, false) matches Some(lower) && lower as u32 == upper as u32 + 32,
{
    let n = normal_map();
    let m = shifted_map();
    assert(n.len() == 58 && m.len() == 58);
    let i = sc as int;
    assert(0 <= i < 58);
    assert(n[i] as u32 == m[i] as u32 + 32);
}

/// Without shift, no two keys give the same character.
pub proof fn law_keys_distinct(s1: u8, s2: u8)
    requires
        s1 != s2,
        key_char(s1, false) is Some,
    ensures
        key_char(s1, false) != key_char(s2, false),
{
    let n = normal_map();
    assert(n.len() == 58);
    let i = s1 as int;
    let j = s2 as int;
    if j < 58 {
        assert(n[i] != n[j]);
    }
}

} // verus!
