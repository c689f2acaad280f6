use overlay_text::game_state::GameState;
use overlay_text::utf8::get_utf8;

fn units(s: &str) -> [u16; 16] {
    let mut out = [0u16; 16];
    for (k, u) in s.encode_utf16().take(16).enumerate() {
        out[k] = u;
    }
    out
}

#[test]
fn ascii_name_is_copied() {
    let mut buf = [0xAAu8; 8];
    get_utf8(&mut buf, &units("Bob_1"));
    assert_eq!(&buf, &[b'B', b'o', b'b', b'_', b'1', 0xAA, 0xAA, 0xAA]);
}

#[test]
fn two_byte_unit() {
    let mut buf = [0u8; 4];
    get_utf8(&mut buf, &units("é"));
    assert_eq!(&buf, &[0xC3, 0xA9, 0, 0]);
}

#[test]
fn three_byte_unit_matches_std() {
    let mut buf = [0u8; 32];
    get_utf8(&mut buf, &units("玩家一号"));
    let expected = "玩家一号".as_bytes();
    assert_eq!(&buf[..expected.len()], expected);
    assert!(buf[expected.len()..].iter().all(|&b| b == 0));
}

#[test]
fn boundaries_of_each_length() {
    let mut buf = [0u8; 16];
    let mut name = [0u16; 16];
    name[0] = 0x7F;
    name[1] = 0x80;
    name[2] = 0x7FF;
    name[3] = 0x800;
    name[4] = 0xFFFF;
    get_utf8(&mut buf, &name);
    assert_eq!(
        &buf[..12],
        &[0x7F, 0xC2, 0x80, 0xDF, 0xBF, 0xE0, 0xA0, 0x80, 0xEF, 0xBF, 0xBF, 0]
    );
}

#[test]
fn stops_at_zero_unit() {
    let mut buf = [7u8; 6];
    let mut name = units("ab");
    name[3] = b'z' as u16;
    get_utf8(&mut buf, &name);
    assert_eq!(&buf, &[b'a', b'b', 7, 7, 7, 7]);
}

#[test]
fn stops_when_unit_does_not_fit() {
    // "a" fits, "é" needs two bytes but only one is left.
    let mut buf = [9u8; 2];
    get_utf8(&mut buf, &units("aé"));
    assert_eq!(&buf, &[b'a', 9]);

    // A three-byte unit with room for two is not written, nor anything after it.
    let mut buf = [9u8; 3];
    get_utf8(&mut buf, &units("é一a"));
    assert_eq!(&buf, &[0xC3, 0xA9, 9]);
}

#[test]
fn stops_when_buffer_full() {
    let mut buf = [0u8; 3];
    get_utf8(&mut buf, &units("abcdef"));
    assert_eq!(&buf, &[b'a', b'b', b'c']);
}

#[test]
fn empty_buffer_is_untouched() {
    let mut buf: [u8; 0] = [];
    get_utf8(&mut buf, &units("abc"));
    assert_eq!(buf.len(), 0);
}

#[test]
fn at_most_sixteen_units() {
    let mut buf = [0u8; 20];
    get_utf8(&mut buf, &units("abcdefghijklmnopqrst"));
    assert_eq!(&buf[..16], b"abcdefghijklmnop");
    assert_eq!(&buf[16..], &[0, 0, 0, 0]);
}

#[test]
fn surrogate_halves_take_three_bytes_each() {
    let mut buf = [0u8; 8];
    let mut name = [0u16; 16];
    name[0] = 0xD83D;
    name[1] = 0xDE00;
    get_utf8(&mut buf, &name);
    assert_eq!(&buf, &[0xED, 0xA0, 0xBD, 0xED, 0xB8, 0x80, 0, 0]);
}

#[test]
fn more_room_extends_the_writing() {
    let name = units("aé一b");
    let mut small = [0u8; 4];
    let mut large = [0u8; 8];
    get_utf8(&mut small, &name);
    get_utf8(&mut large, &name);
    assert_eq!(&small[..3], &large[..3]);
    assert_eq!(&large[..7], &[b'a', 0xC3, 0xA9, 0xE4, 0xB8, 0x80, b'b']);
}

#[test]
fn game_state_values() {
    let s = GameState::Spectating;
    assert_eq!(format!("{:?}", s), "Spectating");
    assert!(GameState::InLobby != GameState::Gaming);
}
