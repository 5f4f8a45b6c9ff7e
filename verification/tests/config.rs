use derp_rs::config::{
    is_off, mesh_key_from_hex, parse_duration, parse_mesh_key, restart_times, DurationError,
    MeshKeyError,
};
use derp_rs::text::HexError;

#[test]
fn durations() {
    assert_eq!(parse_duration("500ms"), Ok(500_000_000));
    assert_eq!(parse_duration("2s"), Ok(2_000_000_000));
    assert_eq!(parse_duration("+5m"), Ok(300_000_000_000));
    assert_eq!(parse_duration("007s"), Ok(7_000_000_000));
    assert_eq!(parse_duration("18446744073709551615m"), Ok(u64::MAX));
    assert_eq!(parse_duration("18446744073709551616m"), Err(DurationError::NoNumber));
    assert_eq!(parse_duration("s"), Err(DurationError::NoNumber));
    assert_eq!(parse_duration("+s"), Err(DurationError::NoNumber));
    assert_eq!(parse_duration("-1s"), Err(DurationError::NoNumber));
    assert_eq!(parse_duration("1 s"), Err(DurationError::NoNumber));
    assert_eq!(parse_duration("1"), Err(DurationError::NoUnit));
    assert_eq!(parse_duration(""), Err(DurationError::NoUnit));
}

#[test]
fn stun_off() {
    assert!(is_off("off") && is_off("OFF") && is_off("oFf"));
    assert!(!is_off("0.0.0.0:3478") && !is_off("off ") && !is_off(""));
}

#[test]
fn mesh_key_files() {
    let text = format!(" {}\n", "aB".repeat(32));
    assert_eq!(parse_mesh_key(&text), Ok([0xab; 32]));
    assert_eq!(parse_mesh_key(&"00".repeat(32)), Ok([0; 32]));
    assert_eq!(parse_mesh_key("abab"), Err(MeshKeyError::Length));
    assert_eq!(parse_mesh_key("aba"), Err(MeshKeyError::Hex(HexError::OddLength)));
    assert_eq!(
        parse_mesh_key("zz"),
        Err(MeshKeyError::Hex(HexError::InvalidHexCharacter { c: 'z', index: 0 }))
    );
}

#[test]
fn restarts() {
    assert_eq!(restart_times(5000), (5000, 15000));
    assert_eq!(restart_times(u32::MAX as u128), (u32::MAX, u32::MAX));
    assert_eq!(restart_times(u128::MAX), (u32::MAX, u32::MAX));
}

#[test]
fn mesh_keys_in_hexadecimal() {
    assert_eq!(mesh_key_from_hex(&"aB".repeat(32)), Ok([0xab; 32]));
    assert_eq!(mesh_key_from_hex("ab"), Err(MeshKeyError::Length));
    assert_eq!(
        mesh_key_from_hex(&format!(" {}\n", "aB".repeat(32))),
        Err(MeshKeyError::Hex(HexError::InvalidHexCharacter { c: ' ', index: 0 }))
    );
}

#[test]
fn white_space_is_trimmed() {
    for space in ["\u{9}", "\u{85}", "\u{a0}", "\u{1680}", "\u{200a}", "\u{2029}", "\u{3000}"] {
        let text = format!("{space} {}{space}\r\n", "00".repeat(32));
        assert_eq!(parse_mesh_key(&text), Ok([0; 32]), "{space:?}");
    }
    assert_eq!(parse_mesh_key(" \t\n"), Err(MeshKeyError::Length));
    let inner = format!("{} {}", "00".repeat(16), "00".repeat(16));
    assert!(parse_mesh_key(&inner).is_err());
    assert!(parse_mesh_key(&format!("\u{200b}{}", "00".repeat(32))).is_err());
}
