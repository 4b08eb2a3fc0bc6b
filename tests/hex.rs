use anatsui_core::hex::{hex_of_channels, parse_hex_channels};

#[test]
fn hex_colors_parse_into_channel_bytes() {
    assert_eq!(parse_hex_channels("#FF8000"), Some((255, 128, 0, 255)));
    assert_eq!(parse_hex_channels("#ff800080"), Some((255, 128, 0, 128)));
    assert_eq!(parse_hex_channels("##00ff00"), Some((0, 255, 0, 255)));
    assert_eq!(parse_hex_channels("00ff00"), Some((0, 255, 0, 255)));
    assert_eq!(parse_hex_channels("zz00ffzz"), Some((0, 0, 255, 255)));
    assert_eq!(parse_hex_channels("+f0000"), Some((15, 0, 0, 255)));
    assert_eq!(parse_hex_channels("#abc"), None);
    assert_eq!(parse_hex_channels(""), None);
    assert_eq!(parse_hex_channels("#ff00é0"), None);
}

#[test]
fn channel_bytes_print_as_hex() {
    assert_eq!(hex_of_channels(255, 128, 0, 255), "#ff8000ff");
    assert_eq!(hex_of_channels(0, 1, 16, 171), "#000110ab");
}
