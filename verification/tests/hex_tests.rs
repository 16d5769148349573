use arena::world::Color;

#[test]
fn to_hex_writes_two_digits_per_component() {
    assert_eq!(Color { r: 0, g: 0, b: 0 }.to_hex(), "#000000");
    assert_eq!(Color { r: 255, g: 255, b: 255 }.to_hex(), "#ffffff");
    assert_eq!(Color { r: 255, g: 0, b: 10 }.to_hex(), "#ff000a");
    assert_eq!(Color { r: 18, g: 52, b: 86 }.to_hex(), "#123456");
    assert_eq!(Color { r: 171, g: 205, b: 239 }.to_hex(), "#abcdef");
    assert_eq!(Color { r: 9, g: 16, b: 254 }.to_hex(), "#0910fe");
}

#[test]
fn to_hex_agrees_with_the_standard_formatter() {
    for v in 0..=255u8 {
        let c = Color { r: v, g: v.wrapping_mul(7), b: 255 - v };
        assert_eq!(c.to_hex(), format!("#{:02x}{:02x}{:02x}", c.r, c.g, c.b));
    }
}
