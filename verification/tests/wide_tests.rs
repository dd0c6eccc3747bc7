use markup_escape::escape_wide;
use markup_escape::lut_replace;
use markup_escape::units_to_utf8;
use markup_escape::EscapeError;

#[test]
fn wide_no_change_returns_none() {
    let units: Vec<u32> = "héllo ✓".chars().map(|c| c as u32).collect();
    assert_eq!(Ok(None), escape_wide(units.as_slice()));
}

#[test]
fn wide_no_change_skips_validation() {
    // Nothing needs escaping, so the conversion (and its validation) never
    // runs: a lone surrogate is not rejected here.
    let units: Vec<u32> = vec![0x61, 0xD800, 0x62];
    assert_eq!(Ok(None), escape_wide(units.as_slice()));
}

#[test]
fn wide_escaped_output_is_utf8_bytes() {
    let units: Vec<u32> = "aé<".chars().map(|c| c as u32).collect();
    let out = escape_wide(units.as_slice()).unwrap().unwrap();
    assert_eq!(out, b"a\xC3\xA9&lt;".to_vec());
}

#[test]
fn wide_invalid_unit_is_reported() {
    let units: Vec<u32> = vec![b'<' as u32, 0xD800];
    assert_eq!(
        Err(EscapeError::InvalidCodeUnit { pos: 1 }),
        escape_wide(units.as_slice())
    );
    let units16: Vec<u16> = vec![0xDC00, b'&' as u16];
    assert_eq!(
        Err(EscapeError::InvalidCodeUnit { pos: 0 }),
        escape_wide(units16.as_slice())
    );
    let too_big: Vec<u32> = vec![0x110000, b'>' as u32];
    assert_eq!(
        Err(EscapeError::InvalidCodeUnit { pos: 0 }),
        escape_wide(too_big.as_slice())
    );
}

#[test]
fn units_to_utf8_matches_std_encoding() {
    let text = "aé✓𝄞";
    let units: Vec<u32> = text.chars().map(|c| c as u32).collect();
    assert_eq!(units_to_utf8(units.as_slice()).unwrap(), text.as_bytes());
}

#[test]
fn units_to_utf8_rejects_first_invalid() {
    let units: Vec<u32> = vec![0x61, 0xDFFF, 0xD800];
    assert_eq!(
        Err(EscapeError::InvalidCodeUnit { pos: 1 }),
        units_to_utf8(units.as_slice())
    );
}

#[test]
fn width_equivalence_on_mixed_text() {
    // The same text with escape characters and non-ASCII content, stored at
    // the three widths, must escape to identical final bytes.
    let text = "a<bé&c✓'d\"e>ö";
    let from_str = lut_replace(text).unwrap();

    let units16: Vec<u16> = text.encode_utf16().collect();
    let out16 = escape_wide(units16.as_slice()).unwrap().unwrap();

    let units32: Vec<u32> = text.chars().map(|c| c as u32).collect();
    let out32 = escape_wide(units32.as_slice()).unwrap().unwrap();

    assert_eq!(from_str.as_bytes(), out16.as_slice());
    assert_eq!(out16, out32);
    assert_eq!(from_str, "a&lt;bé&amp;c✓&#39;d&#34;e&gt;ö");
}

#[test]
fn width_equivalence_large() {
    let text = "xé<✓>".repeat(300);
    let from_str = lut_replace(text.as_str()).unwrap();
    let units32: Vec<u32> = text.chars().map(|c| c as u32).collect();
    let out32 = escape_wide(units32.as_slice()).unwrap().unwrap();
    assert_eq!(from_str.as_bytes(), out32.as_slice());
    assert_eq!(from_str, "xé&lt;✓&gt;".repeat(300));
}
