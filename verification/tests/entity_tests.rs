use markup_escape::byte_needs_escape;
use markup_escape::lut_replace;
use markup_escape::needs_sanitize;
use markup_escape::replacement_index;

#[test]
fn entity_quote() {
    assert_eq!("&#34;", lut_replace("\"").unwrap());
}

#[test]
fn entity_amp() {
    assert_eq!("&amp;", lut_replace("&").unwrap());
}

#[test]
fn entity_apos() {
    assert_eq!("&#39;", lut_replace("'").unwrap());
}

#[test]
fn entity_lt() {
    assert_eq!("&lt;", lut_replace("<").unwrap());
}

#[test]
fn entity_gt() {
    assert_eq!("&gt;", lut_replace(">").unwrap());
}

#[test]
fn scan_none_when_clean() {
    assert_eq!(None, needs_sanitize(b"abcdefgh"));
    assert_eq!(None, needs_sanitize(b""));
    assert_eq!(None, needs_sanitize(b"abc"));
}

#[test]
fn scan_reports_chunk_base() {
    // The first escape byte sits at position 2, inside the full four-byte
    // chunk that starts at 0.
    assert_eq!(Some(0), needs_sanitize(b"ab<defgh"));
    // First escape byte at position 4: chunk base 4.
    assert_eq!(Some(4), needs_sanitize(b"abcd<fgh"));
    // Position 5 is in the chunk that starts at 4.
    assert_eq!(Some(4), needs_sanitize(b"abcde<gh"));
}

#[test]
fn scan_reports_exact_position_in_remainder() {
    // Length 7: the last full chunk ends at 4, position 6 is reported as is.
    assert_eq!(Some(6), needs_sanitize(b"abcdef<"));
    assert_eq!(Some(4), needs_sanitize(b"abcd>"));
}

#[test]
fn non_ascii_untouched() {
    assert!(lut_replace("héllo wörld ✓").is_none());
    assert_eq!(
        "h&lt;llo w&amp;rld é✓",
        lut_replace("h<llo w&rld é✓").unwrap()
    );
}

#[test]
fn classification_table_indices() {
    assert_eq!(0, replacement_index(b'"'));
    assert_eq!(1, replacement_index(b'&'));
    assert_eq!(2, replacement_index(b'\''));
    assert_eq!(3, replacement_index(b'<'));
    assert_eq!(4, replacement_index(b'>'));
    for b in 0u16..256 {
        let b = b as u8;
        let is_escape = matches!(b, b'"' | b'&' | b'\'' | b'<' | b'>');
        assert_eq!(is_escape, byte_needs_escape(b));
        assert_eq!(is_escape, replacement_index(b) >= 0);
    }
}
