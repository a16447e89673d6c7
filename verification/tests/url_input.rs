use hiddenmate::sfen_source::{sfen_text, SfenSourceError};

#[test]
fn viewer_path_reads_underscores_as_spaces() {
    let r = sfen_text("https://example.com/fmrs/9/9/kS7/9/1L7/9/9/9/9_b_2r_1").unwrap();
    assert_eq!(r, "9/9/kS7/9/1L7/9/9/9/9 b 2r 1");
}

#[test]
fn sfen_query_parameter_is_decoded() {
    let r = sfen_text("https://example.com/viewer?x=1&sfen=9%2F9+b+-+1&sfen=other").unwrap();
    assert_eq!(r, "9/9 b - 1");
}

#[test]
fn bare_viewer_prefix_falls_back_to_the_query() {
    let r = sfen_text("https://example.com/fmrs/?sfen=abc").unwrap();
    assert_eq!(r, "abc");
}

#[test]
fn plain_text_passes_through() {
    let r = sfen_text("9/9/kS7/9/1L7/9/9/9/9 b - 1").unwrap();
    assert_eq!(r, "9/9/kS7/9/1L7/9/9/9/9 b - 1");
}

#[test]
fn url_without_position_is_refused() {
    let e = sfen_text("https://example.com/fmrs/").unwrap_err();
    assert_eq!(e, SfenSourceError::NoSfen);
    assert_eq!(e.to_string(), "no sfen query parameter or path");
}

#[test]
fn text_starting_with_http_that_is_no_url_is_refused() {
    assert!(matches!(sfen_text("httpnotaurl"), Err(SfenSourceError::BadUrl(_))));
    assert!(matches!(sfen_text("http://"), Err(SfenSourceError::BadUrl(_))));
}
