use mandelbrot::parse::{parse_bounds, parse_usize, split_first_at};

#[test]
fn parse_bounds_reads_width_and_height() {
    assert_eq!(parse_bounds("1000x750"), Some((1000, 750)));
    assert_eq!(parse_bounds("100x75"), Some((100, 75)));
    assert_eq!(parse_bounds("1x1"), Some((1, 1)));
    assert_eq!(parse_bounds("+10x+20"), Some((10, 20)));
}

#[test]
fn parse_bounds_rejects_malformed_tokens() {
    assert_eq!(parse_bounds(""), None);
    assert_eq!(parse_bounds("x"), None);
    assert_eq!(parse_bounds("10x"), None);
    assert_eq!(parse_bounds("x10"), None);
    assert_eq!(parse_bounds("1000"), None);
    assert_eq!(parse_bounds("10,20"), None);
    assert_eq!(parse_bounds("10x20x30"), None);
    assert_eq!(parse_bounds("-1x5"), None);
    assert_eq!(parse_bounds("1 x5"), None);
    assert_eq!(parse_bounds("0.5x0.1"), None);
}

#[test]
fn parse_bounds_rejects_zero_sizes() {
    assert_eq!(parse_bounds("0x0"), None);
    assert_eq!(parse_bounds("0x750"), None);
    assert_eq!(parse_bounds("1000x0"), None);
    assert_eq!(parse_bounds("+0x5"), None);
}

#[test]
fn parse_bounds_rejects_overflow() {
    assert_eq!(parse_bounds("99999999999999999999999x1"), None);
}

#[test]
fn parse_usize_follows_from_str() {
    for text in ["0", "7", "42", "+42", "007", "18446744073709551615", "", "+", "-", "-3", "1a", "+-1", "18446744073709551616"] {
        assert_eq!(parse_usize(text), text.parse::<usize>().ok(), "{}", text);
    }
    assert_eq!(parse_usize("1234"), Some(1234));
}

#[test]
fn split_first_at_cuts_at_first_separator() {
    assert_eq!(split_first_at("-1.20,0.35", ','), Some(("-1.20", "0.35")));
    assert_eq!(split_first_at("a,b,c", ','), Some(("a", "b,c")));
    assert_eq!(split_first_at(",", ','), Some(("", "")));
    assert_eq!(split_first_at("", ','), None);
    assert_eq!(split_first_at("1000x750", ','), None);
    assert_eq!(split_first_at("é,ü", ','), Some(("é", "ü")));
}
