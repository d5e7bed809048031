use mathjax_escape::split::split_inclusive;
use mathjax_escape::Prep;

#[test]
fn split_concatenation_reproduces_input() {
    let cases = [
        r"a$b$c\$d$e",
        r"no delimiter at all",
        r"$",
        r"\$",
        r"ends mid escape \$",
        "",
        r"$$a$$b$$",
    ];
    for s in cases {
        assert_eq!(split_inclusive(s, "$", true).concat(), s);
        assert_eq!(split_inclusive(s, "$", false).concat(), s);
        assert_eq!(split_inclusive(s, "$$", true).concat(), s);
    }
}

#[test]
fn escaped_delimiter_is_no_boundary() {
    assert_eq!(
        split_inclusive(r"a\$b$c$", "$", true),
        vec![r"a\$b$".to_string(), "c$".to_string()]
    );
}

#[test]
fn escaped_double_delimiter_is_no_boundary() {
    assert_eq!(
        split_inclusive(r"a\$$b$$c", "$$", true),
        vec![r"a\$$b$$".to_string(), "c".to_string()]
    );
}

#[test]
fn empty_input_yields_no_segments() {
    assert_eq!(split_inclusive("", "$", true), Vec::<String>::new());
    assert_eq!(Prep::escape_special_chars_for_mathjax(""), "".to_string());
}

#[test]
fn outside_segments_are_unchanged() {
    assert_eq!(
        Prep::escape_special_chars_for_mathjax_with_delimiter("x_y$a_b$z_w", "$"),
        r"x_y$a\_b$z_w".to_string()
    );
}

#[test]
fn substitution_order_backslashes_before_underscores() {
    assert_eq!(
        Prep::escape_special_chars_for_mathjax(r"$a\\_b$"),
        r"$a\\\\\_b$".to_string()
    );
}

#[test]
fn escaped_delimiter_keeps_region_closed() {
    assert_eq!(
        Prep::escape_special_chars_for_mathjax(r"\$literal$x_1$"),
        r"\$literal$x\_1$".to_string()
    );
}

#[test]
fn unterminated_region_still_substituted() {
    assert_eq!(
        Prep::escape_special_chars_for_mathjax("foo$b_ar"),
        r"foo$b\_ar".to_string()
    );
}

#[test]
fn composed_passes_handle_both_region_kinds() {
    assert_eq!(
        Prep::escape_special_chars_for_mathjax("$$a_b$$ and $c_d$"),
        r"$$a\_b$$ and $c\_d$".to_string()
    );
}

#[test]
fn maximal_backslash_pair_runs_double() {
    assert_eq!(
        Prep::escape_special_chars_for_mathjax(r"$a\\\\b$"),
        r"$a\\\\\\\\b$".to_string()
    );
}

#[test]
fn supports_renderer_html_only() {
    let pre = Prep::new();
    assert!(pre.supports_renderer("html"));
    assert!(!pre.supports_renderer("markdown"));
    assert!(!pre.supports_renderer(""));
}
