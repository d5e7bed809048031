use mathjax_escape::split::split_inclusive;
use mathjax_escape::Prep;

#[test]
fn split_inclusive_test() {
    let s = r"don't escape → \\, _, \$ \\ \$";
    assert_eq!(split_inclusive(s, "$", true), vec![s.to_string()]);

    let s = r"foo\$a\$b$x$";
    assert_eq!(
        split_inclusive(s, "$", true),
        vec![
            s[0..10].to_string(), // foo\$a\$b$
            s[10..].to_string()   // x$
        ]
    );

    let s = r"$x$";
    assert_eq!(
        split_inclusive(s, "$", true),
        vec![
            s[0..1].to_string(), // $
            s[1..].to_string()   // x$
        ]
    );

    let s = r"foo\$a\$b$x$";
    assert_eq!(
        split_inclusive(s, "$", false),
        vec![
            s[0..5].to_string(),  // foo\$
            s[5..8].to_string(),  // a\$
            s[8..10].to_string(), // b$
            s[10..].to_string()   // x$
        ]
    );
}

#[test]
fn escape_special_chars_for_mathjax_test() {
    let s = r"don't escape → \\, _, \$ \\ \$";
    assert_eq!(Prep::escape_special_chars_for_mathjax(s), s.to_string());

    let s = r"$\begin{align} f &= \sigma (x + 1) \label{eq:hoge} \\ &= \sigma (1 + x) \end{align}$";
    assert_eq!(
        Prep::escape_special_chars_for_mathjax(s),
        r"$\begin{align} f &= \sigma (x + 1) \label{eq:hoge} \\\\ &= \sigma (1 + x) \end{align}$"
            .to_string()
    );

    let s =
        r"$$\begin{align} f &= \sigma (x + 1) \label{eq:hoge} \\ &= \sigma (1 + x) \end{align}$$";
    assert_eq!(
        Prep::escape_special_chars_for_mathjax(s),
        r"$$\begin{align} f &= \sigma (x + 1) \label{eq:hoge} \\\\ &= \sigma (1 + x) \end{align}$$"
            .to_string()
    );

    let s = r"$t_n=max({t_{rap}}_n,{t_{tar}}_{n}+t_{mis}\frac{{t_{res}}_n}{t_{res}})$";
    assert_eq!(
        Prep::escape_special_chars_for_mathjax(s),
        r"$t\_n=max({t\_{rap}}\_n,{t\_{tar}}\_{n}+t\_{mis}\frac{{t\_{res}}\_n}{t\_{res}})$"
            .to_string()
    );

    let s = r"\$←ドルマーク。$\bm{x}$です。$$\begin{align} f &= \sigma (x + 1) \label{eq:hoge} \\ &= \sigma (1 + x) \end{align}$$いぇい";
    assert_eq!(
        Prep::escape_special_chars_for_mathjax(s),
        r"\$←ドルマーク。$\bm{x}$です。$$\begin{align} f &= \sigma (x + 1) \label{eq:hoge} \\\\ &= \sigma (1 + x) \end{align}$$いぇい".to_string()
    );
}
