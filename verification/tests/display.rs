use linepick::line::Line;
use linepick::render::{Colors, Renderer, RendererConfig};
use linepick::score::{calculate_score, Score};
use termion::{clear, color, cursor, style};

fn default_colors() -> (Colors, Colors) {
    (
        Colors {
            normal: format!("{}", color::Fg(color::Reset)),
            selected: format!("{}{}", color::Fg(color::Reset), style::Invert),
            matched: format!("{}", color::Fg(color::Red)),
            matched_selected: format!("{}", color::Fg(color::Red)),
            tag: format!("{}", color::Fg(color::LightBlue)),
        },
        Colors {
            normal: format!("{}", color::Bg(color::Reset)),
            selected: String::new(),
            matched: String::new(),
            matched_selected: String::new(),
            tag: String::new(),
        },
    )
}

fn config(colors: &(Colors, Colors)) -> RendererConfig<'_> {
    RendererConfig {
        width: 20,
        height: 20,
        fg: &colors.0,
        bg: &colors.1,
        match_count_length: 5,
    }
}

#[test]
fn test_render_search_line() {
    let colors = default_colors();
    let config = config(&colors);
    let no_scores: Vec<Score> = vec![];
    let mut r = Renderer::new(&config, &no_scores, String::from("foobar"), 0, &[]);
    let expected = format!("12345 > foobar{}", clear::UntilNewline);
    assert_eq!(r.render_search_line(12345), expected);

    // the score count is right-justified
    let expected = format!("  123 > foobar{}", clear::UntilNewline);
    assert_eq!(r.render_search_line(123), expected);

    // the row is truncated to the viewport width
    r.width = 11;
    let expected = format!("  123 > foo{}", clear::UntilNewline);
    assert_eq!(r.render_search_line(123), expected);
}

#[test]
fn test_highlight_line() {
    let colors = default_colors();
    let config = config(&colors);
    let no_scores: Vec<Score> = vec![];
    let mut r = Renderer::new(&config, &no_scores, String::from("foobar"), 0, &[]);
    let line = Line::from("foobarbaz");
    let score = calculate_score(&line, &['b', 'a', 'r']).unwrap();
    let expected = format!(
        "{}{}foo{}bar{}{}baz{}{}{}{}",
        color::Fg(color::Reset),
        color::Bg(color::Reset),
        color::Fg(color::Red),
        color::Fg(color::Reset),
        color::Bg(color::Reset),
        color::Fg(color::Reset),
        color::Bg(color::Reset),
        style::Reset,
        clear::UntilNewline
    );
    assert_eq!(r.highlight_line(&score, false), expected);

    // highlighting the selected row uses the selected roles
    let expected = format!(
        "{}{}{}{}foo{}bar{}{}baz{}{}{}{}",
        color::Fg(color::Reset),
        color::Bg(color::Reset),
        color::Fg(color::Reset),
        style::Invert,
        color::Fg(color::Red),
        color::Fg(color::Reset),
        style::Invert,
        color::Fg(color::Reset),
        color::Bg(color::Reset),
        style::Reset,
        clear::UntilNewline
    );
    assert_eq!(r.highlight_line(&score, true), expected);

    // truncation to the viewport width
    r.width = 7;
    let expected = format!(
        "{}{}foo{}bar{}{}b{}{}{}{}",
        color::Fg(color::Reset),
        color::Bg(color::Reset),
        color::Fg(color::Red),
        color::Fg(color::Reset),
        color::Bg(color::Reset),
        color::Fg(color::Reset),
        color::Bg(color::Reset),
        style::Reset,
        clear::UntilNewline
    );
    assert_eq!(r.highlight_line(&score, false), expected);

    // tabs expand to the next multiple-of-eight column
    r.width = 100;
    let line = Line::from("f\too\tbar");
    let score = calculate_score(&line, &['b', 'a', 'r']).unwrap();
    let expected = format!(
        "{}{}f       oo      {}bar{}{}{}{}",
        color::Fg(color::Reset),
        color::Bg(color::Reset),
        color::Fg(color::Red),
        color::Fg(color::Reset),
        color::Bg(color::Reset),
        style::Reset,
        clear::UntilNewline
    );
    r.width = 20;
    assert_eq!(r.highlight_line(&score, false), expected);

    // tab expansion and truncation together
    r.width = 4;
    let line = Line::from("foo\tbar");
    let score = calculate_score(&line, &['b', 'a', 'r']).unwrap();
    let expected = format!(
        "{}{}foo {}{}{}{}",
        color::Fg(color::Reset),
        color::Bg(color::Reset),
        color::Fg(color::Reset),
        color::Bg(color::Reset),
        style::Reset,
        clear::UntilNewline
    );
    assert_eq!(r.highlight_line(&score, false), expected);

    // a tagged row is prefixed with the tag marker
    r.width = config.width;
    r.tagged = &[9];
    let line = Line::new(9, String::from("foobarbaz"));
    let score = calculate_score(&line, &['b', 'a', 'r']).unwrap();
    let expected = format!(
        "{}{} + {}{}{}{}foo{}bar{}{}baz{}{}{}{}",
        colors.0.tag,
        colors.1.tag,
        color::Fg(color::Reset),
        color::Bg(color::Reset),
        color::Fg(color::Reset),
        color::Bg(color::Reset),
        color::Fg(color::Red),
        color::Fg(color::Reset),
        color::Bg(color::Reset),
        color::Fg(color::Reset),
        color::Bg(color::Reset),
        style::Reset,
        clear::UntilNewline
    );
    assert_eq!(r.highlight_line(&score, false), expected);
}

#[test]
fn test_render_whole_frame() {
    let colors = default_colors();
    let config = RendererConfig {
        width: 40,
        height: 3,
        fg: &colors.0,
        bg: &colors.1,
        match_count_length: 1,
    };
    let lines = vec![
        Line::new(0, String::from("one")),
        Line::new(1, String::from("two")),
        Line::new(2, String::from("three")),
    ];
    let scores: Vec<Score> = lines
        .iter()
        .filter_map(|l| calculate_score(l, &[]))
        .collect();
    let r = Renderer::new(&config, &scores, String::new(), 0, &[]);
    let row = |text: &str, selected: bool| -> String {
        if selected {
            format!(
                "{}{}{}{}{}{}{}{}{}",
                color::Fg(color::Reset),
                color::Bg(color::Reset),
                color::Fg(color::Reset),
                style::Invert,
                text,
                color::Fg(color::Reset),
                color::Bg(color::Reset),
                style::Reset,
                clear::UntilNewline
            )
        } else {
            format!(
                "{}{}{}{}{}{}{}",
                color::Fg(color::Reset),
                color::Bg(color::Reset),
                text,
                color::Fg(color::Reset),
                color::Bg(color::Reset),
                style::Reset,
                clear::UntilNewline
            )
        }
    };
    // height 3 leaves two content rows under the status row
    let expected = format!(
        "\r\n{}\r\n{}{}{}\r3 > {}",
        row("one", true),
        row("two", false),
        clear::AfterCursor,
        cursor::Up(2),
        clear::UntilNewline
    );
    assert_eq!(r.render(), expected);
}

#[test]
fn test_wide_characters_not_split() {
    // a two-column character that would cross the viewport edge is not
    // emitted at all
    let colors = default_colors();
    let mut config = config(&colors);
    config.width = 3;
    let no_scores: Vec<Score> = vec![];
    let r = Renderer::new(&config, &no_scores, String::new(), 0, &[]);
    let line = Line::from("日本語");
    let score = calculate_score(&line, &[]).unwrap();
    let expected = format!(
        "{}{}日{}{}{}{}",
        color::Fg(color::Reset),
        color::Bg(color::Reset),
        color::Fg(color::Reset),
        color::Bg(color::Reset),
        style::Reset,
        clear::UntilNewline
    );
    assert_eq!(r.highlight_line(&score, false), expected);
}

#[test]
fn test_renderer_clear() {
    let expected = format!("\r{}", clear::AfterCursor);
    assert_eq!(Renderer::clear(), expected);
}
