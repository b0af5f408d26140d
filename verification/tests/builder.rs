use easy_sgr::discrete::{Color, DiscreteSGR, PartialSGR, Style};
use easy_sgr::parse::parse_string;
use easy_sgr::writer::{AnsiWriter, FmtWriter, IoWriter};

#[test]
fn builder_sequence() {
    let mut w = FmtWriter::new(String::new());
    w.escape();
    w.write_code(1);
    w.write_code(4);
    w.end();
    assert_eq!(w.into_inner(), "\x1b[1;4m");
}

#[test]
fn fmt_writer_resets_between_escapes() {
    let mut w = FmtWriter::new(String::new());
    w.escape();
    w.write_code(1);
    w.end();
    w.escape();
    w.write_code(4);
    w.end();
    assert_eq!(w.into_inner(), "\x1b[1m\x1b[4m");
}

#[test]
fn fmt_writer_appends_to_buffer() {
    let mut w = FmtWriter::new("plain ".to_string());
    w.write_str("text ");
    w.escape();
    w.write_code(0);
    w.end();
    assert_eq!(w.into_inner(), "plain text \x1b[0m");
}

#[test]
fn io_writer_bytes() {
    let mut w = IoWriter::new(Vec::new(), true);
    w.escape();
    w.write_code(38);
    w.write_code(5);
    w.write_code(255);
    w.end();
    assert_eq!(w.into_inner(), b"\x1b[38;5;255m".to_vec());
}

#[test]
fn io_writer_first_write_settable() {
    let mut w = IoWriter::new(Vec::new(), false);
    w.write_code(1);
    assert_eq!(w.into_inner(), b";1".to_vec());
}

#[test]
fn io_writer_escape_keeps_separator_state() {
    let mut w = IoWriter::new(Vec::new(), false);
    w.escape();
    w.write_code(1);
    w.end();
    assert_eq!(w.into_inner(), b"\x1b[;1m".to_vec());
}

#[test]
fn io_writer_raw_write() {
    let mut w = IoWriter::new(Vec::new(), true);
    let n = w.write(b"abc");
    assert_eq!(n, 3);
    w.flush();
    assert_eq!(w.into_inner(), b"abc".to_vec());
}

#[test]
fn write_all_separators() {
    let mut w = FmtWriter::new(String::new());
    w.escape();
    w.write_all(&[48, 2, 10, 20, 30]);
    w.end();
    assert_eq!(w.into_inner(), "\x1b[48;2;10;20;30m");
}

#[test]
fn style_codes_written() {
    let cases: Vec<(Style, &str)> = vec![
        (Style::Reset, "\x1b[0m"),
        (Style::Bold, "\x1b[1m"),
        (Style::Dim, "\x1b[2m"),
        (Style::Italic, "\x1b[3m"),
        (Style::Underline, "\x1b[4m"),
        (Style::Blinking, "\x1b[5m"),
        (Style::Inverse, "\x1b[7m"),
        (Style::Hidden, "\x1b[8m"),
        (Style::Strikethrough, "\x1b[9m"),
        (Style::NotBold, "\x1b[22m"),
        (Style::NotDim, "\x1b[22m"),
        (Style::NotItalic, "\x1b[23m"),
        (Style::NotUnderline, "\x1b[24m"),
        (Style::NotBlinking, "\x1b[25m"),
        (Style::NotInverse, "\x1b[27m"),
        (Style::NotHidden, "\x1b[28m"),
        (Style::NotStrikethrough, "\x1b[29m"),
    ];
    for (st, want) in cases {
        assert_eq!(DiscreteSGR::standard_display(&st), want);
    }
}

#[test]
fn color_codes_written() {
    assert_eq!(DiscreteSGR::standard_display(&Color::BlackFg), "\x1b[30m");
    assert_eq!(DiscreteSGR::standard_display(&Color::WhiteFg), "\x1b[37m");
    assert_eq!(DiscreteSGR::standard_display(&Color::DefaultFg), "\x1b[39m");
    assert_eq!(DiscreteSGR::standard_display(&Color::BlackBg), "\x1b[40m");
    assert_eq!(DiscreteSGR::standard_display(&Color::DefaultBg), "\x1b[49m");
    assert_eq!(DiscreteSGR::standard_display(&Color::ByteFg(255)), "\x1b[38;5;255m");
    assert_eq!(DiscreteSGR::standard_display(&Color::ByteBg(7)), "\x1b[48;5;7m");
    assert_eq!(DiscreteSGR::standard_display(&Color::RgbFg(0, 128, 0)), "\x1b[38;2;0;128;0m");
    assert_eq!(
        DiscreteSGR::standard_display(&Color::RgbBg(0, 128, 255)),
        "\x1b[48;2;0;128;255m"
    );
}

#[test]
fn partial_write_leaves_escape_open() {
    let mut w = FmtWriter::new(String::new());
    w.escape();
    PartialSGR::write(&Style::Bold, &mut w);
    PartialSGR::write(&Color::RedFg, &mut w);
    w.end();
    assert_eq!(w.into_inner(), "\x1b[1;31m");
}

#[test]
fn static_and_runtime_agree() {
    assert_eq!(
        parse_string("{+Bold}"),
        Some(DiscreteSGR::standard_display(&Style::Bold))
    );
    assert_eq!(
        parse_string("{-Bold}"),
        Some(DiscreteSGR::standard_display(&Style::NotBold))
    );
    assert_eq!(
        parse_string("{#RedFg}"),
        Some(DiscreteSGR::standard_display(&Color::RedFg))
    );
    assert_eq!(
        parse_string("{#f(255)}"),
        Some(DiscreteSGR::standard_display(&Color::ByteFg(255)))
    );
    assert_eq!(
        parse_string("{#f[ff]}"),
        Some(DiscreteSGR::standard_display(&Color::ByteFg(255)))
    );
    assert_eq!(
        parse_string("{#b(0,128,255)}"),
        Some(DiscreteSGR::standard_display(&Color::RgbBg(0, 128, 255)))
    );
    assert_eq!(
        parse_string("{#f[008000]}"),
        Some(DiscreteSGR::standard_display(&Color::RgbFg(0, 128, 0)))
    );
}
