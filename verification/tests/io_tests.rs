use colored::Color;
use math_strat::io::{count_label, field_line, format_count, label, pad_left_text, status_line};

#[test]
fn count_label_joins_count_and_total() {
    assert_eq!(count_label("7", 10), "7/10 шт");
    assert_eq!(count_label("", 0), "/0 шт");
}

#[test]
fn colored_text_follows_the_override() {
    colored::control::set_override(false);
    assert_eq!(format_count(3, 24), "3/24 шт");
    assert_eq!(status_line("warning:", Color::Yellow, "Пустой ввод."), "    warning: Пустой ввод.");
    assert_eq!(field_line("Стоимость", Color::Green, "12.5"), "   Стоимость 12.5");
    assert_eq!(status_line("a-very-long-label", Color::Red, "x"), "a-very-long-label x");
    assert_eq!(status_line("\u{1b}x", Color::Red, "m"), "          \u{1b}x m");
    colored::control::set_override(true);
    assert_eq!(format_count(3, 24), "\u{1b}[1m3\u{1b}[0m/24 шт");
    assert_eq!(status_line("warning:", Color::Yellow, "m"), "\u{1b}[1;33m    warning:\u{1b}[0m m");
    assert_eq!(label("ok", Color::Green).to_string(), "\u{1b}[1;32mok\u{1b}[0m");
    colored::control::unset_override();
}

#[test]
fn pad_left_text_counts_characters() {
    assert_eq!(pad_left_text("ab", 5), "   ab");
    assert_eq!(pad_left_text("Стоимость", 12), "   Стоимость");
    assert_eq!(pad_left_text("too long", 3), "too long");
    assert_eq!(pad_left_text("", 0), "");
}
