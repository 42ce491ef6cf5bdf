//! Lines and labels shown to the user.
use vstd::prelude::*;
use colored::{Color, ColoredString, Colorize};
use crate::format::{decimal, lemma_decimal_has_no_escape, push_decimal};

verus! {

#[verifier::external_type_specification]
#[verifier::external_body]
pub struct ExColor(Color);

#[verifier::external_type_specification]
#[verifier::external_body]
pub struct ExColoredString(ColoredString);

/// The escape sequence that turns bold text on.
pub open spec fn bold_on() -> Seq<char> {
    seq!['\x1b', '[', '1', 'm']
}

/// The escape sequence that resets the text style.
pub open spec fn style_reset() -> Seq<char> {
    seq!['\x1b', '[', '0', 'm']
}

/// `text` in bold through `colored`: `Colorize::bold` displayed with `{}`.
/// Whether colored emits escape sequences depends on the environment
/// (`CLICOLOR`, `NO_COLOR`, `CLICOLOR_FORCE` and whether standard output is
/// a terminal), so the text is either plain or wrapped in the bold and reset
/// sequences.
#[verifier::external_body]
fn bold(text: &str) -> (shown: String)
    requires
        !text@.contains('\x1b'),
    ensures
        shown@ == text@ || shown@ == bold_on() + text@ + style_reset(),
{
    text.bold().to_string()
}

/// The text of a count of chosen cards out of `total`, the chosen count
/// shown as `chosen_shown`.
pub open spec fn count_text(chosen_shown: Seq<char>, total: nat) -> Seq<char> {
    chosen_shown + "/"@ + decimal(total) + " шт"@
}

/// "`chosen_shown`/`total` шт".
pub fn count_label(chosen_shown: &str, total: u32) -> (text: String)
    ensures
        text@ == count_text(chosen_shown@, total as nat),
{
    let mut text = String::from_str(chosen_shown);
    text.append("/");
    push_decimal(&mut text, total as u64);
    text.append(" шт");
    text
}

/// "`chosen`/`total` шт", the chosen count in bold when the terminal shows
/// colors.
pub fn format_count(chosen: u8, total: u32) -> (text: String)
    ensures
        text@ == count_text(decimal(chosen as nat), total as nat) || text@ == count_text(
            bold_on() + decimal(chosen as nat) + style_reset(),
            total as nat,
        ),
{
    let mut chosen_text = String::new();
    push_decimal(&mut chosen_text, chosen as u64);
    proof {
        lemma_decimal_has_no_escape(chosen as nat);
        assert(chosen_text@ =~= decimal(chosen as nat));
    }
    let shown = bold(chosen_text.as_str());
    count_label(shown.as_str(), total)
}

/// `text` padded on the left with spaces to `width` characters.
pub open spec fn pad_left(text: Seq<char>, width: nat) -> Seq<char> {
    if text.len() < width {
        Seq::new((width - text.len()) as nat, |i: int| ' ') + text
    } else {
        text
    }
}

/// `text` in bold and in `color`: `Colorize::color` followed by
/// `Colorize::bold` of colored. Nothing is stated of the styled string,
/// which only colored reads.
#[verifier::external_body]
pub fn label(text: &str, color: Color) -> ColoredString {
    text.color(color).bold()
}

/// `text` padded on the left with spaces to `width` characters.
pub fn pad_left_text(text: &str, width: usize) -> (padded: String)
    ensures
        padded@ == pad_left(text@, width as nat),
{
    let len = text.unicode_len();
    let mut padded = String::new();
    let mut count: usize = len;
    while count < width
        invariant
            len == text@.len(),
            len <= count <= width || (count == len && len >= width),
            padded@ == Seq::new((count - len) as nat, |i: int| ' '),
        decreases width - count,
    {
        proof {
            reveal_strlit(" ");
        }
        padded.append(" ");
        assert(padded@ =~= Seq::new((count + 1 - len) as nat, |i: int| ' '));
        count = count + 1;
    }
    padded.append(text);
    assert(padded@ =~= pad_left(text@, width as nat));
    padded
}

/// `text` in `color` and bold through colored: `Colorize::color` and
/// `Colorize::bold`, displayed with `{}`. When the environment lets colored
/// emit escape sequences (`CLICOLOR`, `NO_COLOR`, `CLICOLOR_FORCE`, whether
/// standard output is a terminal), the text is preceded by a style sequence
/// that starts with the escape character and followed by the reset
/// sequence; the text in between is `text` itself when it holds no escape
/// character (colored only rewrites reset sequences inside it). The style
/// sequence itself, which depends on the color and on `COLORTERM`, is not
/// stated.
#[verifier::external_body]
fn bold_in_color(text: &str, color: Color) -> (shown: String)
    ensures
        shown@ == text@ || exists|style: Seq<char>, body: Seq<char>|
            #![trigger style + body]
            style.len() > 0 && style[0] == '\x1b' && shown@ == style + body + style_reset() && (
            !text@.contains('\x1b') ==> body == text@),
{
    text.color(color).bold().to_string()
}

/// The text of a status line: the shown label, a space and the message.
pub open spec fn line_text(label_shown: Seq<char>, message: Seq<char>) -> Seq<char> {
    label_shown + " "@ + message
}

/// A status line: `text` as a bold label in `color`, right-aligned to 12
/// characters, then a space and `message`.
pub fn status_line(text: &str, color: Color, message: &str) -> (line: String)
    ensures
        line@ == line_text(pad_left(text@, 12), message@) || exists|style: Seq<char>, body: Seq<char>|
            #![trigger style + body]
            style.len() > 0 && style[0] == '\x1b' && line@ == line_text(style + body + style_reset(), message@)
                && (!text@.contains('\x1b') ==> body == pad_left(text@, 12)),
{
    let padded = pad_left_text(text, 12);
    proof {
        if !text@.contains('\x1b') {
            assert(!padded@.contains('\x1b')) by {
                if padded@.contains('\x1b') {
                    let k = choose|k: int| 0 <= k < padded@.len() && padded@[k] == '\x1b';
                    if text@.len() < 12 {
                        let spaces = (12 - text@.len()) as int;
                        if k >= spaces {
                            assert(text@[k - spaces] == '\x1b');
                        }
                    }
                }
            }
        }
    }
    let shown = bold_in_color(padded.as_str(), color);
    let mut line = shown;
    line.append(" ");
    line.append(message);
    proof {
        if !(shown@ == padded@) {
            let (style, body) = choose|style: Seq<char>, body: Seq<char>|
                #![trigger style + body]
                style.len() > 0 && style[0] == '\x1b' && shown@ == style + body + style_reset() && (
                !padded@.contains('\x1b') ==> body == padded@);
            assert(line@ == line_text(style + body + style_reset(), message@));
        }
    }
    line
}

/// A field line: `text` as a bold label in `color`, right-aligned to 12
/// characters, then a space and `value`.
pub fn field_line(text: &str, color: Color, value: &str) -> (line: String)
    ensures
        line@ == line_text(pad_left(text@, 12), value@) || exists|style: Seq<char>, body: Seq<char>|
            #![trigger style + body]
            style.len() > 0 && style[0] == '\x1b' && line@ == line_text(style + body + style_reset(), value@)
                && (!text@.contains('\x1b') ==> body == pad_left(text@, 12)),
{
    status_line(text, color, value)
}

} // verus!
