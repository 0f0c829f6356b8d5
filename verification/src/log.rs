use vstd::prelude::*;
use owo_colors::OwoColorize;
use crate::color::{esc, strip_ansi_spec};

verus! {

/// Severity of a diagnostic line.
#[derive(Clone, Copy, PartialEq, Eq, Structural, Debug)]
pub enum LogLevel {
    Info,
    Warn,
    Error,
}

/// A diagnostic produced by the library; the caller decides where it goes.
#[derive(Debug)]
pub struct LogLine {
    pub level: LogLevel,
    pub message: String,
}

/// The ANSI SGR sequence `ESC [ code m`.
pub open spec fn sgr(code: Seq<char>) -> Seq<char> {
    seq![esc(), '['] + code + seq!['m']
}

/// `text` in bold with the foreground color `fg`, as owo-colors writes it:
/// bold on, color on, the text, color reset, all attributes reset.
pub open spec fn bold_fg(fg: Seq<char>, text: Seq<char>) -> Seq<char> {
    sgr(seq!['1']) + sgr(fg) + text + sgr(seq!['3', '9']) + sgr(seq!['0'])
}

/// owo-colors `text.green().bold().to_string()`: `ESC[1m`, `ESC[32m`, the
/// text, `ESC[39m`, `ESC[0m`.
#[verifier::external_body]
fn bold_green(text: &str) -> (r: String)
    ensures
        r@ == bold_fg(seq!['3', '2'], text@),
{
    text.green().bold().to_string()
}

/// owo-colors `text.yellow().bold().to_string()`: as `bold_green` with `33`.
#[verifier::external_body]
fn bold_yellow(text: &str) -> (r: String)
    ensures
        r@ == bold_fg(seq!['3', '3'], text@),
{
    text.yellow().bold().to_string()
}

/// owo-colors `text.red().bold().to_string()`: as `bold_green` with `31`.
#[verifier::external_body]
fn bold_red(text: &str) -> (r: String)
    ensures
        r@ == bold_fg(seq!['3', '1'], text@),
{
    text.red().bold().to_string()
}

/// The plain prefix of each level.
pub open spec fn prefix_of(level: LogLevel) -> Seq<char> {
    match level {
        LogLevel::Info => seq!['[', '+', ']'],
        LogLevel::Warn => seq!['[', '!', ']'],
        LogLevel::Error => seq!['[', 'X', ']'],
    }
}

/// The color code of each level: green, yellow, red.
pub open spec fn color_of(level: LogLevel) -> Seq<char> {
    match level {
        LogLevel::Info => seq!['3', '2'],
        LogLevel::Warn => seq!['3', '3'],
        LogLevel::Error => seq!['3', '1'],
    }
}

/// The line written for a message: the prefix (bold and colored when `color`),
/// a space, the message.
pub open spec fn log_text(level: LogLevel, msg: Seq<char>, color: bool) -> Seq<char> {
    let p = if color { bold_fg(color_of(level), prefix_of(level)) } else { prefix_of(level) };
    p + seq![' '] + msg
}

/// Formats a diagnostic line for standard error.
pub fn format_line(level: LogLevel, msg: &str, color: bool) -> (r: String)
    ensures
        r@ == log_text(level, msg@, color),
{
    let plain = match level {
        LogLevel::Info => "[+]",
        LogLevel::Warn => "[!]",
        LogLevel::Error => "[X]",
    };
    proof {
        reveal_strlit("[+]");
        reveal_strlit("[!]");
        reveal_strlit("[X]");
        assert(plain@ =~= prefix_of(level));
    }
    let mut r = if color {
        match level {
            LogLevel::Info => bold_green(plain),
            LogLevel::Warn => bold_yellow(plain),
            LogLevel::Error => bold_red(plain),
        }
    } else {
        String::from_str(plain)
    };
    r.push(' ');
    r.append(msg);
    r
}

/// The `[+]` line for an informative message.
pub fn info(msg: &str, color: bool) -> (r: String)
    ensures
        r@ == log_text(LogLevel::Info, msg@, color),
{
    format_line(LogLevel::Info, msg, color)
}

/// The `[!]` line for a warning.
pub fn warn(msg: &str, color: bool) -> (r: String)
    ensures
        r@ == log_text(LogLevel::Warn, msg@, color),
{
    format_line(LogLevel::Warn, msg, color)
}

/// The `[X]` line for an error.
pub fn error(msg: &str, color: bool) -> (r: String)
    ensures
        r@ == log_text(LogLevel::Error, msg@, color),
{
    format_line(LogLevel::Error, msg, color)
}

proof fn lemma_strip_sgr(code: Seq<char>, rest: Seq<char>)
    requires
        !code.contains('m'),
    ensures
        strip_ansi_spec(sgr(code) + rest) == strip_ansi_spec(rest),
{
    let s = sgr(code) + rest;
    let tail = s.skip(2);
    assert(tail =~= code + seq!['m'] + rest);
    crate::text::lemma_first_index(tail, 'm');
    let fi = crate::text::first_index(tail, 'm');
    assert(tail[code.len() as int] == 'm');
    if fi < code.len() {
        assert(code[fi] == 'm');
    }
    assert(fi == code.len());
    assert(tail.skip(fi + 1) =~= rest);
}

proof fn lemma_strip_plain_prefix(p: Seq<char>, rest: Seq<char>)
    requires
        !p.contains(esc()),
    ensures
        strip_ansi_spec(p + rest) == p + strip_ansi_spec(rest),
    decreases p.len(),
{
    if p.len() > 0 {
        let s = p + rest;
        assert(s[0] == p[0]);
        assert(s.drop_first() =~= p.drop_first() + rest);
        assert(!p.drop_first().contains(esc())) by {
            if p.drop_first().contains(esc()) {
                let k = choose|k: int| 0 <= k < p.drop_first().len() && p.drop_first()[k] == esc();
                assert(p[k + 1] == esc());
            }
        }
        lemma_strip_plain_prefix(p.drop_first(), rest);
        assert(p =~= seq![p[0]] + p.drop_first());
        assert(s =~= seq![p[0]] + (p.drop_first() + rest));
    } else {
        assert(p + rest =~= rest);
    }
}

/// Removing the ANSI sequences from a colored line gives the plain line, for
/// every message without escape characters.
pub proof fn lemma_colored_line_strips_to_plain(level: LogLevel, msg: Seq<char>)
    requires
        !msg.contains(esc()),
    ensures
        strip_ansi_spec(log_text(level, msg, true)) == log_text(level, msg, false),
{
    let pre = prefix_of(level);
    let fg = color_of(level);
    let tail = seq![' '] + msg;
    assert(!seq!['1'].contains('m'));
    assert(!fg.contains('m'));
    assert(!seq!['3', '9'].contains('m'));
    assert(!seq!['0'].contains('m'));
    assert(!pre.contains(esc()));
    assert(!(tail).contains(esc())) by {
        if tail.contains(esc()) {
            let k = choose|k: int| 0 <= k < tail.len() && tail[k] == esc();
            assert(msg[k - 1] == esc());
        }
    }
    let full = log_text(level, msg, true);
    assert(full =~= sgr(seq!['1']) + (sgr(fg) + (pre + (sgr(seq!['3', '9']) + (sgr(seq!['0']) + tail)))));
    lemma_strip_sgr(seq!['1'], sgr(fg) + (pre + (sgr(seq!['3', '9']) + (sgr(seq!['0']) + tail))));
    lemma_strip_sgr(fg, pre + (sgr(seq!['3', '9']) + (sgr(seq!['0']) + tail)));
    lemma_strip_plain_prefix(pre, sgr(seq!['3', '9']) + (sgr(seq!['0']) + tail));
    lemma_strip_sgr(seq!['3', '9'], sgr(seq!['0']) + tail);
    lemma_strip_sgr(seq!['0'], tail);
    crate::color::lemma_strip_ansi_plain(tail);
    assert(log_text(level, msg, false) =~= pre + tail);
}

} // verus!
