//! How log lines are prefixed: a coloured token per level.
use vstd::prelude::*;

verus! {

/// The level of a log message.
#[derive(Debug, Clone, Copy, PartialEq, Eq, Structural)]
pub enum LogLevel {
    /// Errors.
    Error,
    /// Warnings.
    Warn,
    /// Information.
    Info,
    /// Debugging detail.
    Debug,
    /// Tracing detail.
    Trace,
}

/// A terminal foreground colour, by its ANSI number.
#[derive(Debug, Clone, Copy, PartialEq, Eq, Structural)]
pub enum TermColor {
    /// ANSI colour 1.
    Red,
    /// ANSI colour 2.
    Green,
    /// ANSI colour 3.
    Yellow,
    /// ANSI colour 4.
    Blue,
    /// ANSI colour 5.
    Magenta,
}

/// The ANSI number of a colour.
pub open spec fn color_code(c: TermColor) -> u8 {
    match c {
        TermColor::Red => 1,
        TermColor::Green => 2,
        TermColor::Yellow => 3,
        TermColor::Blue => 4,
        TermColor::Magenta => 5,
    }
}

/// `ESC [ code m` when `on`, else nothing.
pub open spec fn sgr_if(on: bool, code: char) -> Seq<char> {
    if on {
        seq!['\u{1b}', '[', code, 'm']
    } else {
        Seq::empty()
    }
}

/// The escape sequence that `anstyle` renders for a style with foreground
/// ANSI colour `code` and the given effects: one `ESC [ n m` per effect, in
/// the order bold, underline, blink, then `ESC [ 3 code m` for the colour.
pub open spec fn style_render(code: u8, bold: bool, blink: bool, underline: bool) -> Seq<char> {
    sgr_if(bold, '1') + sgr_if(underline, '4') + sgr_if(blink, '5') + seq![
        '\u{1b}',
        '[',
        '3',
        crate::text::digit_char(code as nat),
        'm',
    ]
}

/// The escape sequence that starts text in colour `c` with the given effects.
///
/// Calls `anstyle::Style::render` on a style with that foreground colour and
/// those effects. Claims the sequence that the crate's source writes: each
/// set effect's code in its table order (bold `1`, underline `4`, blink `5`),
/// then the colour's foreground code `3n`, each as `ESC [ .. m`.
#[verifier::external_body]
pub(crate) fn render_style(c: TermColor, bold: bool, blink: bool, underline: bool) -> (s: String)
    ensures
        s@ == style_render(color_code(c), bold, blink, underline),
{
    let a = match c {
        TermColor::Red => anstyle::AnsiColor::Red,
        TermColor::Green => anstyle::AnsiColor::Green,
        TermColor::Yellow => anstyle::AnsiColor::Yellow,
        TermColor::Blue => anstyle::AnsiColor::Blue,
        TermColor::Magenta => anstyle::AnsiColor::Magenta,
    };
    let fx = anstyle::Effects::new().set(anstyle::Effects::BOLD, bold).set(anstyle::Effects::BLINK, blink);
    let fx = fx.set(anstyle::Effects::UNDERLINE, underline);
    let st = anstyle::Style::new().fg_color(Some(anstyle::Color::Ansi(a))).effects(fx);
    format!("{}", st.render())
}

/// The escape sequence that ends text in colour `c`.
///
/// Calls `anstyle::Style::render_reset` on a style with that foreground
/// colour; as its source shows, a style other than the plain one resets with
/// `ESC [0m`.
#[verifier::external_body]
pub(crate) fn render_reset(c: TermColor) -> (s: String)
    ensures
        s@ == seq!['\u{1b}', '[', '0', 'm'],
{
    let a = match c {
        TermColor::Red => anstyle::AnsiColor::Red,
        TermColor::Green => anstyle::AnsiColor::Green,
        TermColor::Yellow => anstyle::AnsiColor::Yellow,
        TermColor::Blue => anstyle::AnsiColor::Blue,
        TermColor::Magenta => anstyle::AnsiColor::Magenta,
    };
    format!("{}", anstyle::Style::new().fg_color(Some(anstyle::Color::Ansi(a))).render_reset())
}

/// The token of a level.
pub open spec fn level_text(level: LogLevel) -> Seq<char> {
    match level {
        LogLevel::Error => "error"@,
        LogLevel::Warn => "warn"@,
        LogLevel::Info => "info"@,
        LogLevel::Debug => "debug"@,
        LogLevel::Trace => "trace"@,
    }
}

/// The colour of a level.
pub open spec fn level_colour(level: LogLevel) -> TermColor {
    match level {
        LogLevel::Error => TermColor::Red,
        LogLevel::Warn => TermColor::Yellow,
        LogLevel::Info => TermColor::Green,
        LogLevel::Debug => TermColor::Blue,
        LogLevel::Trace => TermColor::Magenta,
    }
}

/// `msg` in the colour of `level`.
pub open spec fn coloured(level: LogLevel, msg: Seq<char>) -> Seq<char> {
    style_render(color_code(level_colour(level)), false, false, false) + msg + seq!['\u{1b}', '[', '0', 'm']
}

/// The tokens that prefix log lines.
#[derive(Debug, Clone, Copy)]
pub struct LogTokens;

impl LogTokens {
    /// The token of a level: `error`, `warn`, `info`, `debug` or `trace`.
    pub fn level_token(&self, level: LogLevel) -> (s: &'static str)
        ensures
            s@ == level_text(level),
    {
        match level {
            LogLevel::Error => "error",
            LogLevel::Warn => "warn",
            LogLevel::Info => "info",
            LogLevel::Debug => "debug",
            LogLevel::Trace => "trace",
        }
    }

    /// `msg` in the colour of the level: red, yellow, green, blue or magenta.
    pub fn level_color(&self, level: LogLevel, msg: &str) -> (s: String)
        ensures
            s@ == coloured(level, msg@),
    {
        let c = match level {
            LogLevel::Error => TermColor::Red,
            LogLevel::Warn => TermColor::Yellow,
            LogLevel::Info => TermColor::Green,
            LogLevel::Debug => TermColor::Blue,
            LogLevel::Trace => TermColor::Magenta,
        };
        let mut s = render_style(c, false, false, false);
        s.append(msg);
        s.append(render_reset(c).as_str());
        s
    }

    /// The prefix of a log line: the level's token in its colour, then `:`.
    pub fn prefix_token(&self, level: LogLevel) -> (s: String)
        ensures
            s@ == coloured(level, level_text(level)).push(':'),
    {
        let mut s = self.level_color(level, self.level_token(level));
        crate::text::push_char(&mut s, ':');
        s
    }
}

/// An error's context: a message and a help text, shown to the user.
#[derive(Debug, Clone, PartialEq, Eq)]
pub struct Ctx(pub String, pub String);

/// The reset escape sequence.
pub open spec fn reset_text() -> Seq<char> {
    seq!['\u{1b}', '[', '0', 'm']
}

/// How an error's context is shown: `caused by:` in the error style and the
/// message, then, where there is help, `help:` in the help style and the help.
pub open spec fn ctx_text(cause: Seq<char>, help: Seq<char>) -> Seq<char> {
    style_render(1, true, true, false) + "caused by:"@ + reset_text() + " "@ + cause + "\n"@ + if help.len() == 0 {
        Seq::empty()
    } else {
        "\n"@ + style_render(2, true, false, true) + "help:"@ + reset_text() + " "@ + help + "\n"@
    }
}

impl Ctx {
    /// The context as shown to the user.
    pub fn render(&self) -> (s: String)
        ensures
            s@ == ctx_text(self.0@, self.1@),
    {
        let mut s = render_style(TermColor::Red, true, true, false);
        s.append("caused by:");
        s.append(render_reset(TermColor::Red).as_str());
        s.append(" ");
        s.append(self.0.as_str());
        s.append("\n");
        if self.1.as_str().unicode_len() > 0 {
            s.append("\n");
            s.append(render_style(TermColor::Green, true, false, true).as_str());
            s.append("help:");
            s.append(render_reset(TermColor::Green).as_str());
            s.append(" ");
            s.append(self.1.as_str());
            s.append("\n");
        } else {
            assert(s@ + Seq::<char>::empty() =~= s@);
        }
        s
    }
}

} // verus!
