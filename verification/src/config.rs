use vstd::prelude::*;

use crate::table::{string_views, Table};
use crate::text::{
    begins_text, char_views, chars_of, has_prefix_str, is_text, same_str, text_begins, text_is, ends_with, is_ascii_alnum, is_ascii_alpha, is_ascii_digit, lines_of, replace_all,
    split_once, split_whitespace, starts_with, trim,
};

verus! {

#[derive(Debug, Clone, Copy, PartialEq, Eq, Structural)]
pub enum DirectoryStyle {
    Full,
    Short,
}

#[derive(Debug, Clone, Copy, PartialEq, Eq, Structural)]
pub enum PromptLayout {
    Compact,
    TwoLine,
    Framed,
}

#[derive(Debug, Clone, Copy, PartialEq, Eq, Structural)]
pub enum TimeFormat {
    TwentyFourHour,
    TwelveHour,
}

#[derive(Debug, Clone, Copy, PartialEq, Eq, Structural)]
pub enum PromptColor {
    NoColor,
    Default,
    Black,
    Red,
    Green,
    Yellow,
    Blue,
    Magenta,
    Cyan,
    White,
    BrightBlack,
    BrightRed,
    BrightGreen,
    BrightYellow,
    BrightBlue,
    BrightMagenta,
    BrightCyan,
    BrightWhite,
}

/// The SGR foreground code of a color; `None` paints nothing.
pub open spec fn color_code(c: PromptColor) -> Option<Seq<char>> {
    match c {
        PromptColor::NoColor => None,
        PromptColor::Default => Some("39"@),
        PromptColor::Black => Some("30"@),
        PromptColor::Red => Some("31"@),
        PromptColor::Green => Some("32"@),
        PromptColor::Yellow => Some("33"@),
        PromptColor::Blue => Some("34"@),
        PromptColor::Magenta => Some("35"@),
        PromptColor::Cyan => Some("36"@),
        PromptColor::White => Some("37"@),
        PromptColor::BrightBlack => Some("90"@),
        PromptColor::BrightRed => Some("91"@),
        PromptColor::BrightGreen => Some("92"@),
        PromptColor::BrightYellow => Some("93"@),
        PromptColor::BrightBlue => Some("94"@),
        PromptColor::BrightMagenta => Some("95"@),
        PromptColor::BrightCyan => Some("96"@),
        PromptColor::BrightWhite => Some("97"@),
    }
}

impl PromptColor {
    pub fn ansi_code(&self) -> (r: Option<&'static str>)
        ensures
            match color_code(*self) {
                Some(code) => r is Some && r->0@ == code,
                None => r is None,
            },
    {
        match self {
            PromptColor::NoColor => None,
            PromptColor::Default => Some("39"),
            PromptColor::Black => Some("30"),
            PromptColor::Red => Some("31"),
            PromptColor::Green => Some("32"),
            PromptColor::Yellow => Some("33"),
            PromptColor::Blue => Some("34"),
            PromptColor::Magenta => Some("35"),
            PromptColor::Cyan => Some("36"),
            PromptColor::White => Some("37"),
            PromptColor::BrightBlack => Some("90"),
            PromptColor::BrightRed => Some("91"),
            PromptColor::BrightGreen => Some("92"),
            PromptColor::BrightYellow => Some("93"),
            PromptColor::BrightBlue => Some("94"),
            PromptColor::BrightMagenta => Some("95"),
            PromptColor::BrightCyan => Some("96"),
            PromptColor::BrightWhite => Some("97"),
        }
    }
}

/// How the prompt looks. `duration_threshold_ms` is in milliseconds.
#[derive(Debug, Clone, PartialEq, Eq)]
pub struct Prompt {
    pub show_name: bool,
    pub show_dir: bool,
    pub show_host: bool,
    pub show_status: bool,
    pub show_git: bool,
    pub show_jobs: bool,
    pub show_duration: bool,
    pub show_time: bool,
    pub directory_style: DirectoryStyle,
    pub layout: PromptLayout,
    pub separator: String,
    pub newline: bool,
    pub marker: String,
    pub duration_threshold_ms: u64,
    pub time_format: TimeFormat,
    pub git_dirty_symbol: String,
    pub name_color: PromptColor,
    pub directory_color: PromptColor,
    pub host_color: PromptColor,
    pub room_color: PromptColor,
    pub status_color: PromptColor,
    pub git_color: PromptColor,
    pub jobs_color: PromptColor,
    pub duration_color: PromptColor,
    pub time_color: PromptColor,
    pub frame_color: PromptColor,
    pub success_color: PromptColor,
    pub error_color: PromptColor,
}

pub struct PromptModel {
    pub show_name: bool,
    pub show_dir: bool,
    pub show_host: bool,
    pub show_status: bool,
    pub show_git: bool,
    pub show_jobs: bool,
    pub show_duration: bool,
    pub show_time: bool,
    pub directory_style: DirectoryStyle,
    pub layout: PromptLayout,
    pub separator: Seq<char>,
    pub newline: bool,
    pub marker: Seq<char>,
    pub duration_threshold_ms: u64,
    pub time_format: TimeFormat,
    pub git_dirty_symbol: Seq<char>,
    pub name_color: PromptColor,
    pub directory_color: PromptColor,
    pub host_color: PromptColor,
    pub room_color: PromptColor,
    pub status_color: PromptColor,
    pub git_color: PromptColor,
    pub jobs_color: PromptColor,
    pub duration_color: PromptColor,
    pub time_color: PromptColor,
    pub frame_color: PromptColor,
    pub success_color: PromptColor,
    pub error_color: PromptColor,
}

impl View for Prompt {
    type V = PromptModel;

    open spec fn view(&self) -> PromptModel {
        PromptModel {
            show_name: self.show_name,
            show_dir: self.show_dir,
            show_host: self.show_host,
            show_status: self.show_status,
            show_git: self.show_git,
            show_jobs: self.show_jobs,
            show_duration: self.show_duration,
            show_time: self.show_time,
            directory_style: self.directory_style,
            layout: self.layout,
            separator: self.separator@,
            newline: self.newline,
            marker: self.marker@,
            duration_threshold_ms: self.duration_threshold_ms,
            time_format: self.time_format,
            git_dirty_symbol: self.git_dirty_symbol@,
            name_color: self.name_color,
            directory_color: self.directory_color,
            host_color: self.host_color,
            room_color: self.room_color,
            status_color: self.status_color,
            git_color: self.git_color,
            jobs_color: self.jobs_color,
            duration_color: self.duration_color,
            time_color: self.time_color,
            frame_color: self.frame_color,
            success_color: self.success_color,
            error_color: self.error_color,
        }
    }
}

/// The prompt before any configuration: name and directory, then `❯`.
pub open spec fn default_prompt() -> PromptModel {
    PromptModel {
        show_name: true,
        show_dir: true,
        show_host: false,
        show_status: false,
        show_git: false,
        show_jobs: false,
        show_duration: false,
        show_time: false,
        directory_style: DirectoryStyle::Full,
        layout: PromptLayout::Compact,
        separator: " "@,
        newline: false,
        marker: "❯"@,
        duration_threshold_ms: 2000,
        time_format: TimeFormat::TwentyFourHour,
        git_dirty_symbol: "*"@,
        name_color: PromptColor::Cyan,
        directory_color: PromptColor::Blue,
        host_color: PromptColor::Yellow,
        room_color: PromptColor::Magenta,
        status_color: PromptColor::Red,
        git_color: PromptColor::BrightMagenta,
        jobs_color: PromptColor::Yellow,
        duration_color: PromptColor::BrightBlack,
        time_color: PromptColor::BrightBlack,
        frame_color: PromptColor::BrightBlack,
        success_color: PromptColor::BrightGreen,
        error_color: PromptColor::BrightRed,
    }
}

impl Default for Prompt {
    fn default() -> (r: Self)
        ensures
            r@ == default_prompt(),
    {
        Prompt {
            show_name: true,
            show_dir: true,
            show_host: false,
            show_status: false,
            show_git: false,
            show_jobs: false,
            show_duration: false,
            show_time: false,
            directory_style: DirectoryStyle::Full,
            layout: PromptLayout::Compact,
            separator: String::from_str(" "),
            newline: false,
            marker: String::from_str("❯"),
            duration_threshold_ms: 2000,
            time_format: TimeFormat::TwentyFourHour,
            git_dirty_symbol: String::from_str("*"),
            name_color: PromptColor::Cyan,
            directory_color: PromptColor::Blue,
            host_color: PromptColor::Yellow,
            room_color: PromptColor::Magenta,
            status_color: PromptColor::Red,
            git_color: PromptColor::BrightMagenta,
            jobs_color: PromptColor::Yellow,
            duration_color: PromptColor::BrightBlack,
            time_color: PromptColor::BrightBlack,
            frame_color: PromptColor::BrightBlack,
            success_color: PromptColor::BrightGreen,
            error_color: PromptColor::BrightRed,
        }
    }
}

/// The shell's configuration: the prompt, aliases keyed by their words,
/// abbreviations, startup commands, environment values and the alert sound.
#[derive(Debug, Clone)]
pub struct Config {
    pub prompt: Prompt,
    pub aliases: Table<Vec<String>>,
    pub abbreviations: Table<String>,
    pub startup: Vec<String>,
    pub environment: Table<String>,
    pub alert_sound: Option<String>,
}

pub struct ConfigModel {
    pub prompt: PromptModel,
    pub aliases: Map<Seq<Seq<char>>, Seq<char>>,
    pub abbreviations: Map<Seq<char>, Seq<char>>,
    pub startup: Seq<Seq<char>>,
    pub environment: Map<Seq<char>, Seq<char>>,
    pub alert_sound: Option<Seq<char>>,
}

impl View for Config {
    type V = ConfigModel;

    open spec fn view(&self) -> ConfigModel {
        ConfigModel {
            prompt: self.prompt@,
            aliases: self.aliases.view(),
            abbreviations: self.abbreviations.view(),
            startup: string_views(self.startup@),
            environment: self.environment.view(),
            alert_sound: match self.alert_sound {
                Some(s) => Some(s@),
                None => None,
            },
        }
    }
}

pub open spec fn default_config() -> ConfigModel {
    ConfigModel {
        prompt: default_prompt(),
        aliases: Map::empty(),
        abbreviations: Map::empty(),
        startup: Seq::empty(),
        environment: Map::empty(),
        alert_sound: None,
    }
}

impl Default for Config {
    fn default() -> (r: Self)
        ensures
            r@ == default_config(),
    {
        let r = Config {
            prompt: Prompt::default(),
            aliases: Table::new(),
            abbreviations: Table::new(),
            startup: Vec::new(),
            environment: Table::new(),
            alert_sound: None,
        };
        assert(string_views(r.startup@) =~= Seq::<Seq<char>>::empty());
        r
    }
}

/// A configuration or room file that does not read: where, and why.
#[derive(Debug)]
pub struct ConfigError {
    pub path: String,
    pub line: usize,
    pub column: usize,
    pub message: String,
}

/// The ways in which a configuration or room file fails to read.
#[derive(Clone, Copy, PartialEq, Eq, Structural)]
pub enum ConfigFault {
    PromptBreakTwice,
    PromptBreakPlace,
    PromptBreakWithLayout,
    LayoutWithBreak,
    BadLayout,
    BadDirectory,
    BadTimeFormat,
    UnknownPromptSetting,
    UnclosedPrompt,
    EnvironmentNeedsEquals,
    BadVariableName,
    AbbreviationNeedsArrow,
    AliasNeedsArrow,
    UnclosedAlias,
    UnknownEntry,
    DurationUnit,
    DurationNumber,
    UnknownColor,
    ExpectedEquals,
    UnexpectedSetting,
    ExpectedQuoted,
    BadAliasName,
    BadAbbreviationName,
    UnknownRoomEntry,
    RoomNeedsName,
}

pub open spec fn config_fault_message(f: ConfigFault) -> Seq<char> {
    match f {
        ConfigFault::PromptBreakTwice => "prompt line break may appear only once"@,
        ConfigFault::PromptBreakPlace =>
            "prompt line break must follow prompt components and precede `prompt`"@,
        ConfigFault::PromptBreakWithLayout => "prompt line break cannot be combined with `layout`"@,
        ConfigFault::LayoutWithBreak => "`layout` cannot be combined with a prompt line break"@,
        ConfigFault::BadLayout => "layout must be \"compact\", \"two-line\", or \"framed\""@,
        ConfigFault::BadDirectory => "directory must be \"full\" or \"short\""@,
        ConfigFault::BadTimeFormat => "time-format must be \"24h\" or \"12h\""@,
        ConfigFault::UnknownPromptSetting => "unknown prompt setting"@,
        ConfigFault::UnclosedPrompt => "unclosed prompt_style block"@,
        ConfigFault::EnvironmentNeedsEquals => "environment entry requires `=`"@,
        ConfigFault::BadVariableName => "invalid environment variable name"@,
        ConfigFault::AbbreviationNeedsArrow => "abbreviation requires `>`"@,
        ConfigFault::AliasNeedsArrow => "alias requires `>`"@,
        ConfigFault::UnclosedAlias => "unclosed alias block"@,
        ConfigFault::UnknownEntry => "unknown configuration entry"@,
        ConfigFault::DurationUnit => "duration must use ms, s, or m"@,
        ConfigFault::DurationNumber => "duration must be a whole non-negative number"@,
        ConfigFault::UnknownColor =>
            "unknown color; use none, default, a basic color, or bright-COLOR"@,
        ConfigFault::ExpectedEquals => "expected `=`"@,
        ConfigFault::UnexpectedSetting => "unexpected setting"@,
        ConfigFault::ExpectedQuoted => "expected a quoted string"@,
        ConfigFault::BadAliasName => "invalid alias name"@,
        ConfigFault::BadAbbreviationName => "invalid abbreviation name"@,
        ConfigFault::UnknownRoomEntry => "unknown room entry"@,
        ConfigFault::RoomNeedsName => "room requires a name"@,
    }
}

pub fn config_fault_text(f: ConfigFault) -> (r: String)
    ensures
        r@ == config_fault_message(f),
{
    String::from_str(
        match f {
            ConfigFault::PromptBreakTwice => "prompt line break may appear only once",
            ConfigFault::PromptBreakPlace =>
                "prompt line break must follow prompt components and precede `prompt`",
            ConfigFault::PromptBreakWithLayout =>
                "prompt line break cannot be combined with `layout`",
            ConfigFault::LayoutWithBreak => "`layout` cannot be combined with a prompt line break",
            ConfigFault::BadLayout => "layout must be \"compact\", \"two-line\", or \"framed\"",
            ConfigFault::BadDirectory => "directory must be \"full\" or \"short\"",
            ConfigFault::BadTimeFormat => "time-format must be \"24h\" or \"12h\"",
            ConfigFault::UnknownPromptSetting => "unknown prompt setting",
            ConfigFault::UnclosedPrompt => "unclosed prompt_style block",
            ConfigFault::EnvironmentNeedsEquals => "environment entry requires `=`",
            ConfigFault::BadVariableName => "invalid environment variable name",
            ConfigFault::AbbreviationNeedsArrow => "abbreviation requires `>`",
            ConfigFault::AliasNeedsArrow => "alias requires `>`",
            ConfigFault::UnclosedAlias => "unclosed alias block",
            ConfigFault::UnknownEntry => "unknown configuration entry",
            ConfigFault::DurationUnit => "duration must use ms, s, or m",
            ConfigFault::DurationNumber => "duration must be a whole non-negative number",
            ConfigFault::UnknownColor =>
                "unknown color; use none, default, a basic color, or bright-COLOR",
            ConfigFault::ExpectedEquals => "expected `=`",
            ConfigFault::UnexpectedSetting => "unexpected setting",
            ConfigFault::ExpectedQuoted => "expected a quoted string",
            ConfigFault::BadAliasName => "invalid alias name",
            ConfigFault::BadAbbreviationName => "invalid abbreviation name",
            ConfigFault::UnknownRoomEntry => "unknown room entry",
            ConfigFault::RoomNeedsName => "room requires a name",
        },
    )
}

} // verus!

verus! {

/// `line` up to a `#` that stands outside double quotes; a backslash inside
/// quotes escapes the character after it.
pub open spec fn comment_cut(line: Seq<char>, i: int, quoted: bool, escaped: bool) -> Seq<char>
    decreases line.len() - i,
{
    if i < 0 || i >= line.len() {
        line
    } else if escaped {
        comment_cut(line, i + 1, quoted, false)
    } else if line[i] == '\\' && quoted {
        comment_cut(line, i + 1, quoted, true)
    } else if line[i] == '"' {
        comment_cut(line, i + 1, !quoted, false)
    } else if line[i] == '#' && !quoted {
        line.subrange(0, i)
    } else {
        comment_cut(line, i + 1, quoted, false)
    }
}

pub open spec fn without_comment(line: Seq<char>) -> Seq<char> {
    comment_cut(line, 0, false, false)
}

/// A line with its comment removed and white space trimmed.
pub open spec fn clean(line: Seq<char>) -> Seq<char> {
    trim(without_comment(line))
}

/// The text of a double-quoted value, with `\"` and then `\\` unescaped.
pub open spec fn spec_quoted(v: Seq<char>) -> Result<Seq<char>, ConfigFault> {
    if v.len() >= 2 && v[0] == '"' && v.last() == '"' {
        Ok(
            replace_all(
                replace_all(v.subrange(1, v.len() - 1), seq!['\\', '"'], seq!['"']),
                seq!['\\', '\\'],
                seq!['\\'],
            ),
        )
    } else {
        Err(ConfigFault::ExpectedQuoted)
    }
}

/// The quoted value of `key = "value"`.
pub open spec fn spec_assignment(line: Seq<char>, key: Seq<char>) -> Result<Seq<char>, ConfigFault> {
    match split_once(line, '=') {
        None => Err(ConfigFault::ExpectedEquals),
        Some((left, right)) => if trim(left) != key {
            Err(ConfigFault::UnexpectedSetting)
        } else {
            spec_quoted(trim(right))
        },
    }
}

pub open spec fn color_named(v: Seq<char>) -> Option<PromptColor> {
    if text_is(v, "none"@) {
        Some(PromptColor::NoColor)
    } else if text_is(v, "default"@) {
        Some(PromptColor::Default)
    } else if text_is(v, "black"@) {
        Some(PromptColor::Black)
    } else if text_is(v, "red"@) {
        Some(PromptColor::Red)
    } else if text_is(v, "green"@) {
        Some(PromptColor::Green)
    } else if text_is(v, "yellow"@) {
        Some(PromptColor::Yellow)
    } else if text_is(v, "blue"@) {
        Some(PromptColor::Blue)
    } else if text_is(v, "magenta"@) {
        Some(PromptColor::Magenta)
    } else if text_is(v, "cyan"@) {
        Some(PromptColor::Cyan)
    } else if text_is(v, "white"@) {
        Some(PromptColor::White)
    } else if text_is(v, "bright-black"@) {
        Some(PromptColor::BrightBlack)
    } else if text_is(v, "bright-red"@) {
        Some(PromptColor::BrightRed)
    } else if text_is(v, "bright-green"@) {
        Some(PromptColor::BrightGreen)
    } else if text_is(v, "bright-yellow"@) {
        Some(PromptColor::BrightYellow)
    } else if text_is(v, "bright-blue"@) {
        Some(PromptColor::BrightBlue)
    } else if text_is(v, "bright-magenta"@) {
        Some(PromptColor::BrightMagenta)
    } else if text_is(v, "bright-cyan"@) {
        Some(PromptColor::BrightCyan)
    } else if text_is(v, "bright-white"@) {
        Some(PromptColor::BrightWhite)
    } else {
        None
    }
}

pub open spec fn spec_color_setting(line: Seq<char>, key: Seq<char>) -> Result<PromptColor, ConfigFault> {
    match spec_assignment(line, key) {
        Err(f) => Err(f),
        Ok(v) => match color_named(v) {
            Some(c) => Ok(c),
            None => Err(ConfigFault::UnknownColor),
        },
    }
}

pub open spec fn spec_valid_variable_name(n: Seq<char>) -> bool {
    &&& n.len() > 0
    &&& (is_ascii_alpha(n[0]) || n[0] == '_')
    &&& forall|i: int| 1 <= i < n.len() ==> is_ascii_alnum(#[trigger] n[i]) || n[i] == '_'
}

pub open spec fn name_char(c: char) -> bool {
    is_ascii_alnum(c) || c == '_' || c == '-' || c == '.'
}

pub open spec fn plain_name(v: Seq<char>) -> bool {
    v.len() > 0 && forall|i: int| 0 <= i < v.len() ==> name_char(#[trigger] v[i])
}

pub open spec fn spec_alias_name(v: Seq<char>) -> Result<Seq<char>, ConfigFault> {
    if v.len() > 0 && v[0] == '"' {
        spec_quoted(v)
    } else if plain_name(v) {
        Ok(v)
    } else {
        Err(ConfigFault::BadAliasName)
    }
}

pub open spec fn spec_abbreviation_name(v: Seq<char>) -> Result<Seq<char>, ConfigFault> {
    if plain_name(v) {
        Ok(v)
    } else {
        Err(ConfigFault::BadAbbreviationName)
    }
}

/// The number that a string of decimal digits writes.
pub open spec fn decimal_value(d: Seq<char>) -> nat
    decreases d.len(),
{
    if d.len() == 0 {
        0
    } else {
        decimal_value(d.drop_last()) * 10 + (d.last() as nat - '0' as nat) as nat
    }
}

pub open spec fn all_digits(d: Seq<char>) -> bool {
    forall|i: int| 0 <= i < d.len() ==> is_ascii_digit(#[trigger] d[i])
}

/// `u64::from_str`: an optional `+`, then at least one digit, within range.
pub open spec fn spec_parse_u64(s: Seq<char>) -> Option<u64> {
    let d = if s.len() > 0 && s[0] == '+' {
        s.drop_first()
    } else {
        s
    };
    if d.len() > 0 && all_digits(d) && decimal_value(d) <= u64::MAX {
        Some(decimal_value(d) as u64)
    } else {
        None
    }
}

/// A duration with unit `ms`, `s` or `m`, in milliseconds, saturating at `u64::MAX`.
pub open spec fn spec_duration(v: Seq<char>) -> Result<u64, ConfigFault> {
    let unit: Option<(Seq<char>, nat)> = if ends_with(v, seq!['m', 's']) {
        Some((v.subrange(0, v.len() - 2), 1))
    } else if ends_with(v, seq!['s']) {
        Some((v.subrange(0, v.len() - 1), 1000))
    } else if ends_with(v, seq!['m']) {
        Some((v.subrange(0, v.len() - 1), 60000))
    } else {
        None
    };
    match unit {
        None => Err(ConfigFault::DurationUnit),
        Some((number, multiplier)) => match spec_parse_u64(number) {
            None => Err(ConfigFault::DurationNumber),
            Some(n) => Ok(
                if n * multiplier > u64::MAX {
                    u64::MAX
                } else {
                    (n * multiplier) as u64
                },
            ),
        },
    }
}

} // verus!

verus! {

pub open spec fn chars_result(r: Result<Vec<char>, ConfigFault>) -> Result<Seq<char>, ConfigFault> {
    match r {
        Ok(v) => Ok(v@),
        Err(f) => Err(f),
    }
}

pub open spec fn string_result(r: Result<String, ConfigError>) -> Result<Seq<char>, Seq<char>> {
    match r {
        Ok(v) => Ok(v@),
        Err(e) => Err(e.message@),
    }
}

fn cut_comment(line: &[char]) -> (r: Vec<char>)
    ensures
        r@ == without_comment(line@),
{
    let mut quoted = false;
    let mut escaped = false;
    let mut i: usize = 0;
    while i < line.len()
        invariant
            i <= line@.len(),
            without_comment(line@) == comment_cut(line@, i as int, quoted, escaped),
        decreases line@.len() - i,
    {
        let ch = line[i];
        if escaped {
            escaped = false;
        } else if ch == '\\' && quoted {
            escaped = true;
        } else if ch == '"' {
            quoted = !quoted;
        } else if ch == '#' && !quoted {
            return crate::text::chars_between(line, 0, i);
        }
        i += 1;
    }
    crate::text::chars_between(line, 0, line.len())
}

/// A line with a comment cut off: from the first `#` outside double quotes.
pub fn line_without_comment(line: &str) -> (r: String)
    ensures
        r@ == without_comment(line@),
{
    let chars = chars_of(line);
    crate::text::string_of(cut_comment(chars.as_slice()).as_slice())
}

pub fn clean_line(line: &[char]) -> (r: Vec<char>)
    ensures
        r@ == clean(line@),
{
    crate::text::trimmed(cut_comment(line).as_slice())
}

pub(crate) fn quoted_value(v: &[char]) -> (r: Result<Vec<char>, ConfigFault>)
    ensures
        chars_result(r) == spec_quoted(v@),
{
    if v.len() >= 2 && v[0] == '"' && v[v.len() - 1] == '"' {
        let inner = crate::text::chars_between(v, 1, v.len() - 1);
        let a = crate::text::replace_chars(inner.as_slice(), &['\\', '"'], &['"']);
        let b = crate::text::replace_chars(a.as_slice(), &['\\', '\\'], &['\\']);
        assert(['\\', '"']@ == seq!['\\', '"']);
        assert(['"']@ == seq!['"']);
        assert(['\\', '\\']@ == seq!['\\', '\\']);
        assert(['\\']@ == seq!['\\']);
        Ok(b)
    } else {
        Err(ConfigFault::ExpectedQuoted)
    }
}

pub(crate) fn fault_error(path: &str, line: usize, f: ConfigFault) -> (e: ConfigError)
    ensures
        e.path@ == path@,
        e.line == line,
        e.column == 1,
        e.message@ == config_fault_message(f),
{
    ConfigError { path: String::from_str(path), line, column: 1, message: config_fault_text(f) }
}

/// A double-quoted value: its text with `\"` and `\\` unescaped.
pub fn quoted(value: &str, path: &str, line: usize) -> (r: Result<String, ConfigError>)
    ensures
        match spec_quoted(value@) {
            Ok(v) => r is Ok && r->Ok_0@ == v,
            Err(f) => r is Err && r->Err_0.path@ == path@ && r->Err_0.line == line
                && r->Err_0.column == 1 && r->Err_0.message@ == config_fault_message(f),
        },
{
    let chars = chars_of(value);
    match quoted_value(chars.as_slice()) {
        Ok(v) => Ok(crate::text::string_of(v.as_slice())),
        Err(f) => Err(fault_error(path, line, f)),
    }
}

fn assignment(line: &[char], key: &str) -> (r: Result<Vec<char>, ConfigFault>)
    ensures
        chars_result(r) == spec_assignment(line@, key@),
{
    match crate::text::split_once_char(line, '=') {
        None => Err(ConfigFault::ExpectedEquals),
        Some((left, right)) => {
            let l = crate::text::trimmed(left.as_slice());
            if !crate::text::same_str(l.as_slice(), key) {
                return Err(ConfigFault::UnexpectedSetting);
            }
            let r = crate::text::trimmed(right.as_slice());
            quoted_value(r.as_slice())
        },
    }
}

fn color_of(v: &[char]) -> (r: Option<PromptColor>)
    ensures
        r == color_named(v@),
{
    if is_text(v, "none") {
        Some(PromptColor::NoColor)
    } else if is_text(v, "default") {
        Some(PromptColor::Default)
    } else if is_text(v, "black") {
        Some(PromptColor::Black)
    } else if is_text(v, "red") {
        Some(PromptColor::Red)
    } else if is_text(v, "green") {
        Some(PromptColor::Green)
    } else if is_text(v, "yellow") {
        Some(PromptColor::Yellow)
    } else if is_text(v, "blue") {
        Some(PromptColor::Blue)
    } else if is_text(v, "magenta") {
        Some(PromptColor::Magenta)
    } else if is_text(v, "cyan") {
        Some(PromptColor::Cyan)
    } else if is_text(v, "white") {
        Some(PromptColor::White)
    } else if is_text(v, "bright-black") {
        Some(PromptColor::BrightBlack)
    } else if is_text(v, "bright-red") {
        Some(PromptColor::BrightRed)
    } else if is_text(v, "bright-green") {
        Some(PromptColor::BrightGreen)
    } else if is_text(v, "bright-yellow") {
        Some(PromptColor::BrightYellow)
    } else if is_text(v, "bright-blue") {
        Some(PromptColor::BrightBlue)
    } else if is_text(v, "bright-magenta") {
        Some(PromptColor::BrightMagenta)
    } else if is_text(v, "bright-cyan") {
        Some(PromptColor::BrightCyan)
    } else if is_text(v, "bright-white") {
        Some(PromptColor::BrightWhite)
    } else {
        None
    }
}

fn color_setting(line: &[char], key: &str) -> (r: Result<PromptColor, ConfigFault>)
    ensures
        r == spec_color_setting(line@, key@),
{
    match assignment(line, key) {
        Err(f) => Err(f),
        Ok(v) => match color_of(v.as_slice()) {
            Some(c) => Ok(c),
            None => Err(ConfigFault::UnknownColor),
        },
    }
}

/// A name that may stand in the environment: a letter or `_`, then letters, digits or `_`.
pub fn valid_variable_name(n: &[char]) -> (r: bool)
    ensures
        r == spec_valid_variable_name(n@),
{
    if n.len() == 0 {
        return false;
    }
    if !(crate::text::ascii_alpha(n[0]) || n[0] == '_') {
        return false;
    }
    let mut i: usize = 1;
    while i < n.len()
        invariant
            1 <= i <= n@.len(),
            forall|j: int| 1 <= j < i ==> is_ascii_alnum(#[trigger] n@[j]) || n@[j] == '_',
        decreases n@.len() - i,
    {
        if !(crate::text::ascii_alnum(n[i]) || n[i] == '_') {
            return false;
        }
        i += 1;
    }
    true
}

fn plain(v: &[char]) -> (r: bool)
    ensures
        r == plain_name(v@),
{
    if v.len() == 0 {
        return false;
    }
    let mut i: usize = 0;
    while i < v.len()
        invariant
            i <= v@.len(),
            forall|j: int| 0 <= j < i ==> name_char(#[trigger] v@[j]),
        decreases v@.len() - i,
    {
        let c = v[i];
        if !(crate::text::ascii_alnum(c) || c == '_' || c == '-' || c == '.') {
            return false;
        }
        i += 1;
    }
    true
}

pub(crate) fn alias_name_chars(v: &[char]) -> (r: Result<Vec<char>, ConfigFault>)
    ensures
        chars_result(r) == spec_alias_name(v@),
{
    if v.len() > 0 && v[0] == '"' {
        quoted_value(v)
    } else if plain(v) {
        assert(v@.subrange(0, v@.len() as int) == v@);
        Ok(crate::text::chars_between(v, 0, v.len()))
    } else {
        Err(ConfigFault::BadAliasName)
    }
}

pub(crate) fn abbreviation_name_chars(v: &[char]) -> (r: Result<Vec<char>, ConfigFault>)
    ensures
        chars_result(r) == spec_abbreviation_name(v@),
{
    if plain(v) {
        assert(v@.subrange(0, v@.len() as int) == v@);
        Ok(crate::text::chars_between(v, 0, v.len()))
    } else {
        Err(ConfigFault::BadAbbreviationName)
    }
}

/// An alias name: a quoted string, or letters, digits, `_`, `-` and `.`.
pub fn alias_name(value: &str, path: &str, line: usize) -> (r: Result<String, ConfigError>)
    ensures
        match spec_alias_name(value@) {
            Ok(v) => r is Ok && r->Ok_0@ == v,
            Err(f) => r is Err && r->Err_0.path@ == path@ && r->Err_0.line == line
                && r->Err_0.column == 1 && r->Err_0.message@ == config_fault_message(f),
        },
{
    let chars = chars_of(value);
    match alias_name_chars(chars.as_slice()) {
        Ok(v) => Ok(crate::text::string_of(v.as_slice())),
        Err(f) => Err(fault_error(path, line, f)),
    }
}

/// An abbreviation name: letters, digits, `_`, `-` and `.`.
pub fn abbreviation_name(value: &str, path: &str, line: usize) -> (r: Result<String, ConfigError>)
    ensures
        match spec_abbreviation_name(value@) {
            Ok(v) => r is Ok && r->Ok_0@ == v,
            Err(f) => r is Err && r->Err_0.path@ == path@ && r->Err_0.line == line
                && r->Err_0.column == 1 && r->Err_0.message@ == config_fault_message(f),
        },
{
    let chars = chars_of(value);
    match abbreviation_name_chars(chars.as_slice()) {
        Ok(v) => Ok(crate::text::string_of(v.as_slice())),
        Err(f) => Err(fault_error(path, line, f)),
    }
}

pub fn parse_u64(s: &[char]) -> (r: Option<u64>)
    ensures
        r == spec_parse_u64(s@),
{
    let start: usize = if s.len() > 0 && s[0] == '+' {
        1
    } else {
        0
    };
    let ghost d = if s@.len() > 0 && s@[0] == '+' {
        s@.drop_first()
    } else {
        s@
    };
    assert(d == s@.subrange(start as int, s@.len() as int));
    if start >= s.len() {
        return None;
    }
    let mut value: u64 = 0;
    let mut i = start;
    while i < s.len()
        invariant
            start <= i <= s@.len(),
            d == s@.subrange(start as int, s@.len() as int),
            d == (if s@.len() > 0 && s@[0] == '+' {
                s@.drop_first()
            } else {
                s@
            }),
            d.len() > 0,
            all_digits(s@.subrange(start as int, i as int)),
            value == decimal_value(s@.subrange(start as int, i as int)),
        decreases s@.len() - i,
    {
        let c = s[i];
        if !('0' <= c && c <= '9') {
            assert(d[i - start] == c);
            assert(!is_ascii_digit(d[i - start]));
            return None;
        }
        let digit = (c as u32 - '0' as u32) as u64;
        let ghost prefix = s@.subrange(start as int, i + 1);
        assert(prefix.drop_last() == s@.subrange(start as int, i as int));
        assert(decimal_value(prefix) == value * 10 + digit);
        assert(all_digits(prefix)) by {
            assert forall|j: int| 0 <= j < prefix.len() implies is_ascii_digit(#[trigger] prefix[j]) by {
                if j < prefix.len() - 1 {
                    assert(prefix[j] == s@.subrange(start as int, i as int)[j]);
                }
            }
        }
        assert(d.subrange(0, i + 1 - start) == prefix);
        if value > (u64::MAX - digit) / 10 {
            assert(decimal_value(prefix) > u64::MAX) by (nonlinear_arith)
                requires
                    value > (u64::MAX - digit) / 10,
                    decimal_value(prefix) == value * 10 + digit,
                    digit <= 9,
            ;
            proof {
                lemma_decimal_grows(d, (i + 1 - start) as int);
            }
            return None;
        }
        value = value * 10 + digit;
        i += 1;
    }
    assert(s@.subrange(start as int, s@.len() as int) == d);
    Some(value)
}

/// A longer string of digits writes no smaller a number.
pub proof fn lemma_decimal_grows(d: Seq<char>, k: int)
    requires
        0 <= k <= d.len(),
        all_digits(d.subrange(0, k)),
    ensures
        all_digits(d) ==> decimal_value(d) >= decimal_value(d.subrange(0, k)),
    decreases d.len() - k,
{
    if k < d.len() && all_digits(d) {
        let p = d.subrange(0, k + 1);
        assert(p.drop_last() == d.subrange(0, k));
        assert(all_digits(p));
        lemma_decimal_grows(d, k + 1);
    } else if k == d.len() {
        assert(d.subrange(0, k) == d);
    }
}

fn duration_setting(v: &[char]) -> (r: Result<u64, ConfigFault>)
    ensures
        r == spec_duration(v@),
{
    let (number, multiplier): (Vec<char>, u64) = if crate::text::has_suffix(v, &['m', 's']) {
        assert(['m', 's']@ == seq!['m', 's']);
        (crate::text::chars_between(v, 0, v.len() - 2), 1)
    } else if crate::text::has_suffix(v, &['s']) {
        assert(['m', 's']@ == seq!['m', 's']);
        assert(['s']@ == seq!['s']);
        (crate::text::chars_between(v, 0, v.len() - 1), 1000)
    } else if crate::text::has_suffix(v, &['m']) {
        assert(['m', 's']@ == seq!['m', 's']);
        assert(['s']@ == seq!['s']);
        assert(['m']@ == seq!['m']);
        (crate::text::chars_between(v, 0, v.len() - 1), 60000)
    } else {
        assert(['m', 's']@ == seq!['m', 's']);
        assert(['s']@ == seq!['s']);
        assert(['m']@ == seq!['m']);
        return Err(ConfigFault::DurationUnit);
    };
    match parse_u64(number.as_slice()) {
        None => Err(ConfigFault::DurationNumber),
        Some(n) => Ok(
            match n.checked_mul(multiplier) {
                Some(x) => x,
                None => u64::MAX,
            },
        ),
    }
}

} // verus!

verus! {

/// What the reader of a `prompt_style` block has seen so far.
pub struct BlockState {
    pub prompt: PromptModel,
    pub saw_component: bool,
    pub saw_newline: bool,
    pub saw_layout: bool,
    pub saw_prompt: bool,
}

pub enum ItemOutcome {
    Next(BlockState),
    Close,
}

pub open spec fn setting_key(line: Seq<char>) -> Option<Seq<char>> {
    match split_once(line, '=') {
        Some((key, _)) => Some(trim(key)),
        None => None,
    }
}

pub open spec fn key_is(line: Seq<char>, key: Seq<char>) -> bool {
    match setting_key(line) {
        Some(k) => text_is(k, key),
        None => false,
    }
}




/// A part of the prompt that a `show-...` line turns on.
#[derive(Clone, Copy, PartialEq, Eq, Structural)]
pub enum ShowFlag {
    Name,
    Dir,
    Host,
    Status,
    Git,
    Jobs,
    Duration,
    Time,
}

/// A part of the prompt that a `...-color` line colors.
#[derive(Clone, Copy, PartialEq, Eq, Structural)]
pub enum ColorSlot {
    Name,
    Directory,
    Host,
    Room,
    Status,
    Git,
    Jobs,
    Duration,
    Time,
    Frame,
    Success,
    Error,
}

/// What a line of a `prompt_style` block is, by the first test that it meets.
#[derive(Clone, Copy, PartialEq, Eq, Structural)]
pub enum ItemKind {
    Show(ShowFlag),
    LineBreak,
    Close,
    Marker,
    Layout,
    Directory,
    Separator,
    DurationThreshold,
    TimeFormat,
    GitDirtySymbol,
    Color(ColorSlot),
    Blank,
    Unknown,
}

pub open spec fn item_kind(item: Seq<char>) -> ItemKind {
    if text_is(item, "show-name"@) {
        ItemKind::Show(ShowFlag::Name)
    } else if text_is(item, "show-dir"@) {
        ItemKind::Show(ShowFlag::Dir)
    } else if text_is(item, "show-host"@) {
        ItemKind::Show(ShowFlag::Host)
    } else if text_is(item, "show-status"@) {
        ItemKind::Show(ShowFlag::Status)
    } else if text_is(item, "show-git"@) {
        ItemKind::Show(ShowFlag::Git)
    } else if text_is(item, "show-jobs"@) {
        ItemKind::Show(ShowFlag::Jobs)
    } else if text_is(item, "show-duration"@) {
        ItemKind::Show(ShowFlag::Duration)
    } else if text_is(item, "show-time"@) {
        ItemKind::Show(ShowFlag::Time)
    } else if text_is(item, "\\"@) {
        ItemKind::LineBreak
    } else if text_is(item, "}"@) {
        ItemKind::Close
    } else if text_begins(item, "prompt"@) {
        ItemKind::Marker
    } else if key_is(item, "layout"@) {
        ItemKind::Layout
    } else if key_is(item, "directory"@) {
        ItemKind::Directory
    } else if text_begins(item, "separator"@) {
        ItemKind::Separator
    } else if text_begins(item, "duration-threshold"@) {
        ItemKind::DurationThreshold
    } else if text_begins(item, "time-format"@) {
        ItemKind::TimeFormat
    } else if text_begins(item, "git-dirty-symbol"@) {
        ItemKind::GitDirtySymbol
    } else if text_begins(item, "name-color"@) {
        ItemKind::Color(ColorSlot::Name)
    } else if text_begins(item, "directory-color"@) {
        ItemKind::Color(ColorSlot::Directory)
    } else if text_begins(item, "host-color"@) {
        ItemKind::Color(ColorSlot::Host)
    } else if text_begins(item, "room-color"@) {
        ItemKind::Color(ColorSlot::Room)
    } else if text_begins(item, "status-color"@) {
        ItemKind::Color(ColorSlot::Status)
    } else if text_begins(item, "git-color"@) {
        ItemKind::Color(ColorSlot::Git)
    } else if text_begins(item, "jobs-color"@) {
        ItemKind::Color(ColorSlot::Jobs)
    } else if text_begins(item, "duration-color"@) {
        ItemKind::Color(ColorSlot::Duration)
    } else if text_begins(item, "time-color"@) {
        ItemKind::Color(ColorSlot::Time)
    } else if text_begins(item, "frame-color"@) {
        ItemKind::Color(ColorSlot::Frame)
    } else if text_begins(item, "success-color"@) {
        ItemKind::Color(ColorSlot::Success)
    } else if text_begins(item, "error-color"@) {
        ItemKind::Color(ColorSlot::Error)
    } else if item.len() == 0 {
        ItemKind::Blank
    } else {
        ItemKind::Unknown
    }
}

/// The key of each color line.
pub open spec fn color_key(slot: ColorSlot) -> Seq<char> {
    match slot {
        ColorSlot::Name => "name-color"@,
        ColorSlot::Directory => "directory-color"@,
        ColorSlot::Host => "host-color"@,
        ColorSlot::Room => "room-color"@,
        ColorSlot::Status => "status-color"@,
        ColorSlot::Git => "git-color"@,
        ColorSlot::Jobs => "jobs-color"@,
        ColorSlot::Duration => "duration-color"@,
        ColorSlot::Time => "time-color"@,
        ColorSlot::Frame => "frame-color"@,
        ColorSlot::Success => "success-color"@,
        ColorSlot::Error => "error-color"@,
    }
}

pub open spec fn set_shown(p: PromptModel, f: ShowFlag) -> PromptModel {
    PromptModel {
        show_name: p.show_name || f == ShowFlag::Name,
        show_dir: p.show_dir || f == ShowFlag::Dir,
        show_host: p.show_host || f == ShowFlag::Host,
        show_status: p.show_status || f == ShowFlag::Status,
        show_git: p.show_git || f == ShowFlag::Git,
        show_jobs: p.show_jobs || f == ShowFlag::Jobs,
        show_duration: p.show_duration || f == ShowFlag::Duration,
        show_time: p.show_time || f == ShowFlag::Time,
        ..p
    }
}

pub open spec fn set_color(p: PromptModel, slot: ColorSlot, c: PromptColor) -> PromptModel {
    PromptModel {
        name_color: if slot == ColorSlot::Name { c } else { p.name_color },
        directory_color: if slot == ColorSlot::Directory { c } else { p.directory_color },
        host_color: if slot == ColorSlot::Host { c } else { p.host_color },
        room_color: if slot == ColorSlot::Room { c } else { p.room_color },
        status_color: if slot == ColorSlot::Status { c } else { p.status_color },
        git_color: if slot == ColorSlot::Git { c } else { p.git_color },
        jobs_color: if slot == ColorSlot::Jobs { c } else { p.jobs_color },
        duration_color: if slot == ColorSlot::Duration { c } else { p.duration_color },
        time_color: if slot == ColorSlot::Time { c } else { p.time_color },
        frame_color: if slot == ColorSlot::Frame { c } else { p.frame_color },
        success_color: if slot == ColorSlot::Success { c } else { p.success_color },
        error_color: if slot == ColorSlot::Error { c } else { p.error_color },
        ..p
    }
}

pub open spec fn layout_named(v: Seq<char>) -> Option<PromptLayout> {
    if text_is(v, "compact"@) {
        Some(PromptLayout::Compact)
    } else if text_is(v, "two-line"@) {
        Some(PromptLayout::TwoLine)
    } else if text_is(v, "framed"@) {
        Some(PromptLayout::Framed)
    } else {
        None
    }
}

pub open spec fn next(st: BlockState, p: PromptModel) -> Result<ItemOutcome, ConfigFault> {
    Ok(ItemOutcome::Next(BlockState { prompt: p, ..st }))
}

pub open spec fn item_line_break(st: BlockState) -> Result<ItemOutcome, ConfigFault> {
    if st.saw_newline {
        Err(ConfigFault::PromptBreakTwice)
    } else if !st.saw_component || st.saw_prompt {
        Err(ConfigFault::PromptBreakPlace)
    } else if st.saw_layout {
        Err(ConfigFault::PromptBreakWithLayout)
    } else {
        Ok(
            ItemOutcome::Next(
                BlockState {
                    prompt: PromptModel { newline: true, layout: PromptLayout::TwoLine, ..st.prompt },
                    saw_newline: true,
                    ..st
                },
            ),
        )
    }
}

pub open spec fn item_marker(item: Seq<char>, st: BlockState) -> Result<ItemOutcome, ConfigFault> {
    match spec_assignment(item, "prompt"@) {
        Err(f) => Err(f),
        Ok(v) => Ok(
            ItemOutcome::Next(
                BlockState { prompt: PromptModel { marker: v, ..st.prompt }, saw_prompt: true, ..st },
            ),
        ),
    }
}

pub open spec fn item_layout(item: Seq<char>, st: BlockState) -> Result<ItemOutcome, ConfigFault> {
    if st.saw_newline {
        Err(ConfigFault::LayoutWithBreak)
    } else {
        match spec_assignment(item, "layout"@) {
            Err(f) => Err(f),
            Ok(v) => match layout_named(v) {
                None => Err(ConfigFault::BadLayout),
                Some(l) => Ok(
                    ItemOutcome::Next(
                        BlockState {
                            prompt: PromptModel { layout: l, ..st.prompt },
                            saw_layout: true,
                            ..st
                        },
                    ),
                ),
            },
        }
    }
}

pub open spec fn directory_named(v: Seq<char>) -> Option<DirectoryStyle> {
    if text_is(v, "full"@) {
        Some(DirectoryStyle::Full)
    } else if text_is(v, "short"@) {
        Some(DirectoryStyle::Short)
    } else {
        None
    }
}

pub open spec fn item_directory(item: Seq<char>, st: BlockState) -> Result<ItemOutcome, ConfigFault> {
    match spec_assignment(item, "directory"@) {
        Err(f) => Err(f),
        Ok(v) => match directory_named(v) {
            None => Err(ConfigFault::BadDirectory),
            Some(d) => next(st, PromptModel { directory_style: d, ..st.prompt }),
        },
    }
}

pub open spec fn item_separator(item: Seq<char>, st: BlockState) -> Result<ItemOutcome, ConfigFault> {
    match spec_assignment(item, "separator"@) {
        Err(f) => Err(f),
        Ok(v) => next(st, PromptModel { separator: v, ..st.prompt }),
    }
}

pub open spec fn item_duration(item: Seq<char>, st: BlockState) -> Result<ItemOutcome, ConfigFault> {
    match spec_assignment(item, "duration-threshold"@) {
        Err(f) => Err(f),
        Ok(v) => match spec_duration(v) {
            Err(f) => Err(f),
            Ok(ms) => next(st, PromptModel { duration_threshold_ms: ms, ..st.prompt }),
        },
    }
}

pub open spec fn time_format_named(v: Seq<char>) -> Option<TimeFormat> {
    if text_is(v, "24h"@) {
        Some(TimeFormat::TwentyFourHour)
    } else if text_is(v, "12h"@) {
        Some(TimeFormat::TwelveHour)
    } else {
        None
    }
}

pub open spec fn item_time_format(item: Seq<char>, st: BlockState) -> Result<ItemOutcome, ConfigFault> {
    match spec_assignment(item, "time-format"@) {
        Err(f) => Err(f),
        Ok(v) => match time_format_named(v) {
            None => Err(ConfigFault::BadTimeFormat),
            Some(t) => next(st, PromptModel { time_format: t, ..st.prompt }),
        },
    }
}

pub open spec fn item_dirty_symbol(item: Seq<char>, st: BlockState) -> Result<ItemOutcome, ConfigFault> {
    match spec_assignment(item, "git-dirty-symbol"@) {
        Err(f) => Err(f),
        Ok(v) => next(st, PromptModel { git_dirty_symbol: v, ..st.prompt }),
    }
}

pub open spec fn item_color(item: Seq<char>, slot: ColorSlot, st: BlockState) -> Result<ItemOutcome, ConfigFault> {
    match spec_color_setting(item, color_key(slot)) {
        Err(f) => Err(f),
        Ok(c) => next(st, set_color(st.prompt, slot, c)),
    }
}

/// One line of a `prompt_style` block, cleaned of its comment.
pub open spec fn prompt_item(item: Seq<char>, st: BlockState) -> Result<ItemOutcome, ConfigFault> {
    match item_kind(item) {
        ItemKind::Show(f) => Ok(
            ItemOutcome::Next(
                BlockState { prompt: set_shown(st.prompt, f), saw_component: true, ..st },
            ),
        ),
        ItemKind::LineBreak => item_line_break(st),
        ItemKind::Close => Ok(ItemOutcome::Close),
        ItemKind::Marker => item_marker(item, st),
        ItemKind::Layout => item_layout(item, st),
        ItemKind::Directory => item_directory(item, st),
        ItemKind::Separator => item_separator(item, st),
        ItemKind::DurationThreshold => item_duration(item, st),
        ItemKind::TimeFormat => item_time_format(item, st),
        ItemKind::GitDirtySymbol => item_dirty_symbol(item, st),
        ItemKind::Color(slot) => item_color(item, slot, st),
        ItemKind::Blank => Ok(ItemOutcome::Next(st)),
        ItemKind::Unknown => Err(ConfigFault::UnknownPromptSetting),
    }
}

/// The rest of a `prompt_style` block from line index `i`: the index after its
/// closing `}` and the prompt it sets, or the line and fault of the first error.
pub open spec fn prompt_block(lines: Seq<Seq<char>>, i: int, st: BlockState) -> Result<
    (int, PromptModel),
    (int, ConfigFault),
>
    decreases lines.len() - i,
{
    if i < 0 || i >= lines.len() {
        Err((if i >= 1 { i } else { 1 }, ConfigFault::UnclosedPrompt))
    } else {
        match prompt_item(clean(lines[i]), st) {
            Err(f) => Err((i + 1, f)),
            Ok(ItemOutcome::Close) => Ok((i + 1, st.prompt)),
            Ok(ItemOutcome::Next(s)) => prompt_block(lines, i + 1, s),
        }
    }
}

/// `s` without trailing `c`s.
pub open spec fn trim_end_char(s: Seq<char>, c: char) -> Seq<char>
    decreases s.len(),
{
    if s.len() > 0 && s.last() == c {
        trim_end_char(s.drop_last(), c)
    } else {
        s
    }
}

/// The parts joined with `sep` between each two.
pub open spec fn join(parts: Seq<Seq<char>>, sep: Seq<char>) -> Seq<char>
    decreases parts.len(),
{
    if parts.len() == 0 {
        Seq::empty()
    } else if parts.len() == 1 {
        parts[0]
    } else {
        join(parts.drop_last(), sep) + sep + parts.last()
    }
}

/// The commands of an alias block from line index `i`, each without trailing
/// `;`: the index after its `}` and the commands, or the line of an unclosed block.
pub open spec fn alias_block(lines: Seq<Seq<char>>, i: int, acc: Seq<Seq<char>>) -> Result<
    (int, Seq<Seq<char>>),
    int,
>
    decreases lines.len() - i,
{
    if i < 0 || i >= lines.len() {
        Err(i)
    } else {
        let item = clean(lines[i]);
        if text_is(item, "}"@) {
            Ok((i + 1, acc))
        } else {
            alias_block(
                lines,
                i + 1,
                if item.len() > 0 {
                    acc.push(trim_end_char(item, ';'))
                } else {
                    acc
                },
            )
        }
    }
}

pub open spec fn start_block(c: ConfigModel) -> BlockState {
    BlockState {
        prompt: PromptModel { show_name: false, show_dir: false, ..c.prompt },
        saw_component: false,
        saw_newline: false,
        saw_layout: false,
        saw_prompt: false,
    }
}

/// What a top-level line of a configuration file is.
#[derive(Clone, Copy, PartialEq, Eq, Structural)]
pub enum TopKind {
    Blank,
    PromptStyle,
    Startup,
    AlertSound,
    Environment,
    Abbreviation,
    Alias,
    Unknown,
}

pub open spec fn top_kind(line: Seq<char>) -> TopKind {
    if line.len() == 0 {
        TopKind::Blank
    } else if text_is(line, "prompt_style = {"@) {
        TopKind::PromptStyle
    } else if text_begins(line, "exec_once_opened"@) {
        TopKind::Startup
    } else if text_begins(line, "alert_sound"@) {
        TopKind::AlertSound
    } else if text_begins(line, "environment."@) {
        TopKind::Environment
    } else if text_begins(line, "abbr "@) {
        TopKind::Abbreviation
    } else if text_begins(line, "alias "@) {
        TopKind::Alias
    } else {
        TopKind::Unknown
    }
}

/// The outcome of one top-level entry: the line index after it and the
/// configuration with it applied, or the 1-based line and fault of an error.
pub type Step = Result<(int, ConfigModel), (int, ConfigFault)>;

pub open spec fn top_prompt(lines: Seq<Seq<char>>, n: int, c: ConfigModel) -> Step {
    match prompt_block(lines, n, start_block(c)) {
        Err(e) => Err(e),
        Ok((m, p)) => Ok((m, ConfigModel { prompt: p, ..c })),
    }
}

pub open spec fn top_startup(line: Seq<char>, n: int, c: ConfigModel) -> Step {
    match spec_assignment(line, "exec_once_opened"@) {
        Err(f) => Err((n, f)),
        Ok(v) => Ok((n, ConfigModel { startup: c.startup.push(v), ..c })),
    }
}

pub open spec fn top_alert(line: Seq<char>, n: int, c: ConfigModel) -> Step {
    match spec_assignment(line, "alert_sound"@) {
        Err(f) => Err((n, f)),
        Ok(v) => Ok((n, ConfigModel { alert_sound: Some(v), ..c })),
    }
}

/// `line` after a prefix of `k` characters.
pub open spec fn after(line: Seq<char>, k: nat) -> Seq<char> {
    line.subrange(k as int, line.len() as int)
}

pub open spec fn top_environment(line: Seq<char>, n: int, c: ConfigModel) -> Step {
    match split_once(after(line, "environment."@.len()), '=') {
        None => Err((n, ConfigFault::EnvironmentNeedsEquals)),
        Some((name, value)) => if !spec_valid_variable_name(trim(name)) {
            Err((n, ConfigFault::BadVariableName))
        } else {
            match spec_quoted(trim(value)) {
                Err(f) => Err((n, f)),
                Ok(v) => Ok((n, ConfigModel { environment: c.environment.insert(trim(name), v), ..c })),
            }
        },
    }
}

pub open spec fn top_abbreviation(line: Seq<char>, n: int, c: ConfigModel) -> Step {
    match split_once(after(line, "abbr "@.len()), '>') {
        None => Err((n, ConfigFault::AbbreviationNeedsArrow)),
        Some((name, body)) => match spec_abbreviation_name(trim(name)) {
            Err(f) => Err((n, f)),
            Ok(name) => match spec_quoted(trim(body)) {
                Err(f) => Err((n, f)),
                Ok(v) => Ok(
                    (n, ConfigModel { abbreviations: c.abbreviations.insert(name, v), ..c }),
                ),
            },
        },
    }
}

/// The body of an alias: a quoted command, or a `{` block of commands joined by `; `.
pub open spec fn alias_body(lines: Seq<Seq<char>>, body: Seq<char>, n: int) -> Result<
    (int, Seq<char>),
    (int, ConfigFault),
> {
    if text_is(body, "{"@) {
        match alias_block(lines, n, Seq::empty()) {
            Err(at) => Err((at, ConfigFault::UnclosedAlias)),
            Ok((m, commands)) => Ok((m, join(commands, "; "@))),
        }
    } else {
        match spec_quoted(body) {
            Err(f) => Err((n, f)),
            Ok(v) => Ok((n, v)),
        }
    }
}

pub open spec fn top_alias(lines: Seq<Seq<char>>, line: Seq<char>, n: int, c: ConfigModel) -> Step {
    match split_once(after(line, "alias "@.len()), '>') {
        None => Err((n, ConfigFault::AliasNeedsArrow)),
        Some((name, body)) => match spec_alias_name(trim(name)) {
            Err(f) => Err((n, f)),
            Ok(name) => match alias_body(lines, trim(body), n) {
                Err(e) => Err(e),
                Ok((m, v)) => Ok(
                    (m, ConfigModel { aliases: c.aliases.insert(split_whitespace(name), v), ..c }),
                ),
            },
        },
    }
}

/// The entry that starts at line index `i`.
pub open spec fn top_step(lines: Seq<Seq<char>>, i: int, c: ConfigModel) -> Step {
    let line = clean(lines[i]);
    let n = i + 1;
    match top_kind(line) {
        TopKind::Blank => Ok((n, c)),
        TopKind::PromptStyle => top_prompt(lines, n, c),
        TopKind::Startup => top_startup(line, n, c),
        TopKind::AlertSound => top_alert(line, n, c),
        TopKind::Environment => top_environment(line, n, c),
        TopKind::Abbreviation => top_abbreviation(line, n, c),
        TopKind::Alias => top_alias(lines, line, n, c),
        TopKind::Unknown => Err((n, ConfigFault::UnknownEntry)),
    }
}

/// The configuration read from line index `i` on, from configuration `c`;
/// an error carries its 1-based line.
pub open spec fn parse_from(lines: Seq<Seq<char>>, i: int, c: ConfigModel) -> Result<
    ConfigModel,
    (int, ConfigFault),
>
    decreases lines.len() - i,
{
    if i < 0 || i >= lines.len() {
        Ok(c)
    } else {
        match top_step(lines, i, c) {
            Err(e) => Err(e),
            Ok((m, next)) => if i < m <= lines.len() {
                parse_from(lines, m, next)
            } else {
                Ok(c)
            },
        }
    }
}

/// The configuration that a file's text describes, starting from the defaults.
pub open spec fn spec_parse_config(source: Seq<char>) -> Result<ConfigModel, (int, ConfigFault)> {
    parse_from(lines_of(source), 0, default_config())
}

} // verus!

verus! {

struct Block {
    prompt: Prompt,
    saw_component: bool,
    saw_newline: bool,
    saw_layout: bool,
    saw_prompt: bool,
}

impl Block {
    spec fn model(&self) -> BlockState {
        BlockState {
            prompt: self.prompt@,
            saw_component: self.saw_component,
            saw_newline: self.saw_newline,
            saw_layout: self.saw_layout,
            saw_prompt: self.saw_prompt,
        }
    }
}

spec fn outcome_of(r: Result<(bool, Block), ConfigFault>) -> Result<ItemOutcome, ConfigFault> {
    match r {
        Ok((true, _)) => Ok(ItemOutcome::Close),
        Ok((false, b)) => Ok(ItemOutcome::Next(b.model())),
        Err(f) => Err(f),
    }
}

fn key_of(line: &[char]) -> (r: Option<Vec<char>>)
    ensures
        match setting_key(line@) {
            Some(k) => r is Some && r->0@ == k,
            None => r is None,
        },
{
    match crate::text::split_once_char(line, '=') {
        Some((key, _)) => Some(crate::text::trimmed(key.as_slice())),
        None => None,
    }
}

fn key_named(line: &[char], key: &str) -> (r: bool)
    ensures
        r == key_is(line@, key@),
{
    match key_of(line) {
        Some(k) => is_text(k.as_slice(), key),
        None => false,
    }
}

fn item_string(item: &[char], key: &str) -> (r: Result<String, ConfigFault>)
    ensures
        match spec_assignment(item@, key@) {
            Ok(v) => r is Ok && r->Ok_0@ == v,
            Err(f) => r == Err::<String, ConfigFault>(f),
        },
{
    match assignment(item, key) {
        Ok(v) => Ok(crate::text::string_of(v.as_slice())),
        Err(f) => Err(f),
    }
}

fn kind_of(item: &[char]) -> (r: ItemKind)
    ensures
        r == item_kind(item@),
{
    if is_text(item, "show-name") {
        ItemKind::Show(ShowFlag::Name)
    } else if is_text(item, "show-dir") {
        ItemKind::Show(ShowFlag::Dir)
    } else if is_text(item, "show-host") {
        ItemKind::Show(ShowFlag::Host)
    } else if is_text(item, "show-status") {
        ItemKind::Show(ShowFlag::Status)
    } else if is_text(item, "show-git") {
        ItemKind::Show(ShowFlag::Git)
    } else if is_text(item, "show-jobs") {
        ItemKind::Show(ShowFlag::Jobs)
    } else if is_text(item, "show-duration") {
        ItemKind::Show(ShowFlag::Duration)
    } else if is_text(item, "show-time") {
        ItemKind::Show(ShowFlag::Time)
    } else if is_text(item, "\\") {
        ItemKind::LineBreak
    } else if is_text(item, "}") {
        ItemKind::Close
    } else if begins_text(item, "prompt") {
        ItemKind::Marker
    } else if key_named(item, "layout") {
        ItemKind::Layout
    } else if key_named(item, "directory") {
        ItemKind::Directory
    } else if begins_text(item, "separator") {
        ItemKind::Separator
    } else if begins_text(item, "duration-threshold") {
        ItemKind::DurationThreshold
    } else if begins_text(item, "time-format") {
        ItemKind::TimeFormat
    } else if begins_text(item, "git-dirty-symbol") {
        ItemKind::GitDirtySymbol
    } else if begins_text(item, "name-color") {
        ItemKind::Color(ColorSlot::Name)
    } else if begins_text(item, "directory-color") {
        ItemKind::Color(ColorSlot::Directory)
    } else if begins_text(item, "host-color") {
        ItemKind::Color(ColorSlot::Host)
    } else if begins_text(item, "room-color") {
        ItemKind::Color(ColorSlot::Room)
    } else if begins_text(item, "status-color") {
        ItemKind::Color(ColorSlot::Status)
    } else if begins_text(item, "git-color") {
        ItemKind::Color(ColorSlot::Git)
    } else if begins_text(item, "jobs-color") {
        ItemKind::Color(ColorSlot::Jobs)
    } else if begins_text(item, "duration-color") {
        ItemKind::Color(ColorSlot::Duration)
    } else if begins_text(item, "time-color") {
        ItemKind::Color(ColorSlot::Time)
    } else if begins_text(item, "frame-color") {
        ItemKind::Color(ColorSlot::Frame)
    } else if begins_text(item, "success-color") {
        ItemKind::Color(ColorSlot::Success)
    } else if begins_text(item, "error-color") {
        ItemKind::Color(ColorSlot::Error)
    } else if item.len() == 0 {
        ItemKind::Blank
    } else {
        ItemKind::Unknown
    }
}

fn color_key_text(slot: ColorSlot) -> (r: &'static str)
    ensures
        r@ == color_key(slot),
{
    match slot {
        ColorSlot::Name => "name-color",
        ColorSlot::Directory => "directory-color",
        ColorSlot::Host => "host-color",
        ColorSlot::Room => "room-color",
        ColorSlot::Status => "status-color",
        ColorSlot::Git => "git-color",
        ColorSlot::Jobs => "jobs-color",
        ColorSlot::Duration => "duration-color",
        ColorSlot::Time => "time-color",
        ColorSlot::Frame => "frame-color",
        ColorSlot::Success => "success-color",
        ColorSlot::Error => "error-color",
    }
}

fn show(p: Prompt, f: ShowFlag) -> (r: Prompt)
    ensures
        r@ == set_shown(p@, f),
{
    let mut p = p;
    p.show_name = p.show_name || f == ShowFlag::Name;
    p.show_dir = p.show_dir || f == ShowFlag::Dir;
    p.show_host = p.show_host || f == ShowFlag::Host;
    p.show_status = p.show_status || f == ShowFlag::Status;
    p.show_git = p.show_git || f == ShowFlag::Git;
    p.show_jobs = p.show_jobs || f == ShowFlag::Jobs;
    p.show_duration = p.show_duration || f == ShowFlag::Duration;
    p.show_time = p.show_time || f == ShowFlag::Time;
    p
}

fn pick(slot: ColorSlot, want: ColorSlot, c: PromptColor, old: PromptColor) -> (r: PromptColor)
    ensures
        r == (if slot == want { c } else { old }),
{
    if slot == want {
        c
    } else {
        old
    }
}

fn paint_slot(p: Prompt, slot: ColorSlot, c: PromptColor) -> (r: Prompt)
    ensures
        r@ == set_color(p@, slot, c),
{
    let mut p = p;
    p.name_color = pick(slot, ColorSlot::Name, c, p.name_color);
    p.directory_color = pick(slot, ColorSlot::Directory, c, p.directory_color);
    p.host_color = pick(slot, ColorSlot::Host, c, p.host_color);
    p.room_color = pick(slot, ColorSlot::Room, c, p.room_color);
    p.status_color = pick(slot, ColorSlot::Status, c, p.status_color);
    p.git_color = pick(slot, ColorSlot::Git, c, p.git_color);
    p.jobs_color = pick(slot, ColorSlot::Jobs, c, p.jobs_color);
    p.duration_color = pick(slot, ColorSlot::Duration, c, p.duration_color);
    p.time_color = pick(slot, ColorSlot::Time, c, p.time_color);
    p.frame_color = pick(slot, ColorSlot::Frame, c, p.frame_color);
    p.success_color = pick(slot, ColorSlot::Success, c, p.success_color);
    p.error_color = pick(slot, ColorSlot::Error, c, p.error_color);
    p
}

fn apply_line_break(st: Block) -> (r: Result<(bool, Block), ConfigFault>)
    ensures
        outcome_of(r) == item_line_break(st.model()),
{
    if st.saw_newline {
        return Err(ConfigFault::PromptBreakTwice);
    }
    if !st.saw_component || st.saw_prompt {
        return Err(ConfigFault::PromptBreakPlace);
    }
    if st.saw_layout {
        return Err(ConfigFault::PromptBreakWithLayout);
    }
    let mut st = st;
    st.prompt.newline = true;
    st.prompt.layout = PromptLayout::TwoLine;
    st.saw_newline = true;
    Ok((false, st))
}

fn apply_marker(item: &[char], st: Block) -> (r: Result<(bool, Block), ConfigFault>)
    ensures
        outcome_of(r) == item_marker(item@, st.model()),
{
    let v = item_string(item, "prompt")?;
    let mut st = st;
    st.prompt.marker = v;
    st.saw_prompt = true;
    Ok((false, st))
}

fn layout_of(v: &[char]) -> (r: Option<PromptLayout>)
    ensures
        r == layout_named(v@),
{
    if is_text(v, "compact") {
        Some(PromptLayout::Compact)
    } else if is_text(v, "two-line") {
        Some(PromptLayout::TwoLine)
    } else if is_text(v, "framed") {
        Some(PromptLayout::Framed)
    } else {
        None
    }
}

fn apply_layout(item: &[char], st: Block) -> (r: Result<(bool, Block), ConfigFault>)
    ensures
        outcome_of(r) == item_layout(item@, st.model()),
{
    if st.saw_newline {
        return Err(ConfigFault::LayoutWithBreak);
    }
    let v = assignment(item, "layout")?;
    match layout_of(v.as_slice()) {
        None => Err(ConfigFault::BadLayout),
        Some(l) => {
            let mut st = st;
            st.prompt.layout = l;
            st.saw_layout = true;
            Ok((false, st))
        },
    }
}

fn directory_of(v: &[char]) -> (r: Option<DirectoryStyle>)
    ensures
        r == directory_named(v@),
{
    if is_text(v, "full") {
        Some(DirectoryStyle::Full)
    } else if is_text(v, "short") {
        Some(DirectoryStyle::Short)
    } else {
        None
    }
}

fn apply_directory(item: &[char], st: Block) -> (r: Result<(bool, Block), ConfigFault>)
    ensures
        outcome_of(r) == item_directory(item@, st.model()),
{
    let v = assignment(item, "directory")?;
    match directory_of(v.as_slice()) {
        None => Err(ConfigFault::BadDirectory),
        Some(d) => {
            let mut st = st;
            st.prompt.directory_style = d;
            Ok((false, st))
        },
    }
}

fn apply_separator(item: &[char], st: Block) -> (r: Result<(bool, Block), ConfigFault>)
    ensures
        outcome_of(r) == item_separator(item@, st.model()),
{
    let v = item_string(item, "separator")?;
    let mut st = st;
    st.prompt.separator = v;
    Ok((false, st))
}

fn apply_duration(item: &[char], st: Block) -> (r: Result<(bool, Block), ConfigFault>)
    ensures
        outcome_of(r) == item_duration(item@, st.model()),
{
    let v = assignment(item, "duration-threshold")?;
    let ms = duration_setting(v.as_slice())?;
    let mut st = st;
    st.prompt.duration_threshold_ms = ms;
    Ok((false, st))
}

fn time_format_of(v: &[char]) -> (r: Option<TimeFormat>)
    ensures
        r == time_format_named(v@),
{
    if is_text(v, "24h") {
        Some(TimeFormat::TwentyFourHour)
    } else if is_text(v, "12h") {
        Some(TimeFormat::TwelveHour)
    } else {
        None
    }
}

fn apply_time_format(item: &[char], st: Block) -> (r: Result<(bool, Block), ConfigFault>)
    ensures
        outcome_of(r) == item_time_format(item@, st.model()),
{
    let v = assignment(item, "time-format")?;
    match time_format_of(v.as_slice()) {
        None => Err(ConfigFault::BadTimeFormat),
        Some(t) => {
            let mut st = st;
            st.prompt.time_format = t;
            Ok((false, st))
        },
    }
}

fn apply_dirty_symbol(item: &[char], st: Block) -> (r: Result<(bool, Block), ConfigFault>)
    ensures
        outcome_of(r) == item_dirty_symbol(item@, st.model()),
{
    let v = item_string(item, "git-dirty-symbol")?;
    let mut st = st;
    st.prompt.git_dirty_symbol = v;
    Ok((false, st))
}

fn apply_color(item: &[char], slot: ColorSlot, st: Block) -> (r: Result<(bool, Block), ConfigFault>)
    ensures
        outcome_of(r) == item_color(item@, slot, st.model()),
{
    let c = color_setting(item, color_key_text(slot))?;
    let mut st = st;
    st.prompt = paint_slot(st.prompt, slot, c);
    Ok((false, st))
}

fn apply_show(st: Block, f: ShowFlag) -> (r: Result<(bool, Block), ConfigFault>)
    ensures
        outcome_of(r) == Ok::<ItemOutcome, ConfigFault>(
            ItemOutcome::Next(
                BlockState { prompt: set_shown(st.model().prompt, f), saw_component: true, ..st.model() },
            ),
        ),
{
    let mut st = st;
    st.prompt = show(st.prompt, f);
    st.saw_component = true;
    Ok((false, st))
}

fn apply_prompt_item(item: &[char], st: Block) -> (r: Result<(bool, Block), ConfigFault>)
    ensures
        outcome_of(r) == prompt_item(item@, st.model()),
        r matches Ok((true, b)) ==> b.model() == st.model(),
{
    match kind_of(item) {
        ItemKind::Show(f) => apply_show(st, f),
        ItemKind::LineBreak => apply_line_break(st),
        ItemKind::Close => Ok((true, st)),
        ItemKind::Marker => apply_marker(item, st),
        ItemKind::Layout => apply_layout(item, st),
        ItemKind::Directory => apply_directory(item, st),
        ItemKind::Separator => apply_separator(item, st),
        ItemKind::DurationThreshold => apply_duration(item, st),
        ItemKind::TimeFormat => apply_time_format(item, st),
        ItemKind::GitDirtySymbol => apply_dirty_symbol(item, st),
        ItemKind::Color(slot) => apply_color(item, slot, st),
        ItemKind::Blank => Ok((false, st)),
        ItemKind::Unknown => Err(ConfigFault::UnknownPromptSetting),
    }
}

} // verus!

verus! {

proof fn lemma_prompt_block_range(lines: Seq<Seq<char>>, i: int, st: BlockState)
    requires
        0 <= i,
    ensures
        prompt_block(lines, i, st) matches Ok((m, _)) ==> i < m <= lines.len(),
    decreases lines.len() - i,
{
    if 0 <= i < lines.len() {
        match prompt_item(clean(lines[i]), st) {
            Ok(ItemOutcome::Next(s)) => lemma_prompt_block_range(lines, i + 1, s),
            _ => {},
        }
    }
}

proof fn lemma_alias_block_range(lines: Seq<Seq<char>>, i: int, acc: Seq<Seq<char>>)
    requires
        0 <= i,
    ensures
        alias_block(lines, i, acc) matches Ok((m, _)) ==> i < m <= lines.len(),
    decreases lines.len() - i,
{
    if 0 <= i < lines.len() {
        let item = clean(lines[i]);
        if !text_is(item, "}"@) {
            alias_block_step_range(lines, i, acc, item);
        }
    }
}

proof fn alias_block_step_range(lines: Seq<Seq<char>>, i: int, acc: Seq<Seq<char>>, item: Seq<char>)
    requires
        0 <= i < lines.len(),
        item == clean(lines[i]),
        !text_is(item, "}"@),
    ensures
        alias_block(lines, i, acc) matches Ok((m, _)) ==> i < m <= lines.len(),
    decreases lines.len() - i, 0int,
{
    reveal(text_is);
    let next = if item.len() > 0 {
        acc.push(trim_end_char(item, ';'))
    } else {
        acc
    };
    lemma_alias_block_range(lines, i + 1, next);
}

spec fn block_result(r: Result<(usize, Prompt), (usize, ConfigFault)>) -> Result<(int, PromptModel), (int, ConfigFault)> {
    match r {
        Ok((m, p)) => Ok((m as int, p@)),
        Err((at, f)) => Err((at as int, f)),
    }
}

spec fn alias_result(r: Result<(usize, Vec<Vec<char>>), usize>) -> Result<(int, Seq<Seq<char>>), int> {
    match r {
        Ok((m, c)) => Ok((m as int, char_views(c@))),
        Err(at) => Err(at as int),
    }
}

fn run_prompt_block(lines: &Vec<Vec<char>>, start: usize, initial: Block) -> (r: Result<(usize, Prompt), (usize, ConfigFault)>)
    requires
        start <= lines@.len(),
    ensures
        block_result(r) == prompt_block(char_views(lines@), start as int, initial.model()),
{
    let ghost ls = char_views(lines@);
    let ghost goal = prompt_block(ls, start as int, initial.model());
    let ghost st0 = initial.model();
    let mut st = initial;
    let mut i = start;
    while i < lines.len()
        invariant
            ls == char_views(lines@),
            start <= i <= lines@.len(),
            prompt_block(ls, i as int, st.model()) == goal,
            goal == prompt_block(ls, start as int, st0),
            st0 == initial.model(),
        decreases lines@.len() - i,
    {
        let item = clean_line(lines[i].as_slice());
        assert(ls[i as int] == lines@[i as int]@);
        assert(clean(ls[i as int]) == item@);
        let ghost before = st.model();
        match apply_prompt_item(item.as_slice(), st) {
            Err(f) => {
                assert(prompt_block(ls, i as int, before) == Err::<(int, PromptModel), (int, ConfigFault)>(((i + 1) as int, f)));
                assert(goal == Err::<(int, PromptModel), (int, ConfigFault)>(((i + 1) as int, f)));
                let r: Result<(usize, Prompt), (usize, ConfigFault)> = Err((i + 1, f));
                assert(block_result(r) == goal);
                return r;
            },
            Ok((true, b)) => {
                assert(prompt_block(ls, i as int, before) == Ok::<(int, PromptModel), (int, ConfigFault)>(((i + 1) as int, before.prompt)));
                return Ok((i + 1, b.prompt));
            },
            Ok((false, b)) => {
                st = b;
            },
        }
        i += 1;
    }
    let at = if i >= 1 {
        i
    } else {
        1
    };
    Err((at, ConfigFault::UnclosedPrompt))
}

fn trim_end_semicolons(s: &[char]) -> (r: Vec<char>)
    ensures
        r@ == trim_end_char(s@, ';'),
{
    let mut end = s.len();
    assert(s@.subrange(0, s@.len() as int) == s@);
    while end > 0 && s[end - 1] == ';'
        invariant
            end <= s@.len(),
            trim_end_char(s@, ';') == trim_end_char(s@.subrange(0, end as int), ';'),
        decreases end,
    {
        assert(s@.subrange(0, end as int).drop_last() == s@.subrange(0, end - 1));
        end -= 1;
    }
    crate::text::chars_between(s, 0, end)
}

fn run_alias_block(lines: &Vec<Vec<char>>, start: usize) -> (r: Result<(usize, Vec<Vec<char>>), usize>)
    requires
        start <= lines@.len(),
    ensures
        alias_result(r) == alias_block(char_views(lines@), start as int, Seq::empty()),
{
    let ghost ls = char_views(lines@);
    let ghost goal = alias_block(ls, start as int, Seq::empty());
    let mut acc: Vec<Vec<char>> = Vec::new();
    assert(char_views(acc@) =~= Seq::<Seq<char>>::empty());
    let mut i = start;
    while i < lines.len()
        invariant
            ls == char_views(lines@),
            start <= i <= lines@.len(),
            alias_block(ls, i as int, char_views(acc@)) == goal,
            goal == alias_block(ls, start as int, Seq::empty()),
        decreases lines@.len() - i,
    {
        let item = clean_line(lines[i].as_slice());
        assert(ls[i as int] == lines@[i as int]@);
        assert(clean(ls[i as int]) == item@);
        if is_text(item.as_slice(), "}") {
            return Ok((i + 1, acc));
        }
        if item.len() > 0 {
            let ghost before = char_views(acc@);
            let command = trim_end_semicolons(item.as_slice());
            acc.push(command);
            assert(char_views(acc@) =~= before.push(command@));
        }
        i += 1;
    }
    Err(i)
}

fn join_commands(parts: &Vec<Vec<char>>) -> (r: Vec<char>)
    ensures
        r@ == join(char_views(parts@), "; "@),
{
    let ghost ps = char_views(parts@);
    let sep = chars_of("; ");
    let mut out: Vec<char> = Vec::new();
    let mut i: usize = 0;
    assert(ps.take(0) =~= Seq::<Seq<char>>::empty());
    while i < parts.len()
        invariant
            ps == char_views(parts@),
            sep@ == "; "@,
            i <= parts@.len(),
            out@ == join(ps.take(i as int), "; "@),
        decreases parts@.len() - i,
    {
        let ghost before = out@;
        if i > 0 {
            out.extend_from_slice(sep.as_slice());
        }
        out.extend_from_slice(parts[i].as_slice());
        assert(ps.take(i + 1).drop_last() =~= ps.take(i as int));
        assert(ps.take(i + 1).last() == parts@[i as int]@);
        if i == 0 {
            assert(ps.take(1).len() == 1);
        }
        i += 1;
    }
    assert(ps.take(parts@.len() as int) =~= ps);
    out
}

} // verus!

verus! {

spec fn step_result(r: Result<(usize, Config), (usize, ConfigFault)>) -> Step {
    match r {
        Ok((m, c)) => Ok((m as int, c@)),
        Err((at, f)) => Err((at as int, f)),
    }
}

fn top_kind_of(line: &[char]) -> (r: TopKind)
    ensures
        r == top_kind(line@),
{
    if line.len() == 0 {
        TopKind::Blank
    } else if is_text(line, "prompt_style = {") {
        TopKind::PromptStyle
    } else if begins_text(line, "exec_once_opened") {
        TopKind::Startup
    } else if begins_text(line, "alert_sound") {
        TopKind::AlertSound
    } else if begins_text(line, "environment.") {
        TopKind::Environment
    } else if begins_text(line, "abbr ") {
        TopKind::Abbreviation
    } else if begins_text(line, "alias ") {
        TopKind::Alias
    } else {
        TopKind::Unknown
    }
}

/// The part of `line` after `prefix`, which it begins with.
pub(crate) fn rest_after(line: &[char], prefix: &str) -> (r: Vec<char>)
    requires
        text_begins(line@, prefix@),
    ensures
        r@ == after(line@, prefix@.len()),
{
    reveal(text_begins);
    let p = chars_of(prefix);
    crate::text::chars_between(line, p.len(), line.len())
}

fn run_top_prompt(lines: &Vec<Vec<char>>, n: usize, c: Config) -> (r: Result<(usize, Config), (usize, ConfigFault)>)
    requires
        n <= lines@.len(),
    ensures
        step_result(r) == top_prompt(char_views(lines@), n as int, c@),
{
    let Config { prompt, aliases, abbreviations, startup, environment, alert_sound } = c;
    let mut p = prompt;
    p.show_name = false;
    p.show_dir = false;
    let block = Block {
        prompt: p,
        saw_component: false,
        saw_newline: false,
        saw_layout: false,
        saw_prompt: false,
    };
    match run_prompt_block(lines, n, block) {
        Err(e) => Err(e),
        Ok((m, prompt)) => Ok(
            (m, Config { prompt, aliases, abbreviations, startup, environment, alert_sound }),
        ),
    }
}

} // verus!

verus! {

fn run_top_startup(line: &[char], n: usize, c: Config) -> (r: Result<(usize, Config), (usize, ConfigFault)>)
    ensures
        step_result(r) == top_startup(line@, n as int, c@),
{
    match item_string(line, "exec_once_opened") {
        Err(f) => Err((n, f)),
        Ok(v) => {
            let mut c = c;
            let ghost before = c.startup@;
            c.startup.push(v);
            assert(string_views(c.startup@) =~= string_views(before).push(v@));
            Ok((n, c))
        },
    }
}

fn run_top_alert(line: &[char], n: usize, c: Config) -> (r: Result<(usize, Config), (usize, ConfigFault)>)
    ensures
        step_result(r) == top_alert(line@, n as int, c@),
{
    match item_string(line, "alert_sound") {
        Err(f) => Err((n, f)),
        Ok(v) => {
            let mut c = c;
            c.alert_sound = Some(v);
            Ok((n, c))
        },
    }
}

fn run_top_environment(line: &[char], n: usize, c: Config) -> (r: Result<(usize, Config), (usize, ConfigFault)>)
    requires
        text_begins(line@, "environment."@),
    ensures
        step_result(r) == top_environment(line@, n as int, c@),
{
    let rest = rest_after(line, "environment.");
    match crate::text::split_once_char(rest.as_slice(), '=') {
        None => Err((n, ConfigFault::EnvironmentNeedsEquals)),
        Some((name, value)) => {
            let name = crate::text::trimmed(name.as_slice());
            if !valid_variable_name(name.as_slice()) {
                return Err((n, ConfigFault::BadVariableName));
            }
            let value = crate::text::trimmed(value.as_slice());
            match quoted_value(value.as_slice()) {
                Err(f) => Err((n, f)),
                Ok(v) => {
                    let mut c = c;
                    c.environment.insert(
                        crate::text::string_of(name.as_slice()),
                        crate::text::string_of(v.as_slice()),
                    );
                    Ok((n, c))
                },
            }
        },
    }
}

fn run_top_abbreviation(line: &[char], n: usize, c: Config) -> (r: Result<(usize, Config), (usize, ConfigFault)>)
    requires
        text_begins(line@, "abbr "@),
    ensures
        step_result(r) == top_abbreviation(line@, n as int, c@),
{
    let rest = rest_after(line, "abbr ");
    match crate::text::split_once_char(rest.as_slice(), '>') {
        None => Err((n, ConfigFault::AbbreviationNeedsArrow)),
        Some((name, body)) => {
            let name = crate::text::trimmed(name.as_slice());
            let name = match abbreviation_name_chars(name.as_slice()) {
                Err(f) => {
                    return Err((n, f));
                },
                Ok(v) => v,
            };
            let body = crate::text::trimmed(body.as_slice());
            match quoted_value(body.as_slice()) {
                Err(f) => Err((n, f)),
                Ok(v) => {
                    let mut c = c;
                    c.abbreviations.insert(
                        crate::text::string_of(name.as_slice()),
                        crate::text::string_of(v.as_slice()),
                    );
                    Ok((n, c))
                },
            }
        },
    }
}

spec fn body_result(r: Result<(usize, Vec<char>), (usize, ConfigFault)>) -> Result<(int, Seq<char>), (int, ConfigFault)> {
    match r {
        Ok((m, v)) => Ok((m as int, v@)),
        Err((at, f)) => Err((at as int, f)),
    }
}

fn run_alias_body(lines: &Vec<Vec<char>>, body: &[char], n: usize) -> (r: Result<(usize, Vec<char>), (usize, ConfigFault)>)
    requires
        n <= lines@.len(),
    ensures
        body_result(r) == alias_body(char_views(lines@), body@, n as int),
{
    if is_text(body, "{") {
        match run_alias_block(lines, n) {
            Err(at) => Err((at, ConfigFault::UnclosedAlias)),
            Ok((m, commands)) => Ok((m, join_commands(&commands))),
        }
    } else {
        match quoted_value(body) {
            Err(f) => Err((n, f)),
            Ok(v) => Ok((n, v)),
        }
    }
}

/// The words of an alias name, as the key of the alias.
pub(crate) fn alias_key(name: &[char]) -> (r: Vec<String>)
    ensures
        string_views(r@) == split_whitespace(name@),
{
    let words = crate::text::split_words(name);
    let mut r: Vec<String> = Vec::new();
    let mut i: usize = 0;
    while i < words.len()
        invariant
            i <= words@.len(),
            char_views(words@) == split_whitespace(name@),
            string_views(r@) == char_views(words@).take(i as int),
        decreases words@.len() - i,
    {
        let ghost before = r@;
        let w = crate::text::string_of(words[i].as_slice());
        assert(w@ == char_views(words@)[i as int]);
        r.push(w);
        assert(string_views(r@) =~= string_views(before).push(w@));
        assert(char_views(words@).take(i + 1) =~= char_views(words@).take(i as int).push(w@));
        i += 1;
    }
    assert(char_views(words@).take(words@.len() as int) =~= char_views(words@));
    r
}

fn run_top_alias(lines: &Vec<Vec<char>>, line: &[char], n: usize, c: Config) -> (r: Result<(usize, Config), (usize, ConfigFault)>)
    requires
        n <= lines@.len(),
        text_begins(line@, "alias "@),
    ensures
        step_result(r) == top_alias(char_views(lines@), line@, n as int, c@),
{
    let rest = rest_after(line, "alias ");
    match crate::text::split_once_char(rest.as_slice(), '>') {
        None => Err((n, ConfigFault::AliasNeedsArrow)),
        Some((name, body)) => {
            let name = crate::text::trimmed(name.as_slice());
            let name = match alias_name_chars(name.as_slice()) {
                Err(f) => {
                    return Err((n, f));
                },
                Ok(v) => v,
            };
            let body = crate::text::trimmed(body.as_slice());
            match run_alias_body(lines, body.as_slice(), n) {
                Err(e) => Err(e),
                Ok((m, v)) => {
                    let mut c = c;
                    c.aliases.insert(alias_key(name.as_slice()), crate::text::string_of(v.as_slice()));
                    Ok((m, c))
                },
            }
        },
    }
}

fn run_top_step(lines: &Vec<Vec<char>>, i: usize, c: Config) -> (r: Result<(usize, Config), (usize, ConfigFault)>)
    requires
        i < lines@.len(),
    ensures
        step_result(r) == top_step(char_views(lines@), i as int, c@),
{
    let line = clean_line(lines[i].as_slice());
    assert(char_views(lines@)[i as int] == lines@[i as int]@);
    assert(lines@.len() == lines.len());
    let n = i + 1;
    match top_kind_of(line.as_slice()) {
        TopKind::Blank => Ok((n, c)),
        TopKind::PromptStyle => run_top_prompt(lines, n, c),
        TopKind::Startup => run_top_startup(line.as_slice(), n, c),
        TopKind::AlertSound => run_top_alert(line.as_slice(), n, c),
        TopKind::Environment => run_top_environment(line.as_slice(), n, c),
        TopKind::Abbreviation => run_top_abbreviation(line.as_slice(), n, c),
        TopKind::Alias => run_top_alias(lines, line.as_slice(), n, c),
        TopKind::Unknown => Err((n, ConfigFault::UnknownEntry)),
    }
}

proof fn lemma_top_step_range(lines: Seq<Seq<char>>, i: int, c: ConfigModel)
    requires
        0 <= i < lines.len(),
    ensures
        top_step(lines, i, c) matches Ok((m, _)) ==> i < m <= lines.len(),
{
    let line = clean(lines[i]);
    match top_kind(line) {
        TopKind::PromptStyle => lemma_prompt_block_range(lines, i + 1, start_block(c)),
        TopKind::Alias => {
            if let Some((name, body)) = split_once(after(line, "alias "@.len()), '>') {
                lemma_alias_block_range(lines, i + 1, Seq::empty());
            }
        },
        _ => {},
    }
}

/// Reads a configuration file's text. `path` names the file in errors.
pub fn parse(source: &str, path: &str) -> (r: Result<Config, ConfigError>)
    ensures
        match spec_parse_config(source@) {
            Ok(m) => r is Ok && r->Ok_0@ == m,
            Err((line, f)) => r is Err && r->Err_0.path@ == path@ && r->Err_0.line == line
                && r->Err_0.column == 1 && r->Err_0.message@ == config_fault_message(f),
        },
{
    let chars = chars_of(source);
    let lines = crate::text::lines(chars.as_slice());
    let ghost ls = char_views(lines@);
    let mut c = Config::default();
    let mut i: usize = 0;
    while i < lines.len()
        invariant
            ls == char_views(lines@),
            ls == lines_of(source@),
            i <= lines@.len(),
            parse_from(ls, i as int, c@) == spec_parse_config(source@),
        decreases lines@.len() - i,
    {
        proof {
            lemma_top_step_range(ls, i as int, c@);
        }
        match run_top_step(&lines, i, c) {
            Err((line, f)) => {
                return Err(fault_error(path, line, f));
            },
            Ok((m, next)) => {
                c = next;
                i = m;
            },
        }
    }
    Ok(c)
}

} // verus!

verus! {

impl ConfigError {
    /// `path:line:column: message`, as the shell reports the error.
    pub fn describe(&self) -> (r: String)
        ensures
            r@ == self.path@ + ":"@ + crate::numbers::decimal_text(self.line as nat) + ":"@
                + crate::numbers::decimal_text(self.column as nat) + ": "@ + self.message@,
    {
        let mut r = self.path.clone();
        r.append(":");
        r.append(crate::numbers::decimal(self.line as u64).as_str());
        r.append(":");
        r.append(crate::numbers::decimal(self.column as u64).as_str());
        r.append(": ");
        r.append(self.message.as_str());
        r
    }
}

/// The configuration that a configuration file gives: the defaults when
/// there is no file, else what its text reads as.
pub fn load_text(source: Option<&str>, path: &str) -> (r: Result<Config, ConfigError>)
    ensures
        match source {
            None => r is Ok && r->Ok_0@ == default_config(),
            Some(text) => match spec_parse_config(text@) {
                Ok(m) => r is Ok && r->Ok_0@ == m,
                Err((line, f)) => r is Err && r->Err_0.path@ == path@ && r->Err_0.line == line
                    && r->Err_0.column == 1 && r->Err_0.message@ == config_fault_message(f),
            },
        },
{
    match source {
        None => Ok(Config::default()),
        Some(text) => parse(text, path),
    }
}

/// A line of spaces, or of spaces and then a `#` comment.
pub open spec fn blank_or_comment(l: Seq<char>, k: int) -> bool {
    &&& 0 <= k <= l.len()
    &&& forall|j: int| 0 <= j < k ==> #[trigger] l[j] == ' '
    &&& (k == l.len() || l[k] == '#')
}

proof fn lemma_cut_spaces(l: Seq<char>, i: int, k: int)
    requires
        blank_or_comment(l, k),
        0 <= i <= k,
    ensures
        comment_cut(l, i, false, false) == l.subrange(0, k),
    decreases k - i,
{
    if i < k {
        assert(l[i] == ' ');
        lemma_cut_spaces(l, i + 1, k);
    } else if k == l.len() {
        assert(l.subrange(0, k) =~= l);
    }
}

proof fn lemma_trim_spaces(w: Seq<char>)
    requires
        forall|j: int| 0 <= j < w.len() ==> #[trigger] w[j] == ' ',
    ensures
        crate::text::trim_start(w).len() == 0,
    decreases w.len(),
{
    if w.len() > 0 {
        assert(crate::text::is_ws(' ')) by {
            vstd::utf8::char_u32_cast(' ', ' ' as u32);
        }
        assert(w[0] == ' ');
        lemma_trim_spaces(w.drop_first());
    }
}

/// A blank line, or a comment line, inside an alias block adds no command:
/// the block reads on as if the line were not there.
pub proof fn lemma_block_skips_blank_lines(lines: Seq<Seq<char>>, i: int, acc: Seq<Seq<char>>, k: int)
    requires
        0 <= i < lines.len(),
        blank_or_comment(lines[i], k),
    ensures
        alias_block(lines, i, acc) == alias_block(lines, i + 1, acc),
{
    let l = lines[i];
    lemma_cut_spaces(l, 0, k);
    let cut = l.subrange(0, k);
    assert forall|j: int| 0 <= j < cut.len() implies #[trigger] cut[j] == ' ' by {
        assert(cut[j] == l[j]);
    }
    lemma_trim_spaces(cut);
    assert(crate::text::trim_start(cut) =~= Seq::<char>::empty());
    assert(clean(l) =~= Seq::<char>::empty());
    assert(!text_is(Seq::<char>::empty(), "}"@)) by {
        reveal(text_is);
        reveal_strlit("}");
    }
}

/// Each line of an alias block that reads `command;` gives `command`, in
/// order, until the line `}` closes the block after it.
pub proof fn lemma_block_commands(
    lines: Seq<Seq<char>>,
    i: int,
    k: int,
    cmds: Seq<Seq<char>>,
    acc: Seq<Seq<char>>,
)
    requires
        0 <= i <= k < lines.len(),
        cmds.len() == k - i,
        forall|j: int|
            0 <= j < cmds.len() ==> (#[trigger] cmds[j]).len() > 0 && cmds[j].last() != ';' && clean(
                lines[i + j],
            ) == cmds[j].push(';'),
        clean(lines[k]) == seq!['}'],
    ensures
        alias_block(lines, i, acc) == Ok::<(int, Seq<Seq<char>>), int>((k + 1, acc + cmds)),
    decreases k - i,
{
    reveal(text_is);
    reveal_strlit("}");
    if i == k {
        assert(cmds =~= Seq::<Seq<char>>::empty());
        assert(acc + cmds =~= acc);
        assert(clean(lines[k]) =~= "}"@);
    } else {
        let c = cmds[0];
        let item = clean(lines[i]);
        assert(item == c.push(';'));
        assert(item.drop_last() =~= c);
        assert(trim_end_char(item, ';') == trim_end_char(c, ';'));
        assert(trim_end_char(c, ';') == c);
        assert(item != "}"@) by {
            if item == "}"@ {
                assert(item.len() == 1);
                assert(c.len() == 0);
            }
        }
        let rest = cmds.drop_first();
        assert forall|j: int|
            0 <= j < rest.len() implies (#[trigger] rest[j]).len() > 0 && rest[j].last() != ';'
            && clean(lines[i + 1 + j]) == rest[j].push(';') by {
            assert(rest[j] == cmds[j + 1]);
        }
        lemma_block_commands(lines, i + 1, k, rest, acc.push(c));
        assert(acc.push(c) + rest =~= acc + cmds);
    }
}

/// A character of a plain alias name: an ASCII letter or digit, `_`, `-` or `.`.
pub open spec fn alias_letter(c: char) -> bool {
    ('a' <= c && c <= 'z') || ('A' <= c && c <= 'Z') || ('0' <= c && c <= '9') || c == '_' || c
        == '-' || c == '.'
}

proof fn lemma_one_word(w: Seq<char>, i: int)
    requires
        0 <= i <= w.len(),
        w.len() > 0,
        forall|j: int| 0 <= j < w.len() ==> !crate::text::is_ws(#[trigger] w[j]),
    ensures
        crate::text::words_from(w, 0, i) == seq![w],
    decreases w.len() - i,
{
    if i < w.len() {
        lemma_one_word(w, i + 1);
    } else {
        assert(w.subrange(0, w.len() as int) =~= w);
    }
}

/// An alias defined by a block: the line `alias NAME > {`, then one line
/// `command;` for each command, then `}`, defines NAME as the commands joined
/// by `; `, and reading goes on after the `}`.
pub proof fn lemma_alias_block_definition(
    lines: Seq<Seq<char>>,
    i: int,
    k: int,
    name: Seq<char>,
    cmds: Seq<Seq<char>>,
    c: ConfigModel,
)
    requires
        0 <= i < k < lines.len(),
        name.len() > 0,
        forall|j: int| 0 <= j < name.len() ==> alias_letter(#[trigger] name[j]),
        clean(lines[i]) == "alias "@ + name + " > {"@,
        cmds.len() == k - i - 1,
        forall|j: int|
            0 <= j < cmds.len() ==> (#[trigger] cmds[j]).len() > 0 && cmds[j].last() != ';' && clean(
                lines[i + 1 + j],
            ) == cmds[j].push(';'),
        clean(lines[k]) == seq!['}'],
    ensures
        top_step(lines, i, c) == Ok::<(int, ConfigModel), (int, ConfigFault)>(
            (k + 1, ConfigModel { aliases: c.aliases.insert(seq![name], join(cmds, "; "@)), ..c }),
        ),
{
    reveal_strlit("alias ");
    reveal_strlit(" > {");
    reveal_strlit("prompt_style = {");
    reveal_strlit("exec_once_opened");
    reveal_strlit("alert_sound");
    reveal_strlit("environment.");
    reveal_strlit("abbr ");
    reveal_strlit("{");
    reveal(text_is);
    reveal(text_begins);
    let line = clean(lines[i]);
    let m = name.len() as int;
    assert(line.len() == m + 10);
    assert(line[0] == 'a' && line[1] == 'l' && line[2] == 'i');
    assert forall|j: int| 0 <= j < m implies #[trigger] line[6 + j] == name[j] by {}
    assert forall|j: int| 0 <= j < m implies !crate::text::is_ws(#[trigger] name[j]) && name[j] != '>'
        && name[j] != '"' && name_char(name[j]) by {
        vstd::utf8::char_u32_cast(name[j], name[j] as u32);
    }
    assert(line != "prompt_style = {"@) by {
        assert(line[0] != "prompt_style = {"@[0]);
    }
    assert(!starts_with(line, "exec_once_opened"@)) by {
        if line.len() >= 16 {
            assert(line.subrange(0, 16)[0] != "exec_once_opened"@[0]);
        }
    }
    assert(!starts_with(line, "alert_sound"@)) by {
        assert(line.subrange(0, 11)[2] != "alert_sound"@[2]);
    }
    assert(!starts_with(line, "environment."@)) by {
        if line.len() >= 12 {
            assert(line.subrange(0, 12)[0] != "environment."@[0]);
        }
    }
    assert(!starts_with(line, "abbr "@)) by {
        assert(line.subrange(0, 5)[1] != "abbr "@[1]);
    }
    assert(starts_with(line, "alias "@)) by {
        assert(line.subrange(0, 6) =~= "alias "@);
    }
    assert(top_kind(line) == TopKind::Alias);
    let rest = after(line, 6);
    assert(rest =~= name + seq![' ', '>', ' ', '{']);
    crate::text::lemma_find_from(rest, '>', 0);
    assert(crate::text::find(rest, '>') == Some(m + 1)) by {
        assert(rest[m + 1] == '>');
        match crate::text::find_from(rest, '>', 0) {
            Some(q) => {
                if q < m {
                    assert(rest[q] == name[q]);
                }
            },
            None => {},
        }
    }
    let left = rest.subrange(0, m + 1);
    let right = rest.subrange(m + 2, rest.len() as int);
    assert(left =~= name.push(' '));
    assert(right =~= seq![' ', '{']);
    assert(crate::text::is_ws(' ')) by {
        vstd::utf8::char_u32_cast(' ', ' ' as u32);
    }
    assert(!crate::text::is_ws('{')) by {
        vstd::utf8::char_u32_cast('{', '{' as u32);
    }
    assert(crate::text::trim_start(left) == left);
    assert(left.drop_last() =~= name);
    assert(crate::text::trim_end(name) == name);
    assert(trim(left) == name);
    assert(seq![' ', '{'].drop_first() =~= seq!['{']);
    assert(crate::text::trim_start(right) == crate::text::trim_start(seq!['{']));
    assert(crate::text::trim_start(seq!['{']) == seq!['{']);
    assert(crate::text::trim_end(seq!['{']) == seq!['{']);
    assert(trim(right) =~= seq!['{']);
    assert(seq!['{'] =~= "{"@);
    assert(plain_name(name));
    assert(spec_alias_name(name) == Ok::<Seq<char>, ConfigFault>(name));
    lemma_one_word(name, 0);
    lemma_block_commands(lines, i + 1, k, cmds, Seq::empty());
    assert(Seq::<Seq<char>>::empty() + cmds =~= cmds);
}

} // verus!
