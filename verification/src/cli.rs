use vstd::prelude::*;

use crate::config::join;
use crate::table::string_views;
use crate::text::{chars_of, is_text, is_ws, replace_all, starts_with, string_of, text_is};

verus! {

/// What the command line asks of `nsh`.
#[derive(Debug, Clone, PartialEq, Eq)]
pub enum CliAction {
    Interactive,
    /// Run the command text and finish with its status.
    Run(String),
    /// `-c` with no command after it.
    MissingCommand,
    Init,
    Help,
    GenerateConfig,
    About,
    /// Check the configuration, or the file given.
    Check(Option<String>),
    NewRoom(String),
    Room(String),
    Usage,
}

pub enum CliModel {
    Interactive,
    Run(Seq<char>),
    MissingCommand,
    Init,
    Help,
    GenerateConfig,
    About,
    Check(Option<Seq<char>>),
    NewRoom(Seq<char>),
    Room(Seq<char>),
    Usage,
}

impl View for CliAction {
    type V = CliModel;

    open spec fn view(&self) -> CliModel {
        match self {
            CliAction::Interactive => CliModel::Interactive,
            CliAction::Run(c) => CliModel::Run(c@),
            CliAction::MissingCommand => CliModel::MissingCommand,
            CliAction::Init => CliModel::Init,
            CliAction::Help => CliModel::Help,
            CliAction::GenerateConfig => CliModel::GenerateConfig,
            CliAction::About => CliModel::About,
            CliAction::Check(p) => CliModel::Check(crate::shell::text_option(*p)),
            CliAction::NewRoom(n) => CliModel::NewRoom(n@),
            CliAction::Room(a) => CliModel::Room(a@),
            CliAction::Usage => CliModel::Usage,
        }
    }
}

/// The action for the arguments after the program's name.
pub open spec fn spec_cli_action(args: Seq<Seq<char>>) -> CliModel {
    let n = args.len();
    if n == 0 {
        CliModel::Interactive
    } else if text_is(args[0], "-c"@) {
        if n == 1 {
            CliModel::MissingCommand
        } else {
            CliModel::Run(join(args.drop_first(), " "@))
        }
    } else if n == 1 && text_is(args[0], "init"@) {
        CliModel::Init
    } else if n == 1 && (text_is(args[0], "help"@) || text_is(args[0], "-h"@) || text_is(
        args[0],
        "--help"@,
    )) {
        CliModel::Help
    } else if n == 2 && text_is(args[0], "gen"@) && text_is(args[1], "config"@) {
        CliModel::GenerateConfig
    } else if n == 1 && text_is(args[0], "about"@) {
        CliModel::About
    } else if n == 1 && text_is(args[0], "check"@) {
        CliModel::Check(None)
    } else if n == 2 && text_is(args[0], "check"@) {
        CliModel::Check(Some(args[1]))
    } else if n == 3 && text_is(args[0], "new"@) && text_is(args[1], "room"@) {
        CliModel::NewRoom(args[2])
    } else if n == 2 && text_is(args[0], "room"@) {
        CliModel::Room(args[1])
    } else {
        CliModel::Usage
    }
}

pub fn cli_action(args: &Vec<String>) -> (r: CliAction)
    ensures
        r@ == spec_cli_action(string_views(args@)),
{
    let ghost a = string_views(args@);
    let n = args.len();
    if n == 0 {
        return CliAction::Interactive;
    }
    let first = chars_of(args[0].as_str());
    assert(a[0] == first@);
    let second = if n > 1 {
        assert(a[1] == args@[1]@);
        chars_of(args[1].as_str())
    } else {
        Vec::new()
    };
    let f = first.as_slice();
    let s = second.as_slice();
    if is_text(f, "-c") {
        if n == 1 {
            CliAction::MissingCommand
        } else {
            let text = crate::shell::join_words(args, 1);
            assert(a.subrange(1, a.len() as int) =~= a.drop_first());
            CliAction::Run(text)
        }
    } else if n == 1 && is_text(f, "init") {
        CliAction::Init
    } else if n == 1 && (is_text(f, "help") || is_text(f, "-h") || is_text(f, "--help")) {
        CliAction::Help
    } else if n == 2 && is_text(f, "gen") && is_text(s, "config") {
        CliAction::GenerateConfig
    } else if n == 1 && is_text(f, "about") {
        CliAction::About
    } else if n == 1 && is_text(f, "check") {
        CliAction::Check(None)
    } else if n == 2 && is_text(f, "check") {
        CliAction::Check(Some(String::from_str(args[1].as_str())))
    } else if n == 3 && is_text(f, "new") && is_text(s, "room") {
        assert(a[2] == args@[2]@);
        CliAction::NewRoom(String::from_str(args[2].as_str()))
    } else if n == 2 && is_text(f, "room") {
        CliAction::Room(String::from_str(args[1].as_str()))
    } else {
        CliAction::Usage
    }
}

/// What `nsh room ACTION` does with the nearest room.
#[derive(Debug, Clone, Copy, PartialEq, Eq, Structural)]
pub enum RoomAction {
    Status,
    Trust,
    Untrust,
}

pub open spec fn spec_room_action(action: Seq<char>) -> Option<RoomAction> {
    if text_is(action, "status"@) {
        Some(RoomAction::Status)
    } else if text_is(action, "trust"@) {
        Some(RoomAction::Trust)
    } else if text_is(action, "untrust"@) {
        Some(RoomAction::Untrust)
    } else {
        None
    }
}

pub fn room_action(action: &str) -> (r: Option<RoomAction>)
    ensures
        r == spec_room_action(action@),
{
    let a = chars_of(action);
    if is_text(a.as_slice(), "status") {
        Some(RoomAction::Status)
    } else if is_text(a.as_slice(), "trust") {
        Some(RoomAction::Trust)
    } else if is_text(a.as_slice(), "untrust") {
        Some(RoomAction::Untrust)
    } else {
        None
    }
}

/// The last component of a path, as `Path::file_name` gives it for paths
/// without `.` or `..` inside them.
pub open spec fn file_name(path: Seq<char>) -> Option<Seq<char>> {
    match crate::room::parent_length(path) {
        None => None,
        Some(_) => {
            let t = crate::room::without_trailing_slashes(path, path.len() as int);
            let name = path.subrange(crate::room::last_slash(path, t) + 1, t);
            if name == ".."@ || name == "."@ {
                None
            } else {
                Some(name)
            }
        },
    }
}

/// `nsh check` reads a file named `.nsh-room` as a room, any other as a configuration.
pub fn is_room_file(path: &str) -> (r: bool)
    ensures
        r == (file_name(path@) == Some(".nsh-room"@)),
{
    let p = chars_of(path);
    match crate::room::parent_cut(p.as_slice()) {
        None => false,
        Some(_) => {
            let t = crate::room::trailing_slashes_cut(p.as_slice(), p.len());
            proof {
                crate::room::lemma_without_trailing_slashes(p@, p@.len() as int);
                crate::room::lemma_last_slash(p@, t as int);
                reveal(text_is);
            }
            let start = match crate::room::slash_before(p.as_slice(), t) {
                Some(s) => s + 1,
                None => 0,
            };
            let name = crate::text::chars_between(p.as_slice(), start, t);
            let dots = is_text(name.as_slice(), "..") || is_text(name.as_slice(), ".");
            let room = is_text(name.as_slice(), ".nsh-room");
            proof {
                reveal_strlit("..");
                reveal_strlit(".");
                reveal_strlit(".nsh-room");
            }
            !dots && room
        },
    }
}

/// A name written so that it reads back from between double quotes.
pub open spec fn escaped_name(name: Seq<char>) -> Seq<char> {
    replace_all(replace_all(name, seq!['\\'], seq!['\\', '\\']), seq!['"'], seq!['\\', '"'])
}

/// The small configuration that `nsh init` writes.
pub const STARTER_CONFIG: &'static str = r#"# Nshell configuration
prompt_style = {
  show-name
  show-dir
  layout = "two-line"
  prompt = ">"
}

# Run `nsh gen config` for every prompt layout and configuration feature.
# alert_sound = "metal-gear"
# environment.EDITOR = "nano"
# abbr gs > "git status"
# alias ll > "ls -la"
# exec_once_opened = "echo Welcome to Nshell"
"#;

/// The commented reference configuration that `nsh gen config` writes:
/// every prompt option and a sample of each kind of setting.
pub const REFERENCE_CONFIG: &'static str = r#"# Nshell v1 configuration reference
#
# Every setting below is optional. Lines starting with `#` are comments.

prompt_style = {
  show-name
  show-dir
  show-host
  show-status
  show-git
  show-jobs
  show-duration
  show-time
  directory = "full"
  layout = "framed"
  separator = " "
  prompt = "❯"
  duration-threshold = "2s"
  time-format = "24h"
  git-dirty-symbol = "*"
  name-color = "bright-cyan"
  directory-color = "bright-blue"
  host-color = "magenta"
  room-color = "yellow"
  status-color = "red"
  git-color = "green"
  jobs-color = "yellow"
  duration-color = "bright-black"
  time-color = "bright-black"
  frame-color = "bright-black"
  success-color = "bright-green"
  error-color = "bright-red"
}

# Play a sound after a command fails: "bell", "metal-gear", or a file path.
# alert_sound = "metal-gear"

environment.EDITOR = "nano"
exec_once_opened = "echo Welcome to Nshell"

# Abbreviations expand visibly in the editor before a command runs.
abbr gs > "git status"

# Aliases keep extra arguments; $1 through $9 and $@ place them.
alias ll > "ls -la"
alias "system overview" > "uname -a"
alias build > "cargo build && cargo run"
alias mkcd > {
  mkdir -p $1;
  cd $1;
}

# Command examples:
#   !notify cargo build          report status and elapsed time when done
#   history clear --force        clear the history without asking
#   pushd ~/projects             change directory and remember the old one
#   type cargo                   show what a command name runs
#   nsh new room my-project      create a room for project settings
#   nsh about                    show the version
"#;

/// The body of a new room file after its name line.
pub open spec fn room_template_rest() -> Seq<char> {
    "\"\n\n# environment.PYTHONPATH = \"./src\"\n# alias run > \"python main.py\"\n# abbr t > \"pytest -q\"\n# prompt.badge = \"PROJECT\"\n# on_enter = \"echo entered [[NAME]]\"\n# on_leave = \"echo leaving [[NAME]]\"\n"@
}

/// The text of a new `.nsh-room` file for a room named `name`.
pub open spec fn spec_room_template(name: Seq<char>) -> Seq<char> {
    "name = \""@ + escaped_name(name) + room_template_rest()
}

pub fn room_template(name: &str) -> (r: String)
    ensures
        r@ == spec_room_template(name@),
{
    let n = chars_of(name);
    let once = crate::text::replace_chars(n.as_slice(), &['\\'], &['\\', '\\']);
    let twice = crate::text::replace_chars(once.as_slice(), &['"'], &['\\', '"']);
    assert(['\\']@ == seq!['\\']);
    assert(['\\', '\\']@ == seq!['\\', '\\']);
    assert(['"']@ == seq!['"']);
    assert(['\\', '"']@ == seq!['\\', '"']);
    let mut r = String::from_str("name = \"");
    r.append(string_of(twice.as_slice()).as_str());
    r.append(
        "\"\n\n# environment.PYTHONPATH = \"./src\"\n# alias run > \"python main.py\"\n# abbr t > \"pytest -q\"\n# prompt.badge = \"PROJECT\"\n# on_enter = \"echo entered [[NAME]]\"\n# on_leave = \"echo leaving [[NAME]]\"\n",
    );
    r
}

/// For an absolute directory that `cd` could not enter: the same path below
/// home, the one the user may have meant.
pub open spec fn spec_home_relative(target: Seq<char>) -> Option<Seq<char>> {
    if target.len() > 0 && target[0] == '/' {
        Some(target.subrange(1, target.len() as int))
    } else {
        None
    }
}

pub fn home_relative(target: &str) -> (r: Option<String>)
    ensures
        crate::shell::text_option(r) == spec_home_relative(target@),
{
    let t = chars_of(target);
    if t.len() > 0 && t[0] == '/' {
        Some(string_of(crate::text::chars_between(t.as_slice(), 1, t.len()).as_slice()))
    } else {
        None
    }
}

/// The hint for a path that exists below home.
pub fn home_hint(relative: &str) -> (r: String)
    ensures
        r@ == "nsh: did you mean `cd ~/"@ + relative@ + "`?"@,
{
    let mut r = String::from_str("nsh: did you mean `cd ~/");
    r.append(relative);
    r.append("`?");
    r
}


proof fn lemma_replace_char_first(s: Seq<char>, c: char, r: Seq<char>)
    requires
        s.len() > 0,
    ensures
        replace_all(s, seq![c], r) == (if s[0] == c {
            r
        } else {
            seq![s[0]]
        }) + replace_all(s.drop_first(), seq![c], r),
{
    if s[0] == c {
        assert(s.subrange(0, 1) =~= seq![c]);
        assert(s.subrange(1, s.len() as int) =~= s.drop_first());
    } else {
        assert(s.subrange(0, 1)[0] != seq![c][0]);
    }
}

proof fn lemma_replace_char_append(a: Seq<char>, b: Seq<char>, c: char, r: Seq<char>)
    ensures
        replace_all(a + b, seq![c], r) == replace_all(a, seq![c], r) + replace_all(b, seq![c], r),
    decreases a.len(),
{
    if a.len() == 0 {
        assert(a + b =~= b);
        assert(replace_all(a, seq![c], r) =~= Seq::<char>::empty());
        assert(Seq::<char>::empty() + replace_all(b, seq![c], r) =~= replace_all(b, seq![c], r));
    } else {
        lemma_replace_char_first(a + b, c, r);
        lemma_replace_char_first(a, c, r);
        assert((a + b).drop_first() =~= a.drop_first() + b);
        assert((a + b)[0] == a[0]);
        lemma_replace_char_append(a.drop_first(), b, c, r);
        assert(replace_all(a + b, seq![c], r) =~= replace_all(a, seq![c], r) + replace_all(
            b,
            seq![c],
            r,
        ));
    }
}

/// A character of a name as the room template writes it between quotes.
pub open spec fn escape_piece(c: char) -> Seq<char> {
    if c == '\\' {
        seq!['\\', '\\']
    } else if c == '"' {
        seq!['\\', '"']
    } else {
        seq![c]
    }
}

pub open spec fn escape_pieces(n: Seq<char>) -> Seq<char>
    decreases n.len(),
{
    if n.len() == 0 {
        Seq::empty()
    } else {
        escape_piece(n[0]) + escape_pieces(n.drop_first())
    }
}

/// A character after the first step of reading it back: `\"` made `"`.
pub open spec fn half_piece(c: char) -> Seq<char> {
    if c == '\\' {
        seq!['\\', '\\']
    } else {
        seq![c]
    }
}

pub open spec fn half_pieces(n: Seq<char>) -> Seq<char>
    decreases n.len(),
{
    if n.len() == 0 {
        Seq::empty()
    } else {
        half_piece(n[0]) + half_pieces(n.drop_first())
    }
}

proof fn lemma_escaped_name_pieces(n: Seq<char>)
    ensures
        escaped_name(n) == escape_pieces(n),
    decreases n.len(),
{
    let back = seq!['\\', '\\'];
    let quote = seq!['\\', '"'];
    if n.len() == 0 {
        assert(replace_all(n, seq!['\\'], back) =~= Seq::<char>::empty());
        assert(escaped_name(n) =~= Seq::<char>::empty());
    } else {
        let c = n[0];
        let rest = n.drop_first();
        lemma_escaped_name_pieces(rest);
        lemma_replace_char_first(n, '\\', back);
        let first = if c == '\\' { back } else { seq![c] };
        lemma_replace_char_append(first, replace_all(rest, seq!['\\'], back), '"', quote);
        if c == '\\' {
            lemma_replace_char_first(back, '"', quote);
            lemma_replace_char_first(back.drop_first(), '"', quote);
            assert(back.drop_first().drop_first() =~= Seq::<char>::empty());
            assert(replace_all(back, seq!['"'], quote) =~= back);
        } else {
            lemma_replace_char_first(seq![c], '"', quote);
            assert(seq![c].drop_first() =~= Seq::<char>::empty());
            if c == '"' {
                assert(replace_all(seq![c], seq!['"'], quote) =~= quote);
            } else {
                assert(replace_all(seq![c], seq!['"'], quote) =~= seq![c]);
            }
        }
    }
}

proof fn lemma_escape_pieces_start(n: Seq<char>)
    requires
        escape_pieces(n).len() > 0,
    ensures
        escape_pieces(n)[0] != '"',
        n.len() > 0,
{
    if n.len() == 0 {
    } else {
        assert(escape_pieces(n)[0] == escape_piece(n[0])[0]);
    }
}

proof fn lemma_first_step(n: Seq<char>)
    ensures
        replace_all(escape_pieces(n), seq!['\\', '"'], seq!['"']) == half_pieces(n),
    decreases n.len(),
{
    let pat = seq!['\\', '"'];
    let rep = seq!['"'];
    if n.len() == 0 {
        assert(escape_pieces(n) =~= Seq::<char>::empty());
        assert(half_pieces(n) =~= Seq::<char>::empty());
    } else {
        let c = n[0];
        let rest = n.drop_first();
        lemma_first_step(rest);
        let x = escape_pieces(rest);
        let s = escape_pieces(n);
        assert(s == escape_piece(c) + x);
        if c == '\\' {
            assert(s[0] == '\\' && s[1] == '\\');
            assert(s.subrange(0, 2)[1] != pat[1]);
            assert(!starts_with(s, pat));
            assert(s.drop_first() =~= seq!['\\'] + x);
            let t = s.drop_first();
            if x.len() > 0 {
                lemma_escape_pieces_start(rest);
                assert(t.subrange(0, 2)[1] == x[0]);
            }
            assert(!starts_with(t, pat));
            assert(t.drop_first() =~= x);
            assert(t.len() > 0 && t[0] == '\\');
            assert(replace_all(t, pat, rep) == seq![t[0]] + replace_all(t.drop_first(), pat, rep));
            assert(replace_all(s, pat, rep) == seq![s[0]] + replace_all(s.drop_first(), pat, rep));
            assert(replace_all(s, pat, rep) =~= seq!['\\', '\\'] + replace_all(x, pat, rep));
        } else if c == '"' {
            assert(s.subrange(0, 2) =~= pat);
            assert(s.subrange(2, s.len() as int) =~= x);
            assert(replace_all(s, pat, rep) =~= rep + replace_all(x, pat, rep));
        } else {
            assert(s[0] == c);
            assert(!starts_with(s, pat));
            assert(s.drop_first() =~= x);
            assert(replace_all(s, pat, rep) =~= seq![c] + replace_all(x, pat, rep));
        }
    }
}

proof fn lemma_second_step(n: Seq<char>)
    ensures
        replace_all(half_pieces(n), seq!['\\', '\\'], seq!['\\']) == n,
    decreases n.len(),
{
    let pat = seq!['\\', '\\'];
    let rep = seq!['\\'];
    if n.len() == 0 {
        assert(half_pieces(n) =~= Seq::<char>::empty());
        assert(replace_all(half_pieces(n), pat, rep) =~= n);
    } else {
        let c = n[0];
        let rest = n.drop_first();
        lemma_second_step(rest);
        let y = half_pieces(rest);
        let s = half_pieces(n);
        assert(s == half_piece(c) + y);
        if c == '\\' {
            assert(s.subrange(0, 2) =~= pat);
            assert(s.subrange(2, s.len() as int) =~= y);
        } else {
            assert(s[0] == c);
            assert(!starts_with(s, pat));
            assert(s.drop_first() =~= y);
        }
        assert(n =~= seq![c] + rest);
    }
}

/// A name that the room template writes between double quotes reads back
/// from them as the name itself.
pub proof fn lemma_escaped_name_reads_back(name: Seq<char>)
    ensures
        crate::config::spec_quoted(seq!['"'] + escaped_name(name) + seq!['"']) == Ok::<
            Seq<char>,
            crate::config::ConfigFault,
        >(name),
{
    let v = seq!['"'] + escaped_name(name) + seq!['"'];
    assert(v.subrange(1, v.len() - 1) =~= escaped_name(name));
    lemma_escaped_name_pieces(name);
    lemma_first_step(name);
    lemma_second_step(name);
}


/// The line of a new room file that names it.
pub open spec fn name_line(name: Seq<char>) -> Seq<char> {
    seq!['n', 'a', 'm', 'e', ' ', '=', ' ', '"'] + escaped_name(name) + seq!['"']
}

proof fn lemma_cut_escaped(line: Seq<char>, i: int, n: Seq<char>)
    requires
        0 <= i,
        i + escape_pieces(n).len() <= line.len(),
        line.subrange(i, i + escape_pieces(n).len()) == escape_pieces(n),
    ensures
        crate::config::comment_cut(line, i, true, false) == crate::config::comment_cut(
            line,
            i + escape_pieces(n).len(),
            true,
            false,
        ),
    decreases n.len(),
{
    if n.len() > 0 {
        let c = n[0];
        let piece = escape_piece(c);
        let rest = n.drop_first();
        assert(escape_pieces(n) == piece + escape_pieces(rest));
        assert forall|j: int| 0 <= j < piece.len() implies line[i + j] == piece[j] by {
            assert(line.subrange(i, i + escape_pieces(n).len())[j] == line[i + j]);
        }
        assert(line.subrange(i + piece.len(), i + piece.len() + escape_pieces(rest).len())
            =~= escape_pieces(rest)) by {
            assert forall|j: int| 0 <= j < escape_pieces(rest).len() implies line.subrange(
                i + piece.len(),
                i + piece.len() + escape_pieces(rest).len(),
            )[j] == escape_pieces(rest)[j] by {
                assert(line.subrange(i, i + escape_pieces(n).len())[piece.len() + j] == line[i
                    + piece.len() + j]);
            }
        }
        lemma_cut_escaped(line, i + piece.len(), rest);
        if c == '\\' || c == '"' {
            assert(line[i] == '\\');
            assert(crate::config::comment_cut(line, i, true, false) == crate::config::comment_cut(
                line,
                i + 1,
                true,
                true,
            ));
            assert(crate::config::comment_cut(line, i + 1, true, true) == crate::config::comment_cut(
                line,
                i + 2,
                true,
                false,
            ));
        } else {
            assert(piece.len() == 1 && piece[0] == c);
            assert(line[i + 0] == piece[0]);
            assert(line[i] == c);
        }
    }
}

proof fn lemma_not_ws(c: char)
    requires
        c == 'n' || c == '"' || c == 'e',
    ensures
        !is_ws(c),
{
    vstd::utf8::char_u32_cast(c, c as u32);
}

proof fn lemma_space_ws()
    ensures
        is_ws(' '),
{
    vstd::utf8::char_u32_cast(' ', ' ' as u32);
}

/// The first line of a new room file names its room, and reads back as that
/// name whatever characters the name holds.
pub proof fn lemma_name_line_reads_back(name: Seq<char>, root: Seq<char>, r: crate::room::RoomModel)
    ensures
        spec_room_template(name).subrange(0, name_line(name).len() as int) == name_line(name),
        spec_room_template(name)[name_line(name).len() as int] == '\n',
        crate::room::room_line(name_line(name), root, r) == Ok::<
            crate::room::RoomModel,
            crate::config::ConfigFault,
        >(crate::room::RoomModel { name, ..r }),
{
    let e = escaped_name(name);
    let line = name_line(name);
    lemma_escaped_name_pieces(name);
    reveal_strlit("name = \"");
    reveal_strlit("\"\n\n# environment.PYTHONPATH = \"./src\"\n# alias run > \"python main.py\"\n# abbr t > \"pytest -q\"\n# prompt.badge = \"PROJECT\"\n# on_enter = \"echo entered [[NAME]]\"\n# on_leave = \"echo leaving [[NAME]]\"\n");
    assert(spec_room_template(name).subrange(0, line.len() as int) =~= line);
    let head = seq!['n', 'a', 'm', 'e', ' ', '=', ' ', '"'];
    assert(line.len() == 9 + e.len() as int);
    assert forall|j: int| 0 <= j < 8 implies #[trigger] line[j] == head[j] by {}
    assert(line[8 + e.len() as int] == '"');
    // the comment cut keeps the whole line
    assert(line.subrange(8, 8 + e.len() as int) =~= e);
    lemma_cut_escaped(line, 8, name);
    assert(crate::config::comment_cut(line, 8 + e.len() as int, true, false) == crate::config::comment_cut(
        line,
        9 + e.len() as int,
        false,
        false,
    ));
    assert(crate::config::comment_cut(line, 0, false, false) == crate::config::comment_cut(line, 8, true, false)) by {
        assert(crate::config::comment_cut(line, 0, false, false) == crate::config::comment_cut(line, 1, false, false));
        assert(crate::config::comment_cut(line, 1, false, false) == crate::config::comment_cut(line, 2, false, false));
        assert(crate::config::comment_cut(line, 2, false, false) == crate::config::comment_cut(line, 3, false, false));
        assert(crate::config::comment_cut(line, 3, false, false) == crate::config::comment_cut(line, 4, false, false));
        assert(crate::config::comment_cut(line, 4, false, false) == crate::config::comment_cut(line, 5, false, false));
        assert(crate::config::comment_cut(line, 5, false, false) == crate::config::comment_cut(line, 6, false, false));
        assert(crate::config::comment_cut(line, 6, false, false) == crate::config::comment_cut(line, 7, false, false));
        assert(crate::config::comment_cut(line, 7, false, false) == crate::config::comment_cut(line, 8, true, false));
    }
    assert(crate::config::without_comment(line) == line);
    // trimming keeps it
    lemma_not_ws('n');
    lemma_not_ws('"');
    lemma_not_ws('e');
    lemma_space_ws();
    assert(crate::text::trim_start(line) == line);
    assert(crate::text::trim_end(line) == line);
    assert(crate::config::clean(line) == line);
    // it is a setting
    assert(!crate::text::text_begins(line, "alias "@)) by {
        reveal(crate::text::text_begins);
        reveal_strlit("alias ");
        assert(line.subrange(0, 6)[0] != "alias "@[0]);
    }
    assert(!crate::text::text_begins(line, "abbr "@)) by {
        reveal(crate::text::text_begins);
        reveal_strlit("abbr ");
        assert(line.subrange(0, 5)[0] != "abbr "@[0]);
    }
    assert(crate::room::room_line_kind(line) == crate::room::RoomLineKind::Setting);
    // split at the first `=`
    crate::text::lemma_find_from(line, '=', 0);
    assert(crate::text::find(line, '=') == Some(5int)) by {
        assert(line[5] == '=');
        assert(crate::text::find_from(line, '=', 0) == crate::text::find_from(line, '=', 1));
        assert(crate::text::find_from(line, '=', 1) == crate::text::find_from(line, '=', 2));
        assert(crate::text::find_from(line, '=', 2) == crate::text::find_from(line, '=', 3));
        assert(crate::text::find_from(line, '=', 3) == crate::text::find_from(line, '=', 4));
        assert(crate::text::find_from(line, '=', 4) == crate::text::find_from(line, '=', 5));
    }
    let key = line.subrange(0, 5);
    let value = line.subrange(6, line.len() as int);
    assert(key =~= seq!['n', 'a', 'm', 'e', ' ']);
    assert(crate::text::trim_start(key) == key);
    assert(key.drop_last() =~= seq!['n', 'a', 'm', 'e']);
    assert(crate::text::trim_end(key.drop_last()) == key.drop_last());
    assert(crate::text::trim(key) == seq!['n', 'a', 'm', 'e']);
    let quoted = seq!['"'] + e + seq!['"'];
    assert(value.drop_first() =~= quoted);
    assert(crate::text::trim_start(quoted) == quoted);
    assert(crate::text::trim_start(value) == quoted);
    assert(crate::text::trim_end(quoted) == quoted);
    assert(crate::text::trim(value) == quoted);
    lemma_escaped_name_reads_back(name);
    assert(crate::text::text_is(seq!['n', 'a', 'm', 'e'], "name"@)) by {
        reveal(crate::text::text_is);
        reveal_strlit("name");
        assert(seq!['n', 'a', 'm', 'e'] =~= "name"@);
    }
}

/// Every line of `s` that starts at or after `from` is blank or a comment.
pub open spec fn comment_lines_from(s: Seq<char>, from: int) -> bool {
    forall|a: int|
        from <= a < s.len() && (a == from || s[a - 1] == '\n') ==> (#[trigger] s[a] == '#' || s[a]
            == '\n')
}

proof fn lemma_template_rest_is_comments()
    ensures
        comment_lines_from(room_template_rest(), 2),
        room_template_rest()[0] == '"',
        room_template_rest()[1] == '\n',
        room_template_rest().len() > 2,
{
    reveal_strlit("\"\n\n# environment.PYTHONPATH = \"./src\"\n# alias run > \"python main.py\"\n# abbr t > \"pytest -q\"\n# prompt.badge = \"PROJECT\"\n# on_enter = \"echo entered [[NAME]]\"\n# on_leave = \"echo leaving [[NAME]]\"\n");
}

proof fn lemma_escape_keeps_lines(n: Seq<char>)
    requires
        forall|i: int| 0 <= i < n.len() ==> n[i] != '\n',
    ensures
        forall|j: int| 0 <= j < escape_pieces(n).len() ==> escape_pieces(n)[j] != '\n',
    decreases n.len(),
{
    if n.len() > 0 {
        let rest = n.drop_first();
        lemma_escape_keeps_lines(rest);
        let piece = escape_piece(n[0]);
        assert(escape_pieces(n) == piece + escape_pieces(rest));
        assert forall|j: int| 0 <= j < escape_pieces(n).len() implies escape_pieces(n)[j] != '\n' by {
            if j >= piece.len() {
                assert(escape_pieces(n)[j] == escape_pieces(rest)[j - piece.len()]);
            }
        }
    }
}

proof fn lemma_first_line(s: Seq<char>, j: int, k: int)
    requires
        0 <= j <= k < s.len(),
        s[k] == '\n',
        forall|t: int| j <= t < k ==> s[t] != '\n',
    ensures
        crate::text::lines_from(s, 0, j) == seq![crate::text::strip_cr(s.subrange(0, k))]
            + crate::text::lines_from(s, k + 1, k + 1),
    decreases k - j,
{
    if j < k {
        lemma_first_line(s, j + 1, k);
    }
}

/// A line that a room file leaves alone: blank, or a comment.
pub open spec fn ignorable(l: Seq<char>) -> bool {
    l.len() == 0 || l[0] == '#'
}

proof fn lemma_comment_lines(s: Seq<char>, st: int, i: int)
    requires
        0 <= st <= i,
        comment_lines_from(s, st),
        forall|t: int| st <= t < i ==> s[t] != '\n',
    ensures
        forall|m: int|
            0 <= m < crate::text::lines_from(s, st, i).len() ==> ignorable(
                #[trigger] crate::text::lines_from(s, st, i)[m],
            ),
    decreases s.len() - i,
{
    let ls = crate::text::lines_from(s, st, i);
    if i >= s.len() {
        if st < s.len() {
            assert(s[st] == '#' || s[st] == '\n');
            assert(ls == seq![s.subrange(st, s.len() as int)]);
            assert(ls[0][0] == s[st]);
            assert(ignorable(ls[0]));
        } else {
            assert(ls.len() == 0);
        }
    } else if s[i] == '\n' {
        let l = s.subrange(st, i);
        if st < i {
            assert(s[st] == '#' || s[st] == '\n');
            assert(l[0] == s[st]);
            if l.last() == '\r' {
                assert(l.len() >= 2);
                assert(l.drop_last()[0] == l[0]);
            }
        } else {
            assert(l =~= Seq::<char>::empty());
        }
        assert(ignorable(crate::text::strip_cr(l)));
        assert forall|a: int|
            i + 1 <= a < s.len() && (a == i + 1 || s[a - 1] == '\n') implies (#[trigger] s[a] == '#'
            || s[a] == '\n') by {
            assert(st <= a && (a == st || s[a - 1] == '\n'));
        }
        lemma_comment_lines(s, i + 1, i + 1);
        let rest = crate::text::lines_from(s, i + 1, i + 1);
        assert(ls == seq![crate::text::strip_cr(l)] + rest);
        assert forall|m: int| 0 <= m < ls.len() implies ignorable(#[trigger] ls[m]) by {
            if m > 0 {
                assert(ls[m] == rest[m - 1]);
            }
        }
    } else {
        lemma_comment_lines(s, st, i + 1);
        assert(ls == crate::text::lines_from(s, st, i + 1));
    }
}

proof fn lemma_ignorable_line(l: Seq<char>, root: Seq<char>, r: crate::room::RoomModel)
    requires
        ignorable(l),
    ensures
        crate::room::room_line(l, root, r) == Ok::<crate::room::RoomModel, crate::config::ConfigFault>(r),
{
    assert(crate::config::without_comment(l) =~= Seq::<char>::empty());
    assert(crate::config::clean(l) =~= Seq::<char>::empty());
}

proof fn lemma_room_from_ignorable(
    lines: Seq<Seq<char>>,
    i: int,
    root: Seq<char>,
    r: crate::room::RoomModel,
)
    requires
        0 <= i,
        forall|m: int| i <= m < lines.len() ==> ignorable(#[trigger] lines[m]),
    ensures
        crate::room::room_from(lines, i, root, r) == Ok::<
            crate::room::RoomModel,
            (int, crate::config::ConfigFault),
        >(r),
    decreases lines.len() - i,
{
    if i < lines.len() {
        lemma_ignorable_line(lines[i], root, r);
        lemma_room_from_ignorable(lines, i + 1, root, r);
    }
}

/// A new room file reads back as a room with the name it was made for and
/// nothing else set; made for an empty name, it is refused for want of one.
pub proof fn lemma_room_template_reads_back(
    name: Seq<char>,
    bytes: Seq<u8>,
    path: Seq<char>,
    root: Seq<char>,
)
    requires
        forall|i: int| 0 <= i < name.len() ==> name[i] != '\n',
    ensures
        match crate::room::spec_parse_room(spec_room_template(name), bytes, path, root) {
            Ok(room) => name.len() > 0 && room == (crate::room::RoomModel {
                name,
                ..crate::room::empty_room(path, room.hash)
            }),
            Err(e) => name.len() == 0 && e == (1int, crate::config::ConfigFault::RoomNeedsName),
        },
{
    let s = spec_room_template(name);
    let line = name_line(name);
    let e = escaped_name(name);
    let rest_text = room_template_rest();
    let k = line.len() as int;
    let off = 8 + e.len() as int;
    let r0 = crate::room::empty_room(path, crate::numbers::hex_digits(crate::state::fnv1a(bytes) as nat, 16));
    lemma_name_line_reads_back(name, root, r0);
    lemma_escaped_name_pieces(name);
    lemma_escape_keeps_lines(name);
    lemma_template_rest_is_comments();
    reveal_strlit("name = \"");
    assert(s.len() == off + rest_text.len());
    assert forall|t: int| 0 <= t < k implies s[t] != '\n' by {
        assert(s.subrange(0, k)[t] == s[t]);
        if 8 <= t < off {
            assert(line[t] == e[t - 8]);
        }
    }
    lemma_first_line(s, 0, k);
    assert(crate::text::strip_cr(line) == line);
    assert(s.subrange(0, k) == line);
    assert forall|a: int|
        k + 1 <= a < s.len() && (a == k + 1 || s[a - 1] == '\n') implies (#[trigger] s[a] == '#'
        || s[a] == '\n') by {
        assert(s[a] == rest_text[a - off]);
        assert(s[a - 1] == rest_text[a - 1 - off]);
    }
    lemma_comment_lines(s, k + 1, k + 1);
    let rest = crate::text::lines_from(s, k + 1, k + 1);
    let lines = crate::text::lines_of(s);
    assert(lines == seq![line] + rest);
    let r1 = crate::room::RoomModel { name, ..r0 };
    assert forall|m: int| 1 <= m < lines.len() implies ignorable(#[trigger] lines[m]) by {
        assert(lines[m] == rest[m - 1]);
    }
    lemma_room_from_ignorable(lines, 1, root, r1);
    assert(crate::room::room_from(lines, 0, root, r0) == crate::room::room_from(lines, 1, root, r1));
}

/// A character with an ASCII capital letter made small, as
/// `to_ascii_lowercase` gives it.
pub open spec fn ascii_small(c: char) -> char {
    if 'A' <= c && c <= 'Z' {
        ((c as u32) + 32) as char
    } else {
        c
    }
}

/// An answer that says yes: `y` or `yes`, in any ASCII case, with white space
/// around it.
pub open spec fn spec_confirms(answer: Seq<char>) -> bool {
    let a = crate::text::trim(answer).map_values(|c: char| ascii_small(c));
    a == seq!['y'] || a == seq!['y', 'e', 's']
}

/// Whether the answer to a yes/no question is yes.
pub fn confirms(answer: &str) -> (r: bool)
    ensures
        r == spec_confirms(answer@),
{
    let chars = chars_of(answer);
    let t = crate::text::trimmed(chars.as_slice());
    let ghost a = crate::text::trim(answer@).map_values(|c: char| ascii_small(c));
    assert(a.len() == t@.len());
    let n = t.len();
    if n != 1 && n != 3 {
        assert(a != seq!['y'] && a != seq!['y', 'e', 's']) by {
            if a == seq!['y'] {
                assert(a.len() == 1);
            }
            if a == seq!['y', 'e', 's'] {
                assert(a.len() == 3);
            }
        }
        return false;
    }
    let mut ok = true;
    let mut i: usize = 0;
    while i < n
        invariant
            n == t@.len(),
            n == 1 || n == 3,
            a.len() == n,
            t@ == crate::text::trim(answer@),
            a == crate::text::trim(answer@).map_values(|c: char| ascii_small(c)),
            i <= n,
            ok == forall|j: int|
                0 <= j < i ==> a[j] == (if n == 1 {
                    seq!['y']
                } else {
                    seq!['y', 'e', 's']
                })[j],
        decreases n - i,
    {
        let c = t[i];
        let small = if 'A' <= c && c <= 'Z' {
            let code = c as u32 + 32;
            proof {
                vstd::utf8::char_u32_cast(c, c as u32);
            }
            if code == 'y' as u32 {
                'y'
            } else if code == 'e' as u32 {
                'e'
            } else if code == 's' as u32 {
                's'
            } else {
                '?'
            }
        } else {
            c
        };
        let want = if n == 1 {
            'y'
        } else if i == 0 {
            'y'
        } else if i == 1 {
            'e'
        } else {
            's'
        };
        assert(a[i as int] == ascii_small(c));
        assert((small == want) == (ascii_small(c) == want));
        if small != want {
            ok = false;
        }
        i += 1;
    }
    proof {
        if ok {
            if n == 1 {
                assert(a =~= seq!['y']);
            } else {
                assert(a =~= seq!['y', 'e', 's']);
            }
        } else {
            if n == 1 {
                assert(a != seq!['y', 'e', 's']);
            } else {
                assert(a != seq!['y']);
            }
        }
    }
    ok
}

/// A key that a configuration or room file line can set: no white space,
/// `=`, `#` or `"` in it.
pub open spec fn plain_key(key: Seq<char>) -> bool {
    &&& key.len() > 0
    &&& forall|j: int|
        0 <= j < key.len() ==> !is_ws(#[trigger] key[j]) && key[j] != '=' && key[j] != '#'
            && key[j] != '"'
}

/// The room file line `key = "value"`, the value written as a new room file
/// writes its name.
pub open spec fn setting_line(key: Seq<char>, v: Seq<char>) -> Seq<char> {
    key + seq![' ', '=', ' ', '"'] + escaped_name(v) + seq!['"']
}

proof fn lemma_cut_key(line: Seq<char>, key: Seq<char>, i: int)
    requires
        plain_key(key),
        0 <= i <= key.len(),
        key.len() <= line.len(),
        forall|j: int| 0 <= j < key.len() ==> line[j] == key[j],
    ensures
        crate::config::comment_cut(line, i, false, false) == crate::config::comment_cut(
            line,
            key.len() as int,
            false,
            false,
        ),
    decreases key.len() - i,
{
    if i < key.len() {
        assert(line[i] == key[i]);
        lemma_cut_key(line, key, i + 1);
    }
}

/// How a line `key = "value"` reads: no comment in it and nothing to trim,
/// split at the `=` after the key into the key and the quoted value, which
/// reads back as the value.
proof fn lemma_setting_line_parts(key: Seq<char>, v: Seq<char>)
    requires
        plain_key(key),
    ensures
        crate::config::clean(setting_line(key, v)) == setting_line(key, v),
        key[0] != 'a' ==> !crate::text::text_begins(setting_line(key, v), "alias "@),
        key[0] != 'a' ==> !crate::text::text_begins(setting_line(key, v), "abbr "@),
        setting_line(key, v).len() > 0,
        crate::text::split_once(setting_line(key, v), '=') matches Some((left, right))
            && crate::text::trim(left) == key && crate::config::spec_quoted(crate::text::trim(right))
            == Ok::<Seq<char>, crate::config::ConfigFault>(v),
{
    let e = escaped_name(v);
    let line = setting_line(key, v);
    let m = key.len() as int;
    lemma_escaped_name_pieces(v);
    assert(line.len() == m + 5 + e.len());
    assert forall|j: int| 0 <= j < m implies line[j] == key[j] by {}
    assert(line[m] == ' ' && line[m + 1] == '=' && line[m + 2] == ' ' && line[m + 3] == '"');
    assert(line[m + 4 + e.len()] == '"');
    // the whole line survives the comment cut
    lemma_cut_key(line, key, 0);
    assert(line.subrange(m + 4, m + 4 + e.len()) =~= e);
    lemma_cut_escaped(line, m + 4, v);
    assert(crate::config::comment_cut(line, m + 4 + e.len(), true, false)
        == crate::config::comment_cut(line, m + 5 + e.len(), false, false));
    assert(crate::config::comment_cut(line, m, false, false) == crate::config::comment_cut(
        line,
        m + 4,
        true,
        false,
    )) by {
        assert(crate::config::comment_cut(line, m, false, false) == crate::config::comment_cut(line, m + 1, false, false));
        assert(crate::config::comment_cut(line, m + 1, false, false) == crate::config::comment_cut(line, m + 2, false, false));
        assert(crate::config::comment_cut(line, m + 2, false, false) == crate::config::comment_cut(line, m + 3, false, false));
    }
    assert(crate::config::without_comment(line) == line);
    // trimming keeps it
    lemma_not_ws('"');
    lemma_space_ws();
    assert(!is_ws(line[0]));
    assert(crate::text::trim_start(line) == line);
    assert(crate::text::trim_end(line) == line);
    assert(crate::config::clean(line) == line);
    // it is a setting
    if key[0] != 'a' {
        assert(!crate::text::text_begins(line, "alias "@)) by {
            reveal(crate::text::text_begins);
            reveal_strlit("alias ");
            if line.len() >= 6 {
                assert(line.subrange(0, 6)[0] != "alias "@[0]);
            }
        }
        assert(!crate::text::text_begins(line, "abbr "@)) by {
            reveal(crate::text::text_begins);
            reveal_strlit("abbr ");
            assert(line.subrange(0, 5)[0] != "abbr "@[0]);
        }
    }
    // split at the `=` after the key
    crate::text::lemma_find_from(line, '=', 0);
    assert(crate::text::find(line, '=') == Some(m + 1)) by {
        match crate::text::find_from(line, '=', 0) {
            Some(i) => {
                if i < m + 1 {
                    assert(line[i] == key[i] || i == m);
                }
                if i > m + 1 {
                    assert(line[m + 1] != '=');
                }
            },
            None => {
                assert(line[m + 1] != '=');
            },
        }
    }
    let kpart = line.subrange(0, m + 1);
    let value = line.subrange(m + 2, line.len() as int);
    assert(kpart =~= key.push(' '));
    assert(key.push(' ')[0] == key[0]);
    assert(crate::text::trim_start(kpart) == kpart);
    assert(key.push(' ').drop_last() =~= key);
    assert(!is_ws(key.last()));
    assert(crate::text::trim_end(key) == key);
    assert(crate::text::trim_end(kpart) == key);
    assert(crate::text::trim(kpart) == key);
    let quoted = seq!['"'] + e + seq!['"'];
    assert(value.drop_first() =~= quoted);
    assert(crate::text::trim_start(quoted) == quoted);
    assert(crate::text::trim_start(value) == quoted);
    assert(crate::text::trim_end(quoted) == quoted);
    assert(crate::text::trim(value) == quoted);
    lemma_escaped_name_reads_back(v);
}

/// A room file line `key = "value"` sets the entry `key` to exactly `value`,
/// whatever characters the value holds.
pub proof fn lemma_setting_line_reads_back(
    key: Seq<char>,
    v: Seq<char>,
    root: Seq<char>,
    r: crate::room::RoomModel,
)
    requires
        plain_key(key),
        key[0] != 'a',
    ensures
        crate::room::room_line(setting_line(key, v), root, r) == crate::room::room_entry(key, v, root, r),
{
    lemma_setting_line_parts(key, v);
}

/// A room file line `on_leave = "command"` sets the command the room runs
/// on leaving to exactly that command, and nothing else.
pub proof fn lemma_on_leave_line(v: Seq<char>, root: Seq<char>, r: crate::room::RoomModel)
    ensures
        crate::room::room_line(setting_line("on_leave"@, v), root, r) == Ok::<
            crate::room::RoomModel,
            crate::config::ConfigFault,
        >(crate::room::RoomModel { on_leave: Some(v), ..r }),
{
    reveal_strlit("on_leave");
    let key = "on_leave"@;
    assert forall|j: int| 0 <= j < key.len() implies !is_ws(#[trigger] key[j]) && key[j] != '='
        && key[j] != '#' && key[j] != '"' by {
        vstd::utf8::char_u32_cast(key[j], key[j] as u32);
    }
    lemma_setting_line_reads_back(key, v, root, r);
    assert(text_is(key, "on_leave"@)) by {
        reveal(text_is);
    }
    assert(!text_is(key, "name"@)) by {
        reveal(text_is);
        reveal_strlit("name");
    }
    assert(!text_is(key, "prompt.badge"@)) by {
        reveal(text_is);
        reveal_strlit("prompt.badge");
    }
    assert(!text_is(key, "on_enter"@)) by {
        reveal(text_is);
        reveal_strlit("on_enter");
        assert(key[3] != "on_enter"@[3]);
    }
}

proof fn lemma_last_line(s: Seq<char>, st: int, i: int)
    requires
        0 <= st <= i <= s.len(),
        st < s.len(),
        forall|t: int| st <= t < s.len() ==> s[t] != '\n',
    ensures
        crate::text::lines_from(s, st, i) == seq![s.subrange(st, s.len() as int)],
    decreases s.len() - i,
{
    if i < s.len() {
        lemma_last_line(s, st, i + 1);
    }
}

/// A room file of a name line and an `on_leave` line reads back as a room
/// with that name whose leave command is exactly the one written.
pub proof fn lemma_room_file_with_leave_command(
    name: Seq<char>,
    command: Seq<char>,
    bytes: Seq<u8>,
    path: Seq<char>,
    root: Seq<char>,
)
    requires
        name.len() > 0,
        forall|i: int| 0 <= i < name.len() ==> name[i] != '\n',
        forall|i: int| 0 <= i < command.len() ==> command[i] != '\n',
    ensures
        crate::room::spec_parse_room(
            name_line(name) + seq!['\n'] + setting_line("on_leave"@, command),
            bytes,
            path,
            root,
        ) matches Ok(room) && room.name == name && room.on_leave == Some(command) && room.on_enter
            is None && room.badge is None,
{
    reveal_strlit("on_leave");
    let first = name_line(name);
    let second = setting_line("on_leave"@, command);
    let s = first + seq!['\n'] + second;
    let k = first.len() as int;
    lemma_escaped_name_pieces(name);
    lemma_escaped_name_pieces(command);
    lemma_escape_keeps_lines(name);
    lemma_escape_keeps_lines(command);
    let en = escaped_name(name);
    let ec = escaped_name(command);
    assert forall|t: int| 0 <= t < k implies s[t] != '\n' by {
        assert(s[t] == first[t]);
        if 8 <= t < 8 + en.len() {
            assert(first[t] == en[t - 8]);
        }
    }
    assert(s[k] == '\n');
    lemma_first_line(s, 0, k);
    assert(s.subrange(0, k) =~= first);
    assert(crate::text::strip_cr(first) == first);
    assert forall|t: int| k + 1 <= t < s.len() implies s[t] != '\n' by {
        assert(s[t] == second[t - k - 1]);
        let u = t - k - 1;
        if 12 <= u < 12 + ec.len() {
            assert(second[u] == ec[u - 12]);
        }
    }
    lemma_last_line(s, k + 1, k + 1);
    assert(s.subrange(k + 1, s.len() as int) =~= second);
    let lines = crate::text::lines_of(s);
    assert(lines =~= seq![first, second]);
    let r0 = crate::room::empty_room(path, crate::numbers::hex_digits(crate::state::fnv1a(bytes) as nat, 16));
    lemma_name_line_reads_back(name, root, r0);
    let r1 = crate::room::RoomModel { name, ..r0 };
    lemma_on_leave_line(command, root, r1);
    let r2 = crate::room::RoomModel { on_leave: Some(command), ..r1 };
    assert(crate::room::room_from(lines, 2, root, r2) == Ok::<crate::room::RoomModel, (int, crate::config::ConfigFault)>(r2));
    assert(crate::room::room_from(lines, 1, root, r1) == crate::room::room_from(lines, 2, root, r2));
    assert(crate::room::room_from(lines, 0, root, r0) == crate::room::room_from(lines, 1, root, r1));
}

proof fn lemma_plain_literal_key(key: Seq<char>)
    requires
        key.len() > 0,
        forall|j: int|
            0 <= j < key.len() ==> ('a' <= #[trigger] key[j] <= 'z') || key[j] == '_' || key[j] == '.',
    ensures
        plain_key(key),
{
    assert forall|j: int| 0 <= j < key.len() implies !is_ws(#[trigger] key[j]) && key[j] != '='
        && key[j] != '#' && key[j] != '"' by {
        vstd::utf8::char_u32_cast(key[j], key[j] as u32);
    }
}

/// A room file line `on_enter = "command"` sets the command the room runs
/// on entering to exactly that command.
pub proof fn lemma_on_enter_line(v: Seq<char>, root: Seq<char>, r: crate::room::RoomModel)
    ensures
        crate::room::room_line(setting_line("on_enter"@, v), root, r) == Ok::<
            crate::room::RoomModel,
            crate::config::ConfigFault,
        >(crate::room::RoomModel { on_enter: Some(v), ..r }),
{
    reveal_strlit("on_enter");
    let key = "on_enter"@;
    lemma_plain_literal_key(key);
    lemma_setting_line_reads_back(key, v, root, r);
    reveal(text_is);
    reveal_strlit("name");
    reveal_strlit("prompt.badge");
}

/// A room file line `prompt.badge = "text"` sets the room's badge to exactly
/// that text.
pub proof fn lemma_badge_line(v: Seq<char>, root: Seq<char>, r: crate::room::RoomModel)
    ensures
        crate::room::room_line(setting_line("prompt.badge"@, v), root, r) == Ok::<
            crate::room::RoomModel,
            crate::config::ConfigFault,
        >(crate::room::RoomModel { badge: Some(v), ..r }),
{
    reveal_strlit("prompt.badge");
    let key = "prompt.badge"@;
    lemma_plain_literal_key(key);
    lemma_setting_line_reads_back(key, v, root, r);
    reveal(text_is);
    reveal_strlit("name");
}

/// A room file line `environment.NAME = "value"` sets the variable `NAME` of
/// the room to the value, or, for a value `.` or one that starts with `./`,
/// to that path under the room's directory.
pub proof fn lemma_environment_line(
    x: Seq<char>,
    v: Seq<char>,
    root: Seq<char>,
    r: crate::room::RoomModel,
)
    requires
        x.len() > 0,
        forall|j: int| 0 <= j < x.len() ==> crate::expand::name_letter(#[trigger] x[j]),
    ensures
        crate::room::room_line(setting_line("environment."@ + x, v), root, r) == Ok::<
            crate::room::RoomModel,
            crate::config::ConfigFault,
        >(
            crate::room::RoomModel {
                environment: r.environment.insert(
                    x,
                    if crate::text::starts_with(v, seq!['.', '/']) || v == seq!['.'] {
                        crate::room::joined(root, v)
                    } else {
                        v
                    },
                ),
                ..r
            },
        ),
{
    reveal_strlit("environment.");
    let head = "environment."@;
    let key = head + x;
    assert forall|j: int| 0 <= j < key.len() implies !is_ws(#[trigger] key[j]) && key[j] != '='
        && key[j] != '#' && key[j] != '"' by {
        vstd::utf8::char_u32_cast(key[j], key[j] as u32);
        if j >= head.len() {
            assert(key[j] == x[j - head.len()]);
            assert(crate::expand::name_letter(x[j - head.len()]));
        }
    }
    assert(key[0] == 'e');
    lemma_setting_line_reads_back(key, v, root, r);
    reveal(text_is);
    reveal(crate::text::text_begins);
    reveal_strlit("name");
    reveal_strlit("prompt.badge");
    reveal_strlit("on_enter");
    reveal_strlit("on_leave");
    reveal_strlit("./");
    reveal_strlit(".");
    assert(key.subrange(0, head.len() as int) =~= head);
    assert(crate::config::after(key, head.len()) =~= x);
    assert(crate::room::room_variable_name(x)) by {
        assert forall|i: int| 0 <= i < x.len() implies crate::text::is_ascii_alnum(#[trigger] x[i])
            || x[i] == '_' by {
            assert(crate::expand::name_letter(x[i]));
        }
    }
    assert("./"@ =~= seq!['.', '/']);
    assert("."@ =~= seq!['.']);
}

proof fn lemma_setting_line_one_line(key: Seq<char>, v: Seq<char>)
    requires
        plain_key(key),
        forall|i: int| 0 <= i < v.len() ==> v[i] != '\n',
    ensures
        crate::text::lines_of(setting_line(key, v)) == seq![setting_line(key, v)],
{
    let line = setting_line(key, v);
    let e = escaped_name(v);
    let m = key.len() as int;
    lemma_escaped_name_pieces(v);
    lemma_escape_keeps_lines(v);
    assert forall|t: int| 0 <= t < line.len() implies line[t] != '\n' by {
        if t < m {
            assert(line[t] == key[t]);
            assert(!is_ws(key[t]));
            vstd::utf8::char_u32_cast('\n', '\n' as u32);
        } else if m + 4 <= t < m + 4 + e.len() {
            assert(line[t] == e[t - m - 4]);
        }
    }
    lemma_last_line(line, 0, 0);
    assert(line.subrange(0, line.len() as int) =~= line);
}

/// A configuration file of the one line `exec_once_opened = "command"` reads
/// as the defaults with that one startup command.
pub proof fn lemma_config_startup_line(v: Seq<char>)
    requires
        forall|i: int| 0 <= i < v.len() ==> v[i] != '\n',
    ensures
        crate::config::spec_parse_config(setting_line("exec_once_opened"@, v)) == Ok::<
            crate::config::ConfigModel,
            (int, crate::config::ConfigFault),
        >(crate::config::ConfigModel { startup: seq![v], ..crate::config::default_config() }),
{
    reveal_strlit("exec_once_opened");
    reveal_strlit("prompt_style = {");
    let key = "exec_once_opened"@;
    lemma_plain_literal_key(key);
    lemma_setting_line_parts(key, v);
    lemma_setting_line_one_line(key, v);
    let line = setting_line(key, v);
    let d = crate::config::default_config();
    assert(!text_is(line, "prompt_style = {"@)) by {
        reveal(text_is);
        assert(line[0] != "prompt_style = {"@[0]);
    }
    assert(crate::text::text_begins(line, key)) by {
        reveal(crate::text::text_begins);
        assert(line.subrange(0, key.len() as int) =~= key);
    }
    assert(crate::config::top_kind(line) == crate::config::TopKind::Startup);
    let lines = seq![line];
    assert(d.startup.push(v) =~= seq![v]);
    let c1 = crate::config::ConfigModel { startup: d.startup.push(v), ..d };
    assert(crate::config::top_step(lines, 0, d) == Ok::<(int, crate::config::ConfigModel), (int, crate::config::ConfigFault)>((1, c1)));
    assert(crate::config::parse_from(lines, 0, d) == crate::config::parse_from(lines, 1, c1));
}

/// A configuration file of the one line `alert_sound = "sound"` reads as the
/// defaults with that alert sound.
pub proof fn lemma_config_alert_line(v: Seq<char>)
    requires
        forall|i: int| 0 <= i < v.len() ==> v[i] != '\n',
    ensures
        crate::config::spec_parse_config(setting_line("alert_sound"@, v)) == Ok::<
            crate::config::ConfigModel,
            (int, crate::config::ConfigFault),
        >(crate::config::ConfigModel { alert_sound: Some(v), ..crate::config::default_config() }),
{
    reveal_strlit("alert_sound");
    reveal_strlit("prompt_style = {");
    reveal_strlit("exec_once_opened");
    let key = "alert_sound"@;
    lemma_plain_literal_key(key);
    lemma_setting_line_parts(key, v);
    lemma_setting_line_one_line(key, v);
    let line = setting_line(key, v);
    let d = crate::config::default_config();
    assert(!text_is(line, "prompt_style = {"@)) by {
        reveal(text_is);
        assert(line[0] != "prompt_style = {"@[0]);
    }
    assert(!crate::text::text_begins(line, "exec_once_opened"@)) by {
        reveal(crate::text::text_begins);
        if line.len() >= 16 {
            assert(line.subrange(0, 16)[0] != "exec_once_opened"@[0]);
        }
    }
    assert(crate::text::text_begins(line, key)) by {
        reveal(crate::text::text_begins);
        assert(line.subrange(0, key.len() as int) =~= key);
    }
    assert(crate::config::top_kind(line) == crate::config::TopKind::AlertSound);
    let lines = seq![line];
    let c1 = crate::config::ConfigModel { alert_sound: Some(v), ..d };
    assert(crate::config::top_step(lines, 0, d) == Ok::<(int, crate::config::ConfigModel), (int, crate::config::ConfigFault)>((1, c1)));
    assert(crate::config::parse_from(lines, 0, d) == crate::config::parse_from(lines, 1, c1));
}

} // verus!
