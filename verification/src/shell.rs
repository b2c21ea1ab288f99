use vstd::prelude::*;

use crate::config::{color_code, join, PromptColor};
use crate::parser::Condition;
use crate::numbers::decimal_text;
use crate::parser::char_at;
use crate::table::{string_views, Table, TableKey};
use crate::text::{
    char_views, chars_of, extend_chars, is_ascii_alnum, is_cc, is_text, is_ws, lines_of, replace_all,
    string_of,
};

verus! {

/// A character that a word may hold and still pass to the shell unquoted.
pub open spec fn quote_safe(c: char) -> bool {
    is_ascii_alnum(c) || c == '_' || c == '-' || c == '.' || c == '/'
}

pub open spec fn all_quote_safe(w: Seq<char>) -> bool {
    forall|i: int| 0 <= i < w.len() ==> quote_safe(#[trigger] w[i])
}

/// A word as the shell reads it back: as it is when it is not empty and every
/// character is safe, else in single quotes, each `'` written as `'\''`; so
/// the empty word is `''`.
pub open spec fn spec_shell_quote(w: Seq<char>) -> Seq<char> {
    if w.len() > 0 && all_quote_safe(w) {
        w
    } else {
        seq!['\''] + replace_all(w, seq!['\''], seq!['\'', '\\', '\'', '\'']) + seq!['\'']
    }
}

fn quote_chars(w: &[char]) -> (r: Vec<char>)
    ensures
        r@ == spec_shell_quote(w@),
{
    let mut safe = true;
    let mut i: usize = 0;
    while i < w.len()
        invariant
            i <= w@.len(),
            safe == forall|j: int| 0 <= j < i ==> quote_safe(#[trigger] w@[j]),
        decreases w@.len() - i,
    {
        let c = w[i];
        if !(crate::text::ascii_alnum(c) || c == '_' || c == '-' || c == '.' || c == '/') {
            safe = false;
        }
        i += 1;
    }
    if safe && w.len() > 0 {
        let mut r: Vec<char> = Vec::new();
        extend_chars(&mut r, w);
        r
    } else {
        let mut r: Vec<char> = Vec::new();
        r.push('\'');
        let inner = crate::text::replace_chars(w, &['\''], &['\'', '\\', '\'', '\'']);
        assert(['\'']@ == seq!['\'']);
        assert(['\'', '\\', '\'', '\'']@ == seq!['\'', '\\', '\'', '\'']);
        extend_chars(&mut r, inner.as_slice());
        r.push('\'');
        assert(r@ =~= seq!['\''] + inner@ + seq!['\'']);
        r
    }
}

/// A word written so that the shell reads it back as one word.
pub fn shell_quote(word: &str) -> (r: String)
    ensures
        r@ == spec_shell_quote(word@),
{
    let w = chars_of(word);
    string_of(quote_chars(w.as_slice()).as_slice())
}

/// A character that a command name keeps: not a control character and not
/// one of the invisible joiners and marks that editors leave behind.
pub open spec fn name_keeps(c: char) -> bool {
    !is_cc(c) && c != '\u{200b}' && c != '\u{200c}' && c != '\u{200d}' && c != '\u{2060}' && c
        != '\u{feff}'
}

pub open spec fn visible_chars(s: Seq<char>) -> Seq<char>
    decreases s.len(),
{
    if s.len() == 0 {
        Seq::empty()
    } else if name_keeps(s.last()) {
        visible_chars(s.drop_last()).push(s.last())
    } else {
        visible_chars(s.drop_last())
    }
}

/// A command name without the characters it does not keep.
pub fn clean_command_name(name: &str) -> (r: String)
    ensures
        r@ == visible_chars(name@),
{
    let s = chars_of(name);
    let mut out: Vec<char> = Vec::new();
    let mut i: usize = 0;
    while i < s.len()
        invariant
            i <= s@.len(),
            s@ == name@,
            out@ == visible_chars(s@.take(i as int)),
        decreases s@.len() - i,
    {
        let c = s[i];
        assert(s@.take(i + 1).drop_last() =~= s@.take(i as int));
        if !crate::text::control(c) && c != '\u{200b}' && c != '\u{200c}' && c != '\u{200d}' && c
            != '\u{2060}' && c != '\u{feff}' {
            out.push(c);
        }
        i += 1;
    }
    assert(s@.take(s@.len() as int) =~= s@);
    string_of(out.as_slice())
}

/// `text` in `color` when colors are on and the color paints.
pub open spec fn painted(text: Seq<char>, color: PromptColor, enabled: bool) -> Seq<char> {
    match color_code(color) {
        Some(code) => if enabled {
            "\x1b["@ + code + "m"@ + text + "\x1b[0m"@
        } else {
            text
        },
        None => text,
    }
}

pub fn paint(text: &str, color: &PromptColor, enabled: bool) -> (r: String)
    ensures
        r@ == painted(text@, *color, enabled),
{
    if enabled {
        if let Some(code) = color.ansi_code() {
            let mut r = String::from_str("\x1b[");
            r.append(code);
            r.append("m");
            r.append(text);
            r.append("\x1b[0m");
            return r;
        }
    }
    String::from_str(text)
}

/// `n` in at least two decimal digits.
pub open spec fn two_digits(n: nat) -> Seq<char> {
    if n < 10 {
        "0"@ + decimal_text(n)
    } else {
        decimal_text(n)
    }
}

/// A duration in milliseconds as the prompt shows it: `850ms`, `2s`, `2.3s`, `1m 05s`.
pub open spec fn duration_text(ms: nat) -> Seq<char> {
    if ms < 1000 {
        decimal_text(ms) + "ms"@
    } else if ms < 60000 {
        let tenths = ms / 100;
        if tenths % 10 == 0 {
            decimal_text(tenths / 10) + "s"@
        } else {
            decimal_text(tenths / 10) + "."@ + decimal_text(tenths % 10) + "s"@
        }
    } else {
        decimal_text(ms / 60000) + "m "@ + two_digits(ms / 1000 % 60) + "s"@
    }
}

pub fn format_duration(ms: u64) -> (r: String)
    ensures
        r@ == duration_text(ms as nat),
{
    let decimal = crate::numbers::decimal;
    if ms < 1000 {
        let mut r = decimal(ms);
        r.append("ms");
        r
    } else if ms < 60000 {
        let tenths = ms / 100;
        let mut r = decimal(tenths / 10);
        if tenths % 10 != 0 {
            r.append(".");
            r.append(decimal(tenths % 10).as_str());
        }
        r.append("s");
        r
    } else {
        let mut r = decimal(ms / 60000);
        r.append("m ");
        let seconds = ms / 1000 % 60;
        if seconds < 10 {
            r.append("0");
        }
        r.append(decimal(seconds).as_str());
        r.append("s");
        r
    }
}


/// Where an alias placeholder may stand: at an end of the body, or beside
/// white space or one of `; | & < >`.
pub open spec fn spec_placeholder_boundary(c: Option<char>) -> bool {
    match c {
        None => true,
        Some(c) => is_ws(c) || c == ';' || c == '|' || c == '&' || c == '<' || c == '>',
    }
}

pub fn placeholder_boundary(c: Option<char>) -> (r: bool)
    ensures
        r == spec_placeholder_boundary(c),
{
    match c {
        None => true,
        Some(c) => crate::text::whitespace(c) || c == ';' || c == '|' || c == '&' || c == '<' || c
            == '>',
    }
}

/// `$1` to `$9` or `$@` at index `i`, standing alone.
pub open spec fn placeholder_at(chars: Seq<char>, i: int) -> bool {
    &&& 0 <= i
    &&& i + 1 < chars.len()
    &&& chars[i] == '$'
    &&& (chars[i + 1] == '@' || ('1' <= chars[i + 1] && chars[i + 1] <= '9'))
    &&& spec_placeholder_boundary(char_at(chars, i - 1))
    &&& spec_placeholder_boundary(char_at(chars, i + 2))
}

/// The value of a digit from `1` to `9`.
pub open spec fn digit_value(c: char) -> int {
    if c == '1' {
        1
    } else if c == '2' {
        2
    } else if c == '3' {
        3
    } else if c == '4' {
        4
    } else if c == '5' {
        5
    } else if c == '6' {
        6
    } else if c == '7' {
        7
    } else if c == '8' {
        8
    } else {
        9
    }
}

fn digit_of(c: char) -> (r: usize)
    ensures
        r == digit_value(c),
{
    if c == '1' {
        1
    } else if c == '2' {
        2
    } else if c == '3' {
        3
    } else if c == '4' {
        4
    } else if c == '5' {
        5
    } else if c == '6' {
        6
    } else if c == '7' {
        7
    } else if c == '8' {
        8
    } else {
        9
    }
}

/// The arguments quoted, one word each, separated by spaces.
pub open spec fn quoted_arguments(args: Seq<Seq<char>>) -> Seq<char> {
    join(Seq::new(args.len(), |i: int| spec_shell_quote(args[i])), " "@)
}

/// The body from index `i` with its placeholders replaced, and whether one
/// was; or the digit of the first placeholder with no argument.
pub open spec fn expand_from(chars: Seq<char>, i: int, args: Seq<Seq<char>>) -> Result<
    (Seq<char>, bool),
    char,
>
    decreases chars.len() - i,
{
    if i < 0 || i >= chars.len() {
        Ok((Seq::empty(), false))
    } else if placeholder_at(chars, i) {
        let p = chars[i + 1];
        let piece = if p == '@' {
            Some(quoted_arguments(args))
        } else if digit_value(p) <= args.len() {
            Some(spec_shell_quote(args[digit_value(p) - 1]))
        } else {
            None
        };
        match piece {
            None => Err(p),
            Some(text) => match expand_from(chars, i + 2, args) {
                Err(e) => Err(e),
                Ok((rest, _)) => Ok((text + rest, true)),
            },
        }
    } else {
        match expand_from(chars, i + 1, args) {
            Err(e) => Err(e),
            Ok((rest, used)) => Ok((seq![chars[i]] + rest, used)),
        }
    }
}

/// An alias body with its arguments put in: each `$N` by the N-th argument
/// and `$@` by all of them, quoted; with no placeholder, the arguments go
/// after the body.
pub open spec fn spec_expand_alias(body: Seq<char>, args: Seq<Seq<char>>) -> Result<
    Seq<char>,
    Seq<char>,
> {
    match expand_from(body, 0, args) {
        Err(p) => Err("missing argument $"@ + seq![p]),
        Ok((text, used)) => Ok(
            if !used && args.len() > 0 {
                text + " "@ + quoted_arguments(args)
            } else {
                text
            },
        ),
    }
}

spec fn after_prefix(
    out: Seq<char>,
    used: bool,
    rest: Result<(Seq<char>, bool), char>,
) -> Result<(Seq<char>, bool), char> {
    match rest {
        Err(e) => Err(e),
        Ok((text, u)) => Ok((out + text, used || u)),
    }
}

fn quote_all(args: &[String]) -> (r: Vec<char>)
    ensures
        r@ == quoted_arguments(string_views(args@)),
{
    let ghost parts = Seq::new(args@.len(), |i: int| spec_shell_quote(string_views(args@)[i]));
    let mut r: Vec<char> = Vec::new();
    let mut i: usize = 0;
    while i < args.len()
        invariant
            i <= args@.len(),
            parts == Seq::new(args@.len(), |i: int| spec_shell_quote(string_views(args@)[i])),
            r@ == join(parts.take(i as int), " "@),
        decreases args@.len() - i,
    {
        let w = chars_of(args[i].as_str());
        let q = quote_chars(w.as_slice());
        assert(string_views(args@)[i as int] == w@);
        assert(parts.take(i + 1).drop_last() =~= parts.take(i as int));
        if i > 0 {
            r.push(' ');
        }
        extend_chars(&mut r, q.as_slice());
        proof {
            reveal_strlit(" ");
            if i == 0 {
                assert(r@ =~= parts.take(1)[0]);
            } else {
                assert(r@ =~= join(parts.take(i as int), " "@) + " "@ + parts.take(i + 1).last());
            }
        }
        i += 1;
    }
    assert(parts.take(args@.len() as int) =~= parts);
    r
}

/// An alias body with its arguments put in, or the error for a placeholder
/// that has no argument.
pub fn expand_alias_body(body: &str, arguments: &[String]) -> (r: Result<String, String>)
    ensures
        match spec_expand_alias(body@, string_views(arguments@)) {
            Ok(text) => r is Ok && r->Ok_0@ == text,
            Err(message) => r is Err && r->Err_0@ == message,
        },
{
    let chars = chars_of(body);
    let ghost args = string_views(arguments@);
    let mut out: Vec<char> = Vec::new();
    let mut used = false;
    let mut i: usize = 0;
    while i < chars.len()
        invariant
            i <= chars@.len(),
            chars@ == body@,
            args == string_views(arguments@),
            expand_from(chars@, 0, args) == after_prefix(out@, used, expand_from(chars@, i as int, args)),
        decreases chars@.len() - i,
    {
        let at_placeholder = chars[i] == '$' && i + 1 < chars.len() && (chars[i + 1] == '@' || (
        '1' <= chars[i + 1] && chars[i + 1] <= '9')) && placeholder_boundary(
            if i == 0 {
                None
            } else {
                Some(chars[i - 1])
            },
        ) && placeholder_boundary(
            if i + 2 < chars.len() {
                Some(chars[i + 2])
            } else {
                None
            },
        );
        assert(at_placeholder == placeholder_at(chars@, i as int));
        let ghost before_out = out@;
        let ghost before_used = used;
        if at_placeholder {
            let p = chars[i + 1];
            let ghost rest = expand_from(chars@, i + 2, args);
            let ghost mut piece: Seq<char> = Seq::empty();
            if p == '@' {
                let text = quote_all(arguments);
                extend_chars(&mut out, text.as_slice());
                proof {
                    piece = text@;
                }
            } else {
                let position = digit_of(p);
                if position > arguments.len() {
                    let mut message = String::from_str("missing argument $");
                    crate::text::push_char(&mut message, p);
                    return Err(message);
                }
                let w = chars_of(arguments[position - 1].as_str());
                assert(args[position - 1] == w@);
                let q = quote_chars(w.as_slice());
                extend_chars(&mut out, q.as_slice());
                proof {
                    piece = q@;
                }
            }
            used = true;
            proof {
                assert(expand_from(chars@, i as int, args) == match rest {
                    Err(e) => Err(e),
                    Ok((t, _)) => Ok((piece + t, true)),
                });
                match rest {
                    Err(e) => {},
                    Ok((t, u)) => {
                        assert(out@ + t =~= before_out + (piece + t));
                    },
                }
                assert(after_prefix(out@, used, rest) == after_prefix(before_out, before_used, expand_from(chars@, i as int, args)));
            }
            i += 2;
        } else {
            out.push(chars[i]);
            proof {
                match expand_from(chars@, i + 1, args) {
                    Err(e) => {},
                    Ok((t, u)) => {
                        assert(out@ + t =~= before_out + (seq![chars@[i as int]] + t));
                    },
                }
                assert(after_prefix(out@, used, expand_from(chars@, i + 1, args)) == after_prefix(before_out, before_used, expand_from(chars@, i as int, args)));
            }
            i += 1;
        }
    }
    assert(out@ + Seq::<char>::empty() =~= out@);
    assert(expand_from(chars@, 0, args) == Ok::<(Seq<char>, bool), char>((out@, used)));
    let ghost text = out@;
    if !used && arguments.len() > 0 {
        out.push(' ');
        let rest = quote_all(arguments);
        extend_chars(&mut out, rest.as_slice());
        proof {
            reveal_strlit(" ");
            assert(out@ =~= text + " "@ + quoted_arguments(args));
        }
    }
    Ok(string_of(out.as_slice()))
}


/// The first index from `from` on at which `pat` occurs in `s`.
pub open spec fn find_text(s: Seq<char>, pat: Seq<char>, from: int) -> Option<int>
    decreases s.len() - from,
{
    if from < 0 || from + pat.len() > s.len() {
        None
    } else if s.subrange(from, from + pat.len()) == pat {
        Some(from)
    } else if from >= s.len() {
        None
    } else {
        find_text(s, pat, from + 1)
    }
}

/// `s` up to the first `pat` in it, as `split(pat).next()` gives it.
pub open spec fn before_text(s: Seq<char>, pat: Seq<char>) -> Seq<char> {
    match find_text(s, pat, 0) {
        Some(i) => s.take(i),
        None => s,
    }
}

/// `s` without the prefix `p`, when it has it.
pub open spec fn without_prefix(s: Seq<char>, p: Seq<char>) -> Seq<char> {
    if crate::text::starts_with(s, p) {
        s.subrange(p.len() as int, s.len() as int)
    } else {
        s
    }
}

pub open spec fn without_controls(s: Seq<char>) -> Seq<char>
    decreases s.len(),
{
    if s.len() == 0 {
        Seq::empty()
    } else if is_cc(s.last()) {
        without_controls(s.drop_last())
    } else {
        without_controls(s.drop_last()).push(s.last())
    }
}

/// The branch named by the heading of `git status --branch --porcelain`.
pub open spec fn git_branch(heading: Seq<char>) -> Seq<char> {
    if crate::text::starts_with(heading, "HEAD (no branch)"@) {
        "detached"@
    } else {
        before_text(before_text(without_prefix(heading, "No commits yet on "@), "..."@), " ["@)
    }
}

/// What the prompt shows of a repository's status: the branch, with the
/// dirty mark when any line follows the heading.
pub open spec fn spec_git_status(text: Seq<char>, dirty_symbol: Seq<char>) -> Option<Seq<char>> {
    let ls = lines_of(text);
    if ls.len() == 0 || !crate::text::starts_with(ls[0], "## "@) {
        None
    } else {
        let branch = without_controls(git_branch(ls[0].subrange(3, ls[0].len() as int)));
        if branch.len() == 0 {
            None
        } else if ls.len() > 1 {
            Some(branch + dirty_symbol)
        } else {
            Some(branch)
        }
    }
}

fn occurs_at(s: &[char], pat: &[char], i: usize) -> (r: bool)
    requires
        i + pat@.len() <= s@.len(),
    ensures
        r == (s@.subrange(i as int, i + pat@.len()) == pat@),
{
    let mut j: usize = 0;
    while j < pat.len()
        invariant
            i + pat@.len() <= s@.len(),
            s@.len() == s.len(),
            j <= pat@.len(),
            forall|k: int| 0 <= k < j ==> s@[i + k] == pat@[k],
        decreases pat@.len() - j,
    {
        if s[i + j] != pat[j] {
            assert(s@.subrange(i as int, i + pat@.len())[j as int] != pat@[j as int]);
            return false;
        }
        j += 1;
    }
    assert(s@.subrange(i as int, i + pat@.len()) =~= pat@);
    true
}

fn before_pattern(s: &[char], pat: &str) -> (r: Vec<char>)
    ensures
        r@ == before_text(s@, pat@),
{
    let p = chars_of(pat);
    assert(s@.subrange(0, s@.len() as int) =~= s@);
    if p.len() > s.len() {
        return crate::text::chars_between(s, 0, s.len());
    }
    if p.len() == 0 {
        assert(s@.subrange(0, 0) =~= p@);
        return Vec::new();
    }
    let last = s.len() - p.len();
    let mut i: usize = 0;
    while i <= last
        invariant
            p@ == pat@,
            last + p@.len() == s@.len(),
            s@.len() == s.len(),
            p@.len() > 0,
            i <= last + 1,
            find_text(s@, p@, 0) == find_text(s@, p@, i as int),
        decreases last + 1 - i,
    {
        if occurs_at(s, p.as_slice(), i) {
            return crate::text::chars_between(s, 0, i);
        }
        i += 1;
    }
    crate::text::chars_between(s, 0, s.len())
}

fn git_branch_of(heading: &[char]) -> (r: Vec<char>)
    ensures
        r@ == git_branch(heading@),
{
    if crate::text::has_prefix_str(heading, "HEAD (no branch)") {
        return chars_of("detached");
    }
    let stripped = if crate::text::has_prefix_str(heading, "No commits yet on ") {
        let p = chars_of("No commits yet on ");
        crate::text::chars_between(heading, p.len(), heading.len())
    } else {
        crate::text::chars_between(heading, 0, heading.len())
    };
    assert(heading@.subrange(0, heading@.len() as int) =~= heading@);
    let first = before_pattern(stripped.as_slice(), "...");
    before_pattern(first.as_slice(), " [")
}

/// The prompt's Git text from the output of `git status --porcelain=v1 --branch`.
pub fn parse_git_status(text: &str, dirty_symbol: &str) -> (r: Option<String>)
    ensures
        match spec_git_status(text@, dirty_symbol@) {
            Some(t) => r is Some && r->0@ == t,
            None => r is None,
        },
{
    let chars = chars_of(text);
    let ls = crate::text::lines(chars.as_slice());
    let ghost views = char_views(ls@);
    if ls.len() == 0 {
        return None;
    }
    assert(views[0] == ls@[0]@);
    if !crate::text::has_prefix_str(ls[0].as_slice(), "## ") {
        return None;
    }
    proof {
        reveal_strlit("## ");
    }
    let heading = crate::text::chars_between(ls[0].as_slice(), 3, ls[0].len());
    let named = git_branch_of(heading.as_slice());
    let mut branch: Vec<char> = Vec::new();
    let mut i: usize = 0;
    while i < named.len()
        invariant
            i <= named@.len(),
            branch@ == without_controls(named@.take(i as int)),
        decreases named@.len() - i,
    {
        assert(named@.take(i + 1).drop_last() =~= named@.take(i as int));
        if !crate::text::control(named[i]) {
            branch.push(named[i]);
        }
        i += 1;
    }
    assert(named@.take(named@.len() as int) =~= named@);
    if branch.len() == 0 {
        None
    } else {
        let mut r = string_of(branch.as_slice());
        if ls.len() > 1 {
            r.append(dirty_symbol);
        }
        Some(r)
    }
}


/// `usize::from_str`: an optional `+`, then digits, within range.
pub open spec fn spec_parse_usize(s: Seq<char>) -> Option<usize> {
    match crate::config::spec_parse_u64(s) {
        Some(v) => if v <= usize::MAX {
            Some(v as usize)
        } else {
            None
        },
        None => None,
    }
}

/// `i32::from_str`: an optional sign, then digits, within range.
pub open spec fn spec_parse_i32(s: Seq<char>) -> Option<i32> {
    let negative = s.len() > 0 && s[0] == '-';
    let d = if s.len() > 0 && (s[0] == '-' || s[0] == '+') {
        s.drop_first()
    } else {
        s
    };
    if d.len() > 0 && crate::config::all_digits(d) && (if negative {
        crate::config::decimal_value(d) <= 0x8000_0000
    } else {
        crate::config::decimal_value(d) <= 0x7fff_ffff
    }) {
        Some(
            (if negative {
                -crate::config::decimal_value(d)
            } else {
                crate::config::decimal_value(d) as int
            }) as i32,
        )
    } else {
        None
    }
}

pub fn parse_usize(s: &[char]) -> (r: Option<usize>)
    ensures
        r == spec_parse_usize(s@),
{
    match crate::config::parse_u64(s) {
        Some(v) => if v <= usize::MAX as u64 {
            Some(v as usize)
        } else {
            None
        },
        None => None,
    }
}

pub fn parse_i32(s: &[char]) -> (r: Option<i32>)
    ensures
        r == spec_parse_i32(s@),
{
    let negative = s.len() > 0 && s[0] == '-';
    let d = if s.len() > 0 && (s[0] == '-' || s[0] == '+') {
        crate::text::chars_between(s, 1, s.len())
    } else {
        crate::text::chars_between(s, 0, s.len())
    };
    assert(s@.subrange(0, s@.len() as int) =~= s@);
    assert(s@.len() > 0 ==> s@.subrange(1, s@.len() as int) =~= s@.drop_first());
    if d.len() == 0 || d[0] == '+' {
        assert(d@.len() > 0 ==> !crate::text::is_ascii_digit(d@[0]));
        return None;
    }
    match crate::config::parse_u64(d.as_slice()) {
        None => None,
        Some(v) => {
            if negative {
                if v <= 0x8000_0000 {
                    Some((0 - (v as i64)) as i32)
                } else {
                    None
                }
            } else {
                if v <= 0x7fff_ffff {
                    Some(v as i32)
                } else {
                    None
                }
            }
        },
    }
}

/// The job that `fg` or `bg` names: none for the latest, or its ID, with an
/// optional `%` before it; or the message for a bad request.
pub open spec fn job_request(words: Seq<Seq<char>>, command: Seq<char>) -> Result<
    Option<usize>,
    Seq<char>,
> {
    if words.len() > 2 {
        Err("nsh: "@ + command + ": expected at most one job ID"@)
    } else if words.len() < 2 {
        Ok(None)
    } else {
        match spec_parse_usize(without_prefix(words[1], "%"@)) {
            Some(id) => Ok(Some(id)),
            None => Err("nsh: "@ + command + ": `"@ + words[1] + "` is not a valid job ID"@),
        }
    }
}

pub fn requested_job(words: &Vec<String>, command: &str) -> (r: Result<Option<usize>, String>)
    ensures
        match job_request(string_views(words@), command@) {
            Ok(id) => r == Ok::<Option<usize>, String>(id),
            Err(message) => r is Err && r->Err_0@ == message,
        },
{
    let ghost ws = string_views(words@);
    if words.len() > 2 {
        let mut m = String::from_str("nsh: ");
        m.append(command);
        m.append(": expected at most one job ID");
        return Err(m);
    }
    if words.len() < 2 {
        return Ok(None);
    }
    let word = chars_of(words[1].as_str());
    assert(ws[1] == word@);
    let id = if crate::text::has_prefix_str(word.as_slice(), "%") {
        proof {
            reveal_strlit("%");
        }
        crate::text::chars_between(word.as_slice(), 1, word.len())
    } else {
        crate::text::chars_between(word.as_slice(), 0, word.len())
    };
    assert(word@.subrange(0, word@.len() as int) =~= word@);
    match parse_usize(id.as_slice()) {
        Some(v) => Ok(Some(v)),
        None => {
            let mut m = String::from_str("nsh: ");
            m.append(command);
            m.append(": `");
            m.append(words[1].as_str());
            m.append("` is not a valid job ID");
            Err(m)
        },
    }
}


/// What a built-in command asks of the shell, once its arguments are checked.
pub enum Builtin {
    /// Print the message and finish with the status.
    Refuse(String, i32),
    /// Change to the directory given, or to the previous directory when the
    /// flag is set; with neither, to the home directory.
    ChangeDirectory(Option<String>, bool),
    PrintDirectory,
    ListEnvironment,
    /// Set each variable in turn; then, if there is a message, print it and finish with 2.
    Export(Vec<(String, String)>, Option<String>),
    Unset(Vec<String>),
    PushDirectory(String),
    PopDirectory,
    Directories,
    ListHistory,
    SearchHistory(String),
    /// Clear the history; the flag says whether `--force` spares the question.
    ClearHistory(bool),
    Type(Vec<String>),
    Jobs,
    Foreground(Option<usize>),
    Background(Option<usize>),
    Reload,
    /// Leave the shell with the status; a message is printed first.
    Exit(i32, Option<String>),
    Room(String),
}

pub enum BuiltinModel {
    Refuse(Seq<char>, i32),
    ChangeDirectory(Option<Seq<char>>, bool),
    PrintDirectory,
    ListEnvironment,
    Export(Seq<(Seq<char>, Seq<char>)>, Option<Seq<char>>),
    Unset(Seq<Seq<char>>),
    PushDirectory(Seq<char>),
    PopDirectory,
    Directories,
    ListHistory,
    SearchHistory(Seq<char>),
    ClearHistory(bool),
    Type(Seq<Seq<char>>),
    Jobs,
    Foreground(Option<usize>),
    Background(Option<usize>),
    Reload,
    Exit(i32, Option<Seq<char>>),
    Room(Seq<char>),
}

pub open spec fn pair_views(v: Seq<(String, String)>) -> Seq<(Seq<char>, Seq<char>)> {
    v.map_values(|p: (String, String)| (p.0@, p.1@))
}

pub open spec fn text_option(o: Option<String>) -> Option<Seq<char>> {
    match o {
        Some(s) => Some(s@),
        None => None,
    }
}

impl View for Builtin {
    type V = BuiltinModel;

    open spec fn view(&self) -> BuiltinModel {
        match self {
            Builtin::Refuse(m, s) => BuiltinModel::Refuse(m@, *s),
            Builtin::ChangeDirectory(t, p) => BuiltinModel::ChangeDirectory(text_option(*t), *p),
            Builtin::PrintDirectory => BuiltinModel::PrintDirectory,
            Builtin::ListEnvironment => BuiltinModel::ListEnvironment,
            Builtin::Export(a, m) => BuiltinModel::Export(pair_views(a@), text_option(*m)),
            Builtin::Unset(k) => BuiltinModel::Unset(string_views(k@)),
            Builtin::PushDirectory(d) => BuiltinModel::PushDirectory(d@),
            Builtin::PopDirectory => BuiltinModel::PopDirectory,
            Builtin::Directories => BuiltinModel::Directories,
            Builtin::ListHistory => BuiltinModel::ListHistory,
            Builtin::SearchHistory(q) => BuiltinModel::SearchHistory(q@),
            Builtin::ClearHistory(f) => BuiltinModel::ClearHistory(*f),
            Builtin::Type(n) => BuiltinModel::Type(string_views(n@)),
            Builtin::Jobs => BuiltinModel::Jobs,
            Builtin::Foreground(id) => BuiltinModel::Foreground(*id),
            Builtin::Background(id) => BuiltinModel::Background(*id),
            Builtin::Reload => BuiltinModel::Reload,
            Builtin::Exit(s, m) => BuiltinModel::Exit(*s, text_option(*m)),
            Builtin::Room(a) => BuiltinModel::Room(a@),
        }
    }
}

pub open spec fn no_arguments(name: Seq<char>) -> BuiltinModel {
    BuiltinModel::Refuse("nsh: "@ + name + ": does not accept arguments"@, 2)
}

/// The assignments of `export` that come before the first bad one, and the
/// message for that one.
pub open spec fn export_plan(args: Seq<Seq<char>>) -> (Seq<(Seq<char>, Seq<char>)>, Option<Seq<char>>)
    decreases args.len(),
{
    if args.len() == 0 {
        (Seq::empty(), None)
    } else {
        match crate::text::split_once(args[0], '=') {
            None => (Seq::empty(), Some("nsh: export: expected NAME=VALUE"@)),
            Some((key, value)) => if !crate::config::spec_valid_variable_name(key) {
                (Seq::empty(), Some("nsh: export: `"@ + key + "` is not a valid variable name"@))
            } else {
                let rest = export_plan(args.drop_first());
                (seq![(key, value)] + rest.0, rest.1)
            },
        }
    }
}

/// The first name that is no valid variable name.
pub open spec fn first_invalid_name(names: Seq<Seq<char>>) -> Option<Seq<char>>
    decreases names.len(),
{
    if names.len() == 0 {
        None
    } else if !crate::config::spec_valid_variable_name(names[0]) {
        Some(names[0])
    } else {
        first_invalid_name(names.drop_first())
    }
}

pub open spec fn cd_plan(words: Seq<Seq<char>>) -> BuiltinModel {
    if words.len() > 2 {
        BuiltinModel::Refuse("nsh: cd: too many arguments"@, 2)
    } else if words.len() == 2 && crate::text::text_is(words[1], "-"@) {
        BuiltinModel::ChangeDirectory(None, true)
    } else if words.len() == 2 {
        BuiltinModel::ChangeDirectory(Some(words[1]), false)
    } else {
        BuiltinModel::ChangeDirectory(None, false)
    }
}

pub open spec fn history_plan(words: Seq<Seq<char>>) -> BuiltinModel {
    if words.len() == 1 {
        BuiltinModel::ListHistory
    } else if crate::text::text_is(words[1], "search"@) {
        if words.len() < 3 {
            BuiltinModel::Refuse("nsh: history search: expected search text"@, 2)
        } else {
            BuiltinModel::SearchHistory(join(words.subrange(2, words.len() as int), " "@))
        }
    } else if crate::text::text_is(words[1], "clear"@) {
        if words.len() > 3 || (words.len() == 3 && !crate::text::text_is(words[2], "--force"@)) {
            BuiltinModel::Refuse("nsh: history clear: expected optional --force"@, 2)
        } else {
            BuiltinModel::ClearHistory(words.len() == 3)
        }
    } else {
        BuiltinModel::Refuse("nsh: history: expected search or clear"@, 2)
    }
}

pub open spec fn exit_plan(words: Seq<Seq<char>>, last_status: i32) -> BuiltinModel {
    if words.len() > 2 {
        BuiltinModel::Refuse("nsh: exit: too many arguments"@, 2)
    } else if words.len() < 2 {
        BuiltinModel::Exit(last_status, None)
    } else {
        match spec_parse_i32(words[1]) {
            Some(code) => BuiltinModel::Exit(((code as int) % 256) as i32, None),
            None => BuiltinModel::Exit(
                2,
                Some("nsh: exit: `"@ + words[1] + "` is not a valid exit status"@),
            ),
        }
    }
}

pub open spec fn job_plan(words: Seq<Seq<char>>, foreground: bool) -> BuiltinModel {
    match job_request(words, if foreground { "fg"@ } else { "bg"@ }) {
        Err(m) => BuiltinModel::Refuse(m, 2),
        Ok(id) => if foreground {
            BuiltinModel::Foreground(id)
        } else {
            BuiltinModel::Background(id)
        },
    }
}

/// What the built-in named by the first word asks, given its arguments and
/// the last status; none for a command that is no built-in.
pub open spec fn spec_builtin(words: Seq<Seq<char>>, last_status: i32) -> Option<BuiltinModel> {
    if words.len() == 0 {
        None
    } else {
        let name = words[0];
        let alone = words.len() == 1;
        if crate::text::text_is(name, "cd"@) {
            Some(cd_plan(words))
        } else if crate::text::text_is(name, "pwd"@) {
            Some(if alone { BuiltinModel::PrintDirectory } else { no_arguments("pwd"@) })
        } else if crate::text::text_is(name, "export"@) {
            Some(
                if alone {
                    BuiltinModel::ListEnvironment
                } else {
                    let plan = export_plan(words.drop_first());
                    BuiltinModel::Export(plan.0, plan.1)
                },
            )
        } else if crate::text::text_is(name, "unset"@) {
            Some(
                match first_invalid_name(words.drop_first()) {
                    Some(key) => BuiltinModel::Refuse(
                        "nsh: unset: `"@ + key + "` is not a valid variable name"@,
                        2,
                    ),
                    None => BuiltinModel::Unset(words.drop_first()),
                },
            )
        } else if crate::text::text_is(name, "pushd"@) {
            Some(
                if words.len() == 2 {
                    BuiltinModel::PushDirectory(words[1])
                } else {
                    BuiltinModel::Refuse("nsh: pushd: expected one directory"@, 2)
                },
            )
        } else if crate::text::text_is(name, "popd"@) {
            Some(if alone { BuiltinModel::PopDirectory } else { no_arguments("popd"@) })
        } else if crate::text::text_is(name, "dirs"@) {
            Some(if alone { BuiltinModel::Directories } else { no_arguments("dirs"@) })
        } else if crate::text::text_is(name, "history"@) {
            Some(history_plan(words))
        } else if crate::text::text_is(name, "type"@) {
            Some(
                if alone {
                    BuiltinModel::Refuse("nsh: type: expected at least one command name"@, 2)
                } else {
                    BuiltinModel::Type(words.drop_first())
                },
            )
        } else if crate::text::text_is(name, "jobs"@) {
            Some(if alone { BuiltinModel::Jobs } else { no_arguments("jobs"@) })
        } else if crate::text::text_is(name, "fg"@) {
            Some(job_plan(words, true))
        } else if crate::text::text_is(name, "bg"@) {
            Some(job_plan(words, false))
        } else if crate::text::text_is(name, "reload"@) {
            Some(if alone { BuiltinModel::Reload } else { no_arguments("reload"@) })
        } else if crate::text::text_is(name, "exit"@) {
            Some(exit_plan(words, last_status))
        } else if crate::text::text_is(name, "room"@) {
            Some(
                if words.len() == 2 {
                    BuiltinModel::Room(words[1])
                } else {
                    BuiltinModel::Refuse("nsh: room expects one of status, trust, or untrust"@, 2)
                },
            )
        } else {
            None
        }
    }
}

pub open spec fn builtin_option(b: Option<Builtin>) -> Option<BuiltinModel> {
    match b {
        Some(b) => Some(b@),
        None => None,
    }
}

fn refuse(message: &str) -> (r: Builtin)
    ensures
        r@ == BuiltinModel::Refuse(message@, 2),
{
    Builtin::Refuse(String::from_str(message), 2)
}

fn refuse_without_arguments(name: &str) -> (r: Builtin)
    ensures
        r@ == no_arguments(name@),
{
    let mut m = String::from_str("nsh: ");
    m.append(name);
    m.append(": does not accept arguments");
    Builtin::Refuse(m, 2)
}

fn strings_from(words: &Vec<String>, start: usize) -> (r: Vec<String>)
    requires
        start <= words@.len(),
    ensures
        string_views(r@) == string_views(words@).subrange(start as int, words@.len() as int),
{
    let mut r: Vec<String> = Vec::new();
    let mut i = start;
    while i < words.len()
        invariant
            start <= i <= words@.len(),
            string_views(r@) == string_views(words@).subrange(start as int, i as int),
        decreases words@.len() - i,
    {
        let ghost before = r@;
        let w = String::from_str(words[i].as_str());
        r.push(w);
        assert(string_views(r@) =~= string_views(before).push(w@));
        i += 1;
        assert(string_views(words@).subrange(start as int, i as int) =~= string_views(words@).subrange(
            start as int,
            i - 1,
        ).push(w@));
    }
    r
}

fn plan_cd(words: &Vec<String>) -> (r: Builtin)
    requires
        words@.len() >= 1,
    ensures
        r@ == cd_plan(string_views(words@)),
{
    if words.len() > 2 {
        return refuse("nsh: cd: too many arguments");
    }
    if words.len() == 2 {
        let w = chars_of(words[1].as_str());
        assert(string_views(words@)[1] == w@);
        if is_text(w.as_slice(), "-") {
            Builtin::ChangeDirectory(None, true)
        } else {
            Builtin::ChangeDirectory(Some(String::from_str(words[1].as_str())), false)
        }
    } else {
        Builtin::ChangeDirectory(None, false)
    }
}

fn plan_export(words: &Vec<String>) -> (r: Builtin)
    requires
        words@.len() >= 2,
    ensures
        r@ == ({
            let plan = export_plan(string_views(words@).drop_first());
            BuiltinModel::Export(plan.0, plan.1)
        }),
{
    let ghost args = string_views(words@).drop_first();
    let mut sets: Vec<(String, String)> = Vec::new();
    let mut i: usize = 1;
    assert(args.subrange(0, args.len() as int) =~= args);
    assert(pair_views(sets@) =~= Seq::<(Seq<char>, Seq<char>)>::empty());
    assert(pair_views(sets@) + export_plan(args).0 =~= export_plan(args).0);
    while i < words.len()
        invariant
            1 <= i <= words@.len(),
            args == string_views(words@).drop_first(),
            ({
                let whole = export_plan(args);
                let rest = export_plan(args.subrange(i - 1, args.len() as int));
                whole == (pair_views(sets@) + rest.0, rest.1)
            }),
        decreases words@.len() - i,
    {
        let a = chars_of(words[i].as_str());
        let ghost tail = args.subrange(i - 1, args.len() as int);
        assert(tail[0] == a@);
        assert(tail.drop_first() =~= args.subrange(i as int, args.len() as int));
        match crate::text::split_once_char(a.as_slice(), '=') {
            None => {
                let m = String::from_str("nsh: export: expected NAME=VALUE");
                assert(export_plan(tail) == (Seq::<(Seq<char>, Seq<char>)>::empty(), Some(m@)));
                assert(pair_views(sets@) + Seq::<(Seq<char>, Seq<char>)>::empty() =~= pair_views(sets@));
                return Builtin::Export(sets, Some(m));
            },
            Some((key, value)) => {
                if !crate::config::valid_variable_name(key.as_slice()) {
                    let mut m = String::from_str("nsh: export: `");
                    m.append(string_of(key.as_slice()).as_str());
                    m.append("` is not a valid variable name");
                    assert(pair_views(sets@) + Seq::<(Seq<char>, Seq<char>)>::empty() =~= pair_views(sets@));
                    return Builtin::Export(sets, Some(m));
                }
                let ghost before = sets@;
                let k = string_of(key.as_slice());
                let v = string_of(value.as_slice());
                sets.push((k, v));
                assert(pair_views(sets@) =~= pair_views(before).push((key@, value@)));
                let ghost rest = export_plan(tail.drop_first());
                assert(export_plan(tail) == (seq![(key@, value@)] + rest.0, rest.1));
                assert(pair_views(before) + (seq![(key@, value@)] + rest.0) =~= pair_views(sets@) + rest.0);
            },
        }
        i += 1;
    }
    assert(args.subrange(words@.len() - 1, args.len() as int) =~= Seq::<Seq<char>>::empty());
    assert(pair_views(sets@) + Seq::<(Seq<char>, Seq<char>)>::empty() =~= pair_views(sets@));
    Builtin::Export(sets, None)
}


/// The words from `start` on, joined with spaces.
pub fn join_words(words: &Vec<String>, start: usize) -> (r: String)
    requires
        start <= words@.len(),
    ensures
        r@ == join(string_views(words@).subrange(start as int, words@.len() as int), " "@),
{
    let ghost parts = string_views(words@);
    let mut r = String::new();
    let mut i = start;
    while i < words.len()
        invariant
            start <= i <= words@.len(),
            parts == string_views(words@),
            r@ == join(parts.subrange(start as int, i as int), " "@),
        decreases words@.len() - i,
    {
        let ghost before = r@;
        if i > start {
            r.append(" ");
        }
        r.append(words[i].as_str());
        proof {
            reveal_strlit(" ");
            let next = parts.subrange(start as int, i + 1);
            assert(next.drop_last() =~= parts.subrange(start as int, i as int));
            assert(next.last() == words@[i as int]@);
            if i == start {
                assert(r@ =~= next[0]);
            } else {
                assert(r@ =~= before + " "@ + next.last());
            }
        }
        i += 1;
    }
    r
}

fn plan_unset(words: &Vec<String>) -> (r: Builtin)
    requires
        words@.len() >= 1,
    ensures
        r@ == (match first_invalid_name(string_views(words@).drop_first()) {
            Some(key) => BuiltinModel::Refuse(
                "nsh: unset: `"@ + key + "` is not a valid variable name"@,
                2,
            ),
            None => BuiltinModel::Unset(string_views(words@).drop_first()),
        }),
{
    let ghost args = string_views(words@).drop_first();
    let mut i: usize = 1;
    assert(args.subrange(0, args.len() as int) =~= args);
    while i < words.len()
        invariant
            1 <= i <= words@.len(),
            args == string_views(words@).drop_first(),
            first_invalid_name(args) == first_invalid_name(args.subrange(i - 1, args.len() as int)),
        decreases words@.len() - i,
    {
        let k = chars_of(words[i].as_str());
        let ghost tail = args.subrange(i - 1, args.len() as int);
        assert(tail[0] == k@);
        assert(tail.drop_first() =~= args.subrange(i as int, args.len() as int));
        if !crate::config::valid_variable_name(k.as_slice()) {
            let mut m = String::from_str("nsh: unset: `");
            m.append(words[i].as_str());
            m.append("` is not a valid variable name");
            return Builtin::Refuse(m, 2);
        }
        i += 1;
    }
    assert(args.subrange(words@.len() - 1, args.len() as int) =~= Seq::<Seq<char>>::empty());
    let names = strings_from(words, 1);
    assert(string_views(words@).subrange(1, words@.len() as int) =~= args);
    Builtin::Unset(names)
}

fn plan_history(words: &Vec<String>) -> (r: Builtin)
    requires
        words@.len() >= 1,
    ensures
        r@ == history_plan(string_views(words@)),
{
    let ghost ws = string_views(words@);
    if words.len() == 1 {
        return Builtin::ListHistory;
    }
    let action = chars_of(words[1].as_str());
    assert(ws[1] == action@);
    if is_text(action.as_slice(), "search") {
        if words.len() < 3 {
            return refuse("nsh: history search: expected search text");
        }
        Builtin::SearchHistory(join_words(words, 2))
    } else if is_text(action.as_slice(), "clear") {
        if words.len() > 3 {
            return refuse("nsh: history clear: expected optional --force");
        }
        if words.len() == 3 {
            let flag = chars_of(words[2].as_str());
            assert(ws[2] == flag@);
            if !is_text(flag.as_slice(), "--force") {
                return refuse("nsh: history clear: expected optional --force");
            }
        }
        Builtin::ClearHistory(words.len() == 3)
    } else {
        refuse("nsh: history: expected search or clear")
    }
}

#[verifier::spinoff_prover]
#[verifier::rlimit(40)]
fn plan_exit(words: &Vec<String>, last_status: i32) -> (r: Builtin)
    requires
        words@.len() >= 1,
    ensures
        r@ == exit_plan(string_views(words@), last_status),
{
    if words.len() > 2 {
        return refuse("nsh: exit: too many arguments");
    }
    if words.len() < 2 {
        return Builtin::Exit(last_status, None);
    }
    let code = chars_of(words[1].as_str());
    assert(string_views(words@)[1] == code@);
    match parse_i32(code.as_slice()) {
        Some(v) => {
            let m = v % 256;
            let status = if m < 0 {
                m + 256
            } else {
                m
            };
            assert(status == (v as int) % 256);
            Builtin::Exit(status, None)
        },
        None => {
            let mut m = String::from_str("nsh: exit: `");
            m.append(words[1].as_str());
            m.append("` is not a valid exit status");
            Builtin::Exit(2, Some(m))
        },
    }
}

fn plan_job(words: &Vec<String>, foreground: bool) -> (r: Builtin)
    ensures
        r@ == job_plan(string_views(words@), foreground),
{
    let command = if foreground {
        "fg"
    } else {
        "bg"
    };
    match requested_job(words, command) {
        Err(m) => Builtin::Refuse(m, 2),
        Ok(id) => if foreground {
            Builtin::Foreground(id)
        } else {
            Builtin::Background(id)
        },
    }
}

fn plan_simple(words: &Vec<String>, name: &str, then: Builtin) -> (r: Builtin)
    requires
        words@.len() >= 1,
    ensures
        r@ == (if words@.len() == 1 {
            then@
        } else {
            no_arguments(name@)
        }),
{
    if words.len() == 1 {
        then
    } else {
        refuse_without_arguments(name)
    }
}

/// What the built-in named by the first word asks, or none when that word
/// names no built-in.
pub fn plan_builtin(words: &Vec<String>, last_status: i32) -> (r: Option<Builtin>)
    ensures
        builtin_option(r) == spec_builtin(string_views(words@), last_status),
{
    if words.len() == 0 {
        return None;
    }
    let name = chars_of(words[0].as_str());
    let ghost ws = string_views(words@);
    assert(ws[0] == name@);
    let n = name.as_slice();
    if is_text(n, "cd") {
        Some(plan_cd(words))
    } else if is_text(n, "pwd") {
        Some(plan_simple(words, "pwd", Builtin::PrintDirectory))
    } else if is_text(n, "export") {
        if words.len() == 1 {
            Some(Builtin::ListEnvironment)
        } else {
            Some(plan_export(words))
        }
    } else if is_text(n, "unset") {
        Some(plan_unset(words))
    } else if is_text(n, "pushd") {
        if words.len() == 2 {
            assert(ws[1] == words@[1]@);
            Some(Builtin::PushDirectory(String::from_str(words[1].as_str())))
        } else {
            Some(refuse("nsh: pushd: expected one directory"))
        }
    } else if is_text(n, "popd") {
        Some(plan_simple(words, "popd", Builtin::PopDirectory))
    } else if is_text(n, "dirs") {
        Some(plan_simple(words, "dirs", Builtin::Directories))
    } else if is_text(n, "history") {
        Some(plan_history(words))
    } else if is_text(n, "type") {
        if words.len() == 1 {
            Some(refuse("nsh: type: expected at least one command name"))
        } else {
            let names = strings_from(words, 1);
            assert(ws.subrange(1, ws.len() as int) =~= ws.drop_first());
            Some(Builtin::Type(names))
        }
    } else if is_text(n, "jobs") {
        Some(plan_simple(words, "jobs", Builtin::Jobs))
    } else if is_text(n, "fg") {
        Some(plan_job(words, true))
    } else if is_text(n, "bg") {
        Some(plan_job(words, false))
    } else if is_text(n, "reload") {
        Some(plan_simple(words, "reload", Builtin::Reload))
    } else if is_text(n, "exit") {
        Some(plan_exit(words, last_status))
    } else if is_text(n, "room") {
        if words.len() == 2 {
            assert(ws[1] == words@[1]@);
            Some(Builtin::Room(String::from_str(words[1].as_str())))
        } else {
            Some(refuse("nsh: room expects one of status, trust, or untrust"))
        }
    } else {
        None
    }
}


/// The alias `key` names the first words of `words`.
pub open spec fn alias_matches(words: Seq<Seq<char>>, key: Seq<Seq<char>>) -> bool {
    key.len() <= words.len() && words.take(key.len() as int) == key
}

pub open spec fn longest_match(
    words: Seq<Seq<char>>,
    aliases: Map<Seq<Seq<char>>, Seq<char>>,
    key: Seq<Seq<char>>,
) -> bool {
    &&& aliases.contains_key(key)
    &&& alias_matches(words, key)
    &&& forall|other: Seq<Seq<char>>|
        #[trigger] aliases.contains_key(other) && alias_matches(words, other) ==> other.len()
            <= key.len()
}

/// The command an alias turns the words into: the alias with the most words
/// that the command begins with, its body given the words that follow; none
/// when no alias applies.
pub open spec fn spec_alias_expansion(words: Seq<Seq<char>>, aliases: Map<Seq<Seq<char>>, Seq<char>>) -> Result<
    Option<Seq<char>>,
    Seq<char>,
> {
    if exists|key: Seq<Seq<char>>| longest_match(words, aliases, key) {
        let key = choose|key: Seq<Seq<char>>| longest_match(words, aliases, key);
        match spec_expand_alias(aliases[key], words.skip(key.len() as int)) {
            Ok(text) => Ok(Some(text)),
            Err(m) => Err(m),
        }
    } else {
        Ok(None)
    }
}

fn words_begin_with(words: &Vec<String>, key: &Vec<String>) -> (r: bool)
    ensures
        r == alias_matches(string_views(words@), string_views(key@)),
{
    let ghost ws = string_views(words@);
    let ghost ks = string_views(key@);
    if key.len() > words.len() {
        return false;
    }
    let mut i: usize = 0;
    while i < key.len()
        invariant
            key@.len() <= words@.len(),
            i <= key@.len(),
            ws == string_views(words@),
            ks == string_views(key@),
            forall|j: int| 0 <= j < i ==> ws[j] == ks[j],
        decreases key@.len() - i,
    {
        assert(ws[i as int] == words@[i as int]@);
        assert(ks[i as int] == key@[i as int]@);
        if words[i] != key[i] {
            assert(ws.take(key@.len() as int)[i as int] != ks[i as int]);
            return false;
        }
        i += 1;
    }
    assert(ws.take(key@.len() as int) =~= ks);
    true
}

/// The command that the first words of a command turn into by an alias, or
/// the error of an alias body that misses an argument.
pub fn alias_expansion(words: &Vec<String>, aliases: &Table<Vec<String>>) -> (r: Result<
    Option<String>,
    String,
>)
    ensures
        match spec_alias_expansion(string_views(words@), aliases.view()) {
            Ok(Some(text)) => r matches Ok(Some(t)) && t@ == text,
            Ok(None) => r matches Ok(None),
            Err(m) => r matches Err(e) && e@ == m,
        },
{
    let ghost ws = string_views(words@);
    let ghost view = aliases.view();
    let entries = aliases.entries();
    let ghost pairs = aliases.pairs();
    let mut best: Option<usize> = None;
    let mut i: usize = 0;
    while i < entries.len()
        invariant
            i <= entries@.len(),
            entries@.len() == pairs.len(),
            ws == string_views(words@),
            view == aliases.view(),
            pairs == aliases.pairs(),
            forall|j: int|
                0 <= j < entries@.len() ==> (#[trigger] entries@[j]).0.key_view() == pairs[j].0
                    && entries@[j].1@ == pairs[j].1,
            match best {
                None => forall|j: int| 0 <= j < i ==> !alias_matches(ws, #[trigger] pairs[j].0),
                Some(b) => b < i && alias_matches(ws, pairs[b as int].0) && forall|j: int|
                    0 <= j < i && alias_matches(ws, #[trigger] pairs[j].0) ==> pairs[j].0.len()
                        <= pairs[b as int].0.len(),
            },
        decreases entries@.len() - i,
    {
        assert(entries@[i as int].0.key_view() == pairs[i as int].0);
        if words_begin_with(words, &entries[i].0) {
            match best {
                None => {
                    best = Some(i);
                },
                Some(b) => {
                    assert(entries@[b as int].0.key_view() == pairs[b as int].0);
                    assert(string_views(entries@[b as int].0@).len() == entries@[b as int].0@.len());
                    assert(string_views(entries@[i as int].0@).len() == entries@[i as int].0@.len());
                    if entries[i].0.len() > entries[b].0.len() {
                        best = Some(i);
                    }
                },
            }
        }
        i += 1;
    }
    match best {
        None => {
            assert(!exists|key: Seq<Seq<char>>| longest_match(ws, view, key)) by {
                if exists|key: Seq<Seq<char>>| longest_match(ws, view, key) {
                    let key = choose|key: Seq<Seq<char>>| longest_match(ws, view, key);
                    let j = choose|j: int| 0 <= j < entries@.len() && #[trigger] pairs[j].0 == key;
                    assert(!alias_matches(ws, pairs[j].0));
                }
            }
            Ok(None)
        },
        Some(b) => {
            let ghost key = pairs[b as int].0;
            assert(entries@[b as int].0.key_view() == key);
            assert(longest_match(ws, view, key)) by {
                assert forall|other: Seq<Seq<char>>|
                    #[trigger] view.contains_key(other) && alias_matches(ws, other) implies other.len()
                        <= key.len() by {
                    let j = choose|j: int| 0 <= j < entries@.len() && #[trigger] pairs[j].0 == other;
                }
            }
            let ghost chosen = choose|key: Seq<Seq<char>>| longest_match(ws, view, key);
            assert(chosen == key) by {
                assert(chosen.len() == key.len());
                assert(chosen =~= ws.take(key.len() as int));
            }
            let count = entries[b].0.len();
            assert(string_views(entries@[b as int].0@).len() == count);
            let trailing = strings_from(words, count);
            assert(string_views(words@).subrange(count as int, words@.len() as int) =~= ws.skip(
                count as int,
            ));
            assert(entries@[b as int].1@ == view[key]);
            match expand_alias_body(entries[b].1.as_str(), trailing.as_slice()) {
                Ok(text) => Ok(Some(text)),
                Err(m) => Err(m),
            }
        },
    }
}


/// Whether a pipeline runs after one that finished with `status`.
pub open spec fn spec_should_run(condition: Condition, status: i32) -> bool {
    match condition {
        Condition::Always => true,
        Condition::OnSuccess => status == 0,
        Condition::OnFailure => status != 0,
    }
}

pub fn should_run(condition: Condition, status: i32) -> (r: bool)
    ensures
        r == spec_should_run(condition, status),
{
    match condition {
        Condition::Always => true,
        Condition::OnSuccess => status == 0,
        Condition::OnFailure => status != 0,
    }
}

/// Where running the pipelines of one line stands: the index of the next to
/// consider, the status of the last that ran, and whether `exit` stopped it.
#[derive(Debug, Clone, Copy, PartialEq, Eq, Structural)]
pub struct LineRun {
    pub next: usize,
    pub status: i32,
    pub stopped: bool,
}

/// What to do next on a line.
#[derive(Debug, Clone, Copy, PartialEq, Eq, Structural)]
pub enum LineAction {
    /// Run the pipeline at this index.
    Run(usize),
    /// The line is over, with this status.
    Done(i32),
}

/// The first pipeline from `i` on whose condition holds after `status`.
pub open spec fn next_runnable(conditions: Seq<Condition>, i: int, status: i32) -> Option<int>
    decreases conditions.len() - i,
{
    if i < 0 || i >= conditions.len() {
        None
    } else if spec_should_run(conditions[i], status) {
        Some(i)
    } else {
        next_runnable(conditions, i + 1, status)
    }
}

/// A line runs, in order, each pipeline whose condition holds after the last
/// status, and ends after the last one or once `exit` has been asked for.
pub open spec fn spec_line_next(conditions: Seq<Condition>, run: LineRun) -> LineAction {
    if run.stopped {
        LineAction::Done(run.status)
    } else {
        match next_runnable(conditions, run.next as int, run.status) {
            Some(i) => LineAction::Run(i as usize),
            None => LineAction::Done(run.status),
        }
    }
}

pub fn line_next(conditions: &Vec<Condition>, run: LineRun) -> (r: LineAction)
    ensures
        r == spec_line_next(conditions@, run),
{
    if run.stopped {
        return LineAction::Done(run.status);
    }
    let mut i = run.next;
    while i < conditions.len()
        invariant
            run.next <= i,
            !run.stopped,
            next_runnable(conditions@, run.next as int, run.status) == next_runnable(
                conditions@,
                i as int,
                run.status,
            ),
        decreases conditions@.len() - i,
    {
        if should_run(conditions[i], run.status) {
            return LineAction::Run(i);
        }
        i += 1;
    }
    LineAction::Done(run.status)
}

/// The line after the pipeline at `index` ran and gave `status`, with `exit`
/// asked for or not.
pub fn line_after(index: usize, status: i32, exit_requested: bool) -> (r: LineRun)
    requires
        index < usize::MAX,
    ensures
        r == (LineRun { next: (index + 1) as usize, status, stopped: exit_requested }),
{
    LineRun { next: index + 1, status, stopped: exit_requested }
}

/// The status of a line that does not parse.
pub const PARSE_FAILURE_STATUS: i32 = 2;

/// A line read for running: its pipelines, or, when it does not parse, the
/// error to report and the status it ends with.
pub fn read_for_run(text: &str) -> (r: Result<Vec<crate::parser::Pipeline>, (crate::parser::ParseError, i32)>)
    ensures
        match crate::parser::spec_parse_line(text@, text.len() as nat) {
            Ok(m) => r is Ok && crate::parser::pipeline_models(r->Ok_0@) == m,
            Err((column, fault)) => r is Err && r->Err_0.0.column == column && r->Err_0.0.message@
                == crate::parser::fault_message(fault) && r->Err_0.1 == 2,
        },
{
    match crate::parser::parse_line(text) {
        Ok(p) => Ok(p),
        Err(e) => Err((e, PARSE_FAILURE_STATUS)),
    }
}

/// The status a line ends with from `run`, given what each pipeline gives
/// back when it runs: its status, and whether it asked to exit. Each
/// pipeline runs when its condition holds for the status of the last one
/// that ran; the line ends with the status of the last that ran, or the
/// status it began with when none ran, and nothing runs after an exit.
pub open spec fn line_status(
    conditions: Seq<Condition>,
    run: LineRun,
    outcome: spec_fn(int) -> (i32, bool),
) -> i32
    decreases conditions.len() - run.next,
{
    match spec_line_next(conditions, run) {
        LineAction::Done(status) => status,
        LineAction::Run(i) => if run.next <= i < conditions.len() && i < usize::MAX {
            line_status(
                conditions,
                LineRun { next: (i + 1) as usize, status: outcome(i as int).0, stopped: outcome(i as int).1 },
                outcome,
            )
        } else {
            run.status
        },
    }
}

proof fn lemma_next_runnable_range(conditions: Seq<Condition>, i: int, status: i32)
    ensures
        next_runnable(conditions, i, status) matches Some(k) ==> i <= k < conditions.len()
            && spec_should_run(conditions[k], status),
    decreases conditions.len() - i,
{
    if 0 <= i < conditions.len() && !spec_should_run(conditions[i], status) {
        lemma_next_runnable_range(conditions, i + 1, status);
    }
}

/// Stepping a line with `line_next` and `line_after` computes its status:
/// when the line is done, with the status `line_status` gives; when a
/// pipeline runs, `line_status` after it is `line_status` now.
pub proof fn lemma_line_steps(conditions: Seq<Condition>, run: LineRun, outcome: spec_fn(int) -> (i32, bool))
    requires
        conditions.len() < usize::MAX,
    ensures
        spec_line_next(conditions, run) matches LineAction::Done(s) ==> line_status(conditions, run, outcome) == s,
        spec_line_next(conditions, run) matches LineAction::Run(i) ==> run.next <= i < conditions.len()
            && spec_should_run(conditions[i as int], run.status) && line_status(conditions, run, outcome)
            == line_status(
            conditions,
            LineRun { next: (i + 1) as usize, status: outcome(i as int).0, stopped: outcome(i as int).1 },
            outcome,
        ),
{
    lemma_next_runnable_range(conditions, run.next as int, run.status);
}

/// `false; exit` ends with the status 1 that `false` gave, since `exit`
/// alone exits with the last status; an empty line ends with the status it
/// began with.
pub proof fn lemma_line_status_examples(outcome: spec_fn(int) -> (i32, bool))
    requires
        outcome(0) == (1i32, false),
        outcome(1) == (1i32, true),
    ensures
        line_status(
            seq![Condition::Always, Condition::Always],
            LineRun { next: 0, status: 0, stopped: false },
            outcome,
        ) == 1,
        line_status(Seq::empty(), LineRun { next: 0, status: 0, stopped: false }, outcome) == 0,
{
    let c = seq![Condition::Always, Condition::Always];
    let r0 = LineRun { next: 0, status: 0, stopped: false };
    let r1 = LineRun { next: 1, status: 1, stopped: false };
    let r2 = LineRun { next: 2, status: 1, stopped: true };
    assert(next_runnable(c, 0, 0) == Some(0int));
    assert(next_runnable(c, 1, 1) == Some(1int));
    assert(line_status(c, r2, outcome) == 1);
    assert(line_status(c, r1, outcome) == line_status(c, r2, outcome));
    assert(line_status(c, r0, outcome) == line_status(c, r1, outcome));
}

/// The command text after a leading `!notify `, and whether it was there.
pub open spec fn spec_notify_request(text: Seq<char>) -> (bool, Seq<char>) {
    if crate::text::starts_with(text, "!notify "@) {
        (true, text.subrange(8, text.len() as int))
    } else {
        (false, text)
    }
}

pub fn notify_request(text: &str) -> (r: (bool, String))
    ensures
        r.0 == spec_notify_request(text@).0,
        r.1@ == spec_notify_request(text@).1,
{
    let chars = chars_of(text);
    proof {
        reveal_strlit("!notify ");
    }
    if crate::text::has_prefix_str(chars.as_slice(), "!notify ") {
        (true, string_of(crate::text::chars_between(chars.as_slice(), 8, chars.len()).as_slice()))
    } else {
        (false, String::from_str(text))
    }
}

/// A command name that runs before any alias of the same words: a built-in,
/// `sudo` or `doas`.
pub open spec fn precedes_alias(name: Seq<char>) -> bool {
    crate::commands::builtin_names().contains(name) || crate::text::text_is(name, "sudo"@)
        || crate::text::text_is(name, "doas"@)
}

pub fn runs_before_aliases(name: &str) -> (r: bool)
    ensures
        r == precedes_alias(name@),
{
    let n = chars_of(name);
    crate::commands::is_builtin(name) || is_text(n.as_slice(), "sudo") || is_text(
        n.as_slice(),
        "doas",
    )
}

/// `sudo` or `doas` alone runs the last external command again with it, but
/// never one that already ran with either.
pub open spec fn spec_privilege_rerun(name: Seq<char>, previous: Option<Seq<char>>) -> Result<
    Seq<char>,
    Seq<char>,
> {
    match previous {
        None => Err("nsh: "@ + name + ": no previous executable command"@),
        Some(p) => if crate::text::starts_with(p, "sudo "@) || crate::text::starts_with(
            p,
            "doas "@,
        ) {
            Err("nsh: recursive privilege rerun refused"@)
        } else {
            Ok(name + " "@ + p)
        },
    }
}

pub fn privilege_rerun(name: &str, previous: &Option<String>) -> (r: Result<String, String>)
    ensures
        match spec_privilege_rerun(name@, text_option(*previous)) {
            Ok(t) => r matches Ok(x) && x@ == t,
            Err(m) => r matches Err(x) && x@ == m,
        },
{
    match previous {
        None => {
            let mut m = String::from_str("nsh: ");
            m.append(name);
            m.append(": no previous executable command");
            Err(m)
        },
        Some(p) => {
            let chars = chars_of(p.as_str());
            if crate::text::has_prefix_str(chars.as_slice(), "sudo ")
                || crate::text::has_prefix_str(chars.as_slice(), "doas ") {
                Err(String::from_str("nsh: recursive privilege rerun refused"))
            } else {
                let mut t = String::from_str(name);
                t.append(" ");
                t.append(p.as_str());
                Ok(t)
            }
        },
    }
}

/// The words quoted and joined: the text a built-in runs as in a pipeline.
pub fn builtin_command_text(words: &Vec<String>) -> (r: String)
    ensures
        r@ == quoted_arguments(string_views(words@)),
{
    string_of(quote_all(words.as_slice()).as_slice())
}

/// How deep aliases may expand into one another before the shell refuses.
pub const ALIAS_DEPTH_LIMIT: usize = 32;

/// A pipeline of one command whose name does not run before aliases is
/// looked up among the aliases; no other pipeline is.
pub open spec fn spec_alias_step(
    commands: int,
    words: Seq<Seq<char>>,
    aliases: Map<Seq<Seq<char>>, Seq<char>>,
) -> Result<Option<Seq<char>>, Seq<char>> {
    if commands != 1 || (words.len() > 0 && precedes_alias(words[0])) {
        Ok(None)
    } else {
        spec_alias_expansion(words, aliases)
    }
}

pub fn alias_step(commands: usize, words: &Vec<String>, aliases: &Table<Vec<String>>) -> (r: Result<
    Option<String>,
    String,
>)
    ensures
        match spec_alias_step(commands as int, string_views(words@), aliases.view()) {
            Ok(Some(text)) => r matches Ok(Some(t)) && t@ == text,
            Ok(None) => r matches Ok(None),
            Err(m) => r matches Err(e) && e@ == m,
        },
{
    if commands != 1 {
        return Ok(None);
    }
    if words.len() > 0 {
        assert(string_views(words@)[0] == words@[0]@);
        if runs_before_aliases(words[0].as_str()) {
            return Ok(None);
        }
    }
    alias_expansion(words, aliases)
}

/// What a pipeline does once its words are expanded.
#[derive(Debug, Clone, Copy, PartialEq, Eq)]
pub enum Dispatch {
    /// A built-in that runs inside the shell itself, with the command's
    /// redirections applied around it.
    InShell,
    /// `sudo` or `doas` alone, which runs the last external command again.
    Rerun,
    /// Start the pipeline's programs.
    Start,
}

/// A pipeline of one command, in the foreground, that names a built-in runs
/// inside the shell; one of a lone `sudo` or `doas` reruns; any other starts
/// programs.
pub open spec fn spec_dispatch(commands: int, words: Seq<Seq<char>>, background: bool) -> Dispatch {
    if commands == 1 && !background && words.len() > 0 && crate::commands::builtin_names().contains(
        words[0],
    ) {
        Dispatch::InShell
    } else if commands == 1 && words.len() == 1 && (crate::text::text_is(words[0], "sudo"@)
        || crate::text::text_is(words[0], "doas"@)) {
        Dispatch::Rerun
    } else {
        Dispatch::Start
    }
}

pub fn dispatch(commands: usize, words: &Vec<String>, background: bool) -> (r: Dispatch)
    ensures
        r == spec_dispatch(commands as int, string_views(words@), background),
{
    if commands != 1 || words.len() == 0 {
        return Dispatch::Start;
    }
    let first = words[0].as_str();
    assert(string_views(words@)[0] == first@);
    if !background && crate::commands::is_builtin(first) {
        return Dispatch::InShell;
    }
    let n = chars_of(first);
    if words.len() == 1 && (is_text(n.as_slice(), "sudo") || is_text(n.as_slice(), "doas")) {
        Dispatch::Rerun
    } else {
        Dispatch::Start
    }
}

/// How a pipeline finds the program that a command names.
#[derive(Debug, Clone, PartialEq, Eq)]
pub enum Route {
    /// A built-in, which runs as the shell itself with `-c`.
    Builtin,
    /// A name such as `cd/tmp`, a missing space: the message to print.
    NotCommand(String),
    /// A path, run as it is.
    Path,
    /// A name to look up among the executables on `PATH`.
    Search,
}

pub open spec fn route_model(r: Route) -> (int, Seq<char>) {
    match r {
        Route::Builtin => (0, Seq::empty()),
        Route::NotCommand(m) => (1, m@),
        Route::Path => (2, Seq::empty()),
        Route::Search => (3, Seq::empty()),
    }
}

pub open spec fn spec_route(name: Seq<char>) -> (int, Seq<char>) {
    if crate::commands::builtin_names().contains(name) {
        (0, Seq::empty())
    } else if crate::text::starts_with(name, "cd/"@) {
        (
            1,
            "nsh: `"@ + name + "` is not a command; did you mean `cd /"@ + name.subrange(
                3,
                name.len() as int,
            ) + "`?"@,
        )
    } else if name.contains('/') {
        (2, Seq::empty())
    } else {
        (3, Seq::empty())
    }
}

pub fn route_command(name: &str) -> (r: Route)
    ensures
        route_model(r) == spec_route(name@),
{
    if crate::commands::is_builtin(name) {
        return Route::Builtin;
    }
    let chars = chars_of(name);
    proof {
        reveal_strlit("cd/");
    }
    if crate::text::has_prefix_str(chars.as_slice(), "cd/") {
        let rest = crate::text::chars_between(chars.as_slice(), 3, chars.len());
        let mut m = String::from_str("nsh: `");
        m.append(name);
        m.append("` is not a command; did you mean `cd /");
        m.append(string_of(rest.as_slice()).as_str());
        m.append("`?");
        return Route::NotCommand(m);
    }
    proof {
        crate::text::lemma_find_from(chars@, '/', 0);
    }
    match crate::text::find_char(chars.as_slice(), '/') {
        Some(i) => {
            assert(chars@[i as int] == '/');
            assert(name@.contains('/'));
            Route::Path
        },
        None => Route::Search,
    }
}

/// What the shell says of a command it cannot find.
pub open spec fn not_found_text(name: Seq<char>) -> Seq<char> {
    "❗ nsh: "@ + name + ": command not found ❗"@
}

pub fn not_found_message(name: &str) -> (r: String)
    ensures
        r@ == not_found_text(name@),
{
    let mut m = String::from_str("❗ nsh: ");
    m.append(name);
    m.append(": command not found ❗");
    m
}

/// The hint after a command that was not found, when there is anything to suggest.
pub open spec fn suggestion_text(suggestions: Seq<Seq<char>>) -> Option<Seq<char>> {
    if suggestions.len() == 0 {
        None
    } else {
        Some("Did you mean "@ + join(suggestions, ", "@) + "?"@)
    }
}

pub fn suggestion_message(suggestions: &Vec<String>) -> (r: Option<String>)
    ensures
        text_option(r) == suggestion_text(string_views(suggestions@)),
{
    if suggestions.len() == 0 {
        return None;
    }
    let mut m = String::from_str("Did you mean ");
    m.append(crate::prompt::join_with(suggestions, ", ").as_str());
    m.append("?");
    Some(m)
}


/// The most commands the history keeps.
pub const HISTORY_LIMIT: usize = 10000;

/// How the history file follows a recorded command.
#[derive(Debug, Clone, PartialEq, Eq)]
pub enum HistoryWrite {
    /// Write the whole file anew with this text.
    Rewrite(String),
    /// Add this line at the end of the file.
    Append(String),
}

pub open spec fn history_write_model(w: HistoryWrite) -> (bool, Seq<char>) {
    match w {
        HistoryWrite::Rewrite(t) => (true, t@),
        HistoryWrite::Append(t) => (false, t@),
    }
}

/// The history after `command`: unchanged when it repeats the last entry,
/// else with it added and, past the limit, without the oldest entry.
pub open spec fn spec_record(history: Seq<Seq<char>>, command: Seq<char>) -> Seq<Seq<char>> {
    if history.len() > 0 && history.last() == command {
        history
    } else {
        let pushed = history.push(command);
        if pushed.len() > HISTORY_LIMIT {
            pushed.drop_first()
        } else {
            pushed
        }
    }
}

/// What the history file gets after a command is recorded: at the limit,
/// all entries anew; else the command, its line breaks made spaces.
pub open spec fn spec_history_write(history: Seq<Seq<char>>, command: Seq<char>) -> Option<
    (bool, Seq<char>),
> {
    if history.len() > 0 && history.last() == command {
        None
    } else {
        let next = spec_record(history, command);
        if next.len() == HISTORY_LIMIT {
            Some((true, join(next, "\n"@) + "\n"@))
        } else {
            Some((false, replace_all(command, seq!['\n'], seq![' ']) + "\n"@))
        }
    }
}

pub fn record_history(history: &mut Vec<String>, command: &str) -> (r: Option<HistoryWrite>)
    ensures
        string_views(final(history)@) == spec_record(string_views(old(history)@), command@),
        match spec_history_write(string_views(old(history)@), command@) {
            Some(w) => r matches Some(x) && history_write_model(x) == w,
            None => r is None,
        },
{
    let ghost before = string_views(history@);
    if history.len() > 0 {
        let last = chars_of(history[history.len() - 1].as_str());
        let c = chars_of(command);
        assert(before.last() == last@);
        if crate::text::same(last.as_slice(), c.as_slice()) {
            return None;
        }
    }
    history.push(String::from_str(command));
    assert(string_views(history@) =~= before.push(command@));
    if history.len() > HISTORY_LIMIT {
        history.remove(0);
        assert(string_views(history@) =~= before.push(command@).drop_first());
    }
    if history.len() == HISTORY_LIMIT {
        let mut text = crate::prompt::join_with(history, "\n");
        text.append("\n");
        Some(HistoryWrite::Rewrite(text))
    } else {
        let c = chars_of(command);
        let line = crate::text::replace_chars(c.as_slice(), &['\n'], &[' ']);
        assert(['\n']@ == seq!['\n']);
        assert([' ']@ == seq![' ']);
        let mut text = string_of(line.as_slice());
        text.append("\n");
        Some(HistoryWrite::Append(text))
    }
}

/// The history kept from the lines of the history file: the latest ones, up to the limit.
pub fn recent_history(lines: Vec<String>) -> (r: Vec<String>)
    ensures
        r@ == (if lines@.len() > HISTORY_LIMIT {
            lines@.skip(lines@.len() - HISTORY_LIMIT)
        } else {
            lines@
        }),
{
    if lines.len() <= HISTORY_LIMIT {
        return lines;
    }
    let start = lines.len() - HISTORY_LIMIT;
    let mut r: Vec<String> = Vec::new();
    let mut lines = lines;
    let ghost all = lines@;
    let mut i: usize = 0;
    while lines.len() > 0
        invariant
            all.len() > HISTORY_LIMIT,
            start == all.len() - HISTORY_LIMIT,
            i <= all.len(),
            all.len() <= usize::MAX,
            lines@ == all.skip(i as int),
            r@ == (if i <= start {
                Seq::<String>::empty()
            } else {
                all.subrange(start as int, i as int)
            }),
        decreases lines@.len(),
    {
        let line = lines.remove(0);
        assert(line == all[i as int]);
        assert(lines@ =~= all.skip(i + 1));
        if i >= start {
            let ghost before = r@;
            r.push(line);
            assert(r@ =~= all.subrange(start as int, i + 1));
        }
        i += 1;
    }
    assert(all.subrange(start as int, all.len() as int) =~= all.skip(start as int));
    r
}

/// The text in lower case, as `str::to_lowercase` gives it.
pub uninterp spec fn lowercase(s: Seq<char>) -> Seq<char>;

/// Calls `str::to_lowercase`, whose result depends on the text alone.
#[verifier::external_body]
fn lowercase_text(s: &str) -> (r: String)
    ensures
        r@ == lowercase(s@),
{
    s.to_lowercase()
}

/// `pattern` occurs in `s`.
pub open spec fn contains_text(s: Seq<char>, pattern: Seq<char>) -> bool {
    find_text(s, pattern, 0) is Some
}

fn holds_text(s: &[char], pattern: &[char]) -> (r: bool)
    ensures
        r == contains_text(s@, pattern@),
{
    if pattern.len() > s.len() {
        return false;
    }
    let last = s.len() - pattern.len();
    let mut i: usize = 0;
    while i <= last
        invariant
            last + pattern@.len() == s@.len(),
            s@.len() == s.len(),
            i <= last + 1,
            find_text(s@, pattern@, 0) == find_text(s@, pattern@, i as int),
        decreases last + 1 - i,
    {
        if occurs_at(s, pattern, i) {
            return true;
        }
        if i == last {
            assert(find_text(s@, pattern@, i + 1) is None);
            return false;
        }
        i += 1;
    }
    false
}

/// The indices of the entries of `lowered` in which `query` occurs.
pub open spec fn matching_indices(lowered: Seq<Seq<char>>, query: Seq<char>) -> Seq<usize>
    decreases lowered.len(),
{
    if lowered.len() == 0 {
        Seq::empty()
    } else if contains_text(lowered.last(), query) {
        matching_indices(lowered.drop_last(), query).push((lowered.len() - 1) as usize)
    } else {
        matching_indices(lowered.drop_last(), query)
    }
}

/// The indices of the entries, already in lower case, that hold the query.
pub fn matching_history(lowered: &Vec<String>, query: &str) -> (r: Vec<usize>)
    ensures
        r@ == matching_indices(string_views(lowered@), query@),
{
    let q = chars_of(query);
    let ghost all = string_views(lowered@);
    let mut r: Vec<usize> = Vec::new();
    let mut i: usize = 0;
    while i < lowered.len()
        invariant
            i <= lowered@.len(),
            q@ == query@,
            all == string_views(lowered@),
            r@ == matching_indices(all.take(i as int), query@),
        decreases lowered@.len() - i,
    {
        let entry = chars_of(lowered[i].as_str());
        assert(all[i as int] == entry@);
        assert(all.take(i + 1).drop_last() =~= all.take(i as int));
        if holds_text(entry.as_slice(), q.as_slice()) {
            r.push(i);
        }
        i += 1;
    }
    assert(all.take(all.len() as int) =~= all);
    r
}

pub open spec fn lowered_all(history: Seq<Seq<char>>) -> Seq<Seq<char>> {
    Seq::new(history.len(), |i: int| lowercase(history[i]))
}

/// `history search`: the indices of the entries that hold the query, case
/// set aside as `to_lowercase` sets it aside.
pub fn search_history(history: &Vec<String>, query: &str) -> (r: Vec<usize>)
    ensures
        r@ == matching_indices(lowered_all(string_views(history@)), lowercase(query@)),
{
    let ghost all = string_views(history@);
    let mut lowered: Vec<String> = Vec::new();
    let mut i: usize = 0;
    while i < history.len()
        invariant
            i <= history@.len(),
            all == string_views(history@),
            string_views(lowered@) == lowered_all(all).take(i as int),
        decreases history@.len() - i,
    {
        let ghost before = string_views(lowered@);
        let l = lowercase_text(history[i].as_str());
        assert(all[i as int] == history@[i as int]@);
        lowered.push(l);
        assert(string_views(lowered@) =~= before.push(lowercase(all[i as int])));
        assert(string_views(lowered@) =~= lowered_all(all).take(i + 1));
        i += 1;
    }
    assert(lowered_all(all).take(all.len() as int) =~= lowered_all(all));
    let q = lowercase_text(query);
    matching_history(&lowered, q.as_str())
}

/// `n` right-aligned in five columns, as `{:5}` writes it.
pub open spec fn five_wide(n: nat) -> Seq<char> {
    let d = decimal_text(n);
    if d.len() < 5 {
        Seq::new((5 - d.len()) as nat, |i: int| ' ') + d
    } else {
        d
    }
}

/// A line of `history`: the entry's number, two spaces, the command.
pub fn history_line(index: usize, command: &str) -> (r: String)
    requires
        index < usize::MAX,
    ensures
        r@ == five_wide(index as nat + 1) + "  "@ + command@,
{
    let d = crate::numbers::decimal((index + 1) as u64);
    let dc = chars_of(d.as_str());
    let mut r = String::new();
    let mut pad: usize = 0;
    let width: usize = if dc.len() < 5 {
        5 - dc.len()
    } else {
        0
    };
    while pad < width
        invariant
            pad <= width,
            r@ == Seq::new(pad as nat, |i: int| ' '),
        decreases width - pad,
    {
        crate::text::push_char(&mut r, ' ');
        pad += 1;
        assert(r@ =~= Seq::new(pad as nat, |i: int| ' '));
    }
    r.append(d.as_str());
    r.append("  ");
    r.append(command);
    proof {
        if dc@.len() >= 5 {
            assert(Seq::new(0, |i: int| ' ') + d@ =~= d@);
        }
    }
    r
}


/// A recorded command is the latest entry of the history.
pub proof fn lemma_record_ends_with_command(history: Seq<Seq<char>>, command: Seq<char>)
    ensures
        spec_record(history, command).len() > 0,
        spec_record(history, command).last() == command,
{
}

/// The history never grows past its limit.
pub proof fn lemma_record_within_limit(history: Seq<Seq<char>>, command: Seq<char>)
    requires
        history.len() <= HISTORY_LIMIT,
    ensures
        spec_record(history, command).len() <= HISTORY_LIMIT,
{
}

/// No two neighbouring entries of the history are the same command.
pub open spec fn no_repeats(history: Seq<Seq<char>>) -> bool {
    forall|i: int| 0 < i < history.len() ==> #[trigger] history[i] != history[i - 1]
}

/// Recording keeps neighbouring entries distinct.
pub proof fn lemma_record_keeps_no_repeats(history: Seq<Seq<char>>, command: Seq<char>)
    requires
        no_repeats(history),
    ensures
        no_repeats(spec_record(history, command)),
{
    let next = spec_record(history, command);
    if !(history.len() > 0 && history.last() == command) {
        let pushed = history.push(command);
        assert forall|i: int| 0 < i < pushed.len() implies #[trigger] pushed[i] != pushed[i - 1] by {
            if i < history.len() {
                assert(history[i] != history[i - 1]);
            }
        }
        if pushed.len() > HISTORY_LIMIT {
            assert forall|i: int| 0 < i < next.len() implies #[trigger] next[i] != next[i - 1] by {
                assert(next[i] == pushed[i + 1] && next[i - 1] == pushed[i]);
            }
        }
    }
}

/// The aliases in force: the global ones, and over them those of the active room.
pub open spec fn spec_effective<K>(global: Map<K, Seq<char>>, room: Option<Map<K, Seq<char>>>) -> Map<
    K,
    Seq<char>,
> {
    match room {
        Some(r) => global.union_prefer_right(r),
        None => global,
    }
}

pub fn effective_aliases(global: &Table<Vec<String>>, room: Option<&crate::room::Room>) -> (r: Table<
    Vec<String>,
>)
    ensures
        r.view() == spec_effective(
            global.view(),
            match room {
                Some(room) => Some(room.aliases.view()),
                None => None,
            },
        ),
{
    let mut r = global.clone();
    match room {
        Some(room) => r.extend(&room.aliases),
        None => {},
    }
    r
}

pub fn effective_abbreviations(global: &Table<String>, room: Option<&crate::room::Room>) -> (r: Table<
    String,
>)
    ensures
        r.view() == spec_effective(
            global.view(),
            match room {
                Some(room) => Some(room.abbreviations.view()),
                None => None,
            },
        ),
{
    let mut r = global.clone();
    match room {
        Some(room) => r.extend(&room.abbreviations),
        None => {},
    }
    r
}

/// Inside a room, its entries win over the global ones of the same name;
/// the other global entries stay in force.
pub proof fn lemma_room_entries_win<K>(global: Map<K, Seq<char>>, room: Map<K, Seq<char>>, key: K)
    ensures
        room.contains_key(key) ==> spec_effective(global, Some(room)).contains_key(key)
            && spec_effective(global, Some(room))[key] == room[key],
        !room.contains_key(key) ==> (spec_effective(global, Some(room)).contains_key(key)
            == global.contains_key(key)) && (global.contains_key(key) ==> spec_effective(
            global,
            Some(room),
        )[key] == global[key]),
{
}

/// The names that the editor completes as commands: the first word of each
/// alias and each abbreviation, each once, in text order.
pub open spec fn completion_names(
    aliases: Map<Seq<Seq<char>>, Seq<char>>,
    abbreviations: Map<Seq<char>, Seq<char>>,
    name: Seq<char>,
) -> bool {
    (exists|key: Seq<Seq<char>>| #[trigger] aliases.contains_key(key) && key.len() > 0 && key[0] == name)
        || abbreviations.contains_key(name)
}

/// Strictly increasing in text order: sorted, each once.
pub open spec fn strictly_sorted(s: Seq<Seq<char>>) -> bool {
    forall|i: int, j: int| 0 <= i < j < s.len() ==> crate::commands::text_lt(#[trigger] s[i], #[trigger] s[j])
}

pub(crate) fn insert_sorted(names: &mut Vec<String>, name: String)
    requires
        strictly_sorted(string_views(old(names)@)),
    ensures
        strictly_sorted(string_views(final(names)@)),
        forall|x: Seq<char>| #[trigger] string_views(final(names)@).contains(x) <==> (string_views(
            old(names)@,
        ).contains(x) || x == name@),
{
    let ghost before = string_views(names@);
    let n = chars_of(name.as_str());
    let mut i: usize = 0;
    while i < names.len()
        invariant
            i <= names@.len(),
            before == string_views(names@),
            n@ == name@,
            strictly_sorted(before),
            forall|j: int| 0 <= j < i ==> crate::commands::text_lt(#[trigger] before[j], n@),
        ensures
            i <= names@.len(),
            before == string_views(names@),
            n@ == name@,
            forall|j: int| 0 <= j < i ==> crate::commands::text_lt(#[trigger] before[j], n@),
            i < names@.len() ==> crate::commands::text_lt(n@, before[i as int]),
        decreases names@.len() - i,
    {
        let here = chars_of(names[i].as_str());
        assert(before[i as int] == here@);
        if crate::text::same(here.as_slice(), n.as_slice()) {
            assert forall|x: Seq<char>| #[trigger] before.contains(x) <==> (before.contains(x) || x == name@) by {
                if x == name@ {
                    assert(before[i as int] == x);
                }
            }
            return;
        }
        if crate::commands::text_less(n.as_slice(), here.as_slice()) {
            break;
        }
        proof {
            crate::commands::lemma_text_lt_total(here@, n@);
        }
        i += 1;
    }
    names.insert(i, name);
    let ghost after = string_views(names@);
    assert(after =~= before.insert(i as int, n@));
    proof {
        assert forall|a: int, b: int| 0 <= a < b < after.len() implies crate::commands::text_lt(
            #[trigger] after[a],
            #[trigger] after[b],
        ) by {
            if b < i {
                assert(after[a] == before[a] && after[b] == before[b]);
            } else if b == i {
                assert(after[a] == before[a]);
            } else if a < i {
                assert(after[a] == before[a] && after[b] == before[b - 1]);
                if i < before.len() {
                    crate::commands::lemma_text_lt_transitive(before[a], n@, before[i as int]);
                    if b - 1 > i {
                        crate::commands::lemma_text_lt_transitive(before[a], before[i as int], before[b - 1]);
                    }
                }
            } else if a == i {
                assert(after[b] == before[b - 1]);
                if b - 1 > i {
                    crate::commands::lemma_text_lt_transitive(n@, before[i as int], before[b - 1]);
                }
            } else {
                assert(after[a] == before[a - 1] && after[b] == before[b - 1]);
            }
        }
        assert forall|x: Seq<char>| #[trigger] after.contains(x) <==> (before.contains(x) || x == name@) by {
            if after.contains(x) {
                let k = choose|k: int| 0 <= k < after.len() && after[k] == x;
                if k < i {
                    assert(before[k] == x);
                } else if k > i {
                    assert(before[k - 1] == x);
                }
            }
            if before.contains(x) {
                let k = choose|k: int| 0 <= k < before.len() && before[k] == x;
                if k < i {
                    assert(after[k] == x);
                } else {
                    assert(after[k + 1] == x);
                }
            }
            if x == name@ {
                assert(after[i as int] == x);
            }
        }
    }
}

/// The commands the editor completes from the configuration: the first word
/// of each alias and each abbreviation, each once, in text order.
pub fn completion_commands(aliases: &Table<Vec<String>>, abbreviations: &Table<String>) -> (r: Vec<
    String,
>)
    ensures
        strictly_sorted(string_views(r@)),
        forall|x: Seq<char>| #[trigger] string_views(r@).contains(x) <==> completion_names(
            aliases.view(),
            abbreviations.view(),
            x,
        ),
{
    let mut names: Vec<String> = Vec::new();
    let entries = aliases.entries();
    let ghost pairs = aliases.pairs();
    let mut i: usize = 0;
    while i < entries.len()
        invariant
            i <= entries@.len(),
            entries@.len() == pairs.len(),
            pairs == aliases.pairs(),
            forall|j: int|
                0 <= j < entries@.len() ==> (#[trigger] entries@[j]).0.key_view() == pairs[j].0
                    && entries@[j].1@ == pairs[j].1,
            strictly_sorted(string_views(names@)),
            forall|x: Seq<char>| #[trigger] string_views(names@).contains(x) <==> exists|j: int|
                0 <= j < i && pairs[j].0.len() > 0 && #[trigger] pairs[j].0[0] == x,
        decreases entries@.len() - i,
    {
        let ghost before = string_views(names@);
        assert(entries@[i as int].0.key_view() == pairs[i as int].0);
        if entries[i].0.len() > 0 {
            let first = String::from_str(entries[i].0[0].as_str());
            assert(string_views(entries@[i as int].0@)[0] == entries@[i as int].0@[0]@);
            insert_sorted(&mut names, first);
            assert forall|x: Seq<char>| #[trigger] string_views(names@).contains(x) <==> exists|j: int|
                0 <= j < i + 1 && pairs[j].0.len() > 0 && #[trigger] pairs[j].0[0] == x by {
                if string_views(names@).contains(x) && x != first@ {
                    assert(before.contains(x));
                }
                if exists|j: int| 0 <= j < i + 1 && pairs[j].0.len() > 0 && #[trigger] pairs[j].0[0] == x {
                    let j = choose|j: int| 0 <= j < i + 1 && pairs[j].0.len() > 0 && #[trigger] pairs[j].0[0] == x;
                    if j < i {
                        assert(before.contains(x));
                    }
                }
            }
        } else {
            assert forall|x: Seq<char>| #[trigger] string_views(names@).contains(x) <==> exists|j: int|
                0 <= j < i + 1 && pairs[j].0.len() > 0 && #[trigger] pairs[j].0[0] == x by {
                if exists|j: int| 0 <= j < i + 1 && pairs[j].0.len() > 0 && #[trigger] pairs[j].0[0] == x {
                    let j = choose|j: int| 0 <= j < i + 1 && pairs[j].0.len() > 0 && #[trigger] pairs[j].0[0] == x;
                    assert(j != i);
                }
            }
        }
        i += 1;
    }
    let ghost after_aliases = string_views(names@);
    let abbr = abbreviations.entries();
    let ghost apairs = abbreviations.pairs();
    let mut k: usize = 0;
    while k < abbr.len()
        invariant
            k <= abbr@.len(),
            abbr@.len() == apairs.len(),
            apairs == abbreviations.pairs(),
            forall|j: int|
                0 <= j < abbr@.len() ==> (#[trigger] abbr@[j]).0.key_view() == apairs[j].0
                    && abbr@[j].1@ == apairs[j].1,
            strictly_sorted(string_views(names@)),
            forall|x: Seq<char>| #[trigger] string_views(names@).contains(x) <==> (after_aliases.contains(x)
                || exists|j: int| 0 <= j < k && #[trigger] apairs[j].0 == x),
        decreases abbr@.len() - k,
    {
        let ghost before = string_views(names@);
        assert(abbr@[k as int].0.key_view() == apairs[k as int].0);
        let key = String::from_str(abbr[k].0.as_str());
        insert_sorted(&mut names, key);
        assert forall|x: Seq<char>| #[trigger] string_views(names@).contains(x) <==> (after_aliases.contains(x)
            || exists|j: int| 0 <= j < k + 1 && #[trigger] apairs[j].0 == x) by {
            if exists|j: int| 0 <= j < k + 1 && #[trigger] apairs[j].0 == x {
                let j = choose|j: int| 0 <= j < k + 1 && #[trigger] apairs[j].0 == x;
                if j < k {
                    assert(before.contains(x));
                }
            }
        }
        k += 1;
    }
    proof {
        assert forall|x: Seq<char>| #[trigger] string_views(names@).contains(x) <==> completion_names(
            aliases.view(),
            abbreviations.view(),
            x,
        ) by {
            if after_aliases.contains(x) {
                let j = choose|j: int| 0 <= j < pairs.len() && pairs[j].0.len() > 0 && #[trigger] pairs[j].0[0] == x;
                assert(aliases.view().contains_key(pairs[j].0));
            }
            if exists|j: int| 0 <= j < abbr@.len() && #[trigger] apairs[j].0 == x {
                let j = choose|j: int| 0 <= j < abbr@.len() && #[trigger] apairs[j].0 == x;
                assert(abbreviations.view().contains_key(apairs[j].0));
            }
            if exists|key: Seq<Seq<char>>| #[trigger] aliases.view().contains_key(key) && key.len() > 0 && key[0] == x {
                let key = choose|key: Seq<Seq<char>>| #[trigger] aliases.view().contains_key(key) && key.len() > 0 && key[0] == x;
                let j = choose|j: int| 0 <= j < entries@.len() && #[trigger] pairs[j].0 == key;
                assert(pairs[j].0[0] == x);
            }
            if abbreviations.view().contains_key(x) {
                let j = choose|j: int| 0 <= j < abbr@.len() && #[trigger] apairs[j].0 == x;
            }
        }
    }
    names
}


/// What `type` says of a name it knows without searching `PATH`: an
/// abbreviation, special syntax, a built-in, or an alias, in that order.
pub open spec fn spec_known_type(
    name: Seq<char>,
    aliases: Map<Seq<Seq<char>>, Seq<char>>,
    abbreviations: Map<Seq<char>, Seq<char>>,
) -> Option<Seq<char>> {
    if abbreviations.contains_key(name) {
        Some(name + " is an abbreviation for `"@ + abbreviations[name] + "`"@)
    } else if crate::commands::special_names().contains(name) {
        Some(name + " is special Nshell syntax"@)
    } else if crate::commands::builtin_names().contains(name) {
        Some(name + " is an Nshell built-in"@)
    } else if aliases.contains_key(crate::text::split_whitespace(name)) {
        Some(name + " is an alias for `"@ + aliases[crate::text::split_whitespace(name)] + "`"@)
    } else {
        None
    }
}

pub fn known_type(name: &str, aliases: &Table<Vec<String>>, abbreviations: &Table<String>) -> (r: Option<
    String,
>)
    ensures
        text_option(r) == spec_known_type(name@, aliases.view(), abbreviations.view()),
{
    let key = String::from_str(name);
    match abbreviations.get(&key) {
        Some(body) => {
            let mut r = String::from_str(name);
            r.append(" is an abbreviation for `");
            r.append(body.as_str());
            r.append("`");
            return Some(r);
        },
        None => {},
    }
    if crate::commands::is_special(name) {
        let mut r = String::from_str(name);
        r.append(" is special Nshell syntax");
        return Some(r);
    }
    if crate::commands::is_builtin(name) {
        let mut r = String::from_str(name);
        r.append(" is an Nshell built-in");
        return Some(r);
    }
    let chars = chars_of(name);
    let words = crate::config::alias_key(chars.as_slice());
    match aliases.get(&words) {
        Some(body) => {
            let mut r = String::from_str(name);
            r.append(" is an alias for `");
            r.append(body.as_str());
            r.append("`");
            Some(r)
        },
        None => None,
    }
}

/// What the shell offers in place of a name it could not find: its
/// built-ins and special words, the executables, the first words of the
/// aliases and the abbreviations.
pub fn suggestion_candidates(
    executables: Vec<String>,
    aliases: &Table<Vec<String>>,
    abbreviations: &Table<String>,
) -> (r: Vec<String>)
    ensures
        forall|x: Seq<char>| #[trigger] string_views(r@).contains(x) <==> (
        crate::commands::builtin_names().contains(x) || crate::commands::special_names().contains(x)
            || string_views(executables@).contains(x) || completion_names(
            aliases.view(),
            abbreviations.view(),
            x,
        )),
{
    let mut r = crate::commands::builtins();
    let ghost b = string_views(r@);
    let mut more = crate::commands::specials();
    let ghost sp = string_views(more@);
    r.append(&mut more);
    let ghost bs = string_views(r@);
    assert(bs =~= b + sp);
    let mut exe = executables;
    let ghost ex = string_views(exe@);
    r.append(&mut exe);
    let ghost bse = string_views(r@);
    assert(bse =~= bs + ex);
    let mut named = completion_commands(aliases, abbreviations);
    let ghost cn = string_views(named@);
    r.append(&mut named);
    let ghost all = string_views(r@);
    assert(all =~= bse + cn);
    proof {
        assert forall|x: Seq<char>| #[trigger] all.contains(x) <==> (b.contains(x) || sp.contains(x)
            || ex.contains(x) || cn.contains(x)) by {
            if all.contains(x) {
                let k = choose|k: int| 0 <= k < all.len() && all[k] == x;
                if k < b.len() {
                    assert(b[k] == x);
                } else if k < b.len() + sp.len() {
                    assert(sp[k - b.len()] == x);
                } else if k < b.len() + sp.len() + ex.len() {
                    assert(ex[k - b.len() - sp.len()] == x);
                } else {
                    assert(cn[k - b.len() - sp.len() - ex.len()] == x);
                }
            }
            if b.contains(x) {
                let k = choose|k: int| 0 <= k < b.len() && b[k] == x;
                assert(all[k] == x);
            }
            if sp.contains(x) {
                let k = choose|k: int| 0 <= k < sp.len() && sp[k] == x;
                assert(all[k + b.len()] == x);
            }
            if ex.contains(x) {
                let k = choose|k: int| 0 <= k < ex.len() && ex[k] == x;
                assert(all[k + b.len() + sp.len()] == x);
            }
            if cn.contains(x) {
                let k = choose|k: int| 0 <= k < cn.len() && cn[k] == x;
                assert(all[k + b.len() + sp.len() + ex.len()] == x);
            }
        }
    }
    r
}


/// The characters of a word as the lexer keeps them when they are quoted:
/// `$`, `*`, `?` and `~` as their literal markers.
pub open spec fn marked(w: Seq<char>) -> Seq<char> {
    Seq::new(w.len(), |i: int| crate::parser::escaped_char(w[i]))
}

/// What a character of a single-quoted word becomes in `spec_shell_quote`.
pub open spec fn quote_piece(c: char) -> Seq<char> {
    if c == '\'' {
        seq!['\'', '\\', '\'', '\'']
    } else {
        seq![c]
    }
}

pub open spec fn quote_body(w: Seq<char>) -> Seq<char> {
    replace_all(w, seq!['\''], seq!['\'', '\\', '\'', '\''])
}

proof fn lemma_quote_body_first(w: Seq<char>)
    requires
        w.len() > 0,
    ensures
        quote_body(w) == quote_piece(w[0]) + quote_body(w.drop_first()),
{
    let pat = seq!['\''];
    if w[0] == '\'' {
        assert(w.subrange(0, 1) =~= pat);
        assert(w.subrange(1, w.len() as int) =~= w.drop_first());
    } else {
        assert(w.subrange(0, 1)[0] != pat[0]);
    }
}

proof fn lemma_quote_body_append(a: Seq<char>, b: Seq<char>)
    ensures
        quote_body(a + b) == quote_body(a) + quote_body(b),
    decreases a.len(),
{
    if a.len() == 0 {
        assert(a + b =~= b);
        assert(quote_body(a) =~= Seq::<char>::empty());
        assert(Seq::<char>::empty() + quote_body(b) =~= quote_body(b));
    } else {
        lemma_quote_body_first(a + b);
        lemma_quote_body_first(a);
        assert((a + b).drop_first() =~= a.drop_first() + b);
        lemma_quote_body_append(a.drop_first(), b);
        assert(quote_body(a + b) =~= quote_body(a) + quote_body(b));
    }
}

proof fn lemma_quote_body_push(w: Seq<char>, k: int)
    requires
        0 <= k < w.len(),
    ensures
        quote_body(w.take(k + 1)) == quote_body(w.take(k)) + quote_piece(w[k]),
{
    assert(w.take(k + 1) =~= w.take(k) + seq![w[k]]);
    lemma_quote_body_append(w.take(k), seq![w[k]]);
    lemma_quote_body_first(seq![w[k]]);
    assert(seq![w[k]].drop_first() =~= Seq::<char>::empty());
    assert(quote_body(Seq::<char>::empty()) =~= Seq::<char>::empty());
    assert(quote_piece(w[k]) + Seq::<char>::empty() =~= quote_piece(w[k]));
}

/// The quoted form of a word that is not all safe characters.
pub open spec fn spec_shell_quote_quoted(w: Seq<char>) -> Seq<char> {
    seq!['\''] + quote_body(w) + seq!['\'']
}


proof fn lemma_safe_char(c: char)
    requires
        quote_safe(c),
    ensures
        !is_ws(c),
        !crate::parser::is_operator_char(c),
        c != '\\' && c != '\'' && c != '"' && c != '#' && c != '>',
        crate::parser::escaped_char(c) == c,
{
    vstd::utf8::char_u32_cast(c, c as u32);
}

/// A word that the shell quotes reads back as that one word: lexing the
/// quoted text gives a single token, the word itself with its `$`, `*`, `?`
/// and `~` kept literal; the empty word too reads back as one, empty, word.
pub proof fn lemma_quoted_word_reads_back(w: Seq<char>)
    ensures
        crate::parser::spec_tokenize(spec_shell_quote(w)) == Ok::<
            Seq<crate::parser::TokenModel>,
            (nat, crate::parser::SyntaxFault),
        >(seq![(marked(w), 0nat)]),
{
    let q = spec_shell_quote(w);
    assert(q.subrange(0, q.len() as int) =~= q);
    assert(idle_state(0, 0, Seq::empty()) == crate::parser::lex_start());
    lemma_lex_word_at(q, 0, w, 0, Seq::empty());
    assert(Seq::<crate::parser::TokenModel>::empty().push((marked(w), 0nat)) =~= seq![(marked(w), 0nat)]);
}


proof fn lemma_join_front(parts: Seq<Seq<char>>, sep: Seq<char>)
    requires
        parts.len() >= 2,
    ensures
        join(parts, sep) == parts[0] + sep + join(parts.drop_first(), sep),
    decreases parts.len(),
{
    if parts.len() > 2 {
        lemma_join_front(parts.drop_last(), sep);
        assert(parts.drop_last().drop_first() =~= parts.drop_first().drop_last());
        assert(parts.drop_first().last() == parts.last());
        assert(parts.drop_last()[0] == parts[0]);
        let tail = parts.drop_first();
        assert(join(tail, sep) == join(tail.drop_last(), sep) + sep + tail.last());
        assert(join(parts, sep) == join(parts.drop_last(), sep) + sep + parts.last());
        assert(join(parts, sep) =~= parts[0] + sep + join(parts.drop_first(), sep));
    } else {
        assert(parts.drop_last().len() == 1);
        assert(parts.drop_first().len() == 1);
        assert(parts.drop_first()[0] == parts[1]);
        assert(join(parts.drop_last(), sep) == parts.drop_last()[0]);
        assert(join(parts.drop_first(), sep) == parts.drop_first()[0]);
        assert(join(parts, sep) == join(parts.drop_last(), sep) + sep + parts.last());
    }
}

/// The quoted arguments, one by one.
pub open spec fn quoted_words(args: Seq<Seq<char>>) -> Seq<Seq<char>> {
    Seq::new(args.len(), |i: int| spec_shell_quote(args[i]))
}

/// The tokens read back, one for each argument, its text the argument.
pub open spec fn reads_back(tokens: Seq<crate::parser::TokenModel>, args: Seq<Seq<char>>, k: int) -> bool {
    tokens.len() == k && forall|i: int| 0 <= i < k ==> #[trigger] tokens[i].0 == marked(args[i])
}

proof fn lemma_lex_arguments_from(
    q: Seq<char>,
    args: Seq<Seq<char>>,
    k: int,
    o: int,
    start: nat,
    tokens: Seq<crate::parser::TokenModel>,
)
    requires
        0 <= k < args.len(),
        0 <= o <= q.len(),
        q.subrange(o, q.len() as int) == join(quoted_words(args).skip(k), " "@),
        reads_back(tokens, args, k),
    ensures
        crate::parser::lex_from(q, idle_state(o, start, tokens)) matches Ok(all) && reads_back(
            all,
            args,
            args.len() as int,
        ),
    decreases args.len() - k,
{
    let parts = quoted_words(args).skip(k);
    let w = args[k];
    let quoted = spec_shell_quote(w);
    let n = quoted.len() as int;
    assert(parts[0] == quoted);
    let pushed = tokens.push((marked(w), o as nat));
    assert(reads_back(pushed, args, k + 1)) by {
        assert forall|i: int| 0 <= i < k + 1 implies #[trigger] pushed[i].0 == marked(args[i]) by {
            if i < k {
                assert(pushed[i] == tokens[i]);
            }
        }
    }
    if k + 1 == args.len() {
        assert(parts.len() == 1);
        assert(join(parts, " "@) == quoted);
        assert(o + n == q.len());
        assert(q.subrange(o, o + n) == quoted);
        lemma_lex_word_at(q, o, w, start, tokens);
    } else {
        lemma_join_front(parts, " "@);
        assert(parts.drop_first() =~= quoted_words(args).skip(k + 1));
        let rest = join(quoted_words(args).skip(k + 1), " "@);
        assert(q.subrange(o, q.len() as int) == quoted + " "@ + rest);
        assert(q.subrange(o, o + n) =~= quoted) by {
            assert forall|j: int| 0 <= j < n implies q.subrange(o, o + n)[j] == quoted[j] by {
                assert(q.subrange(o, q.len() as int)[j] == q[o + j]);
            }
        }
        assert(q[o + n] == ' ') by {
            reveal_strlit(" ");
            assert(q.subrange(o, q.len() as int)[n] == q[o + n]);
        }
        assert(q.subrange(o + n + 1, q.len() as int) =~= rest) by {
            reveal_strlit(" ");
            assert forall|j: int| 0 <= j < rest.len() implies q.subrange(o + n + 1, q.len() as int)[j]
                == rest[j] by {
                assert(q.subrange(o, q.len() as int)[n + 1 + j] == q[o + n + 1 + j]);
            }
        }
        lemma_lex_word_at(q, o, w, start, tokens);
        lemma_lex_arguments_from(q, args, k + 1, o + n + 1, o as nat, pushed);
    }
}

/// Arguments that an alias puts in stay separate words: lexing the quoted
/// arguments joined by spaces reads back one word for each argument, its
/// text the argument with `$`, `*`, `?` and `~` kept literal; an empty
/// argument stays an empty word.
pub proof fn lemma_quoted_arguments_read_back(args: Seq<Seq<char>>)
    ensures
        crate::parser::spec_tokenize(quoted_arguments(args)) matches Ok(tokens) && reads_back(
            tokens,
            args,
            args.len() as int,
        ),
{
    let q = quoted_arguments(args);
    assert(quoted_words(args) =~= Seq::new(args.len(), |i: int| spec_shell_quote(args[i])));
    assert(idle_state(0, 0, Seq::empty()) == crate::parser::lex_start());
    if args.len() == 0 {
        assert(q =~= Seq::<char>::empty());
    } else {
        assert(quoted_words(args).skip(0) =~= quoted_words(args));
        assert(q.subrange(0, q.len() as int) =~= q);
        lemma_lex_arguments_from(q, args, 0, 0, 0, Seq::empty());
    }
}


/// A word that the shell quotes reads back through the whole line parser:
/// `echo` followed by the quoted word is one pipeline of one command whose
/// words are `echo` and the word itself, empty or not, when the word holds
/// none of `$`, `*`, `?` and `~` and is not an operator of its own.
pub proof fn lemma_quoted_word_parses_back(w: Seq<char>, bytes: nat)
    requires
        forall|i: int| 0 <= i < w.len() ==> w[i] != '$' && w[i] != '*' && w[i] != '?' && w[i] != '~',
        !crate::parser::is_operator_text(w),
    ensures
        crate::parser::spec_parse_line("echo "@ + spec_shell_quote(w), bytes) matches Ok(ps) && ps.len()
            == 1 && ps[0].commands.len() == 1 && ps[0].commands[0].words.len() == 2
            && ps[0].commands[0].words[0].text == "echo"@ && ps[0].commands[0].words[1].text == w
            && ps[0].commands[0].redirects.len() == 0 && !ps[0].background,
{
    reveal_strlit("echo ");
    reveal_strlit("echo");
    reveal_strlit(" ");
    let echo = "echo"@;
    let args = seq![echo, w];
    assert(echo =~= seq!['e', 'c', 'h', 'o']);
    assert forall|i: int| 0 <= i < echo.len() implies quote_safe(#[trigger] echo[i]) by {
        vstd::utf8::char_u32_cast(echo[i], echo[i] as u32);
    }
    assert(spec_shell_quote(echo) == echo);
    let parts = Seq::new(args.len(), |i: int| spec_shell_quote(args[i]));
    assert(parts.drop_last() =~= seq![echo]);
    let chars = "echo "@ + spec_shell_quote(w);
    assert("echo "@ =~= echo + " "@);
    assert(parts[1] == spec_shell_quote(w));
    assert(crate::config::join(parts.drop_last(), " "@) == echo);
    assert(quoted_arguments(args) == crate::config::join(parts, " "@));
    assert(crate::config::join(parts, " "@) == echo + " "@ + spec_shell_quote(w));
    assert(quoted_arguments(args) =~= chars);
    lemma_quoted_arguments_read_back(args);
    let tokens = crate::parser::spec_tokenize(chars)->Ok_0;
    assert(tokens[0].0 == marked(echo));
    assert(tokens[1].0 == marked(args[1]));
    assert(marked(echo) =~= echo);
    assert(marked(w) =~= w);
    assert(tokens[0].0 == echo);
    assert(tokens[1].0 == w);
    assert(!crate::parser::is_operator_text(echo));
    let s0 = crate::parser::parse_start();
    let s1 = crate::parser::parse_step(tokens, chars, s0)->Ok_0;
    assert(crate::parser::parse_step(tokens, chars, s0) is Ok);
    assert(s1.index == 1 && s1.words == seq![crate::parser::word_model(echo)]);
    let s2 = crate::parser::parse_step(tokens, chars, s1)->Ok_0;
    assert(crate::parser::parse_step(tokens, chars, s1) is Ok);
    assert(s2.index == 2 && s2.words == seq![crate::parser::word_model(echo), crate::parser::word_model(w)]);
    assert(s2.done.len() == 0 && s2.redirects.len() == 0 && s2.pipelines.len() == 0);
    let commands = crate::parser::current_commands(s2);
    assert(commands[0].words.len() > 0);
    assert(crate::parser::parse_from(tokens, chars, bytes, s2) == crate::parser::parse_finish(chars, bytes, s2));
    assert(crate::parser::parse_from(tokens, chars, bytes, s1) == crate::parser::parse_from(tokens, chars, bytes, s2));
    assert(crate::parser::parse_from(tokens, chars, bytes, s0) == crate::parser::parse_from(tokens, chars, bytes, s1));
}

/// The lexer between words: nothing begun, outside quotes.
pub open spec fn idle_state(o: int, start: nat, tokens: Seq<crate::parser::TokenModel>) -> crate::parser::LexState {
    crate::parser::LexState {
        index: o as nat,
        word: Seq::empty(),
        started: false,
        start,
        quote: crate::parser::Quote::Unquoted,
        escaped: false,
        tokens,
    }
}

/// The lexer inside the single quotes of a quoted word that starts at `o`,
/// after `k` of its characters.
pub open spec fn quoted_state_at(
    w: Seq<char>,
    k: int,
    o: int,
    tokens: Seq<crate::parser::TokenModel>,
) -> crate::parser::LexState {
    crate::parser::LexState {
        index: (o + 1 + quote_body(w.take(k)).len()) as nat,
        word: marked(w.take(k)),
        started: true,
        start: o as nat,
        quote: crate::parser::Quote::Single,
        escaped: false,
        tokens,
    }
}

/// What lexing goes on to after a word that ends at `end`: the end of the
/// line, or a space and what follows it.
pub open spec fn after_word(
    q: Seq<char>,
    end: int,
    o: int,
    word: Seq<char>,
    tokens: Seq<crate::parser::TokenModel>,
) -> Result<Seq<crate::parser::TokenModel>, (nat, crate::parser::SyntaxFault)> {
    if end < q.len() {
        crate::parser::lex_from(q, idle_state(end + 1, o as nat, tokens.push((word, o as nat))))
    } else {
        Ok(tokens.push((word, o as nat)))
    }
}

proof fn lemma_word_end(
    q: Seq<char>,
    o: int,
    w: Seq<char>,
    tokens: Seq<crate::parser::TokenModel>,
    s: crate::parser::LexState,
)
    requires
        0 <= o < s.index <= q.len(),
        s.index < q.len() ==> q[s.index as int] == ' ',
        s.word == marked(w),
        s.started,
        s.start == o,
        s.quote == crate::parser::Quote::Unquoted,
        !s.escaped,
        s.tokens == tokens,
    ensures
        crate::parser::lex_from(q, s) == after_word(q, s.index as int, o, marked(w), tokens),
{
    if s.index < q.len() {
        let s1 = crate::parser::lex_step(q, s);
        assert(is_ws(' ')) by {
            vstd::utf8::char_u32_cast(' ', ' ' as u32);
        }
        assert(s1 == idle_state(s.index + 1int, o as nat, tokens.push((marked(w), o as nat))));
        assert(crate::parser::lex_from(q, s) == crate::parser::lex_from(q, s1));
    }
}

proof fn lemma_lex_quoted_at(q: Seq<char>, o: int, w: Seq<char>, k: int, tokens: Seq<crate::parser::TokenModel>)
    requires
        0 <= k <= w.len(),
        0 <= o,
        o + spec_shell_quote_quoted(w).len() <= q.len(),
        q.subrange(o, o + spec_shell_quote_quoted(w).len()) == spec_shell_quote_quoted(w),
        o + spec_shell_quote_quoted(w).len() < q.len() ==> q[o + spec_shell_quote_quoted(w).len()] == ' ',
    ensures
        crate::parser::lex_from(q, quoted_state_at(w, k, o, tokens)) == after_word(
            q,
            o + spec_shell_quote_quoted(w).len(),
            o,
            marked(w),
            tokens,
        ),
    decreases w.len() - k,
{
    let quoted = spec_shell_quote_quoted(w);
    let n = quoted.len() as int;
    let s = quoted_state_at(w, k, o, tokens);
    let body = quote_body(w);
    lemma_quote_body_append(w.take(k), w.skip(k));
    assert(w.take(k) + w.skip(k) =~= w);
    let before = quote_body(w.take(k));
    assert(body == before + quote_body(w.skip(k)));
    assert(quoted == seq!['\''] + body + seq!['\'']);
    assert forall|j: int| 0 <= j < n implies #[trigger] q[o + j] == quoted[j] by {
        assert(q.subrange(o, o + n)[j] == q[o + j]);
    }
    if k == w.len() {
        assert(w.take(k) =~= w);
        assert(s.index == o + 1 + body.len());
        assert(q[s.index as int] == quoted[n - 1]);
        let s1 = crate::parser::lex_step(q, s);
        assert(s1 == crate::parser::LexState { index: (o + n) as nat, quote: crate::parser::Quote::Unquoted, ..s });
        assert(crate::parser::lex_from(q, s) == crate::parser::lex_from(q, s1));
        lemma_word_end(q, o, w, tokens, s1);
    } else {
        let c = w[k];
        lemma_quote_body_push(w, k);
        let rest = w.skip(k);
        lemma_quote_body_first(rest);
        assert(rest[0] == c);
        assert(rest.drop_first() =~= w.skip(k + 1));
        let piece = quote_piece(c);
        let i = s.index as int;
        assert forall|j: int| 0 <= j < piece.len() implies q[i + j] == piece[j] by {
            assert(body == before + (piece + quote_body(w.skip(k + 1))));
            assert(quoted[1 + before.len() + j] == piece[j]);
        }
        assert(i + piece.len() < o + n);
        assert(marked(w.take(k + 1)) =~= marked(w.take(k)).push(crate::parser::escaped_char(c)));
        let next = quoted_state_at(w, k + 1, o, tokens);
        assert(next.index == i + piece.len());
        if c == '\'' {
            let s1 = crate::parser::lex_step(q, s);
            assert(q[i] == '\'');
            assert(s1 == crate::parser::LexState { index: (i + 1) as nat, quote: crate::parser::Quote::Unquoted, ..s });
            assert(crate::parser::lex_from(q, s) == crate::parser::lex_from(q, s1));
            assert(q[i + 1] == '\\');
            let s2 = crate::parser::lex_step(q, s1);
            assert(s2 == crate::parser::LexState { index: (i + 2) as nat, escaped: true, ..s1 });
            assert(crate::parser::lex_from(q, s1) == crate::parser::lex_from(q, s2));
            assert(q[i + 2] == '\'');
            let s3 = crate::parser::lex_step(q, s2);
            assert(s3 == crate::parser::LexState { index: (i + 3) as nat, escaped: false, word: s.word.push('\''), ..s1 });
            assert(crate::parser::lex_from(q, s2) == crate::parser::lex_from(q, s3));
            assert(q[i + 3] == '\'');
            let s4 = crate::parser::lex_step(q, s3);
            assert(s4 == next);
            assert(crate::parser::lex_from(q, s3) == crate::parser::lex_from(q, s4));
        } else {
            assert(piece == seq![c]);
            assert(q[i + 0] == piece[0]);
            assert(q[i] == c);
            let s1 = crate::parser::lex_step(q, s);
            assert(s1 == next);
            assert(crate::parser::lex_from(q, s) == crate::parser::lex_from(q, s1));
        }
        lemma_lex_quoted_at(q, o, w, k + 1, tokens);
    }
}

/// The lexer after `k` characters of a word written without quotes at `o`.
pub open spec fn plain_state_at(
    w: Seq<char>,
    k: int,
    o: int,
    start: nat,
    tokens: Seq<crate::parser::TokenModel>,
) -> crate::parser::LexState {
    crate::parser::LexState {
        index: (o + k) as nat,
        word: w.take(k),
        started: k > 0,
        start: if k > 0 { o as nat } else { start },
        quote: crate::parser::Quote::Unquoted,
        escaped: false,
        tokens,
    }
}

proof fn lemma_lex_plain_at(
    q: Seq<char>,
    o: int,
    w: Seq<char>,
    k: int,
    start: nat,
    tokens: Seq<crate::parser::TokenModel>,
)
    requires
        0 <= k <= w.len(),
        w.len() > 0,
        all_quote_safe(w),
        0 <= o,
        o + w.len() <= q.len(),
        q.subrange(o, o + w.len()) == w,
        o + w.len() < q.len() ==> q[o + w.len()] == ' ',
    ensures
        crate::parser::lex_from(q, plain_state_at(w, k, o, start, tokens)) == after_word(
            q,
            o + w.len(),
            o,
            marked(w),
            tokens,
        ),
    decreases w.len() - k,
{
    let s = plain_state_at(w, k, o, start, tokens);
    assert forall|i: int| 0 <= i < w.len() implies #[trigger] marked(w)[i] == w[i] by {
        lemma_safe_char(w[i]);
    }
    assert(marked(w) =~= w);
    assert forall|j: int| 0 <= j < w.len() implies #[trigger] q[o + j] == w[j] by {
        assert(q.subrange(o, o + w.len())[j] == q[o + j]);
    }
    if k == w.len() {
        assert(w.take(k) =~= w);
        lemma_word_end(q, o, w, tokens, s);
    } else {
        let c = w[k];
        lemma_safe_char(c);
        if k + 1 < w.len() {
            lemma_safe_char(w[k + 1]);
        } else if o + k + 1 < q.len() {
            assert(q[o + k + 1] == ' ');
        }
        assert(w.take(k + 1) =~= w.take(k).push(c));
        let s1 = crate::parser::lex_step(q, s);
        assert(s1 == plain_state_at(w, k + 1, o, start, tokens));
        assert(crate::parser::lex_from(q, s) == crate::parser::lex_from(q, s1));
        lemma_lex_plain_at(q, o, w, k + 1, start, tokens);
    }
}

/// Lexing a quoted word that stands at `o`, followed by a space or the end.
proof fn lemma_lex_word_at(
    q: Seq<char>,
    o: int,
    w: Seq<char>,
    start: nat,
    tokens: Seq<crate::parser::TokenModel>,
)
    requires
        0 <= o,
        o + spec_shell_quote(w).len() <= q.len(),
        q.subrange(o, o + spec_shell_quote(w).len()) == spec_shell_quote(w),
        o + spec_shell_quote(w).len() < q.len() ==> q[o + spec_shell_quote(w).len()] == ' ',
    ensures
        crate::parser::lex_from(q, idle_state(o, start, tokens)) == after_word(
            q,
            o + spec_shell_quote(w).len(),
            o,
            marked(w),
            tokens,
        ),
{
    if w.len() > 0 && all_quote_safe(w) {
        assert(plain_state_at(w, 0, o, start, tokens) == idle_state(o, start, tokens)) by {
            assert(w.take(0) =~= Seq::<char>::empty());
        }
        lemma_lex_plain_at(q, o, w, 0, start, tokens);
    } else {
        let quoted = spec_shell_quote_quoted(w);
        assert(spec_shell_quote(w) == quoted);
        let s0 = idle_state(o, start, tokens);
        assert(q.subrange(o, o + quoted.len())[0] == q[o]);
        assert(q[o] == '\'');
        let s1 = crate::parser::lex_step(q, s0);
        assert(w.take(0) =~= Seq::<char>::empty());
        assert(quote_body(Seq::<char>::empty()) =~= Seq::<char>::empty());
        assert(marked(w.take(0)) =~= Seq::<char>::empty());
        assert(s1 == quoted_state_at(w, 0, o, tokens));
        assert(crate::parser::lex_from(q, s0) == crate::parser::lex_from(q, s1));
        lemma_lex_quoted_at(q, o, w, 0, tokens);
    }
}

/// Where the first word of `s` at or after `i` begins.
pub open spec fn word_start(s: Seq<char>, i: int) -> int
    decreases s.len() - i,
{
    if i < 0 || i >= s.len() || !is_ws(s[i]) {
        i
    } else {
        word_start(s, i + 1)
    }
}

/// Where a word of `s` that begins at `i` ends.
pub open spec fn word_stop(s: Seq<char>, i: int) -> int
    decreases s.len() - i,
{
    if i < 0 || i >= s.len() || is_ws(s[i]) {
        i
    } else {
        word_stop(s, i + 1)
    }
}

/// A typed line whose first word is an abbreviation, with that word written
/// out; any other line as it is.
pub open spec fn spec_expand_abbreviation(
    line: Seq<char>,
    abbreviations: Map<Seq<char>, Seq<char>>,
) -> Seq<char> {
    let start = word_start(line, 0);
    let stop = word_stop(line, start);
    let word = line.subrange(start, stop);
    if start < stop && abbreviations.contains_key(word) {
        line.subrange(0, start) + abbreviations[word] + line.subrange(stop, line.len() as int)
    } else {
        line
    }
}

/// What the line editor runs for a typed line: the abbreviation that its
/// first word names, written out in place of that word.
pub fn expand_abbreviation(line: &str, abbreviations: &Table<String>) -> (r: String)
    ensures
        r@ == spec_expand_abbreviation(line@, abbreviations@),
{
    let chars = chars_of(line);
    let n = chars.len();
    let mut start: usize = 0;
    while start < n && crate::text::whitespace(chars[start])
        invariant
            n == chars@.len(),
            start <= n,
            word_start(chars@, start as int) == word_start(chars@, 0),
        decreases n - start,
    {
        start = start + 1;
    }
    let mut stop: usize = start;
    while stop < n && !crate::text::whitespace(chars[stop])
        invariant
            n == chars@.len(),
            start <= stop <= n,
            word_stop(chars@, stop as int) == word_stop(chars@, start as int),
        decreases n - stop,
    {
        stop = stop + 1;
    }
    assert(word_start(chars@, start as int) == start as int);
    assert(word_stop(chars@, stop as int) == stop as int);
    if start == stop {
        return String::from_str(line);
    }
    let word = string_of(crate::text::chars_between(chars.as_slice(), start, stop).as_slice());
    match abbreviations.get(&word) {
        None => String::from_str(line),
        Some(body) => {
            let mut out = crate::text::chars_between(chars.as_slice(), 0, start);
            let body_chars = chars_of(body.as_str());
            extend_chars(&mut out, body_chars.as_slice());
            let rest = crate::text::chars_between(chars.as_slice(), stop, n);
            extend_chars(&mut out, rest.as_slice());
            string_of(out.as_slice())
        },
    }
}

/// Where `cd` goes.
#[derive(Debug, Clone, PartialEq, Eq)]
pub enum CdTarget {
    /// The directory in `OLDPWD`.
    Previous,
    /// The directory given.
    Given(String),
    /// The directory in `HOME`.
    Home,
    /// The current directory, `.`.
    Current,
}

pub enum CdTargetModel {
    Previous,
    Given(Seq<char>),
    Home,
    Current,
}

impl View for CdTarget {
    type V = CdTargetModel;

    open spec fn view(&self) -> CdTargetModel {
        match self {
            CdTarget::Previous => CdTargetModel::Previous,
            CdTarget::Given(t) => CdTargetModel::Given(t@),
            CdTarget::Home => CdTargetModel::Home,
            CdTarget::Current => CdTargetModel::Current,
        }
    }
}

/// `cd -` goes to `OLDPWD`, any other `cd` to the directory given; failing
/// that, to `HOME`, and failing that, nowhere else than `.`.
pub open spec fn spec_cd_target(
    target: Option<Seq<char>>,
    previous: bool,
    has_oldpwd: bool,
    has_home: bool,
) -> CdTargetModel {
    if previous && has_oldpwd {
        CdTargetModel::Previous
    } else if !previous && target is Some {
        CdTargetModel::Given(target->Some_0)
    } else if has_home {
        CdTargetModel::Home
    } else {
        CdTargetModel::Current
    }
}

pub fn cd_target(target: Option<String>, previous: bool, has_oldpwd: bool, has_home: bool) -> (r: CdTarget)
    ensures
        r@ == spec_cd_target(text_option(target), previous, has_oldpwd, has_home),
{
    if previous && has_oldpwd {
        CdTarget::Previous
    } else if !previous && target.is_some() {
        match target {
            Some(t) => CdTarget::Given(t),
            None => CdTarget::Current,
        }
    } else if has_home {
        CdTarget::Home
    } else {
        CdTarget::Current
    }
}

/// After `pushd`: the directory it left goes on the stack once the change
/// succeeded; a failed change leaves the stack alone.
pub fn after_pushd<T>(stack: &mut Vec<T>, left: T, changed: bool)
    ensures
        final(stack)@ == (if changed {
            old(stack)@.push(left)
        } else {
            old(stack)@
        }),
{
    if changed {
        stack.push(left);
    }
}

/// Where `popd` goes: the directory on top of the stack, if there is one.
pub fn popd_target<T>(stack: &Vec<T>) -> (r: Option<&T>)
    ensures
        match r {
            Some(t) => stack@.len() > 0 && *t == stack@.last(),
            None => stack@.len() == 0,
        },
{
    if stack.len() == 0 {
        None
    } else {
        Some(&stack[stack.len() - 1])
    }
}

/// After `popd`: the top of the stack goes once the change succeeded.
pub fn after_popd<T>(stack: &mut Vec<T>, changed: bool)
    ensures
        final(stack)@ == (if changed && old(stack)@.len() > 0 {
            old(stack)@.drop_last()
        } else {
            old(stack)@
        }),
{
    if changed && stack.len() > 0 {
        let _ = stack.pop();
    }
}

/// `pushd` and then `popd`, each changing directory: `popd` goes back to the
/// directory `pushd` left, and the stack is as it was.
pub proof fn lemma_popd_undoes_pushd<T>(stack: Seq<T>, left: T)
    ensures
        stack.push(left).len() > 0,
        stack.push(left).last() == left,
        stack.push(left).drop_last() == stack,
{
    assert(stack.push(left).drop_last() =~= stack);
}

/// What `dirs` lists: the current directory, then the stack from its top.
pub open spec fn spec_directory_listing(current: Seq<char>, stack: Seq<Seq<char>>) -> Seq<Seq<char>> {
    seq![current] + stack.reverse()
}

pub fn directory_listing(current: String, stack: &Vec<String>) -> (r: Vec<String>)
    ensures
        string_views(r@) == spec_directory_listing(current@, string_views(stack@)),
{
    let ghost all = string_views(stack@);
    let mut r: Vec<String> = Vec::new();
    r.push(current);
    let mut i: usize = stack.len();
    while i > 0
        invariant
            i <= stack@.len(),
            all == string_views(stack@),
            string_views(r@) == seq![current@] + all.subrange(i as int, all.len() as int).reverse(),
        decreases i,
    {
        i -= 1;
        let ghost before = string_views(r@);
        r.push(String::from_str(stack[i].as_str()));
        assert(all[i as int] == stack@[i as int]@);
        assert(all.subrange(i as int, all.len() as int).reverse() =~= all.subrange(
            i + 1,
            all.len() as int,
        ).reverse().push(all[i as int]));
        assert(string_views(r@) =~= before.push(all[i as int]));
    }
    assert(all.subrange(0, all.len() as int) =~= all);
    r
}

} // verus!
