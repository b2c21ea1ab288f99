use vstd::prelude::*;

use crate::text::{chars_of, is_ws, slice, string_of, trim, trimmed_slice, whitespace};

verus! {

/// Where a redirect sends or takes a stream.
#[derive(Debug, Clone, Copy, PartialEq, Eq, Structural)]
pub enum RedirectKind {
    Input,
    Output,
    Append,
    Error,
    ErrorAppend,
}

#[derive(Debug, Clone, PartialEq, Eq)]
pub struct Redirect {
    pub kind: RedirectKind,
    pub path: String,
}

#[derive(Debug, Clone, PartialEq, Eq, Default)]
pub struct Command {
    pub words: Vec<Word>,
    pub redirects: Vec<Redirect>,
}

#[derive(Debug, Clone, PartialEq, Eq)]
pub struct Word {
    pub text: String,
    pub has_glob: bool,
}

/// When a pipeline runs, given the status of the one before it.
#[derive(Debug, Clone, Copy, PartialEq, Eq, Structural)]
pub enum Condition {
    Always,
    OnSuccess,
    OnFailure,
}

#[derive(Debug, Clone, PartialEq, Eq)]
pub struct Pipeline {
    pub commands: Vec<Command>,
    pub background: bool,
    pub source: String,
    pub condition: Condition,
}

#[derive(Debug, Clone, PartialEq, Eq)]
pub struct ParseError {
    pub column: usize,
    pub message: String,
}

/// Markers that stand for characters which quoting or escaping made literal.
pub const LITERAL_DOLLAR: char = '\u{e000}';

pub const LITERAL_STAR: char = '\u{e001}';

pub const LITERAL_QUESTION: char = '\u{e002}';

pub const LITERAL_TILDE: char = '\u{e003}';

pub struct RedirectModel {
    pub kind: RedirectKind,
    pub path: Seq<char>,
}

pub struct WordModel {
    pub text: Seq<char>,
    pub has_glob: bool,
}

pub struct CommandModel {
    pub words: Seq<WordModel>,
    pub redirects: Seq<RedirectModel>,
}

pub struct PipelineModel {
    pub commands: Seq<CommandModel>,
    pub background: bool,
    pub source: Seq<char>,
    pub condition: Condition,
}

impl View for Redirect {
    type V = RedirectModel;

    open spec fn view(&self) -> RedirectModel {
        RedirectModel { kind: self.kind, path: self.path@ }
    }
}

impl View for Word {
    type V = WordModel;

    open spec fn view(&self) -> WordModel {
        WordModel { text: self.text@, has_glob: self.has_glob }
    }
}

impl View for Command {
    type V = CommandModel;

    open spec fn view(&self) -> CommandModel {
        CommandModel {
            words: self.words@.map_values(|w: Word| w@),
            redirects: self.redirects@.map_values(|r: Redirect| r@),
        }
    }
}

impl View for Pipeline {
    type V = PipelineModel;

    open spec fn view(&self) -> PipelineModel {
        PipelineModel {
            commands: self.commands@.map_values(|c: Command| c@),
            background: self.background,
            source: self.source@,
            condition: self.condition,
        }
    }
}

/// The quoting the lexer is inside of.
#[derive(Clone, Copy, PartialEq, Eq, Structural)]
pub enum Quote {
    Unquoted,
    Single,
    Double,
}

/// The ways in which a line fails to lex or parse.
pub enum SyntaxFault {
    TrailingEscape,
    UnterminatedQuote,
    BeforePipe,
    ExpectedCommand,
    RedirectPath,
    AfterPipe,
    AfterConditional,
}

/// The message reported for each fault.
pub open spec fn fault_message(f: SyntaxFault) -> Seq<char> {
    match f {
        SyntaxFault::TrailingEscape => "trailing escape"@,
        SyntaxFault::UnterminatedQuote => "unterminated quote"@,
        SyntaxFault::BeforePipe => "expected command before pipe"@,
        SyntaxFault::ExpectedCommand => "expected command"@,
        SyntaxFault::RedirectPath => "redirect requires a path"@,
        SyntaxFault::AfterPipe => "expected command after pipe"@,
        SyntaxFault::AfterConditional => "expected command after conditional operator"@,
    }
}

/// A token: its text and the index of the character it starts at.
pub type TokenModel = (Seq<char>, nat);

/// The lexer between two characters.
pub struct LexState {
    pub index: nat,
    pub word: Seq<char>,
    pub started: bool,
    pub start: nat,
    pub quote: Quote,
    pub escaped: bool,
    pub tokens: Seq<TokenModel>,
}

pub open spec fn lex_start() -> LexState {
    LexState {
        index: 0,
        word: Seq::empty(),
        started: false,
        start: 0,
        quote: Quote::Unquoted,
        escaped: false,
        tokens: Seq::empty(),
    }
}

pub open spec fn char_at(chars: Seq<char>, i: int) -> Option<char> {
    if 0 <= i < chars.len() {
        Some(chars[i])
    } else {
        None
    }
}

/// What an escaped character stands for in a word.
pub open spec fn escaped_char(c: char) -> char {
    if c == '$' {
        LITERAL_DOLLAR
    } else if c == '*' {
        LITERAL_STAR
    } else if c == '?' {
        LITERAL_QUESTION
    } else if c == '~' {
        LITERAL_TILDE
    } else {
        c
    }
}

/// The characters a backslash escapes inside double quotes.
pub open spec fn double_quote_escapable(next: Option<char>) -> bool {
    next == Some('"') || next == Some('$') || next == Some('\\') || next == Some('\n')
}

pub open spec fn is_operator_char(c: char) -> bool {
    c == '|' || c == ';' || c == '&' || c == '<' || c == '>'
}

/// The state with the word begun at `at`, unless one is begun already.
pub open spec fn begin_word(s: LexState, at: nat) -> LexState {
    if s.started {
        s
    } else {
        LexState { started: true, start: at, ..s }
    }
}

/// The state with the current word, if one was begun, moved to the tokens.
pub open spec fn end_word(s: LexState) -> LexState {
    if s.started {
        LexState { tokens: s.tokens.push((s.word, s.start)), word: Seq::empty(), started: false, ..s }
    } else {
        s
    }
}

/// A comment starts here: the lexer stops reading the line.
pub open spec fn lex_stops(chars: Seq<char>, s: LexState) -> bool {
    let c = chars[s.index as int];
    !s.escaped && !(c == '\\' && s.quote != Quote::Single) && s.quote == Quote::Unquoted && c
        == '#' && !s.started
}

/// The lexer after it reads the character at `s.index`.
pub open spec fn lex_step(chars: Seq<char>, s: LexState) -> LexState {
    let i = s.index;
    let c = chars[i as int];
    let next = char_at(chars, i + 1int);
    if s.escaped {
        let b = begin_word(s, if i >= 1 { (i - 1) as nat } else { 0 });
        LexState { index: i + 1, word: b.word.push(escaped_char(c)), escaped: false, ..b }
    } else if c == '\\' && s.quote != Quote::Single {
        if s.quote == Quote::Double && !double_quote_escapable(next) {
            let b = begin_word(s, i);
            LexState { index: i + 1, word: b.word.push('\\'), ..b }
        } else {
            LexState { index: i + 1, escaped: true, ..s }
        }
    } else if s.quote == Quote::Single && c == '\'' {
        LexState { index: i + 1, quote: Quote::Unquoted, ..s }
    } else if s.quote == Quote::Double && c == '"' {
        LexState { index: i + 1, quote: Quote::Unquoted, ..s }
    } else if s.quote == Quote::Unquoted && c == '\'' {
        LexState { index: i + 1, quote: Quote::Single, ..begin_word(s, i) }
    } else if s.quote == Quote::Unquoted && c == '"' {
        LexState { index: i + 1, quote: Quote::Double, ..begin_word(s, i) }
    } else if s.quote == Quote::Unquoted && is_ws(c) {
        LexState { index: i + 1, ..end_word(s) }
    } else if s.quote == Quote::Unquoted && is_operator_char(c) {
        let e = end_word(s);
        if (c == '>' || c == '|' || c == '&') && next == Some(c) {
            LexState { index: i + 2, tokens: e.tokens.push((seq![c, c], i)), ..e }
        } else {
            LexState { index: i + 1, tokens: e.tokens.push((seq![c], i)), ..e }
        }
    } else if s.quote == Quote::Unquoted && c == '2' && next == Some('>') && s.word.len() == 0 {
        if char_at(chars, i + 2int) == Some('>') {
            LexState { index: i + 3, tokens: s.tokens.push((seq!['2', '>', '>'], i)), ..s }
        } else {
            LexState { index: i + 2, tokens: s.tokens.push((seq!['2', '>'], i)), ..s }
        }
    } else if s.quote == Quote::Single && c == '$' {
        LexState { index: i + 1, word: s.word.push(LITERAL_DOLLAR), ..s }
    } else if s.quote != Quote::Unquoted && c == '*' {
        LexState { index: i + 1, word: s.word.push(LITERAL_STAR), ..s }
    } else if s.quote != Quote::Unquoted && c == '?' {
        LexState { index: i + 1, word: s.word.push(LITERAL_QUESTION), ..s }
    } else if s.quote != Quote::Unquoted && c == '~' {
        LexState { index: i + 1, word: s.word.push(LITERAL_TILDE), ..s }
    } else {
        let b = begin_word(s, i);
        LexState { index: i + 1, word: b.word.push(c), ..b }
    }
}

/// The tokens of the line once the lexer has read up to its end, or to a comment.
pub open spec fn lex_finish(chars: Seq<char>, s: LexState) -> Result<Seq<TokenModel>, (nat, SyntaxFault)> {
    if s.escaped {
        Err((chars.len(), SyntaxFault::TrailingEscape))
    } else if s.quote != Quote::Unquoted {
        Err((chars.len(), SyntaxFault::UnterminatedQuote))
    } else {
        Ok(end_word(s).tokens)
    }
}

/// The outcome of lexing the rest of the line from state `s`.
pub open spec fn lex_from(chars: Seq<char>, s: LexState) -> Result<Seq<TokenModel>, (nat, SyntaxFault)>
    decreases chars.len() - s.index,
{
    if s.index >= chars.len() || lex_stops(chars, s) {
        lex_finish(chars, s)
    } else {
        let n = lex_step(chars, s);
        if n.index > s.index {
            lex_from(chars, n)
        } else {
            lex_finish(chars, s)
        }
    }
}

/// The tokens of a line: words with quotes and escapes resolved, and operators.
pub open spec fn spec_tokenize(chars: Seq<char>) -> Result<Seq<TokenModel>, (nat, SyntaxFault)> {
    lex_from(chars, lex_start())
}

/// Facts about positions that hold of every state the lexer reaches.
pub open spec fn lex_bounds(len: nat, s: LexState) -> bool {
    &&& s.index <= len
    &&& (s.escaped ==> s.index >= 1)
    &&& (!s.started ==> s.word.len() == 0)
    &&& (s.quote != Quote::Unquoted ==> s.started)
    &&& (s.started ==> s.start < s.index && s.start + s.word.len() <= s.index)
    &&& forall|k: int|
        0 <= k < s.tokens.len() ==> #[trigger] s.tokens[k].1 < s.index && s.tokens[k].1
            + s.tokens[k].0.len() <= s.index
}

/// Every token lies within the line: its start is a position of the line, and
/// the line holds at least as many characters from there as the token has.
pub open spec fn tokens_within(len: nat, tokens: Seq<TokenModel>) -> bool {
    forall|k: int|
        0 <= k < tokens.len() ==> #[trigger] tokens[k].1 < len && tokens[k].1 + tokens[k].0.len()
            <= len
}

proof fn lemma_lex_step_bounds(chars: Seq<char>, s: LexState)
    requires
        s.index < chars.len(),
        lex_bounds(chars.len(), s),
    ensures
        lex_bounds(chars.len(), lex_step(chars, s)),
{
    let n = lex_step(chars, s);
    let e = end_word(s);
    assert forall|k: int| 0 <= k < e.tokens.len() implies #[trigger] e.tokens[k].1 < s.index + 1
        && e.tokens[k].1 + e.tokens[k].0.len() <= s.index by {
        if k < s.tokens.len() {
            assert(s.tokens[k] == e.tokens[k]);
        }
    }
    assert forall|k: int| 0 <= k < n.tokens.len() implies #[trigger] n.tokens[k].1 < n.index
        && n.tokens[k].1 + n.tokens[k].0.len() <= n.index by {
        if k < s.tokens.len() {
            assert(s.tokens[k] == n.tokens[k]);
        }
    }
}

proof fn lemma_lex_from_bounds(chars: Seq<char>, s: LexState)
    requires
        lex_bounds(chars.len(), s),
    ensures
        lex_from(chars, s) matches Ok(tokens) ==> tokens_within(chars.len(), tokens),
    decreases chars.len() - s.index,
{
    if s.index >= chars.len() || lex_stops(chars, s) {
        let e = end_word(s);
        assert forall|k: int| 0 <= k < e.tokens.len() implies #[trigger] e.tokens[k].1 < chars.len()
            && e.tokens[k].1 + e.tokens[k].0.len() <= chars.len() by {
            if k < s.tokens.len() {
                assert(s.tokens[k] == e.tokens[k]);
            }
        }
    } else {
        lemma_lex_step_bounds(chars, s);
        lemma_lex_from_bounds(chars, lex_step(chars, s));
    }
}

pub proof fn lemma_lex_step_advances(chars: Seq<char>, s: LexState)
    requires
        s.index < chars.len(),
    ensures
        lex_step(chars, s).index > s.index,
{
}

struct Lexer {
    word: Vec<char>,
    started: bool,
    start: usize,
    quote: Quote,
    escaped: bool,
    tokens: Vec<(Vec<char>, usize)>,
}

impl Lexer {
    spec fn model(&self, index: nat) -> LexState {
        LexState {
            index,
            word: self.word@,
            started: self.started,
            start: self.start as nat,
            quote: self.quote,
            escaped: self.escaped,
            tokens: token_models(self.tokens@),
        }
    }

    fn begin_word(&mut self, at: usize)
        ensures
            final(self).model(0) == begin_word(old(self).model(0), at as nat),
    {
        if !self.started {
            self.start = at;
            self.started = true;
        }
    }

    fn end_word(&mut self)
        ensures
            final(self).model(0) == end_word(old(self).model(0)),
    {
        if self.started {
            let mut word: Vec<char> = Vec::new();
            std::mem::swap(&mut word, &mut self.word);
            self.tokens.push((word, self.start));
            self.started = false;
            proof {
                assert(token_models(self.tokens@) == token_models(old(self).tokens@).push(
                    (old(self).word@, old(self).start as nat),
                ));
            }
        }
    }

    fn push_token(&mut self, text: Vec<char>, at: usize)
        ensures
            final(self).model(0) == (LexState {
                tokens: old(self).model(0).tokens.push((text@, at as nat)),
                ..old(self).model(0)
            }),
    {
        self.tokens.push((text, at));
        proof {
            assert(token_models(self.tokens@) == token_models(old(self).tokens@).push(
                (text@, at as nat),
            ));
        }
    }
}

pub open spec fn token_models(tokens: Seq<(Vec<char>, usize)>) -> Seq<TokenModel> {
    tokens.map_values(|t: (Vec<char>, usize)| (t.0@, t.1 as nat))
}

fn escape_char(c: char) -> (r: char)
    ensures
        r == escaped_char(c),
{
    if c == '$' {
        LITERAL_DOLLAR
    } else if c == '*' {
        LITERAL_STAR
    } else if c == '?' {
        LITERAL_QUESTION
    } else if c == '~' {
        LITERAL_TILDE
    } else {
        c
    }
}

/// Splits a line into tokens, as `spec_tokenize` states.
fn tokenize(chars: &Vec<char>) -> (res: Result<Vec<(Vec<char>, usize)>, (usize, SyntaxFault)>)
    ensures
        match (res, spec_tokenize(chars@)) {
            (Ok(t), Ok(m)) => token_models(t@) == m && tokens_within(chars@.len(), m),
            (Err((col, f)), Err((mcol, mf))) => col == mcol && f == mf,
            _ => false,
        },
{
    proof {
        lemma_lex_from_bounds(chars@, lex_start());
    }
    let mut lx = Lexer {
        word: Vec::new(),
        started: false,
        start: 0,
        quote: Quote::Unquoted,
        escaped: false,
        tokens: Vec::new(),
    };
    assert(token_models(lx.tokens@) == Seq::<TokenModel>::empty());
    assert(lx.model(0) == lex_start());
    let mut index: usize = 0;
    let len = chars.len();
    while index < len
        invariant
            len == chars@.len(),
            index <= len,
            lex_from(chars@, lx.model(index as nat)) == spec_tokenize(chars@),
        ensures
            index <= len,
            lex_from(chars@, lx.model(index as nat)) == spec_tokenize(chars@),
            index >= len || lex_stops(chars@, lx.model(index as nat)),
        decreases len - index,
    {
        let ghost before = lx.model(index as nat);
        let ch = chars[index];
        let next: Option<char> = if index + 1 < len {
            Some(chars[index + 1])
        } else {
            None
        };
        assert(next == char_at(chars@, index + 1));
        if lx.escaped {
            let at = if index >= 1 {
                index - 1
            } else {
                0
            };
            lx.begin_word(at);
            lx.word.push(escape_char(ch));
            lx.escaped = false;
            index += 1;
        } else if ch == '\\' && lx.quote != Quote::Single {
            let escapable = next == Some('"') || next == Some('$') || next == Some('\\') || next
                == Some('\n');
            if lx.quote == Quote::Double && !escapable {
                lx.begin_word(index);
                lx.word.push('\\');
                index += 1;
            } else {
                lx.escaped = true;
                index += 1;
            }
        } else if lx.quote == Quote::Single && ch == '\'' {
            lx.quote = Quote::Unquoted;
            index += 1;
        } else if lx.quote == Quote::Double && ch == '"' {
            lx.quote = Quote::Unquoted;
            index += 1;
        } else if lx.quote == Quote::Unquoted && ch == '\'' {
            lx.begin_word(index);
            lx.quote = Quote::Single;
            index += 1;
        } else if lx.quote == Quote::Unquoted && ch == '"' {
            lx.begin_word(index);
            lx.quote = Quote::Double;
            index += 1;
        } else if lx.quote == Quote::Unquoted && ch == '#' && !lx.started {
            assert(lex_stops(chars@, before));
            break;
        } else if lx.quote == Quote::Unquoted && whitespace(ch) {
            lx.end_word();
            index += 1;
        } else if lx.quote == Quote::Unquoted && (ch == '|' || ch == ';' || ch == '&' || ch == '<'
            || ch == '>') {
            lx.end_word();
            if (ch == '>' || ch == '|' || ch == '&') && next == Some(ch) {
                let op = vec![ch, ch];
                assert(op@ == seq![ch, ch]);
                lx.push_token(op, index);
                index += 2;
            } else {
                let op = vec![ch];
                assert(op@ == seq![ch]);
                lx.push_token(op, index);
                index += 1;
            }
        } else if lx.quote == Quote::Unquoted && ch == '2' && next == Some('>') && lx.word.len()
            == 0 {
            if index + 2 < len && chars[index + 2] == '>' {
                let op = vec!['2', '>', '>'];
                assert(op@ == seq!['2', '>', '>']);
                lx.push_token(op, index);
                index += 3;
            } else {
                let op = vec!['2', '>'];
                assert(op@ == seq!['2', '>']);
                lx.push_token(op, index);
                index += 2;
            }
        } else if lx.quote == Quote::Single && ch == '$' {
            lx.word.push(LITERAL_DOLLAR);
            index += 1;
        } else if lx.quote != Quote::Unquoted && ch == '*' {
            lx.word.push(LITERAL_STAR);
            index += 1;
        } else if lx.quote != Quote::Unquoted && ch == '?' {
            lx.word.push(LITERAL_QUESTION);
            index += 1;
        } else if lx.quote != Quote::Unquoted && ch == '~' {
            lx.word.push(LITERAL_TILDE);
            index += 1;
        } else {
            lx.begin_word(index);
            lx.word.push(ch);
            index += 1;
        }
        assert(lx.model(index as nat) == lex_step(chars@, before));
        proof {
            lemma_lex_step_advances(chars@, before);
        }
    }
    assert(lex_from(chars@, lx.model(index as nat)) == lex_finish(chars@, lx.model(index as nat)));
    if lx.escaped {
        return Err((len, SyntaxFault::TrailingEscape));
    }
    if lx.quote != Quote::Unquoted {
        return Err((len, SyntaxFault::UnterminatedQuote));
    }
    lx.end_word();
    Ok(lx.tokens)
}

} // verus!

verus! {

pub open spec fn is_pipe_text(t: Seq<char>) -> bool {
    t == seq!['|']
}

pub open spec fn is_separator_text(t: Seq<char>) -> bool {
    t == seq![';'] || t == seq!['&'] || t == seq!['&', '&'] || t == seq!['|', '|']
}

pub open spec fn redirect_kind_of(t: Seq<char>) -> Option<RedirectKind> {
    if t == seq!['<'] {
        Some(RedirectKind::Input)
    } else if t == seq!['>'] {
        Some(RedirectKind::Output)
    } else if t == seq!['>', '>'] {
        Some(RedirectKind::Append)
    } else if t == seq!['2', '>'] {
        Some(RedirectKind::Error)
    } else if t == seq!['2', '>', '>'] {
        Some(RedirectKind::ErrorAppend)
    } else {
        None
    }
}

/// Text that the parser reads as an operator, wherever the lexer found it.
pub open spec fn is_operator_text(t: Seq<char>) -> bool {
    is_pipe_text(t) || is_separator_text(t) || redirect_kind_of(t) is Some
}

pub open spec fn condition_after(t: Seq<char>) -> Condition {
    if t == seq!['&', '&'] {
        Condition::OnSuccess
    } else if t == seq!['|', '|'] {
        Condition::OnFailure
    } else {
        Condition::Always
    }
}

pub open spec fn word_model(t: Seq<char>) -> WordModel {
    WordModel { text: t, has_glob: t.contains('*') || t.contains('?') }
}

/// The parser between two tokens: finished pipelines, the finished commands of
/// the current pipeline, and the words and redirects of the current command.
pub struct ParseState {
    pub index: nat,
    pub pipelines: Seq<PipelineModel>,
    pub done: Seq<CommandModel>,
    pub words: Seq<WordModel>,
    pub redirects: Seq<RedirectModel>,
    pub start: nat,
    pub condition: Condition,
    pub requires_command: bool,
}

pub open spec fn parse_start() -> ParseState {
    ParseState {
        index: 0,
        pipelines: Seq::empty(),
        done: Seq::empty(),
        words: Seq::empty(),
        redirects: Seq::empty(),
        start: 0,
        condition: Condition::Always,
        requires_command: false,
    }
}

pub open spec fn current_commands(s: ParseState) -> Seq<CommandModel> {
    s.done.push(CommandModel { words: s.words, redirects: s.redirects })
}

/// The parser after it reads the token at `s.index` (and, for a redirect, its path).
pub open spec fn parse_step(tokens: Seq<TokenModel>, chars: Seq<char>, s: ParseState) -> Result<
    ParseState,
    (nat, SyntaxFault),
> {
    let t = tokens[s.index as int].0;
    let pos = tokens[s.index as int].1;
    if is_pipe_text(t) {
        if s.words.len() == 0 {
            Err((pos + 1, SyntaxFault::BeforePipe))
        } else {
            Ok(
                ParseState {
                    index: s.index + 1,
                    done: current_commands(s),
                    words: Seq::empty(),
                    redirects: Seq::empty(),
                    ..s
                },
            )
        }
    } else if is_separator_text(t) {
        if s.words.len() == 0 {
            Err((pos + 1, SyntaxFault::ExpectedCommand))
        } else {
            Ok(
                ParseState {
                    index: s.index + 1,
                    pipelines: s.pipelines.push(
                        PipelineModel {
                            commands: current_commands(s),
                            background: t == seq!['&'],
                            source: trim(slice(chars, s.start as int, pos as int)),
                            condition: s.condition,
                        },
                    ),
                    done: Seq::empty(),
                    words: Seq::empty(),
                    redirects: Seq::empty(),
                    start: pos + t.len(),
                    condition: condition_after(t),
                    requires_command: t == seq!['&', '&'] || t == seq!['|', '|'],
                },
            )
        }
    } else if let Some(kind) = redirect_kind_of(t) {
        if s.index + 1 >= tokens.len() || is_operator_text(tokens[s.index + 1int].0) {
            Err((pos + 1, SyntaxFault::RedirectPath))
        } else {
            Ok(
                ParseState {
                    index: s.index + 2,
                    redirects: s.redirects.push(
                        RedirectModel { kind, path: tokens[s.index + 1int].0 },
                    ),
                    ..s
                },
            )
        }
    } else {
        Ok(
            ParseState {
                index: s.index + 1,
                words: s.words.push(word_model(t)),
                requires_command: false,
                ..s
            },
        )
    }
}

/// The pipelines of the line once every token is read. `bytes` is the length
/// of the line in UTF-8 bytes, the column that a missing final command reports.
pub open spec fn parse_finish(chars: Seq<char>, bytes: nat, s: ParseState) -> Result<
    Seq<PipelineModel>,
    (nat, SyntaxFault),
> {
    let commands = current_commands(s);
    if exists|i: int| 0 <= i < commands.len() && #[trigger] commands[i].words.len() > 0 {
        if s.words.len() == 0 {
            Err((bytes, SyntaxFault::AfterPipe))
        } else {
            Ok(
                s.pipelines.push(
                    PipelineModel {
                        commands,
                        background: false,
                        source: trim(slice(chars, s.start as int, chars.len() as int)),
                        condition: s.condition,
                    },
                ),
            )
        }
    } else if s.requires_command {
        Err((chars.len(), SyntaxFault::AfterConditional))
    } else {
        Ok(s.pipelines)
    }
}

pub open spec fn parse_from(tokens: Seq<TokenModel>, chars: Seq<char>, bytes: nat, s: ParseState) -> Result<
    Seq<PipelineModel>,
    (nat, SyntaxFault),
>
    decreases tokens.len() - s.index,
{
    if s.index >= tokens.len() {
        parse_finish(chars, bytes, s)
    } else {
        match parse_step(tokens, chars, s) {
            Err(e) => Err(e),
            Ok(n) => if n.index > s.index {
                parse_from(tokens, chars, bytes, n)
            } else {
                Err((0, SyntaxFault::ExpectedCommand))
            },
        }
    }
}

/// The pipelines of a command line, in order, or the first fault with its column.
pub open spec fn spec_parse_line(chars: Seq<char>, bytes: nat) -> Result<
    Seq<PipelineModel>,
    (nat, SyntaxFault),
> {
    match spec_tokenize(chars) {
        Err(e) => Err(e),
        Ok(tokens) => parse_from(tokens, chars, bytes, parse_start()),
    }
}

/// The shape of every line that parses: each pipeline has a command and each
/// command a word; the first pipeline always runs, and one after a pipeline
/// sent to the background always runs too; each source is trimmed.
pub open spec fn pipelines_well_formed(ps: Seq<PipelineModel>) -> bool {
    &&& forall|i: int| 0 <= i < ps.len() ==> (#[trigger] ps[i]).commands.len() > 0
    &&& forall|i: int, j: int|
        0 <= i < ps.len() && 0 <= j < ps[i].commands.len() ==> (#[trigger] ps[i].commands[j]).words.len()
            > 0
    &&& ps.len() > 0 ==> ps[0].condition == Condition::Always
    &&& forall|i: int|
        0 < i < ps.len() && (#[trigger] ps[i - 1]).background ==> ps[i].condition == Condition::Always
    &&& forall|i: int| 0 <= i < ps.len() ==> trim((#[trigger] ps[i]).source) == ps[i].source
}

pub open spec fn parse_state_ok(s: ParseState) -> bool {
    &&& pipelines_well_formed(s.pipelines)
    &&& forall|j: int| 0 <= j < s.done.len() ==> (#[trigger] s.done[j]).words.len() > 0
    &&& s.pipelines.len() == 0 ==> s.condition == Condition::Always
    &&& s.pipelines.len() > 0 && s.pipelines.last().background ==> s.condition == Condition::Always
}

proof fn lemma_push_pipeline(s: ParseState, p: PipelineModel)
    requires
        parse_state_ok(s),
        s.words.len() > 0,
        p.commands == current_commands(s),
        p.condition == s.condition,
        trim(p.source) == p.source,
    ensures
        pipelines_well_formed(s.pipelines.push(p)),
{
    let ps = s.pipelines.push(p);
    let n = s.pipelines.len() as int;
    assert forall|i: int| 0 <= i < ps.len() implies (#[trigger] ps[i]).commands.len() > 0 by {
        if i < n {
            assert(ps[i] == s.pipelines[i]);
        }
    }
    assert forall|i: int, j: int|
        0 <= i < ps.len() && 0 <= j < ps[i].commands.len() implies (#[trigger] ps[i].commands[j]).words.len()
        > 0 by {
        if i < n {
            assert(ps[i] == s.pipelines[i]);
            assert(s.pipelines[i].commands[j].words.len() > 0);
        } else {
            if j < s.done.len() {
                assert(ps[i].commands[j] == s.done[j]);
            }
        }
    }
    assert forall|i: int| 0 < i < ps.len() && (#[trigger] ps[i - 1]).background implies ps[i].condition
        == Condition::Always by {
        if i < n {
            assert(ps[i] == s.pipelines[i] && ps[i - 1] == s.pipelines[i - 1]);
        } else {
            assert(ps[i - 1] == s.pipelines.last());
        }
    }
    assert forall|i: int| 0 <= i < ps.len() implies trim((#[trigger] ps[i]).source) == ps[i].source by {
        if i < n {
            assert(ps[i] == s.pipelines[i]);
        }
    }
    if n > 0 {
        assert(ps[0] == s.pipelines[0]);
    }
}

proof fn lemma_parse_step_ok(tokens: Seq<TokenModel>, chars: Seq<char>, s: ParseState)
    requires
        parse_state_ok(s),
        s.index < tokens.len(),
    ensures
        parse_step(tokens, chars, s) matches Ok(n) ==> parse_state_ok(n),
{
    let t = tokens[s.index as int].0;
    let pos = tokens[s.index as int].1;
    if is_pipe_text(t) {
        if s.words.len() > 0 {
            let n = parse_step(tokens, chars, s)->Ok_0;
            assert forall|j: int| 0 <= j < n.done.len() implies (#[trigger] n.done[j]).words.len() > 0 by {
                if j < s.done.len() {
                    assert(n.done[j] == s.done[j]);
                }
            }
        }
    } else if is_separator_text(t) {
        if s.words.len() > 0 {
            let source = trim(slice(chars, s.start as int, pos as int));
            crate::text::lemma_trim_twice(slice(chars, s.start as int, pos as int));
            let p = PipelineModel {
                commands: current_commands(s),
                background: t == seq!['&'],
                source,
                condition: s.condition,
            };
            lemma_push_pipeline(s, p);
            let n = parse_step(tokens, chars, s)->Ok_0;
            assert(n.pipelines == s.pipelines.push(p));
            assert(n.pipelines.last() == p);
        }
    }
}

proof fn lemma_parse_from_ok(tokens: Seq<TokenModel>, chars: Seq<char>, bytes: nat, s: ParseState)
    requires
        parse_state_ok(s),
    ensures
        parse_from(tokens, chars, bytes, s) matches Ok(ps) ==> pipelines_well_formed(ps),
    decreases tokens.len() - s.index,
{
    if s.index >= tokens.len() {
        if s.words.len() > 0 {
            let source = trim(slice(chars, s.start as int, chars.len() as int));
            crate::text::lemma_trim_twice(slice(chars, s.start as int, chars.len() as int));
            let p = PipelineModel {
                commands: current_commands(s),
                background: false,
                source,
                condition: s.condition,
            };
            lemma_push_pipeline(s, p);
        }
    } else {
        lemma_parse_step_ok(tokens, chars, s);
        match parse_step(tokens, chars, s) {
            Err(_) => {},
            Ok(n) => {
                if n.index > s.index {
                    lemma_parse_from_ok(tokens, chars, bytes, n);
                }
            },
        }
    }
}

/// Every line that parses has the shape of [`pipelines_well_formed`].
pub proof fn lemma_parsed_lines_are_well_formed(chars: Seq<char>, bytes: nat)
    ensures
        spec_parse_line(chars, bytes) matches Ok(ps) ==> pipelines_well_formed(ps),
{
    if let Ok(tokens) = spec_tokenize(chars) {
        lemma_parse_from_ok(tokens, chars, bytes, parse_start());
    }
}

/// The separators among the tokens, in order: `;`, `&`, `&&` and `||`.
pub open spec fn separators(tokens: Seq<TokenModel>) -> Seq<Seq<char>>
    decreases tokens.len(),
{
    if tokens.len() == 0 {
        Seq::empty()
    } else if is_separator_text(tokens.last().0) {
        separators(tokens.drop_last()).push(tokens.last().0)
    } else {
        separators(tokens.drop_last())
    }
}

/// Pipeline `i` ends at separator `i`: in the background exactly when that
/// is `&`, and the pipeline after it runs always, on success or on failure
/// as the separator is `;` or `&`, `&&` or `||`.
pub open spec fn separated_as(ps: Seq<PipelineModel>, seps: Seq<Seq<char>>) -> bool {
    &&& forall|i: int| 0 <= i < seps.len() && i < ps.len() ==> (#[trigger] ps[i]).background == (seps[i]
        == seq!['&'])
    &&& forall|i: int| 0 < i < ps.len() && i - 1 < seps.len() ==> (#[trigger] ps[i]).condition
        == condition_after(seps[i - 1])
}

pub open spec fn parse_state_separated(tokens: Seq<TokenModel>, s: ParseState) -> bool {
    let seps = separators(tokens.take(s.index as int));
    &&& s.index <= tokens.len()
    &&& s.pipelines.len() == seps.len()
    &&& separated_as(s.pipelines, seps)
    &&& s.condition == (if seps.len() == 0 {
        Condition::Always
    } else {
        condition_after(seps.last())
    })
}

proof fn lemma_separators_take(tokens: Seq<TokenModel>, i: int)
    requires
        0 <= i < tokens.len(),
    ensures
        separators(tokens.take(i + 1)) == (if is_separator_text(tokens[i].0) {
            separators(tokens.take(i)).push(tokens[i].0)
        } else {
            separators(tokens.take(i))
        }),
{
    assert(tokens.take(i + 1).drop_last() =~= tokens.take(i));
    assert(tokens.take(i + 1).last() == tokens[i]);
}

proof fn lemma_parse_step_separated(tokens: Seq<TokenModel>, chars: Seq<char>, s: ParseState)
    requires
        parse_state_separated(tokens, s),
        s.index < tokens.len(),
    ensures
        parse_step(tokens, chars, s) matches Ok(n) ==> parse_state_separated(tokens, n),
{
    let t = tokens[s.index as int].0;
    let i = s.index as int;
    let seps = separators(tokens.take(i));
    lemma_separators_take(tokens, i);
    if let Ok(n) = parse_step(tokens, chars, s) {
        if is_pipe_text(t) {
            assert(t.len() == 1 && t[0] == '|');
            assert(t != seq![';'] && t != seq!['&']) by {
                assert(seq![';'][0] == ';');
                assert(seq!['&'][0] == '&');
            }
            assert(!is_separator_text(t));
        } else if is_separator_text(t) {
            let seps2 = seps.push(t);
            assert(n.pipelines.len() == seps2.len());
            assert forall|j: int| 0 <= j < seps2.len() && j < n.pipelines.len() implies (
            #[trigger] n.pipelines[j]).background == (seps2[j] == seq!['&']) by {
                if j < seps.len() {
                    assert(n.pipelines[j] == s.pipelines[j]);
                }
            }
            assert forall|j: int| 0 < j < n.pipelines.len() && j - 1 < seps2.len() implies (
            #[trigger] n.pipelines[j]).condition == condition_after(seps2[j - 1]) by {
                if j < seps.len() {
                    assert(n.pipelines[j] == s.pipelines[j]);
                }
            }
        } else if redirect_kind_of(t) is Some {
            assert(!is_separator_text(t));
            let u = tokens[i + 1].0;
            assert(!is_operator_text(u));
            lemma_separators_take(tokens, i + 1);
        } else {
        }
    }
}

proof fn lemma_parse_from_separated(tokens: Seq<TokenModel>, chars: Seq<char>, bytes: nat, s: ParseState)
    requires
        parse_state_separated(tokens, s),
    ensures
        parse_from(tokens, chars, bytes, s) matches Ok(ps) ==> {
            let seps = separators(tokens);
            &&& (ps.len() == seps.len() || ps.len() == seps.len() + 1)
            &&& separated_as(ps, seps)
            &&& ps.len() == seps.len() + 1 ==> !ps.last().background
        },
    decreases tokens.len() - s.index,
{
    if s.index >= tokens.len() {
        assert(tokens.take(s.index as int) =~= tokens);
        let seps = separators(tokens);
        if let Ok(ps) = parse_from(tokens, chars, bytes, s) {
            if ps.len() == seps.len() + 1 {
                assert(ps.drop_last() == s.pipelines);
                assert forall|j: int| 0 <= j < seps.len() && j < ps.len() implies (
                #[trigger] ps[j]).background == (seps[j] == seq!['&']) by {
                    assert(ps[j] == s.pipelines[j]);
                }
                assert forall|j: int| 0 < j < ps.len() && j - 1 < seps.len() implies (
                #[trigger] ps[j]).condition == condition_after(seps[j - 1]) by {
                    if j < s.pipelines.len() {
                        assert(ps[j] == s.pipelines[j]);
                    } else {
                        assert(ps[j].condition == s.condition);
                    }
                }
            }
        }
    } else {
        lemma_parse_step_separated(tokens, chars, s);
        match parse_step(tokens, chars, s) {
            Err(_) => {},
            Ok(n) => {
                if n.index > s.index {
                    lemma_parse_from_separated(tokens, chars, bytes, n);
                }
            },
        }
    }
}

/// How the separators of a line set its pipelines: there is one pipeline for
/// each separator, and one more when the line does not end with one;
/// pipeline `i` runs in the background exactly when separator `i` is `&`;
/// the pipeline after `&&` runs on success, after `||` on failure, after `;`
/// or `&` always; and a last pipeline with no separator after it runs in the
/// foreground.
pub proof fn lemma_separators_set_conditions(chars: Seq<char>, bytes: nat)
    ensures
        spec_tokenize(chars) matches Ok(tokens) ==> (spec_parse_line(chars, bytes) matches Ok(ps) ==> {
            let seps = separators(tokens);
            &&& (ps.len() == seps.len() || ps.len() == seps.len() + 1)
            &&& separated_as(ps, seps)
            &&& ps.len() == seps.len() + 1 ==> !ps.last().background
        }),
{
    if let Ok(tokens) = spec_tokenize(chars) {
        assert(tokens.take(0) =~= Seq::<TokenModel>::empty());
        lemma_parse_from_separated(tokens, chars, bytes, parse_start());
    }
}

/// A character that a word holds as it is, outside quotes: not white space,
/// not an operator, not a quote or a backslash.
pub open spec fn ordinary_char(c: char) -> bool {
    !is_ws(c) && c != '|' && c != ';' && c != '&' && c != '<' && c != '>' && c != '\\' && c
        != '\'' && c != '"'
}

pub open spec fn ordinary_word(w: Seq<char>) -> bool {
    forall|i: int| 0 <= i < w.len() ==> ordinary_char(#[trigger] w[i])
}

/// The lexer `k` characters into an ordinary word at the start of a line.
pub open spec fn ordinary_state(w: Seq<char>, k: int) -> LexState {
    LexState {
        index: k as nat,
        word: w.take(k),
        started: k > 0,
        start: 0,
        quote: Quote::Unquoted,
        escaped: false,
        tokens: Seq::empty(),
    }
}

proof fn lemma_lex_ordinary_at(q: Seq<char>, w: Seq<char>, k: int)
    requires
        0 <= k <= w.len(),
        w.len() > 0,
        w.len() <= q.len(),
        forall|i: int| 0 <= i < w.len() ==> q[i] == w[i],
        w.len() < q.len() ==> q[w.len() as int] == ' ',
        w[0] != '#',
        ordinary_word(w),
    ensures
        lex_from(q, ordinary_state(w, k)) == lex_from(q, ordinary_state(w, w.len() as int)),
    decreases w.len() - k,
{
    let s = ordinary_state(w, k);
    if k < w.len() {
        let c = w[k];
        assert(q[k] == c);
        assert(ordinary_char(c));
        assert(!lex_stops(q, s));
        if k + 1 < w.len() {
            assert(ordinary_char(w[k + 1]));
            assert(q[k + 1] == w[k + 1]);
        }
        assert(!is_operator_char(c));
        assert(w.take(k + 1) =~= w.take(k).push(c));
        assert(lex_step(q, s) == ordinary_state(w, k + 1));
        lemma_lex_ordinary_at(q, w, k + 1);
    }
}

/// A word of ordinary characters reads as that one word, from its first
/// character to its last: a `#` ends the line only where no word has begun,
/// so one inside or at the end of a word is part of it.
pub proof fn lemma_ordinary_word_lexes_whole(w: Seq<char>)
    requires
        w.len() > 0,
        w[0] != '#',
        ordinary_word(w),
    ensures
        spec_tokenize(w) == Ok::<Seq<TokenModel>, (nat, SyntaxFault)>(seq![(w, 0nat)]),
{
    assert(w.take(0) =~= Seq::<char>::empty());
    assert(ordinary_state(w, 0) == lex_start());
    lemma_lex_ordinary_at(w, w, 0);
    assert(w.take(w.len() as int) =~= w);
    assert(Seq::<TokenModel>::empty().push((w, 0nat)) =~= seq![(w, 0nat)]);
}

/// A `#` that begins a word ends the line: after an ordinary word, a space
/// and a `#`, the rest of the line is a comment whatever it holds.
pub proof fn lemma_comment_ends_line(w: Seq<char>, rest: Seq<char>)
    requires
        w.len() > 0,
        w[0] != '#',
        ordinary_word(w),
    ensures
        spec_tokenize(w + seq![' ', '#'] + rest) == Ok::<Seq<TokenModel>, (nat, SyntaxFault)>(
            seq![(w, 0nat)],
        ),
{
    let q = w + seq![' ', '#'] + rest;
    let n = w.len() as int;
    assert(ordinary_state(w, 0) == lex_start()) by {
        assert(w.take(0) =~= Seq::<char>::empty());
    }
    assert forall|i: int| 0 <= i < w.len() implies q[i] == w[i] by {}
    assert(q[n] == ' ');
    assert(q[n + 1] == '#');
    lemma_lex_ordinary_at(q, w, 0);
    let s = ordinary_state(w, n);
    assert(w.take(n) =~= w);
    assert(is_ws(' ')) by {
        vstd::utf8::char_u32_cast(' ', ' ' as u32);
    }
    let t = lex_step(q, s);
    assert(t.index == n + 1 && !t.started && t.tokens == Seq::<TokenModel>::empty().push((w, 0nat)));
    assert(lex_stops(q, t));
    assert(!lex_stops(q, s));
    assert(lex_from(q, s) == lex_from(q, t));
    assert(lex_from(q, t) == lex_finish(q, t));
    assert(lex_finish(q, t) == Ok::<Seq<TokenModel>, (nat, SyntaxFault)>(t.tokens));
    assert(Seq::<TokenModel>::empty().push((w, 0nat)) =~= seq![(w, 0nat)]);
}

pub open spec fn pipeline_models(p: Seq<Pipeline>) -> Seq<PipelineModel> {
    p.map_values(|x: Pipeline| x@)
}

pub open spec fn command_models(c: Seq<Command>) -> Seq<CommandModel> {
    c.map_values(|x: Command| x@)
}

pub open spec fn word_models(w: Seq<Word>) -> Seq<WordModel> {
    w.map_values(|x: Word| x@)
}

pub open spec fn redirect_models(r: Seq<Redirect>) -> Seq<RedirectModel> {
    r.map_values(|x: Redirect| x@)
}

fn is1(t: &Vec<char>, a: char) -> (r: bool)
    ensures
        r == (t@ == seq![a]),
{
    let r = t.len() == 1 && t[0] == a;
    assert(r ==> t@ == seq![a]);
    r
}

fn is2(t: &Vec<char>, a: char, b: char) -> (r: bool)
    ensures
        r == (t@ == seq![a, b]),
{
    let r = t.len() == 2 && t[0] == a && t[1] == b;
    assert(r ==> t@ == seq![a, b]);
    r
}

fn is3(t: &Vec<char>, a: char, b: char, c: char) -> (r: bool)
    ensures
        r == (t@ == seq![a, b, c]),
{
    let r = t.len() == 3 && t[0] == a && t[1] == b && t[2] == c;
    assert(r ==> t@ == seq![a, b, c]);
    r
}

fn has_wildcard(t: &Vec<char>) -> (r: bool)
    ensures
        r == (t@.contains('*') || t@.contains('?')),
{
    let mut i: usize = 0;
    while i < t.len()
        invariant
            i <= t@.len(),
            forall|j: int| 0 <= j < i ==> t@[j] != '*' && t@[j] != '?',
        decreases t@.len() - i,
    {
        if t[i] == '*' || t[i] == '?' {
            assert(t@[i as int] == t[i as int]);
            return true;
        }
        i += 1;
    }
    false
}

fn redirect_kind(t: &Vec<char>) -> (r: Option<RedirectKind>)
    ensures
        r == redirect_kind_of(t@),
{
    if is1(t, '<') {
        Some(RedirectKind::Input)
    } else if is1(t, '>') {
        Some(RedirectKind::Output)
    } else if is2(t, '>', '>') {
        Some(RedirectKind::Append)
    } else if is2(t, '2', '>') {
        Some(RedirectKind::Error)
    } else if is3(t, '2', '>', '>') {
        Some(RedirectKind::ErrorAppend)
    } else {
        None
    }
}

fn fault_text(f: SyntaxFault) -> (r: String)
    ensures
        r@ == fault_message(f),
{
    match f {
        SyntaxFault::TrailingEscape => String::from_str("trailing escape"),
        SyntaxFault::UnterminatedQuote => String::from_str("unterminated quote"),
        SyntaxFault::BeforePipe => String::from_str("expected command before pipe"),
        SyntaxFault::ExpectedCommand => String::from_str("expected command"),
        SyntaxFault::RedirectPath => String::from_str("redirect requires a path"),
        SyntaxFault::AfterPipe => String::from_str("expected command after pipe"),
        SyntaxFault::AfterConditional => String::from_str(
            "expected command after conditional operator",
        ),
    }
}

fn syntax_error(column: usize, f: SyntaxFault) -> (r: ParseError)
    ensures
        r.column == column,
        r.message@ == fault_message(f),
{
    ParseError { column, message: fault_text(f) }
}

struct Builder {
    pipelines: Vec<Pipeline>,
    done: Vec<Command>,
    words: Vec<Word>,
    redirects: Vec<Redirect>,
    start: usize,
    condition: Condition,
    requires_command: bool,
}

impl Builder {
    spec fn model(&self, index: nat) -> ParseState {
        ParseState {
            index,
            pipelines: pipeline_models(self.pipelines@),
            done: command_models(self.done@),
            words: word_models(self.words@),
            redirects: redirect_models(self.redirects@),
            start: self.start as nat,
            condition: self.condition,
            requires_command: self.requires_command,
        }
    }

    /// Closes the current command and returns the commands of the pipeline so far.
    fn take_commands(&mut self) -> (res: Vec<Command>)
        ensures
            command_models(res@) == current_commands(old(self).model(0)),
            final(self).model(0) == (ParseState {
                done: Seq::empty(),
                words: Seq::empty(),
                redirects: Seq::empty(),
                ..old(self).model(0)
            }),
    {
        let mut words: Vec<Word> = Vec::new();
        std::mem::swap(&mut words, &mut self.words);
        let mut redirects: Vec<Redirect> = Vec::new();
        std::mem::swap(&mut redirects, &mut self.redirects);
        let mut commands: Vec<Command> = Vec::new();
        std::mem::swap(&mut commands, &mut self.done);
        let command = Command { words, redirects };
        let ghost before = commands@;
        commands.push(command);
        proof {
            assert(command_models(commands@) =~= command_models(before).push(command@));
            assert(command_models(self.done@) =~= Seq::<CommandModel>::empty());
            assert(word_models(self.words@) =~= Seq::<WordModel>::empty());
            assert(redirect_models(self.redirects@) =~= Seq::<RedirectModel>::empty());
        }
        commands
    }
}

/// Parses a command line into pipelines joined by `;`, `&`, `&&` and `||`.
pub fn parse_line(input: &str) -> (res: Result<Vec<Pipeline>, ParseError>)
    ensures
        match spec_parse_line(input@, input.len() as nat) {
            Ok(m) => res is Ok && pipeline_models(res->Ok_0@) == m,
            Err((column, fault)) => res is Err && res->Err_0.column == column
                && res->Err_0.message@ == fault_message(fault),
        },
{
    let chars = chars_of(input);
    let tokens = match tokenize(&chars) {
        Ok(t) => t,
        Err((column, fault)) => return Err(syntax_error(column, fault)),
    };
    let ghost tm = token_models(tokens@);
    let mut b = Builder {
        pipelines: Vec::new(),
        done: Vec::new(),
        words: Vec::new(),
        redirects: Vec::new(),
        start: 0,
        condition: Condition::Always,
        requires_command: false,
    };
    proof {
        assert(pipeline_models(b.pipelines@) =~= Seq::<PipelineModel>::empty());
        assert(command_models(b.done@) =~= Seq::<CommandModel>::empty());
        assert(word_models(b.words@) =~= Seq::<WordModel>::empty());
        assert(redirect_models(b.redirects@) =~= Seq::<RedirectModel>::empty());
        assert(b.model(0) == parse_start());
    }
    let ghost bytes = input.len() as nat;
    assert(chars@.len() == chars.len());
    let mut index: usize = 0;
    let n = tokens.len();
    while index < n
        invariant
            n == tokens@.len(),
            tm == token_models(tokens@),
            chars@ == input@,
            spec_tokenize(chars@) == Ok::<Seq<TokenModel>, (nat, SyntaxFault)>(tm),
            tokens_within(chars@.len(), tm),
            bytes == input.len() as nat,
            chars@.len() <= usize::MAX,
            index <= n,
            parse_from(tm, chars@, bytes, b.model(index as nat)) == spec_parse_line(
                input@,
                bytes,
            ),
        decreases n - index,
    {
        let ghost before = b.model(index as nat);
        let token = &tokens[index].0;
        let position = tokens[index].1;
        assert(tm[index as int] == (token@, position as nat));
        assert(tm[index as int].1 < chars@.len() && tm[index as int].1 + tm[index as int].0.len()
            <= chars@.len());
        assert(position < chars@.len() && position + token@.len() <= chars@.len());
        if is1(token, '|') {
            if b.words.len() == 0 {
                return Err(syntax_error(position + 1, SyntaxFault::BeforePipe));
            }
            let commands = b.take_commands();
            b.done = commands;
            index += 1;
        } else if is1(token, ';') || is1(token, '&') || is2(token, '&', '&')
            || is2(token, '|', '|') {
            if b.words.len() == 0 {
                return Err(syntax_error(position + 1, SyntaxFault::ExpectedCommand));
            }
            let commands = b.take_commands();
            let source = string_of(trimmed_slice(&chars, b.start, position).as_slice());
            let background = is1(token, '&');
            let pipeline = Pipeline { commands, background, source, condition: b.condition };
            let ghost old_pipelines = b.pipelines@;
            b.pipelines.push(pipeline);
            proof {
                assert(pipeline_models(b.pipelines@) =~= pipeline_models(old_pipelines).push(
                    pipeline@,
                ));
            }
            assert(position + token@.len() <= chars@.len());
            b.start = position + token.len();
            let double_and = is2(token, '&', '&');
            let double_or = is2(token, '|', '|');
            b.condition = if double_and {
                Condition::OnSuccess
            } else if double_or {
                Condition::OnFailure
            } else {
                Condition::Always
            };
            b.requires_command = double_and || double_or;
            index += 1;
        } else if let Some(kind) = redirect_kind(token) {
            if index + 1 >= n {
                assert(position < chars@.len());
                return Err(syntax_error(position + 1, SyntaxFault::RedirectPath));
            }
            let path = &tokens[index + 1].0;
            assert(tm[index + 1] == (path@, tokens@[index + 1].1 as nat));
            let is_operator = is1(path, '|') || is1(path, ';') || is1(path, '&') || is2(path, '&', '&')
                || is2(path, '|', '|') || redirect_kind(path).is_some();
            if is_operator {
                return Err(syntax_error(position + 1, SyntaxFault::RedirectPath));
            }
            let redirect = Redirect { kind, path: string_of(path.as_slice()) };
            let ghost old_redirects = b.redirects@;
            b.redirects.push(redirect);
            proof {
                assert(redirect_models(b.redirects@) =~= redirect_models(old_redirects).push(
                    redirect@,
                ));
            }
            index += 2;
        } else {
            let word = Word { text: string_of(token.as_slice()), has_glob: has_wildcard(token) };
            let ghost old_words = b.words@;
            b.words.push(word);
            proof {
                assert(word_models(b.words@) =~= word_models(old_words).push(word@));
            }
            b.requires_command = false;
            index += 1;
        }
        assert(parse_step(tm, chars@, before) == Ok::<ParseState, (nat, SyntaxFault)>(
            b.model(index as nat),
        ));
    }
    let ghost fin = b.model(index as nat);
    let mut any_words = b.words.len() > 0;
    let mut k: usize = 0;
    while k < b.done.len()
        invariant
            k <= b.done@.len(),
            fin == b.model(index as nat),
            any_words == (b.words@.len() > 0 || exists|i: int|
                0 <= i < k && #[trigger] command_models(b.done@)[i].words.len() > 0),
        decreases b.done@.len() - k,
    {
        assert(command_models(b.done@)[k as int] == b.done@[k as int]@);
        assert(b.done@[k as int]@.words.len() == b.done@[k as int].words@.len());
        if b.done[k].words.len() > 0 {
            any_words = true;
        }
        k += 1;
    }
    let ghost commands = current_commands(fin);
    assert(any_words == exists|i: int| 0 <= i < commands.len() && #[trigger] commands[i].words.len() > 0) by {
        if any_words {
            if b.words@.len() > 0 {
                assert(commands[commands.len() - 1].words.len() > 0);
            } else {
                let i = choose|i: int|
                    0 <= i < k && #[trigger] command_models(b.done@)[i].words.len() > 0;
                assert(commands[i].words.len() > 0);
            }
        } else {
            assert forall|i: int| 0 <= i < commands.len() implies !(#[trigger] commands[i].words.len() > 0) by {
                if i < commands.len() - 1 {
                    assert(command_models(b.done@)[i] == commands[i]);
                }
            }
        }
    }
    if any_words {
        if b.words.len() == 0 {
            return Err(syntax_error(input.len(), SyntaxFault::AfterPipe));
        }
        let commands = b.take_commands();
        let source = string_of(trimmed_slice(&chars, b.start, chars.len()).as_slice());
        let pipeline = Pipeline { commands, background: false, source, condition: b.condition };
        let ghost old_pipelines = b.pipelines@;
        b.pipelines.push(pipeline);
        proof {
            assert(pipeline_models(b.pipelines@) =~= pipeline_models(old_pipelines).push(
                pipeline@,
            ));
        }
    } else if b.requires_command {
        return Err(syntax_error(chars.len(), SyntaxFault::AfterConditional));
    }
    Ok(b.pipelines)
}

} // verus!

verus! {

impl ParseError {
    /// `column N: message`, as the shell reports the error.
    pub fn describe(&self) -> (r: String)
        ensures
            r@ == "column "@ + crate::numbers::decimal_text(self.column as nat) + ": "@
                + self.message@,
    {
        let mut r = String::from_str("column ");
        r.append(crate::numbers::decimal(self.column as u64).as_str());
        r.append(": ");
        r.append(self.message.as_str());
        r
    }
}

} // verus!
