use vstd::prelude::*;

use crate::numbers::{signed_decimal, signed_text};
use crate::parser::{Word, LITERAL_DOLLAR, LITERAL_QUESTION, LITERAL_STAR, LITERAL_TILDE};
use crate::table::Table;
use crate::parser::char_at;
use crate::text::{
    chars_between, chars_of, find_from, is_ascii_alnum, replace_all, replace_chars, starts_with,
    string_of,
};

verus! {

/// A character with the quoting markers turned back into what they stand for.
pub open spec fn restored_char(c: char) -> char {
    if c == LITERAL_STAR {
        '*'
    } else if c == LITERAL_QUESTION {
        '?'
    } else if c == LITERAL_TILDE {
        '~'
    } else {
        c
    }
}

pub open spec fn restored(w: Seq<char>) -> Seq<char> {
    w.map_values(|c: char| restored_char(c))
}

/// The word with the star, question mark and tilde markers restored.
pub fn restore_literals(word: &[char]) -> (r: Vec<char>)
    ensures
        r@ == restored(word@),
{
    let mut r: Vec<char> = Vec::new();
    let mut i: usize = 0;
    while i < word.len()
        invariant
            i <= word@.len(),
            r@ == restored(word@.take(i as int)),
        decreases word@.len() - i,
    {
        let c = word[i];
        let d = if c == LITERAL_STAR {
            '*'
        } else if c == LITERAL_QUESTION {
            '?'
        } else if c == LITERAL_TILDE {
            '~'
        } else {
            c
        };
        r.push(d);
        assert(word@.take(i + 1) == word@.take(i as int).push(c));
        assert(restored(word@.take(i + 1)) =~= restored(word@.take(i as int)).push(d));
        i += 1;
    }
    assert(word@.take(word@.len() as int) == word@);
    r
}

/// Whether `name` matches the wildcard pattern: `*` matches any run of
/// characters, `?` any one character, anything else itself.
pub open spec fn glob_match(pattern: Seq<char>, name: Seq<char>) -> bool
    decreases pattern.len(), name.len(),
{
    if pattern.len() == 0 {
        name.len() == 0
    } else if pattern.last() == '*' {
        glob_match(pattern.drop_last(), name) || (name.len() > 0 && glob_match(
            pattern,
            name.drop_last(),
        ))
    } else if name.len() == 0 {
        false
    } else if pattern.last() == '?' {
        glob_match(pattern.drop_last(), name.drop_last())
    } else {
        pattern.last() == name.last() && glob_match(pattern.drop_last(), name.drop_last())
    }
}

/// `*` alone matches every name.
pub proof fn lemma_star_matches_all(name: Seq<char>)
    ensures
        glob_match(seq!['*'], name),
    decreases name.len(),
{
    let star = seq!['*'];
    assert(star.drop_last() =~= Seq::<char>::empty());
    assert(star.len() == 1 && star.last() == '*');
    if name.len() > 0 {
        lemma_star_matches_all(name.drop_last());
        assert(glob_match(star, name.drop_last()));
    } else {
        assert(glob_match(star.drop_last(), name));
    }
}

/// A pattern with neither `*` nor `?` matches exactly the name it spells.
pub proof fn lemma_plain_pattern_matches_itself(pattern: Seq<char>, name: Seq<char>)
    requires
        forall|i: int| 0 <= i < pattern.len() ==> #[trigger] pattern[i] != '*' && pattern[i] != '?',
    ensures
        glob_match(pattern, name) <==> pattern == name,
    decreases pattern.len(),
{
    if pattern.len() == 0 {
        if name.len() == 0 {
            assert(pattern =~= name);
        }
    } else if name.len() == 0 {
        assert(pattern.last() != '*');
    } else {
        assert(pattern.last() == pattern[pattern.len() - 1]);
        lemma_plain_pattern_matches_itself(pattern.drop_last(), name.drop_last());
        if pattern == name {
            assert(pattern.drop_last() =~= name.drop_last());
        }
        if pattern.last() == name.last() && pattern.drop_last() == name.drop_last() {
            assert(pattern =~= name.drop_last().push(name.last()));
            assert(name =~= name.drop_last().push(name.last()));
        }
    }
}

/// Matches a name against a wildcard pattern, one pattern character at a time.
pub fn glob_matches(pattern: &str, name: &str) -> (r: bool)
    ensures
        r == glob_match(pattern@, name@),
{
    let p = chars_of(pattern);
    let n = chars_of(name);
    glob_matches_chars(p.as_slice(), n.as_slice())
}

pub fn glob_matches_chars(p: &[char], n: &[char]) -> (r: bool)
    ensures
        r == glob_match(p@, n@),
{
    let mut row: Vec<bool> = Vec::new();
    row.push(true);
    let mut j: usize = 0;
    while j < n.len()
        invariant
            j <= n@.len(),
            row@.len() == j + 1,
            forall|k: int| 0 <= k <= j ==> #[trigger] row@[k] == glob_match(Seq::<char>::empty(), n@.take(k)),
        decreases n@.len() - j,
    {
        row.push(false);
        j += 1;
    }
    assert(p@.take(0) =~= Seq::<char>::empty());
    let mut i: usize = 0;
    while i < p.len()
        invariant
            i <= p@.len(),
            row@.len() == n@.len() + 1,
            forall|k: int| 0 <= k <= n@.len() ==> #[trigger] row@[k] == glob_match(p@.take(i as int), n@.take(k)),
        decreases p@.len() - i,
    {
        let pc = p[i];
        let ghost pi = p@.take(i + 1);
        assert(pi.drop_last() =~= p@.take(i as int));
        assert(pi.last() == pc);
        let mut next: Vec<bool> = Vec::new();
        next.push(if pc == '*' {
            row[0]
        } else {
            false
        });
        assert(n@.take(0) =~= Seq::<char>::empty());
        let mut j: usize = 0;
        while j < n.len()
            invariant
                j <= n@.len(),
                i < p@.len(),
                pc == p@[i as int],
                pi == p@.take(i + 1),
                pi.drop_last() == p@.take(i as int),
                pi.last() == pc,
                row@.len() == n@.len() + 1,
                forall|k: int| 0 <= k <= n@.len() ==> #[trigger] row@[k] == glob_match(p@.take(i as int), n@.take(k)),
                next@.len() == j + 1,
                forall|k: int| 0 <= k <= j ==> #[trigger] next@[k] == glob_match(pi, n@.take(k)),
            decreases n@.len() - j,
        {
            let nc = n[j];
            let ghost nj = n@.take(j + 1);
            assert(nj.drop_last() =~= n@.take(j as int));
            assert(nj.last() == nc);
            let v = if pc == '*' {
                row[j + 1] || next[j]
            } else if pc == '?' {
                row[j]
            } else {
                row[j] && pc == nc
            };
            assert(v == glob_match(pi, nj));
            next.push(v);
            j += 1;
        }
        row = next;
        i += 1;
    }
    assert(p@.take(p@.len() as int) =~= p@);
    assert(n@.take(n@.len() as int) =~= n@);
    row[n.len()]
}

} // verus!

verus! {

pub open spec fn ident_char(c: char) -> bool {
    is_ascii_alnum(c) || c == '_'
}

/// The index where the name that starts at `j` ends.
pub open spec fn ident_end(w: Seq<char>, j: int) -> int
    decreases w.len() - j,
{
    if j < 0 || j >= w.len() || !ident_char(w[j]) {
        j
    } else {
        ident_end(w, j + 1)
    }
}

/// The value of a variable: empty where it is unset.
pub open spec fn lookup(env: Map<Seq<char>, Seq<char>>, name: Seq<char>) -> Seq<char> {
    if env.contains_key(name) {
        env[name]
    } else {
        Seq::empty()
    }
}

/// The word from index `i` on with `$NAME` and `${NAME}` replaced by their
/// values, and the dollar marker turned into `$`.
pub open spec fn substitute_from(w: Seq<char>, i: int, env: Map<Seq<char>, Seq<char>>) -> Seq<char>
    decreases w.len() - i,
{
    if i < 0 || i >= w.len() {
        Seq::empty()
    } else if w[i] == LITERAL_DOLLAR {
        seq!['$'] + substitute_from(w, i + 1, env)
    } else if w[i] != '$' {
        seq![w[i]] + substitute_from(w, i + 1, env)
    } else if char_at(w, i + 1) == Some('{') {
        match find_from(w, '}', i + 2) {
            None => seq!['$'] + substitute_from(w, i + 1, env),
            Some(end) => if i < end < w.len() {
                lookup(env, w.subrange(i + 2, end)) + substitute_from(w, end + 1, env)
            } else {
                Seq::empty()
            },
        }
    } else {
        let end = ident_end(w, i + 1);
        if end <= i + 1 {
            seq!['$'] + substitute_from(w, i + 1, env)
        } else if end <= w.len() {
            lookup(env, w.subrange(i + 1, end)) + substitute_from(w, end, env)
        } else {
            Seq::empty()
        }
    }
}

/// `~` alone or at the start of `~/...` replaced by the home directory, where one is set.
pub open spec fn expand_home(w: Seq<char>, env: Map<Seq<char>, Seq<char>>) -> Seq<char> {
    if env.contains_key("HOME"@) && w == seq!['~'] {
        env["HOME"@]
    } else if env.contains_key("HOME"@) && starts_with(w, seq!['~', '/']) {
        env["HOME"@] + seq!['/'] + w.subrange(2, w.len() as int)
    } else {
        w
    }
}

/// A word with its variables and home directory expanded from `env`.
pub open spec fn spec_variables(w: Seq<char>, env: Map<Seq<char>, Seq<char>>) -> Seq<char> {
    expand_home(substitute_from(w, 0, env), env)
}

proof fn lemma_ident_end(w: Seq<char>, j: int)
    requires
        0 <= j,
    ensures
        j <= ident_end(w, j),
        ident_end(w, j) <= w.len() || ident_end(w, j) == j,
    decreases w.len() - j,
{
    if j < w.len() && ident_char(w[j]) {
        lemma_ident_end(w, j + 1);
    }
}

fn ident_char_exec(c: char) -> (r: bool)
    ensures
        r == ident_char(c),
{
    crate::text::ascii_alnum(c) || c == '_'
}

fn value_of(env: &Table<String>, name: &[char]) -> (r: Vec<char>)
    ensures
        r@ == lookup(env.view(), name@),
{
    let key = string_of(name);
    match env.get(&key) {
        Some(v) => chars_of(v.as_str()),
        None => Vec::new(),
    }
}

fn append(out: &mut Vec<char>, more: &[char])
    ensures
        final(out)@ == old(out)@ + more@,
{
    let mut i: usize = 0;
    while i < more.len()
        invariant
            i <= more@.len(),
            out@ == old(out)@ + more@.take(i as int),
        decreases more@.len() - i,
    {
        out.push(more[i]);
        assert(more@.take(i + 1) == more@.take(i as int).push(more@[i as int]));
        i += 1;
    }
    assert(more@.take(more@.len() as int) == more@);
}

fn substitute(w: &[char], env: &Table<String>) -> (r: Vec<char>)
    ensures
        r@ == substitute_from(w@, 0, env.view()),
{
    let mut out: Vec<char> = Vec::new();
    let mut i: usize = 0;
    let len = w.len();
    while i < len
        invariant
            len == w@.len(),
            i <= len,
            out@ + substitute_from(w@, i as int, env.view()) == substitute_from(w@, 0, env.view()),
        decreases len - i,
    {
        let ghost before = out@;
        if w[i] == LITERAL_DOLLAR {
            out.push('$');
            i += 1;
        } else if w[i] != '$' {
            out.push(w[i]);
            i += 1;
        } else if i + 1 < len && w[i + 1] == '{' {
            assert(char_at(w@, i + 1) == Some('{'));
            proof {
                crate::text::lemma_find_from(w@, '}', i + 2);
            }
            let mut end = i + 2;
            while end < len && w[end] != '}'
                invariant
                    len == w@.len(),
                    i + 2 <= end <= len,
                    find_from(w@, '}', i + 2) == find_from(w@, '}', end as int),
                decreases len - end,
            {
                end += 1;
            }
            if end == len {
                out.push('$');
                i += 1;
            } else {
                let name = chars_between(w, i + 2, end);
                let value = value_of(env, name.as_slice());
                append(&mut out, value.as_slice());
                i = end + 1;
            }
        } else {
            assert(char_at(w@, i + 1) != Some('{'));
            proof {
                lemma_ident_end(w@, i + 1);
            }
            let mut end = i + 1;
            while end < len && ident_char_exec(w[end])
                invariant
                    len == w@.len(),
                    i + 1 <= end <= len,
                    ident_end(w@, i + 1) == ident_end(w@, end as int),
                decreases len - end,
            {
                end += 1;
            }
            if end == i + 1 {
                out.push('$');
                i += 1;
            } else {
                let name = chars_between(w, i + 1, end);
                let value = value_of(env, name.as_slice());
                append(&mut out, value.as_slice());
                i = end;
            }
        }
    }
    out
}

/// The word with `$NAME`, `${NAME}`, `~` and `~/` expanded from `env`; an
/// unset variable stands for nothing.
pub fn variables_in(word: &str, env: &Table<String>) -> (r: String)
    ensures
        r@ == spec_variables(word@, env.view()),
{
    let w = chars_of(word);
    let out = substitute(w.as_slice(), env);
    string_of(expand_home_chars(out.as_slice(), env).as_slice())
}

fn expand_home_chars(w: &[char], env: &Table<String>) -> (r: Vec<char>)
    ensures
        r@ == expand_home(w@, env.view()),
{
    let key = String::from_str("HOME");
    match env.get(&key) {
        None => chars_between(w, 0, w.len()),
        Some(home) => {
            if w.len() == 1 && w[0] == '~' {
                assert(w@ == seq!['~']);
                chars_of(home.as_str())
            } else if w.len() >= 2 && w[0] == '~' && w[1] == '/' {
                assert(starts_with(w@, seq!['~', '/'])) by {
                    assert(w@.subrange(0, 2) =~= seq!['~', '/']);
                }
                let mut r = chars_of(home.as_str());
                r.push('/');
                let rest = chars_between(w, 2, w.len());
                append(&mut r, rest.as_slice());
                r
            } else {
                assert(w@ != seq!['~']);
                assert(!starts_with(w@, seq!['~', '/'])) by {
                    if w@.len() >= 2 {
                        assert(w@.subrange(0, 2)[0] == w@[0]);
                        assert(w@.subrange(0, 2)[1] == w@[1]);
                    }
                }
                chars_between(w, 0, w.len())
            }
        },
    }
}

} // verus!

verus! {

/// The names that the substitution from index `i` looks up, in order.
pub open spec fn names_from(w: Seq<char>, i: int) -> Seq<Seq<char>>
    decreases w.len() - i,
{
    if i < 0 || i >= w.len() {
        Seq::empty()
    } else if w[i] == LITERAL_DOLLAR || w[i] != '$' {
        names_from(w, i + 1)
    } else if char_at(w, i + 1) == Some('{') {
        match find_from(w, '}', i + 2) {
            None => names_from(w, i + 1),
            Some(end) => if i < end < w.len() {
                seq![w.subrange(i + 2, end)] + names_from(w, end + 1)
            } else {
                Seq::empty()
            },
        }
    } else {
        let end = ident_end(w, i + 1);
        if end <= i + 1 {
            names_from(w, i + 1)
        } else if end <= w.len() {
            seq![w.subrange(i + 1, end)] + names_from(w, end)
        } else {
            Seq::empty()
        }
    }
}

/// Every name that expanding `w` reads: its variables, then `HOME`.
pub open spec fn referenced_names(w: Seq<char>) -> Seq<Seq<char>> {
    names_from(w, 0).push("HOME"@)
}

/// Two environments give the same values, or none, for each of `names`.
pub open spec fn agree_on(
    a: Map<Seq<char>, Seq<char>>,
    b: Map<Seq<char>, Seq<char>>,
    names: Seq<Seq<char>>,
) -> bool {
    forall|k: int|
        0 <= k < names.len() ==> (a.contains_key(#[trigger] names[k]) == b.contains_key(names[k]))
            && (a.contains_key(names[k]) ==> a[names[k]] == b[names[k]])
}

proof fn lemma_substitute_agree(
    w: Seq<char>,
    i: int,
    a: Map<Seq<char>, Seq<char>>,
    b: Map<Seq<char>, Seq<char>>,
)
    requires
        agree_on(a, b, names_from(w, i)),
    ensures
        substitute_from(w, i, a) == substitute_from(w, i, b),
    decreases w.len() - i,
{
    if i < 0 || i >= w.len() {
    } else if w[i] == LITERAL_DOLLAR || w[i] != '$' {
        lemma_substitute_agree(w, i + 1, a, b);
    } else if char_at(w, i + 1) == Some('{') {
        match find_from(w, '}', i + 2) {
            None => lemma_substitute_agree(w, i + 1, a, b),
            Some(end) => if i < end < w.len() {
                let ns = names_from(w, i);
                let rest = names_from(w, end + 1);
                assert(ns == seq![w.subrange(i + 2, end)] + rest);
                assert(ns[0] == w.subrange(i + 2, end));
                assert forall|k: int| 0 <= k < rest.len() implies (a.contains_key(#[trigger] rest[k])
                    == b.contains_key(rest[k])) && (a.contains_key(rest[k]) ==> a[rest[k]]
                    == b[rest[k]]) by {
                    assert(ns[k + 1] == rest[k]);
                }
                lemma_substitute_agree(w, end + 1, a, b);
            },
        }
    } else {
        let end = ident_end(w, i + 1);
        if end <= i + 1 {
            lemma_substitute_agree(w, i + 1, a, b);
        } else if end <= w.len() {
            let ns = names_from(w, i);
            let rest = names_from(w, end);
            assert(ns == seq![w.subrange(i + 1, end)] + rest);
            assert(ns[0] == w.subrange(i + 1, end));
            assert forall|k: int| 0 <= k < rest.len() implies (a.contains_key(#[trigger] rest[k])
                == b.contains_key(rest[k])) && (a.contains_key(rest[k]) ==> a[rest[k]]
                == b[rest[k]]) by {
                assert(ns[k + 1] == rest[k]);
            }
            lemma_substitute_agree(w, end, a, b);
        }
    }
}

/// Expanding a word reads the environment only at the names that
/// [`variable_names`] lists: two environments that agree there expand it alike.
pub proof fn lemma_variables_read_only_names(
    w: Seq<char>,
    a: Map<Seq<char>, Seq<char>>,
    b: Map<Seq<char>, Seq<char>>,
)
    requires
        agree_on(a, b, referenced_names(w)),
    ensures
        spec_variables(w, a) == spec_variables(w, b),
{
    let names = referenced_names(w);
    let ns = names_from(w, 0);
    assert forall|k: int| 0 <= k < ns.len() implies (a.contains_key(#[trigger] ns[k])
        == b.contains_key(ns[k])) && (a.contains_key(ns[k]) ==> a[ns[k]] == b[ns[k]]) by {
        assert(names[k] == ns[k]);
    }
    lemma_substitute_agree(w, 0, a, b);
    assert(names[ns.len() as int] == "HOME"@);
}

/// The names of the variables that expanding `word` reads, and `HOME`.
pub fn variable_names(word: &str) -> (r: Vec<String>)
    ensures
        crate::table::string_views(r@) == referenced_names(word@),
{
    let w = chars_of(word);
    let len = w.len();
    let mut names: Vec<String> = Vec::new();
    let mut i: usize = 0;
    while i < len
        invariant
            len == w@.len(),
            w@ == word@,
            i <= len,
            crate::table::string_views(names@) + names_from(w@, i as int) == names_from(w@, 0),
        decreases len - i,
    {
        let ghost before = crate::table::string_views(names@);
        if w[i] == LITERAL_DOLLAR || w[i] != '$' {
            i += 1;
        } else if i + 1 < len && w[i + 1] == '{' {
            assert(char_at(w@, i + 1) == Some('{'));
            proof {
                crate::text::lemma_find_from(w@, '}', i + 2);
            }
            let mut end = i + 2;
            while end < len && w[end] != '}'
                invariant
                    len == w@.len(),
                    i + 2 <= end <= len,
                    find_from(w@, '}', i + 2) == find_from(w@, '}', end as int),
                decreases len - end,
            {
                end += 1;
            }
            if end == len {
                i += 1;
            } else {
                let name = chars_between(w.as_slice(), i + 2, end);
                let s = string_of(name.as_slice());
                names.push(s);
                assert(crate::table::string_views(names@) =~= before.push(s@));
                assert(before.push(s@) + names_from(w@, end + 1) =~= before + (seq![s@] + names_from(w@, end + 1)));
                i = end + 1;
            }
        } else {
            assert(char_at(w@, i + 1) != Some('{'));
            proof {
                lemma_ident_end(w@, i + 1);
            }
            let mut end = i + 1;
            while end < len && ident_char_exec(w[end])
                invariant
                    len == w@.len(),
                    i + 1 <= end <= len,
                    ident_end(w@, i + 1) == ident_end(w@, end as int),
                decreases len - end,
            {
                end += 1;
            }
            if end == i + 1 {
                i += 1;
            } else {
                let name = chars_between(w.as_slice(), i + 1, end);
                let s = string_of(name.as_slice());
                names.push(s);
                assert(crate::table::string_views(names@) =~= before.push(s@));
                assert(before.push(s@) + names_from(w@, end as int) =~= before + (seq![s@] + names_from(w@, end as int)));
                i = end;
            }
        }
    }
    let ghost before = crate::table::string_views(names@);
    let home = String::from_str("HOME");
    names.push(home);
    assert(crate::table::string_views(names@) =~= before.push("HOME"@));
    names
}

/// A word as a command argument will have it: `$?` replaced by the last status,
/// variables expanded from `env`, and, for a word with unquoted wildcards, the
/// pattern to look for in the file system.
pub struct WordExpansion {
    pub pattern: Option<String>,
    pub literal: String,
}

pub open spec fn with_status(w: Seq<char>, status: i32) -> Seq<char> {
    replace_all(w, seq!['$', '?'], signed_text(status as int))
}

fn status_replaced(w: &str, status: i32) -> (r: String)
    ensures
        r@ == with_status(w@, status),
{
    let chars = chars_of(w);
    let st = signed_decimal(status as i64);
    let st_chars = chars_of(st.as_str());
    let out = replace_chars(chars.as_slice(), &['$', '?'], st_chars.as_slice());
    assert(['$', '?']@ == seq!['$', '?']);
    string_of(out.as_slice())
}

/// The words of a command argument before wildcards are looked up.
pub fn command_word(word: &Word, status: i32, env: &Table<String>) -> (r: WordExpansion)
    ensures
        ({
            let e = spec_variables(with_status(word.text@, status), env.view());
            &&& r.literal@ == restored(e)
            &&& match r.pattern {
                Some(p) => word.has_glob && p@ == e,
                None => !word.has_glob,
            }
        }),
{
    let replaced = status_replaced(word.text.as_str(), status);
    let expanded = variables_in(replaced.as_str(), env);
    let e = chars_of(expanded.as_str());
    let literal = string_of(restore_literals(e.as_slice()).as_slice());
    let pattern = if word.has_glob {
        Some(expanded)
    } else {
        None
    };
    WordExpansion { pattern, literal }
}

/// The words an argument becomes: the paths its pattern matched, if it had
/// a pattern and any matched, else the word itself.
pub fn resolve_word(expansion: WordExpansion, matches: Vec<String>) -> (r: Vec<String>)
    ensures
        if expansion.pattern is Some && matches@.len() > 0 {
            r@ == matches@
        } else {
            r@.len() == 1 && r@[0]@ == expansion.literal@
        },
{
    if expansion.pattern.is_some() && matches.len() > 0 {
        matches
    } else {
        let mut r: Vec<String> = Vec::new();
        r.push(expansion.literal);
        r
    }
}

/// A redirect path: `$?` replaced and variables expanded, with no wildcard lookup.
pub fn literal_word(word: &str, status: i32, env: &Table<String>) -> (r: String)
    ensures
        r@ == restored(spec_variables(with_status(word@, status), env.view())),
{
    let replaced = status_replaced(word, status);
    let expanded = variables_in(replaced.as_str(), env);
    let e = chars_of(expanded.as_str());
    string_of(restore_literals(e.as_slice()).as_slice())
}


/// A path component that holds a wildcard.
pub open spec fn has_wildcard(part: Seq<char>) -> bool {
    part.contains('*') || part.contains('?')
}

pub fn holds_wildcard(part: &str) -> (r: bool)
    ensures
        r == has_wildcard(part@),
{
    let p = chars_of(part);
    let mut i: usize = 0;
    while i < p.len()
        invariant
            i <= p@.len(),
            p@ == part@,
            forall|j: int| 0 <= j < i ==> p@[j] != '*' && p@[j] != '?',
        decreases p@.len() - i,
    {
        if p[i] == '*' || p[i] == '?' {
            assert(p@[i as int] == '*' || p@[i as int] == '?');
            return true;
        }
        i += 1;
    }
    false
}

/// An entry that a wildcard component picks: it matches, and it is hidden
/// only when the component asks for hidden names by starting with `.`.
pub open spec fn picks(part: Seq<char>, name: Seq<char>) -> bool {
    (!(name.len() > 0 && name[0] == '.') || (part.len() > 0 && part[0] == '.')) && glob_match(
        part,
        name,
    )
}

pub open spec fn picked_paths(directory: Seq<char>, part: Seq<char>, names: Seq<Seq<char>>) -> Seq<
    Seq<char>,
>
    decreases names.len(),
{
    if names.len() == 0 {
        Seq::empty()
    } else if picks(part, names.last()) {
        picked_paths(directory, part, names.drop_last()).push(
            crate::room::joined(directory, names.last()),
        )
    } else {
        picked_paths(directory, part, names.drop_last())
    }
}

/// The paths below `directory` of the entries, named `names`, that the
/// wildcard component `part` picks, in the order of the entries.
pub fn pick_entries(directory: &str, part: &str, names: &Vec<String>) -> (r: Vec<String>)
    ensures
        crate::table::string_views(r@) == picked_paths(
            directory@,
            part@,
            crate::table::string_views(names@),
        ),
{
    let d = chars_of(directory);
    let p = chars_of(part);
    let ghost all = crate::table::string_views(names@);
    let mut r: Vec<String> = Vec::new();
    let mut i: usize = 0;
    while i < names.len()
        invariant
            i <= names@.len(),
            d@ == directory@,
            p@ == part@,
            all == crate::table::string_views(names@),
            crate::table::string_views(r@) == picked_paths(directory@, part@, all.take(i as int)),
        decreases names@.len() - i,
    {
        let n = chars_of(names[i].as_str());
        assert(all[i as int] == n@);
        assert(all.take(i + 1).drop_last() =~= all.take(i as int));
        let hidden = n.len() > 0 && n[0] == '.';
        let wants_hidden = p.len() > 0 && p[0] == '.';
        if (!hidden || wants_hidden) && glob_matches_chars(p.as_slice(), n.as_slice()) {
            let ghost before = crate::table::string_views(r@);
            let path = crate::room::join_path(d.as_slice(), n.as_slice());
            r.push(string_of(path.as_slice()));
            assert(crate::table::string_views(r@) =~= before.push(path@));
        }
        i += 1;
    }
    assert(all.take(all.len() as int) =~= all);
    r
}

/// Sorted in text order, ties in any order.
pub open spec fn text_sorted(s: Seq<Seq<char>>) -> bool {
    forall|i: int, j: int| 0 <= i < j < s.len() ==> !crate::commands::text_lt(#[trigger] s[j], #[trigger] s[i])
}

/// The strings in text order: the same strings, each as often.
pub fn sort_texts(v: Vec<String>) -> (r: Vec<String>)
    ensures
        text_sorted(crate::table::string_views(r@)),
        crate::table::string_views(r@).to_multiset() == crate::table::string_views(v@).to_multiset(),
{
    broadcast use vstd::seq_lib::group_to_multiset_ensures;

    let ghost all = crate::table::string_views(v@);
    let mut rest = v;
    let mut sorted: Vec<String> = Vec::new();
    let mut k: usize = 0;
    assert(all.skip(0) =~= all);
    assert(all.take(0) =~= Seq::<Seq<char>>::empty());
    assert(all.len() == rest.len());
    while rest.len() > 0
        invariant
            k <= all.len(),
            all.len() <= usize::MAX,
            rest@.len() + k == all.len(),
            crate::table::string_views(rest@) == all.skip(k as int),
            text_sorted(crate::table::string_views(sorted@)),
            crate::table::string_views(sorted@).to_multiset() == all.take(k as int).to_multiset(),
        decreases rest@.len(),
    {
        let ghost before_rest = crate::table::string_views(rest@);
        let ghost old_rest = rest@;
        let item = rest.remove(0);
        let ghost x = item@;
        assert(before_rest[0] == x);
        assert forall|j: int| 0 <= j < rest@.len() implies #[trigger] crate::table::string_views(rest@)[j]
            == all.skip(k + 1)[j] by {
            assert(rest@[j] == old_rest[j + 1]);
            assert(before_rest[j + 1] == old_rest[j + 1]@);
        }
        assert(crate::table::string_views(rest@) =~= all.skip(k + 1));
        let c = chars_of(item.as_str());
        let ghost old_sorted = crate::table::string_views(sorted@);
        let mut pos: usize = 0;
        while pos < sorted.len()
            invariant
                pos <= sorted@.len(),
                old_sorted == crate::table::string_views(sorted@),
                c@ == x,
                forall|j: int| 0 <= j < pos ==> !crate::commands::text_lt(c@, #[trigger] old_sorted[j]),
            ensures
                pos <= sorted@.len(),
                old_sorted == crate::table::string_views(sorted@),
                forall|j: int| 0 <= j < pos ==> !crate::commands::text_lt(c@, #[trigger] old_sorted[j]),
                pos < sorted@.len() ==> crate::commands::text_lt(c@, old_sorted[pos as int]),
            decreases sorted@.len() - pos,
        {
            let here = chars_of(sorted[pos].as_str());
            assert(old_sorted[pos as int] == here@);
            if crate::commands::text_less(c.as_slice(), here.as_slice()) {
                break;
            }
            pos += 1;
        }
        sorted.insert(pos, item);
        let ghost now = crate::table::string_views(sorted@);
        assert(now =~= old_sorted.insert(pos as int, x));
        proof {
            assert forall|a: int, b: int| 0 <= a < b < now.len() implies !crate::commands::text_lt(
                #[trigger] now[b],
                #[trigger] now[a],
            ) by {
                if b < pos {
                    assert(now[a] == old_sorted[a] && now[b] == old_sorted[b]);
                } else if b == pos {
                    assert(now[a] == old_sorted[a]);
                } else if a < pos {
                    assert(now[a] == old_sorted[a] && now[b] == old_sorted[b - 1]);
                    if crate::commands::text_lt(now[b], now[a]) {
                        // old_sorted[b - 1] < old_sorted[a] contradicts sortedness
                    }
                } else if a == pos {
                    assert(now[b] == old_sorted[b - 1]);
                    assert(crate::commands::text_lt(x, old_sorted[pos as int]));
                    if b - 1 > pos {
                        if crate::commands::text_lt(old_sorted[b - 1], x) {
                            crate::commands::lemma_text_lt_transitive(old_sorted[b - 1], x, old_sorted[pos as int]);
                        }
                    } else {
                        if crate::commands::text_lt(old_sorted[b - 1], x) {
                            crate::commands::lemma_text_lt_transitive(x, old_sorted[b - 1], x);
                            crate::commands::lemma_text_lt_irreflexive(x);
                        }
                    }
                } else {
                    assert(now[a] == old_sorted[a - 1] && now[b] == old_sorted[b - 1]);
                }
            }
            vstd::seq_lib::to_multiset_insert(old_sorted, pos as int, x);
            assert(all[k as int] == x);
            assert(all.take(k + 1) =~= all.take(k as int).push(x));
            vstd::seq_lib::to_multiset_build(all.take(k as int), x);
            assert(now.to_multiset() == old_sorted.to_multiset().insert(x));
        }
        k += 1;
    }
    assert(all.take(all.len() as int) =~= all);
    sorted
}

/// The paths a wildcard pattern expands to, in text order: without the
/// `./` in front of a relative pattern that did not write it.
pub open spec fn shown_path(path: Seq<char>, absolute: bool, explicit_current: bool) -> Seq<char> {
    if !absolute && !explicit_current && starts_with(path, "./"@) {
        path.subrange(2, path.len() as int)
    } else {
        path
    }
}

pub fn finish_glob(paths: Vec<String>, absolute: bool, explicit_current: bool) -> (r: Vec<String>)
    ensures
        text_sorted(crate::table::string_views(r@)),
        crate::table::string_views(r@).to_multiset() == Seq::new(
            paths@.len(),
            |i: int| shown_path(paths@[i]@, absolute, explicit_current),
        ).to_multiset(),
{
    let ghost shown = Seq::new(
        paths@.len(),
        |i: int| shown_path(paths@[i]@, absolute, explicit_current),
    );
    let mut out: Vec<String> = Vec::new();
    let mut i: usize = 0;
    proof {
        reveal_strlit("./");
    }
    while i < paths.len()
        invariant
            i <= paths@.len(),
            shown == Seq::new(
                paths@.len(),
                |i: int| shown_path(paths@[i]@, absolute, explicit_current),
            ),
            crate::table::string_views(out@) == shown.take(i as int),
        decreases paths@.len() - i,
    {
        let p = chars_of(paths[i].as_str());
        proof {
            reveal_strlit("./");
        }
        let ghost before = crate::table::string_views(out@);
        let shown_now = if !absolute && !explicit_current && crate::text::has_prefix_str(p.as_slice(), "./") {
            string_of(chars_between(p.as_slice(), 2, p.len()).as_slice())
        } else {
            string_of(p.as_slice())
        };
        assert(shown_now@ == shown[i as int]);
        out.push(shown_now);
        assert(crate::table::string_views(out@) =~= before.push(shown[i as int]));
        assert(shown.take(i + 1) =~= shown.take(i as int).push(shown[i as int]));
        i += 1;
    }
    assert(shown.take(paths@.len() as int) =~= shown);
    sort_texts(out)
}

/// A component of a path as a wildcard walk uses it: none for an empty one
/// or `.`, else the component itself.
pub open spec fn kept_part(p: Seq<char>) -> Seq<Seq<char>> {
    if p.len() == 0 || p == seq!['.'] {
        Seq::empty()
    } else {
        seq![p]
    }
}

/// The components of `s` from the one that starts at `start`, scanning from `i`.
pub open spec fn parts_from(s: Seq<char>, start: int, i: int) -> Seq<Seq<char>>
    decreases s.len() - i,
{
    if i < start || i >= s.len() {
        if 0 <= start <= s.len() {
            kept_part(s.subrange(start, s.len() as int))
        } else {
            Seq::empty()
        }
    } else if s[i] == '/' {
        kept_part(s.subrange(start, i)) + parts_from(s, i + 1, i + 1)
    } else {
        parts_from(s, start, i + 1)
    }
}

/// The components of a path, as `Path::components` gives the ones that name
/// something: between slashes, without empty ones and `.`.
pub open spec fn path_parts(s: Seq<char>) -> Seq<Seq<char>> {
    parts_from(s, 0, 0)
}

/// One component of a wildcard pattern, as the walk takes it.
#[derive(Debug, Clone, PartialEq, Eq)]
pub enum GlobStep {
    /// Go into the entry of this name in each directory so far.
    Enter(String),
    /// Take the entries of each directory so far that this wildcard picks.
    Pick(String),
}

pub enum GlobStepModel {
    Enter(Seq<char>),
    Pick(Seq<char>),
}

impl View for GlobStep {
    type V = GlobStepModel;

    open spec fn view(&self) -> GlobStepModel {
        match self {
            GlobStep::Enter(p) => GlobStepModel::Enter(p@),
            GlobStep::Pick(p) => GlobStepModel::Pick(p@),
        }
    }
}

/// A wildcard component picks entries; any other is entered by name, its
/// quoted wildcards taken literally.
pub open spec fn glob_step_of(part: Seq<char>) -> GlobStepModel {
    if has_wildcard(part) {
        GlobStepModel::Pick(part)
    } else {
        GlobStepModel::Enter(restored(part))
    }
}

/// Where a wildcard walk starts and what it does at each component.
pub struct GlobPlan {
    /// `/` for an absolute pattern, else `.`.
    pub origin: String,
    pub absolute: bool,
    /// The pattern starts with `./`, which the paths found keep.
    pub explicit_current: bool,
    pub steps: Vec<GlobStep>,
}

pub open spec fn glob_step_views(v: Seq<GlobStep>) -> Seq<GlobStepModel> {
    v.map_values(|x: GlobStep| x@)
}

/// The walk's step for each component.
pub open spec fn glob_steps_of(parts: Seq<Seq<char>>) -> Seq<GlobStepModel> {
    parts.map_values(|p: Seq<char>| glob_step_of(p))
}

/// Each path with `part` below it.
pub open spec fn joined_all(paths: Seq<Seq<char>>, part: Seq<char>) -> Seq<Seq<char>> {
    paths.map_values(|c: Seq<char>| crate::room::joined(c, part))
}

fn part_step(part: &[char]) -> (r: GlobStep)
    ensures
        r@ == glob_step_of(part@),
{
    let text = string_of(part);
    if holds_wildcard(text.as_str()) {
        GlobStep::Pick(text)
    } else {
        GlobStep::Enter(string_of(restore_literals(part).as_slice()))
    }
}

/// The walk for a wildcard pattern.
pub fn glob_plan(pattern: &str) -> (r: GlobPlan)
    ensures
        r.absolute == (pattern@.len() > 0 && pattern@[0] == '/'),
        r.explicit_current == starts_with(pattern@, seq!['.', '/']),
        r.origin@ == (if r.absolute {
            seq!['/']
        } else {
            seq!['.']
        }),
        glob_step_views(r.steps@) == glob_steps_of(path_parts(pattern@)),
{
    let s = chars_of(pattern);
    let n = s.len();
    let mut steps: Vec<GlobStep> = Vec::new();
    let ghost parts: Seq<Seq<char>> = Seq::empty();
    let mut start: usize = 0;
    let mut i: usize = 0;
    while i < n
        invariant
            n == s@.len(),
            start <= i <= n,
            parts + parts_from(s@, start as int, i as int) == path_parts(s@),
            glob_step_views(steps@) == glob_steps_of(parts),
        decreases n - i,
    {
        if s[i] == '/' {
            let ghost before = steps@;
            let piece = chars_between(s.as_slice(), start, i);
            let ghost kept = kept_part(piece@);
            if piece.len() > 0 && !(piece.len() == 1 && piece[0] == '.') {
                assert(piece@ != seq!['.']);
                steps.push(part_step(piece.as_slice()));
            } else {
                if piece.len() == 1 {
                    assert(piece@ =~= seq!['.']);
                }
            }
            proof {
                assert(parts_from(s@, start as int, i as int) == kept + parts_from(
                    s@,
                    i + 1,
                    i + 1,
                ));
                assert(parts + kept + parts_from(s@, i + 1, i + 1) =~= parts + parts_from(
                    s@,
                    start as int,
                    i as int,
                ));
                assert(glob_step_views(steps@) =~= glob_step_views(before) + glob_steps_of(kept));
                assert(glob_steps_of(parts + kept) =~= glob_steps_of(parts) + glob_steps_of(kept));
                parts = parts + kept;
            }
            start = i + 1;
        } else {
            assert(parts_from(s@, start as int, i as int) == parts_from(s@, start as int, i + 1));
        }
        i += 1;
    }
    let ghost before = steps@;
    let piece = chars_between(s.as_slice(), start, n);
    let ghost kept = kept_part(piece@);
    if piece.len() > 0 && !(piece.len() == 1 && piece[0] == '.') {
        assert(piece@ != seq!['.']);
        steps.push(part_step(piece.as_slice()));
    } else {
        if piece.len() == 1 {
            assert(piece@ =~= seq!['.']);
        }
    }
    proof {
        assert(parts_from(s@, start as int, n as int) == kept);
        assert(parts + kept =~= path_parts(s@));
        assert(glob_step_views(steps@) =~= glob_step_views(before) + glob_steps_of(kept));
        assert(glob_steps_of(parts + kept) =~= glob_steps_of(parts) + glob_steps_of(kept));
    }
    let absolute = n > 0 && s[0] == '/';
    let explicit_current = n >= 2 && s[0] == '.' && s[1] == '/';
    proof {
        if explicit_current {
            assert(s@.subrange(0, 2) =~= seq!['.', '/']);
        }
        if n >= 2 && starts_with(s@, seq!['.', '/']) {
            assert(s@.subrange(0, 2)[0] == s@[0]);
            assert(s@.subrange(0, 2)[1] == s@[1]);
        }
    }
    let origin = if absolute {
        let mut o = String::new();
        crate::text::push_char(&mut o, '/');
        o
    } else {
        let mut o = String::new();
        crate::text::push_char(&mut o, '.');
        o
    };
    proof {
        assert(Seq::<char>::empty().push('/') =~= seq!['/']);
        assert(Seq::<char>::empty().push('.') =~= seq!['.']);
    }
    GlobPlan { origin, absolute, explicit_current, steps }
}

/// Each path so far with the component `part` below it.
pub fn enter_all(candidates: &Vec<String>, part: &str) -> (r: Vec<String>)
    ensures
        crate::table::string_views(r@) == joined_all(crate::table::string_views(candidates@), part@),
{
    let p = chars_of(part);
    let ghost all = crate::table::string_views(candidates@);
    let mut r: Vec<String> = Vec::new();
    let mut i: usize = 0;
    while i < candidates.len()
        invariant
            i <= candidates@.len(),
            p@ == part@,
            all == crate::table::string_views(candidates@),
            crate::table::string_views(r@) == joined_all(all.take(i as int), part@),
        decreases candidates@.len() - i,
    {
        let c = chars_of(candidates[i].as_str());
        assert(all[i as int] == c@);
        let j = crate::room::join_path(c.as_slice(), p.as_slice());
        let ghost before = crate::table::string_views(r@);
        r.push(string_of(j.as_slice()));
        assert(crate::table::string_views(r@) =~= before.push(crate::room::joined(c@, part@)));
        assert(joined_all(all.take(i + 1), part@) =~= joined_all(all.take(i as int), part@).push(
            crate::room::joined(c@, part@),
        ));
        i += 1;
    }
    assert(all.take(all.len() as int) =~= all);
    r
}

proof fn lemma_find_shift(a: Seq<char>, b: Seq<char>, c: char, i: int)
    requires
        0 <= i,
    ensures
        find_from(a + b, c, a.len() + i) == (match find_from(b, c, i) {
            Some(k) => Some(a.len() + k),
            None => None,
        }),
    decreases b.len() - i,
{
    if i < b.len() {
        assert((a + b)[a.len() + i] == b[i]);
        if b[i] != c {
            lemma_find_shift(a, b, c, i + 1);
        }
    }
}

proof fn lemma_ident_shift(a: Seq<char>, b: Seq<char>, j: int)
    requires
        0 <= j,
    ensures
        ident_end(a + b, a.len() + j) == a.len() + ident_end(b, j),
    decreases b.len() - j,
{
    if j < b.len() {
        assert((a + b)[a.len() + j] == b[j]);
        if ident_char(b[j]) {
            lemma_ident_shift(a, b, j + 1);
        }
    }
}

proof fn lemma_substitute_shift(a: Seq<char>, b: Seq<char>, i: int, env: Map<Seq<char>, Seq<char>>)
    requires
        0 <= i,
    ensures
        substitute_from(a + b, a.len() + i, env) == substitute_from(b, i, env),
    decreases b.len() - i,
{
    let w = a + b;
    let o = a.len() as int;
    if i < b.len() {
        assert(w[o + i] == b[i]);
        assert(char_at(w, o + i + 1) == char_at(b, i + 1));
        if b[i] == LITERAL_DOLLAR || b[i] != '$' {
            lemma_substitute_shift(a, b, i + 1, env);
        } else if char_at(b, i + 1) == Some('{') {
            lemma_find_shift(a, b, '}', i + 2);
            match find_from(b, '}', i + 2) {
                None => {
                    lemma_substitute_shift(a, b, i + 1, env);
                },
                Some(end) => {
                    crate::text::lemma_find_from(b, '}', i + 2);
                    if i < end < b.len() {
                        assert(w.subrange(o + i + 2, o + end) =~= b.subrange(i + 2, end));
                        lemma_substitute_shift(a, b, end + 1, env);
                    }
                },
            }
        } else {
            lemma_ident_shift(a, b, i + 1);
            let end = ident_end(b, i + 1);
            lemma_ident_end(b, i + 1);
            if end > i + 1 && end <= b.len() {
                assert(w.subrange(o + i + 1, o + end) =~= b.subrange(i + 1, end));
                lemma_substitute_shift(a, b, end, env);
            } else if end <= i + 1 {
                lemma_substitute_shift(a, b, i + 1, env);
            }
        }
    }
}

/// An ASCII letter, digit or `_`: what a plain `$NAME` is made of.
pub open spec fn name_letter(c: char) -> bool {
    ('a' <= c && c <= 'z') || ('A' <= c && c <= 'Z') || ('0' <= c && c <= '9') || c == '_'
}

proof fn lemma_name_end(w: Seq<char>, n: Seq<char>, j: int)
    requires
        1 <= j <= n.len() + 1,
        n.len() + 1 < w.len(),
        forall|k: int| 0 <= k < n.len() ==> w[k + 1] == n[k] && name_letter(#[trigger] n[k]),
        !name_letter(w[n.len() + 1int]),
    ensures
        ident_end(w, j) == n.len() + 1,
    decreases n.len() + 1 - j,
{
    if j <= n.len() {
        assert(name_letter(n[j - 1]));
        assert(ident_char(w[j]));
        lemma_name_end(w, n, j + 1);
    } else {
        assert(!ident_char(w[j]));
    }
}

/// A plain `$NAME` reads only ASCII letters, digits and `_`: the name ends at
/// the first other character, which stays in the word after the value.
pub proof fn lemma_name_ends_at_other_char(
    n: Seq<char>,
    c: char,
    rest: Seq<char>,
    env: Map<Seq<char>, Seq<char>>,
)
    requires
        n.len() > 0,
        forall|k: int| 0 <= k < n.len() ==> name_letter(#[trigger] n[k]),
        !name_letter(c),
    ensures
        substitute_from(seq!['$'] + n + seq![c] + rest, 0, env) == lookup(env, n) + substitute_from(
            seq![c] + rest,
            0,
            env,
        ),
        !env.contains_key("HOME"@) ==> spec_variables(seq!['$'] + n + seq![c] + rest, env)
            == lookup(env, n) + spec_variables(seq![c] + rest, env),
{
    let head = seq!['$'] + n;
    let tail = seq![c] + rest;
    let w = seq!['$'] + n + seq![c] + rest;
    assert(w =~= head + tail);
    assert(w[0] == '$');
    assert(LITERAL_DOLLAR != '$');
    assert(w[1] == n[0]);
    assert(n[0] != '{') by {
        assert(name_letter(n[0]));
    }
    assert(w[n.len() + 1int] == c);
    assert forall|k: int| 0 <= k < n.len() implies w[k + 1] == n[k] && name_letter(#[trigger] n[k]) by {}
    lemma_name_end(w, n, 1);
    assert(w.subrange(1, n.len() + 1int) =~= n);
    lemma_substitute_shift(head, tail, 0, env);
    assert(head.len() + 0 == n.len() + 1);
}

/// `${NAME}` reads the whole name between the braces, whatever it holds.
pub proof fn lemma_braced_name(n: Seq<char>, rest: Seq<char>, env: Map<Seq<char>, Seq<char>>)
    requires
        forall|k: int| 0 <= k < n.len() ==> #[trigger] n[k] != '}',
    ensures
        substitute_from(seq!['$', '{'] + n + seq!['}'] + rest, 0, env) == lookup(env, n)
            + substitute_from(rest, 0, env),
{
    let head = seq!['$', '{'] + n + seq!['}'];
    let w = seq!['$', '{'] + n + seq!['}'] + rest;
    assert(w =~= head + rest);
    let close = n.len() + 2int;
    assert(w[0] == '$' && w[1] == '{');
    assert(LITERAL_DOLLAR != '$');
    assert(w[close] == '}');
    crate::text::lemma_find_from(w, '}', 2);
    assert(find_from(w, '}', 2) == Some(close)) by {
        match find_from(w, '}', 2) {
            Some(k) => {
                if k < close {
                    assert(w[k] == n[k - 2]);
                }
                if k > close {
                    assert(w[close] != '}');
                }
            },
            None => {
                assert(w[close] != '}');
            },
        }
    }
    assert(w.subrange(2, close) =~= n);
    lemma_substitute_shift(head, rest, 0, env);
}

/// A `$` that no name or brace follows stays a `$`.
pub proof fn lemma_lone_dollar(c: char, rest: Seq<char>, env: Map<Seq<char>, Seq<char>>)
    requires
        !name_letter(c),
        c != '{',
    ensures
        substitute_from(seq!['$', c] + rest, 0, env) == seq!['$'] + substitute_from(
            seq![c] + rest,
            0,
            env,
        ),
{
    let w = seq!['$', c] + rest;
    assert(w =~= seq!['$'] + (seq![c] + rest));
    assert(w[0] == '$' && w[1] == c);
    assert(LITERAL_DOLLAR != '$');
    assert(!ident_char(c));
    assert(ident_end(w, 1) == 1);
    lemma_substitute_shift(seq!['$'], seq![c] + rest, 0, env);
}

proof fn lemma_plain_substitute(w: Seq<char>, i: int, env: Map<Seq<char>, Seq<char>>)
    requires
        0 <= i <= w.len(),
        forall|k: int| 0 <= k < w.len() ==> #[trigger] w[k] != '$' && w[k] != LITERAL_DOLLAR,
    ensures
        substitute_from(w, i, env) == w.subrange(i, w.len() as int),
    decreases w.len() - i,
{
    if i < w.len() {
        lemma_plain_substitute(w, i + 1, env);
        assert(w.subrange(i, w.len() as int) =~= seq![w[i]] + w.subrange(i + 1, w.len() as int));
    } else {
        assert(w.subrange(i, w.len() as int) =~= Seq::<char>::empty());
    }
}

/// A word with no `$` keeps its text, but for a leading `~` or `~/`, which
/// becomes the home directory when `HOME` is set.
pub proof fn lemma_home_word(w: Seq<char>, env: Map<Seq<char>, Seq<char>>)
    requires
        forall|k: int| 0 <= k < w.len() ==> #[trigger] w[k] != '$' && w[k] != LITERAL_DOLLAR,
    ensures
        env.contains_key("HOME"@) && w.len() >= 2 && w[0] == '~' && w[1] == '/' ==> spec_variables(
            w,
            env,
        ) == env["HOME"@] + seq!['/'] + w.subrange(2, w.len() as int),
        env.contains_key("HOME"@) && w == seq!['~'] ==> spec_variables(w, env) == env["HOME"@],
        !(w.len() > 0 && w[0] == '~') ==> spec_variables(w, env) == w,
{
    lemma_plain_substitute(w, 0, env);
    assert(w.subrange(0, w.len() as int) =~= w);
    if w.len() >= 2 && w[0] == '~' && w[1] == '/' {
        assert(w.subrange(0, 2) =~= seq!['~', '/']);
    }
    if !(w.len() > 0 && w[0] == '~') {
        if w.len() >= 2 {
            assert(w.subrange(0, 2)[0] != '~');
        }
        assert(w != seq!['~']);
    }
}

} // verus!
