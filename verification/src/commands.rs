use vstd::prelude::*;

use crate::text::{chars_of, string_of};

verus! {

/// The commands the shell runs itself.
pub open spec fn builtin_names() -> Seq<Seq<char>> {
    seq![
        "bg"@,
        "cd"@,
        "dirs"@,
        "exit"@,
        "export"@,
        "fg"@,
        "history"@,
        "jobs"@,
        "popd"@,
        "pushd"@,
        "pwd"@,
        "reload"@,
        "room"@,
        "type"@,
        "unset"@,
    ]
}

/// Words the shell treats specially before it looks up a command.
pub open spec fn special_names() -> Seq<Seq<char>> {
    seq!["!notify"@, "doas"@, "sudo"@]
}

pub fn builtins() -> (r: Vec<String>)
    ensures
        crate::table::string_views(r@) == builtin_names(),
{
    let mut r: Vec<String> = Vec::new();
    r.push(String::from_str("bg"));
    r.push(String::from_str("cd"));
    r.push(String::from_str("dirs"));
    r.push(String::from_str("exit"));
    r.push(String::from_str("export"));
    r.push(String::from_str("fg"));
    r.push(String::from_str("history"));
    r.push(String::from_str("jobs"));
    r.push(String::from_str("popd"));
    r.push(String::from_str("pushd"));
    r.push(String::from_str("pwd"));
    r.push(String::from_str("reload"));
    r.push(String::from_str("room"));
    r.push(String::from_str("type"));
    r.push(String::from_str("unset"));
    assert(crate::table::string_views(r@) =~= builtin_names());
    r
}

pub fn specials() -> (r: Vec<String>)
    ensures
        crate::table::string_views(r@) == special_names(),
{
    let mut r: Vec<String> = Vec::new();
    r.push(String::from_str("!notify"));
    r.push(String::from_str("doas"));
    r.push(String::from_str("sudo"));
    assert(crate::table::string_views(r@) =~= special_names());
    r
}

/// Whether the shell runs `name` itself.
pub fn is_builtin(name: &str) -> (r: bool)
    ensures
        r == builtin_names().contains(name@),
{
    let names = builtins();
    let n = String::from_str(name);
    let mut i: usize = 0;
    while i < names.len()
        invariant
            i <= names@.len(),
            crate::table::string_views(names@) == builtin_names(),
            n@ == name@,
            forall|j: int| 0 <= j < i ==> builtin_names()[j] != name@,
        decreases names@.len() - i,
    {
        assert(crate::table::string_views(names@)[i as int] == names@[i as int]@);
        if names[i].eq(&n) {
            assert(builtin_names()[i as int] == name@);
            return true;
        }
        i += 1;
    }
    false
}

/// Whether `name` is special syntax of the shell.
pub fn is_special(name: &str) -> (r: bool)
    ensures
        r == special_names().contains(name@),
{
    let names = specials();
    let n = String::from_str(name);
    let mut i: usize = 0;
    while i < names.len()
        invariant
            i <= names@.len(),
            crate::table::string_views(names@) == special_names(),
            n@ == name@,
            forall|j: int| 0 <= j < i ==> special_names()[j] != name@,
        decreases names@.len() - i,
    {
        assert(crate::table::string_views(names@)[i as int] == names@[i as int]@);
        if names[i].eq(&n) {
            assert(special_names()[i as int] == name@);
            return true;
        }
        i += 1;
    }
    false
}

/// Levenshtein distance: the fewest insertions, deletions and substitutions
/// of single characters that turn `a` into `b`.
pub open spec fn edit_distance(a: Seq<char>, b: Seq<char>) -> nat
    decreases a.len() + b.len(),
{
    if a.len() == 0 {
        b.len()
    } else if b.len() == 0 {
        a.len()
    } else {
        let sub = edit_distance(a.drop_last(), b.drop_last()) + if a.last() == b.last() {
            0nat
        } else {
            1nat
        };
        let del = edit_distance(a.drop_last(), b) + 1;
        let ins = edit_distance(a, b.drop_last()) + 1;
        let m = if sub <= del {
            sub
        } else {
            del
        };
        if m <= ins {
            m
        } else {
            ins
        }
    }
}

/// The edit distance reads the same both ways.
pub proof fn lemma_edit_distance_symmetric(a: Seq<char>, b: Seq<char>)
    ensures
        edit_distance(a, b) == edit_distance(b, a),
    decreases a.len() + b.len(),
{
    if a.len() > 0 && b.len() > 0 {
        lemma_edit_distance_symmetric(a.drop_last(), b.drop_last());
        lemma_edit_distance_symmetric(a.drop_last(), b);
        lemma_edit_distance_symmetric(a, b.drop_last());
    }
}

/// Texts are at distance zero exactly when they are equal, and the empty text
/// is as far from another as that one is long.
pub proof fn lemma_edit_distance_zero(a: Seq<char>, b: Seq<char>)
    ensures
        edit_distance(a, b) == 0 <==> a == b,
        edit_distance(Seq::empty(), b) == b.len(),
    decreases a.len() + b.len(),
{
    if a.len() > 0 && b.len() > 0 {
        lemma_edit_distance_zero(a.drop_last(), b.drop_last());
        if a == b {
            assert(a.drop_last() == b.drop_last());
        }
        if edit_distance(a, b) == 0 {
            assert(a.drop_last() == b.drop_last());
            assert(a =~= a.drop_last().push(a.last()));
            assert(b =~= b.drop_last().push(b.last()));
        }
    } else if a.len() == 0 && b.len() > 0 {
        assert(a != b);
    } else if a.len() > 0 {
        assert(a != b);
    } else {
        assert(a =~= b);
    }
}

proof fn lemma_edit_edges(a: Seq<char>, b: Seq<char>, i: int, j: int)
    requires
        0 <= i <= a.len(),
        0 <= j <= b.len(),
        i == 0 || j == 0,
    ensures
        edit_distance(a.take(i), b.take(j)) == if i == 0 {
            j
        } else {
            i
        },
{
}

proof fn lemma_edit_step(a: Seq<char>, b: Seq<char>, i: int, j: int)
    requires
        0 < i <= a.len(),
        0 < j <= b.len(),
    ensures
        ({
            let sub = edit_distance(a.take(i - 1), b.take(j - 1)) + if a[i - 1] == b[j - 1] {
                0nat
            } else {
                1nat
            };
            let del = edit_distance(a.take(i - 1), b.take(j)) + 1;
            let ins = edit_distance(a.take(i), b.take(j - 1)) + 1;
            let m = if sub <= del {
                sub
            } else {
                del
            };
            edit_distance(a.take(i), b.take(j)) == if m <= ins {
                m
            } else {
                ins
            }
        }),
{
    assert(a.take(i).drop_last() =~= a.take(i - 1));
    assert(b.take(j).drop_last() =~= b.take(j - 1));
    assert(a.take(i).last() == a[i - 1]);
    assert(b.take(j).last() == b[j - 1]);
}

/// The worked examples of the edit distance: `kitten` is three edits from
/// `sitting`, and `cagro` two from `cargo`.
pub proof fn lemma_edit_distance_examples()
    ensures
        edit_distance("kitten"@, "sitting"@) == 3,
        edit_distance("cagro"@, "cargo"@) == 2,
{
    lemma_kitten_sitting();
    lemma_cagro_cargo();
}

proof fn lemma_kitten_sitting()
    ensures
        edit_distance("kitten"@, "sitting"@) == 3,
{
    let a = "kitten"@;
    let b = "sitting"@;
    reveal_strlit("kitten");
    reveal_strlit("sitting");
    lemma_edit_edges(a, b, 0, 0);
    lemma_edit_edges(a, b, 1, 0);
    lemma_edit_edges(a, b, 2, 0);
    lemma_edit_edges(a, b, 3, 0);
    lemma_edit_edges(a, b, 4, 0);
    lemma_edit_edges(a, b, 5, 0);
    lemma_edit_edges(a, b, 6, 0);
    lemma_edit_edges(a, b, 0, 1);
    lemma_edit_edges(a, b, 0, 2);
    lemma_edit_edges(a, b, 0, 3);
    lemma_edit_edges(a, b, 0, 4);
    lemma_edit_edges(a, b, 0, 5);
    lemma_edit_edges(a, b, 0, 6);
    lemma_edit_edges(a, b, 0, 7);
    lemma_edit_step(a, b, 1, 1);
    assert(edit_distance(a.take(1), b.take(1)) == 1);
    lemma_edit_step(a, b, 1, 2);
    assert(edit_distance(a.take(1), b.take(2)) == 2);
    lemma_edit_step(a, b, 1, 3);
    assert(edit_distance(a.take(1), b.take(3)) == 3);
    lemma_edit_step(a, b, 1, 4);
    assert(edit_distance(a.take(1), b.take(4)) == 4);
    lemma_edit_step(a, b, 1, 5);
    assert(edit_distance(a.take(1), b.take(5)) == 5);
    lemma_edit_step(a, b, 1, 6);
    assert(edit_distance(a.take(1), b.take(6)) == 6);
    lemma_edit_step(a, b, 1, 7);
    assert(edit_distance(a.take(1), b.take(7)) == 7);
    lemma_edit_step(a, b, 2, 1);
    assert(edit_distance(a.take(2), b.take(1)) == 2);
    lemma_edit_step(a, b, 2, 2);
    assert(edit_distance(a.take(2), b.take(2)) == 1);
    lemma_edit_step(a, b, 2, 3);
    assert(edit_distance(a.take(2), b.take(3)) == 2);
    lemma_edit_step(a, b, 2, 4);
    assert(edit_distance(a.take(2), b.take(4)) == 3);
    lemma_edit_step(a, b, 2, 5);
    assert(edit_distance(a.take(2), b.take(5)) == 4);
    lemma_edit_step(a, b, 2, 6);
    assert(edit_distance(a.take(2), b.take(6)) == 5);
    lemma_edit_step(a, b, 2, 7);
    assert(edit_distance(a.take(2), b.take(7)) == 6);
    lemma_edit_step(a, b, 3, 1);
    assert(edit_distance(a.take(3), b.take(1)) == 3);
    lemma_edit_step(a, b, 3, 2);
    assert(edit_distance(a.take(3), b.take(2)) == 2);
    lemma_edit_step(a, b, 3, 3);
    assert(edit_distance(a.take(3), b.take(3)) == 1);
    lemma_edit_step(a, b, 3, 4);
    assert(edit_distance(a.take(3), b.take(4)) == 2);
    lemma_edit_step(a, b, 3, 5);
    assert(edit_distance(a.take(3), b.take(5)) == 3);
    lemma_edit_step(a, b, 3, 6);
    assert(edit_distance(a.take(3), b.take(6)) == 4);
    lemma_edit_step(a, b, 3, 7);
    assert(edit_distance(a.take(3), b.take(7)) == 5);
    lemma_edit_step(a, b, 4, 1);
    assert(edit_distance(a.take(4), b.take(1)) == 4);
    lemma_edit_step(a, b, 4, 2);
    assert(edit_distance(a.take(4), b.take(2)) == 3);
    lemma_edit_step(a, b, 4, 3);
    assert(edit_distance(a.take(4), b.take(3)) == 2);
    lemma_edit_step(a, b, 4, 4);
    assert(edit_distance(a.take(4), b.take(4)) == 1);
    lemma_edit_step(a, b, 4, 5);
    assert(edit_distance(a.take(4), b.take(5)) == 2);
    lemma_edit_step(a, b, 4, 6);
    assert(edit_distance(a.take(4), b.take(6)) == 3);
    lemma_edit_step(a, b, 4, 7);
    assert(edit_distance(a.take(4), b.take(7)) == 4);
    lemma_edit_step(a, b, 5, 1);
    assert(edit_distance(a.take(5), b.take(1)) == 5);
    lemma_edit_step(a, b, 5, 2);
    assert(edit_distance(a.take(5), b.take(2)) == 4);
    lemma_edit_step(a, b, 5, 3);
    assert(edit_distance(a.take(5), b.take(3)) == 3);
    lemma_edit_step(a, b, 5, 4);
    assert(edit_distance(a.take(5), b.take(4)) == 2);
    lemma_edit_step(a, b, 5, 5);
    assert(edit_distance(a.take(5), b.take(5)) == 2);
    lemma_edit_step(a, b, 5, 6);
    assert(edit_distance(a.take(5), b.take(6)) == 3);
    lemma_edit_step(a, b, 5, 7);
    assert(edit_distance(a.take(5), b.take(7)) == 4);
    lemma_edit_step(a, b, 6, 1);
    assert(edit_distance(a.take(6), b.take(1)) == 6);
    lemma_edit_step(a, b, 6, 2);
    assert(edit_distance(a.take(6), b.take(2)) == 5);
    lemma_edit_step(a, b, 6, 3);
    assert(edit_distance(a.take(6), b.take(3)) == 4);
    lemma_edit_step(a, b, 6, 4);
    assert(edit_distance(a.take(6), b.take(4)) == 3);
    lemma_edit_step(a, b, 6, 5);
    assert(edit_distance(a.take(6), b.take(5)) == 3);
    lemma_edit_step(a, b, 6, 6);
    assert(edit_distance(a.take(6), b.take(6)) == 2);
    lemma_edit_step(a, b, 6, 7);
    assert(edit_distance(a.take(6), b.take(7)) == 3);
    assert(a.take(6) =~= a);
    assert(b.take(7) =~= b);
}

proof fn lemma_cagro_cargo()
    ensures
        edit_distance("cagro"@, "cargo"@) == 2,
{
    let a = "cagro"@;
    let b = "cargo"@;
    reveal_strlit("cagro");
    reveal_strlit("cargo");
    lemma_edit_edges(a, b, 0, 0);
    lemma_edit_edges(a, b, 1, 0);
    lemma_edit_edges(a, b, 2, 0);
    lemma_edit_edges(a, b, 3, 0);
    lemma_edit_edges(a, b, 4, 0);
    lemma_edit_edges(a, b, 5, 0);
    lemma_edit_edges(a, b, 0, 1);
    lemma_edit_edges(a, b, 0, 2);
    lemma_edit_edges(a, b, 0, 3);
    lemma_edit_edges(a, b, 0, 4);
    lemma_edit_edges(a, b, 0, 5);
    lemma_edit_step(a, b, 1, 1);
    assert(edit_distance(a.take(1), b.take(1)) == 0);
    lemma_edit_step(a, b, 1, 2);
    assert(edit_distance(a.take(1), b.take(2)) == 1);
    lemma_edit_step(a, b, 1, 3);
    assert(edit_distance(a.take(1), b.take(3)) == 2);
    lemma_edit_step(a, b, 1, 4);
    assert(edit_distance(a.take(1), b.take(4)) == 3);
    lemma_edit_step(a, b, 1, 5);
    assert(edit_distance(a.take(1), b.take(5)) == 4);
    lemma_edit_step(a, b, 2, 1);
    assert(edit_distance(a.take(2), b.take(1)) == 1);
    lemma_edit_step(a, b, 2, 2);
    assert(edit_distance(a.take(2), b.take(2)) == 0);
    lemma_edit_step(a, b, 2, 3);
    assert(edit_distance(a.take(2), b.take(3)) == 1);
    lemma_edit_step(a, b, 2, 4);
    assert(edit_distance(a.take(2), b.take(4)) == 2);
    lemma_edit_step(a, b, 2, 5);
    assert(edit_distance(a.take(2), b.take(5)) == 3);
    lemma_edit_step(a, b, 3, 1);
    assert(edit_distance(a.take(3), b.take(1)) == 2);
    lemma_edit_step(a, b, 3, 2);
    assert(edit_distance(a.take(3), b.take(2)) == 1);
    lemma_edit_step(a, b, 3, 3);
    assert(edit_distance(a.take(3), b.take(3)) == 1);
    lemma_edit_step(a, b, 3, 4);
    assert(edit_distance(a.take(3), b.take(4)) == 1);
    lemma_edit_step(a, b, 3, 5);
    assert(edit_distance(a.take(3), b.take(5)) == 2);
    lemma_edit_step(a, b, 4, 1);
    assert(edit_distance(a.take(4), b.take(1)) == 3);
    lemma_edit_step(a, b, 4, 2);
    assert(edit_distance(a.take(4), b.take(2)) == 2);
    lemma_edit_step(a, b, 4, 3);
    assert(edit_distance(a.take(4), b.take(3)) == 1);
    lemma_edit_step(a, b, 4, 4);
    assert(edit_distance(a.take(4), b.take(4)) == 2);
    lemma_edit_step(a, b, 4, 5);
    assert(edit_distance(a.take(4), b.take(5)) == 2);
    lemma_edit_step(a, b, 5, 1);
    assert(edit_distance(a.take(5), b.take(1)) == 4);
    lemma_edit_step(a, b, 5, 2);
    assert(edit_distance(a.take(5), b.take(2)) == 3);
    lemma_edit_step(a, b, 5, 3);
    assert(edit_distance(a.take(5), b.take(3)) == 2);
    lemma_edit_step(a, b, 5, 4);
    assert(edit_distance(a.take(5), b.take(4)) == 2);
    lemma_edit_step(a, b, 5, 5);
    assert(edit_distance(a.take(5), b.take(5)) == 2);
    assert(a.take(5) =~= a);
    assert(b.take(5) =~= b);
}

proof fn lemma_edit_distance_bound(a: Seq<char>, b: Seq<char>)
    ensures
        edit_distance(a, b) <= if a.len() >= b.len() {
            a.len()
        } else {
            b.len()
        },
    decreases a.len() + b.len(),
{
    if a.len() > 0 && b.len() > 0 {
        lemma_edit_distance_bound(a.drop_last(), b.drop_last());
    }
}

fn plus(x: usize, d: usize) -> (r: usize)
    requires
        d <= 1,
    ensures
        r == if x + d <= usize::MAX {
            (x + d) as usize
        } else {
            usize::MAX
        },
{
    match x.checked_add(d) {
        Some(v) => v,
        None => usize::MAX,
    }
}

fn min3(x: usize, y: usize, z: usize) -> (r: usize)
    ensures
        r <= x && r <= y && r <= z && (r == x || r == y || r == z),
{
    let m = if x <= y {
        x
    } else {
        y
    };
    if m <= z {
        m
    } else {
        z
    }
}

/// The edit distance between two texts.
pub fn distance(a: &[char], b: &[char]) -> (r: usize)
    ensures
        r == edit_distance(a@, b@),
{
    let mut previous: Vec<usize> = Vec::new();
    previous.push(0);
    let mut j: usize = 0;
    while j < b.len()
        invariant
            j <= b@.len(),
            b@.len() == b.len(),
            previous@.len() == j + 1,
            forall|k: int| 0 <= k <= j ==> #[trigger] previous@[k] == edit_distance(Seq::<char>::empty(), b@.take(k)),
        decreases b@.len() - j,
    {
        previous.push(j + 1);
        j += 1;
    }
    assert(a@.take(0) =~= Seq::<char>::empty());
    let mut i: usize = 0;
    while i < a.len()
        invariant
            i <= a@.len(),
            a@.len() == a.len(),
            b@.len() == b.len(),
            previous@.len() == b@.len() + 1,
            forall|k: int| 0 <= k <= b@.len() ==> #[trigger] previous@[k] == edit_distance(a@.take(i as int), b@.take(k)),
        decreases a@.len() - i,
    {
        let ghost ai = a@.take(i + 1);
        assert(ai.drop_last() =~= a@.take(i as int));
        assert(ai.last() == a@[i as int]);
        let mut current: Vec<usize> = Vec::new();
        current.push(i + 1);
        assert(b@.take(0) =~= Seq::<char>::empty());
        let mut j: usize = 0;
        while j < b.len()
            invariant
                i < a@.len(),
                a@.len() == a.len(),
                b@.len() == b.len(),
                j <= b@.len(),
                ai == a@.take(i + 1),
                ai.drop_last() == a@.take(i as int),
                ai.last() == a@[i as int],
                previous@.len() == b@.len() + 1,
                forall|k: int| 0 <= k <= b@.len() ==> #[trigger] previous@[k] == edit_distance(a@.take(i as int), b@.take(k)),
                current@.len() == j + 1,
                forall|k: int| 0 <= k <= j ==> #[trigger] current@[k] == edit_distance(ai, b@.take(k)),
            decreases b@.len() - j,
        {
            let ghost bj = b@.take(j + 1);
            assert(bj.drop_last() =~= b@.take(j as int));
            assert(bj.last() == b@[j as int]);
            proof {
                lemma_edit_distance_bound(ai, bj);
            }
            let different: usize = if a[i] != b[j] {
                1
            } else {
                0
            };
            let v = min3(plus(current[j], 1), plus(previous[j + 1], 1), plus(previous[j], different));
            assert(v == edit_distance(ai, bj));
            current.push(v);
            j += 1;
        }
        previous = current;
        i += 1;
    }
    assert(a@.take(a@.len() as int) =~= a@);
    assert(b@.take(b@.len() as int) =~= b@);
    previous[b.len()]
}

} // verus!

verus! {

/// `a` comes before `b` in the order of their characters' code points, the
/// order in which `String` compares (UTF-8 keeps it).
pub open spec fn text_lt(a: Seq<char>, b: Seq<char>) -> bool
    decreases a.len(),
{
    if a.len() == 0 {
        b.len() > 0
    } else if b.len() == 0 {
        false
    } else if a[0] != b[0] {
        (a[0] as u32) < (b[0] as u32)
    } else {
        text_lt(a.drop_first(), b.drop_first())
    }
}

pub proof fn lemma_text_lt_irreflexive(a: Seq<char>)
    ensures
        !text_lt(a, a),
    decreases a.len(),
{
    if a.len() > 0 {
        lemma_text_lt_irreflexive(a.drop_first());
    }
}

pub proof fn lemma_text_lt_transitive(a: Seq<char>, b: Seq<char>, c: Seq<char>)
    requires
        text_lt(a, b),
        text_lt(b, c),
    ensures
        text_lt(a, c),
    decreases a.len(),
{
    if a.len() > 0 && b.len() > 0 && c.len() > 0 && a[0] == b[0] && b[0] == c[0] {
        lemma_text_lt_transitive(a.drop_first(), b.drop_first(), c.drop_first());
    }
}

pub proof fn lemma_text_lt_total(a: Seq<char>, b: Seq<char>)
    requires
        a != b,
    ensures
        text_lt(a, b) || text_lt(b, a),
    decreases a.len(),
{
    if a.len() > 0 && b.len() > 0 && a[0] == b[0] {
        if a.drop_first() == b.drop_first() {
            assert(a =~= seq![a[0]] + a.drop_first());
            assert(b =~= seq![b[0]] + b.drop_first());
        }
        lemma_text_lt_total(a.drop_first(), b.drop_first());
    } else if a.len() > 0 && b.len() > 0 {
        vstd::utf8::char_u32_cast(a[0], a[0] as u32);
        vstd::utf8::char_u32_cast(b[0], b[0] as u32);
    } else if a.len() == 0 && b.len() == 0 {
        assert(a =~= b);
    }
}

/// How far a candidate may be from the mistyped name: a third of its length, at least two.
pub open spec fn suggestion_limit(name: Seq<char>) -> nat {
    if name.len() / 3 >= 2 {
        name.len() / 3
    } else {
        2
    }
}

/// Candidates rank by their distance to the name, then by text.
pub open spec fn ranks_before(name: Seq<char>, x: Seq<char>, y: Seq<char>) -> bool {
    edit_distance(name, x) < edit_distance(name, y) || (edit_distance(name, x) == edit_distance(
        name,
        y,
    ) && text_lt(x, y))
}

pub open spec fn close_enough(name: Seq<char>, c: Seq<char>) -> bool {
    edit_distance(name, c) <= suggestion_limit(name)
}

proof fn lemma_ranks_transitive(name: Seq<char>, x: Seq<char>, y: Seq<char>, z: Seq<char>)
    requires
        ranks_before(name, x, y),
        ranks_before(name, y, z),
    ensures
        ranks_before(name, x, z),
{
    if edit_distance(name, x) == edit_distance(name, y) && edit_distance(name, y) == edit_distance(
        name,
        z,
    ) {
        lemma_text_lt_transitive(x, y, z);
    }
}

proof fn lemma_ranks_total(name: Seq<char>, x: Seq<char>, y: Seq<char>)
    requires
        x != y,
    ensures
        ranks_before(name, x, y) || ranks_before(name, y, x),
{
    lemma_text_lt_total(x, y);
}

pub fn text_less(a: &[char], b: &[char]) -> (r: bool)
    ensures
        r == text_lt(a@, b@),
{
    let mut i: usize = 0;
    assert(a@.subrange(0, a@.len() as int) =~= a@);
    assert(b@.subrange(0, b@.len() as int) =~= b@);
    while i < a.len() && i < b.len() && a[i] == b[i]
        invariant
            i <= a@.len(),
            i <= b@.len(),
            text_lt(a@, b@) == text_lt(a@.subrange(i as int, a@.len() as int), b@.subrange(
                i as int,
                b@.len() as int,
            )),
        decreases a@.len() - i,
    {
        assert(a@.subrange(i as int, a@.len() as int).drop_first() == a@.subrange(
            i + 1,
            a@.len() as int,
        ));
        assert(b@.subrange(i as int, b@.len() as int).drop_first() == b@.subrange(
            i + 1,
            b@.len() as int,
        ));
        i += 1;
    }
    if i == a.len() {
        i < b.len()
    } else if i == b.len() {
        false
    } else {
        assert(a@.subrange(i as int, a@.len() as int)[0] == a@[i as int]);
        assert(b@.subrange(i as int, b@.len() as int)[0] == b@[i as int]);
        (a[i] as u32) < (b[i] as u32)
    }
}

spec fn ranked_views(best: Seq<(usize, Vec<char>)>) -> Seq<Seq<char>> {
    best.map_values(|e: (usize, Vec<char>)| e.1@)
}

/// Each entry ranks before every later one.
pub open spec fn rank_sorted(name: Seq<char>, s: Seq<Seq<char>>) -> bool {
    forall|i: int, j: int| 0 <= i < j < s.len() ==> ranks_before(name, #[trigger] s[i], #[trigger] s[j])
}

/// Every close candidate of `pool` left out of `s` ranks after a full `s`.
pub open spec fn keeps_best(name: Seq<char>, pool: Seq<Seq<char>>, s: Seq<Seq<char>>) -> bool {
    forall|c: Seq<char>|
        pool.contains(c) && close_enough(name, c) && !s.contains(c) ==> s.len() == 3
            && ranks_before(name, s[2], c)
}

/// Putting a new close candidate at its rank, and dropping what falls past
/// the third place, keeps the list the best three of the pool.
proof fn lemma_insert_ranked(
    name: Seq<char>,
    pool: Seq<Seq<char>>,
    ob: Seq<Seq<char>>,
    cv: Seq<char>,
    pos: int,
)
    requires
        ob.len() <= 3,
        0 <= pos <= ob.len(),
        rank_sorted(name, ob),
        keeps_best(name, pool, ob),
        !ob.contains(cv),
        close_enough(name, cv),
        forall|q: int| 0 <= q < pos ==> ranks_before(name, #[trigger] ob[q], cv),
        forall|q: int| pos <= q < ob.len() ==> ranks_before(name, cv, #[trigger] ob[q]),
    ensures
        ({
            let ins = ob.insert(pos, cv);
            let nb = if ins.len() > 3 { ins.take(3) } else { ins };
            &&& nb.len() <= 3
            &&& rank_sorted(name, nb)
            &&& keeps_best(name, pool.push(cv), nb)
            &&& forall|x: Seq<char>| nb.contains(x) ==> ob.contains(x) || x == cv
        }),
{
    let ins = ob.insert(pos, cv);
    let nb = if ins.len() > 3 { ins.take(3) } else { ins };
    assert forall|i: int, j: int| 0 <= i < j < ins.len() implies ranks_before(name, #[trigger] ins[i], #[trigger] ins[j]) by {
        if j < pos {
            assert(ins[i] == ob[i] && ins[j] == ob[j]);
        } else if j == pos {
            assert(ins[i] == ob[i]);
        } else if i < pos {
            assert(ins[i] == ob[i] && ins[j] == ob[j - 1]);
            lemma_ranks_transitive(name, ob[i], cv, ob[j - 1]);
        } else if i == pos {
            assert(ins[j] == ob[j - 1]);
        } else {
            assert(ins[i] == ob[i - 1] && ins[j] == ob[j - 1]);
        }
    }
    assert forall|i: int, j: int| 0 <= i < j < nb.len() implies ranks_before(name, #[trigger] nb[i], #[trigger] nb[j]) by {
        assert(nb[i] == ins[i] && nb[j] == ins[j]);
    }
    assert forall|x: Seq<char>| nb.contains(x) implies ob.contains(x) || x == cv by {
        let i = choose|i: int| 0 <= i < nb.len() && nb[i] == x;
        assert(nb[i] == ins[i]);
        if i < pos {
            assert(ob[i] == x);
        } else if i > pos {
            assert(ob[i - 1] == x);
        }
    }
    assert forall|c: Seq<char>|
        pool.push(cv).contains(c) && close_enough(name, c) && !nb.contains(c) implies nb.len() == 3
            && ranks_before(name, nb[2], c) by {
        if c == cv {
            assert(ins[pos] == cv);
            if pos < 3 {
                assert(nb[pos] == cv);
            }
            assert(pos == 3);
            assert(nb[2] == ob[2]);
        } else {
            let k = choose|k: int| 0 <= k < pool.push(cv).len() && pool.push(cv)[k] == c;
            assert(pool[k] == c);
            assert(pool.contains(c));
            if ob.contains(c) {
                let q = choose|q: int| 0 <= q < ob.len() && ob[q] == c;
                let at = if q < pos { q } else { q + 1 };
                assert(ins[at] == c);
                if at < 3 {
                    assert(nb[at] == c);
                }
                assert(at == 3);
                assert(ins[2] == nb[2]);
            } else {
                assert(ob.len() == 3 && ranks_before(name, ob[2], c));
                assert(ins.len() == 4);
                assert(nb[2] == ins[2]);
                if pos == 3 {
                    assert(ins[2] == ob[2]);
                } else {
                    assert(ins[3] == ob[2]);
                    lemma_ranks_transitive(name, ins[2], ob[2], c);
                }
            }
        }
    }
}

/// Up to three candidates close to `name`, closest first, then in text order,
/// each named once.
pub fn suggestions(name: &str, candidates: Vec<String>) -> (r: Vec<String>)
    ensures
        ({
            let cs = crate::table::string_views(candidates@);
            let rs = crate::table::string_views(r@);
            &&& rs.len() <= 3
            &&& forall|i: int|
                0 <= i < rs.len() ==> cs.contains(#[trigger] rs[i]) && close_enough(name@, rs[i])
            &&& rank_sorted(name@, rs)
            &&& keeps_best(name@, cs, rs)
        }),
{
    let n = chars_of(name);
    let limit: usize = if n.len() / 3 >= 2 {
        n.len() / 3
    } else {
        2
    };
    let ghost cs = crate::table::string_views(candidates@);
    let mut best: Vec<(usize, Vec<char>)> = Vec::new();
    let mut k: usize = 0;
    assert(ranked_views(best@) =~= Seq::<Seq<char>>::empty());
    while k < candidates.len()
        invariant
            n@ == name@,
            limit == suggestion_limit(name@),
            cs == crate::table::string_views(candidates@),
            k <= candidates@.len(),
            best@.len() <= 3,
            forall|i: int|
                0 <= i < best@.len() ==> #[trigger] best@[i].0 == edit_distance(name@, best@[i].1@),
            forall|x: Seq<char>|
                #[trigger] ranked_views(best@).contains(x) ==> cs.take(k as int).contains(x)
                    && close_enough(name@, x),
            rank_sorted(name@, ranked_views(best@)),
            keeps_best(name@, cs.take(k as int), ranked_views(best@)),
        decreases candidates@.len() - k,
    {
        let c = chars_of(candidates[k].as_str());
        let ghost cv = c@;
        let ghost ob = ranked_views(best@);
        assert(cs[k as int] == cv);
        assert(cs.take(k + 1) =~= cs.take(k as int).push(cv));
        let d = distance(n.as_slice(), c.as_slice());
        let mut present = false;
        let mut p: usize = 0;
        while p < best.len()
            invariant
                p <= best@.len(),
                cv == c@,
                ob == ranked_views(best@),
                present == ob.take(p as int).contains(cv),
            decreases best@.len() - p,
        {
            assert(ob[p as int] == best@[p as int].1@);
            assert(ob.take(p + 1) =~= ob.take(p as int).push(ob[p as int]));
            let hit = crate::text::same(best[p].1.as_slice(), c.as_slice());
            proof {
                if hit {
                    assert(ob.take(p + 1)[p as int] == cv);
                } else if !present {
                    assert forall|q: int| 0 <= q < p + 1 implies #[trigger] ob.take(p + 1)[q] != cv by {
                        if q < p {
                            assert(ob.take(p as int)[q] == ob.take(p + 1)[q]);
                        }
                    }
                }
            }
            if hit {
                present = true;
            }
            p += 1;
        }
        assert(ob.take(best@.len() as int) =~= ob);
        if d <= limit && !present {
            let ghost old_best = best@;
            let mut pos: usize = 0;
            while pos < best.len() && !(d < best[pos].0 || (d == best[pos].0 && text_less(
                c.as_slice(),
                best[pos].1.as_slice(),
            )))
                invariant
                    pos <= best@.len(),
                    best@ == old_best,
                    cv == c@,
                    d == edit_distance(name@, cv),
                    ob == ranked_views(best@),
                    forall|q: int| 0 <= q < pos ==> !ranks_before(name@, cv, #[trigger] ob[q]),
                    forall|i: int| 0 <= i < best@.len() ==> #[trigger] best@[i].0 == edit_distance(name@, best@[i].1@),
                decreases best@.len() - pos,
            {
                pos += 1;
            }
            proof {
                assert forall|q: int| 0 <= q < pos implies ranks_before(name@, #[trigger] ob[q], cv) by {
                    assert(ob.contains(ob[q]));
                    lemma_ranks_total(name@, ob[q], cv);
                }
                if pos < ob.len() {
                    assert(ranks_before(name@, cv, ob[pos as int]));
                }
                assert forall|q: int| pos <= q < ob.len() implies ranks_before(name@, cv, #[trigger] ob[q]) by {
                    if q > pos {
                        lemma_ranks_transitive(name@, cv, ob[pos as int], ob[q]);
                    }
                }
                lemma_insert_ranked(name@, cs.take(k as int), ob, cv, pos as int);
            }
            best.insert(pos, (d, c));
            assert(ranked_views(best@) =~= ob.insert(pos as int, cv));
            if best.len() > 3 {
                best.pop();
                assert(ranked_views(best@) =~= ob.insert(pos as int, cv).take(3));
            }
            proof {
                let nb = ranked_views(best@);
                assert forall|x: Seq<char>| nb.contains(x) implies cs.take(k + 1).contains(x) && close_enough(name@, x) by {
                    if x != cv {
                        let q = choose|q: int| 0 <= q < ob.len() && ob[q] == x;
                        assert(ob.contains(x));
                        assert(cs.take(k as int).contains(x));
                        let w = choose|w: int| 0 <= w < k && #[trigger] cs.take(k as int)[w] == x;
                        assert(cs.take(k + 1)[w] == x);
                    } else {
                        assert(cs.take(k + 1)[k as int] == x);
                    }
                }
            }
        } else {
            proof {
                assert forall|x: Seq<char>| ob.contains(x) implies cs.take(k + 1).contains(x) && close_enough(name@, x) by {
                    let w = choose|w: int| 0 <= w < k && #[trigger] cs.take(k as int)[w] == x;
                    assert(cs.take(k + 1)[w] == x);
                }
                assert forall|cc: Seq<char>|
                    cs.take(k + 1).contains(cc) && close_enough(name@, cc) && !ob.contains(cc) implies ob.len() == 3
                        && ranks_before(name@, ob[2], cc) by {
                    let w = choose|w: int| 0 <= w < k + 1 && #[trigger] cs.take(k + 1)[w] == cc;
                    if w < k {
                        assert(cs.take(k as int)[w] == cc);
                    }
                }
            }
        }
        k += 1;
    }
    assert(cs.take(candidates@.len() as int) =~= cs);
    let ghost views = ranked_views(best@);
    let mut r: Vec<String> = Vec::new();
    let mut i: usize = 0;
    while i < best.len()
        invariant
            i <= best@.len(),
            views == ranked_views(best@),
            crate::table::string_views(r@) =~= views.take(i as int),
        decreases best@.len() - i,
    {
        let s = string_of(best[i].1.as_slice());
        assert(views[i as int] == best@[i as int].1@);
        let ghost old_r = r@;
        r.push(s);
        proof {
            let rs = crate::table::string_views(r@);
            let olds = crate::table::string_views(old_r);
            assert(olds.len() == old_r.len());
            assert(olds.len() == i);
            assert(r@.len() == i + 1);
            assert forall|j: int| 0 <= j < i + 1 implies #[trigger] rs[j] == views.take(i + 1)[j] by {
                if j < i {
                    assert(olds[j] == views.take(i as int)[j]);
                    assert(r@[j] == old_r[j]);
                }
            }
            assert(rs =~= views.take(i + 1));
        }
        i += 1;
    }
    assert(views.take(best@.len() as int) =~= views);
    proof {
        let rs = crate::table::string_views(r@);
        assert forall|i: int| 0 <= i < rs.len() implies cs.contains(#[trigger] rs[i]) && close_enough(name@, rs[i]) by {
            assert(views.contains(views[i]));
        }
    }
    r
}


/// The executables that a search of `PATH` found, each name with the path
/// of its first occurrence: directories earlier on `PATH` win.
pub open spec fn first_found(found: Seq<(Seq<char>, Seq<char>)>) -> Map<Seq<char>, Seq<char>>
    decreases found.len(),
{
    if found.len() == 0 {
        Map::empty()
    } else {
        let m = first_found(found.drop_last());
        if m.contains_key(found.last().0) {
            m
        } else {
            m.insert(found.last().0, found.last().1)
        }
    }
}

/// The first directory on `PATH` that holds a name is the one it runs from:
/// the index maps each name found to the path of its first occurrence.
pub proof fn lemma_earliest_path_wins(found: Seq<(Seq<char>, Seq<char>)>, i: int)
    requires
        0 <= i < found.len(),
        forall|j: int| 0 <= j < i ==> #[trigger] found[j].0 != found[i].0,
    ensures
        first_found(found).contains_key(found[i].0),
        first_found(found)[found[i].0] == found[i].1,
    decreases found.len(),
{
    let init = found.drop_last();
    if i == found.len() - 1 {
        if first_found(init).contains_key(found[i].0) {
            lemma_first_found_keys(init, found[i].0);
            let j = choose|j: int| 0 <= j < init.len() && #[trigger] init[j].0 == found[i].0;
            assert(found[j].0 == found[i].0);
        }
    } else {
        assert forall|j: int| 0 <= j < i implies #[trigger] init[j].0 != init[i].0 by {
            assert(found[j].0 != found[i].0);
        }
        lemma_earliest_path_wins(init, i);
        assert(init[i] == found[i]);
    }
}

proof fn lemma_first_found_keys(found: Seq<(Seq<char>, Seq<char>)>, name: Seq<char>)
    requires
        first_found(found).contains_key(name),
    ensures
        exists|j: int| 0 <= j < found.len() && #[trigger] found[j].0 == name,
    decreases found.len(),
{
    let init = found.drop_last();
    if first_found(init).contains_key(name) {
        lemma_first_found_keys(init, name);
        let j = choose|j: int| 0 <= j < init.len() && #[trigger] init[j].0 == name;
        assert(found[j].0 == name);
    } else {
        assert(found[found.len() - 1].0 == name);
    }
}

/// The executables on `PATH`, by name, as of the `PATH` they were found on.
pub struct ExecutableIndex {
    pub indexed_path: Option<String>,
    pub executables: crate::table::Table<String>,
}

impl ExecutableIndex {
    pub fn new() -> (r: ExecutableIndex)
        ensures
            r.indexed_path is None,
            r.executables.view() == Map::<Seq<char>, Seq<char>>::empty(),
    {
        ExecutableIndex { indexed_path: None, executables: crate::table::Table::new() }
    }

    /// Whether the index was built for another `PATH`.
    pub fn is_stale(&self, path: &Option<String>) -> (r: bool)
        ensures
            r == (crate::shell::text_option(*path) != crate::shell::text_option(self.indexed_path)),
    {
        match (path, &self.indexed_path) {
            (None, None) => false,
            (Some(a), Some(b)) => {
                let x = chars_of(a.as_str());
                let y = chars_of(b.as_str());
                !crate::text::same(x.as_slice(), y.as_slice())
            },
            _ => true,
        }
    }

    /// Builds the index anew for `path` from what a search of it found, in order.
    pub fn rebuild(&mut self, path: Option<String>, found: Vec<(String, String)>)
        ensures
            crate::shell::text_option(final(self).indexed_path) == crate::shell::text_option(path),
            final(self).executables.view() == first_found(crate::shell::pair_views(found@)),
    {
        let ghost pairs = crate::shell::pair_views(found@);
        let mut table: crate::table::Table<String> = crate::table::Table::new();
        let mut i: usize = 0;
        while i < found.len()
            invariant
                i <= found@.len(),
                pairs == crate::shell::pair_views(found@),
                table.view() == first_found(pairs.take(i as int)),
            decreases found@.len() - i,
        {
            assert(pairs.take(i + 1).drop_last() =~= pairs.take(i as int));
            assert(pairs[i as int] == (found@[i as int].0@, found@[i as int].1@));
            let name = String::from_str(found[i].0.as_str());
            if !table.contains_key(&name) {
                table.insert(name, String::from_str(found[i].1.as_str()));
            }
            i += 1;
        }
        assert(pairs.take(pairs.len() as int) =~= pairs);
        self.indexed_path = path;
        self.executables = table;
    }

    /// The path of the executable `name`, if the index has it.
    pub fn lookup(&self, name: &str) -> (r: Option<String>)
        ensures
            match r {
                Some(p) => self.executables.view().contains_key(name@) && p@
                    == self.executables.view()[name@],
                None => !self.executables.view().contains_key(name@),
            },
    {
        match self.executables.get(&String::from_str(name)) {
            Some(p) => Some(String::from_str(p.as_str())),
            None => None,
        }
    }

    /// The names of the executables and `nsh` itself, each once, in text order.
    pub fn names(&self) -> (r: Vec<String>)
        ensures
            crate::shell::strictly_sorted(crate::table::string_views(r@)),
            forall|x: Seq<char>| #[trigger] crate::table::string_views(r@).contains(x) <==> (
            self.executables.view().contains_key(x) || x == "nsh"@),
    {
        let entries = self.executables.entries();
        let ghost pairs = self.executables.pairs();
        let mut names: Vec<String> = Vec::new();
        let mut i: usize = 0;
        while i < entries.len()
            invariant
                i <= entries@.len(),
                entries@.len() == pairs.len(),
                pairs == self.executables.pairs(),
                forall|j: int|
                    0 <= j < entries@.len() ==> (#[trigger] entries@[j]).0@ == pairs[j].0,
                crate::shell::strictly_sorted(crate::table::string_views(names@)),
                forall|x: Seq<char>| #[trigger] crate::table::string_views(names@).contains(x)
                    <==> exists|j: int| 0 <= j < i && #[trigger] pairs[j].0 == x,
            decreases entries@.len() - i,
        {
            let ghost before = crate::table::string_views(names@);
            assert(entries@[i as int].0@ == pairs[i as int].0);
            crate::shell::insert_sorted(&mut names, String::from_str(entries[i].0.as_str()));
            assert forall|x: Seq<char>| #[trigger] crate::table::string_views(names@).contains(x)
                <==> exists|j: int| 0 <= j < i + 1 && #[trigger] pairs[j].0 == x by {
                if exists|j: int| 0 <= j < i + 1 && #[trigger] pairs[j].0 == x {
                    let j = choose|j: int| 0 <= j < i + 1 && #[trigger] pairs[j].0 == x;
                    if j < i {
                        assert(before.contains(x));
                    }
                }
            }
            i += 1;
        }
        crate::shell::insert_sorted(&mut names, String::from_str("nsh"));
        proof {
            assert forall|x: Seq<char>| #[trigger] crate::table::string_views(names@).contains(x)
                <==> (self.executables.view().contains_key(x) || x == "nsh"@) by {
                if exists|j: int| 0 <= j < entries@.len() && #[trigger] pairs[j].0 == x {
                    let j = choose|j: int| 0 <= j < entries@.len() && #[trigger] pairs[j].0 == x;
                    assert(self.executables.view().contains_key(pairs[j].0));
                }
                if self.executables.view().contains_key(x) {
                    let j = choose|j: int| 0 <= j < entries@.len() && #[trigger] pairs[j].0 == x;
                }
            }
        }
        names
    }
}

} // verus!
