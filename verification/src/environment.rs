use vstd::prelude::*;

use crate::table::{has_key, key_index, lemma_key_index, map_of_pairs, unique_keys, Table};

verus! {

/// One change to the shell's environment. Values that a change saves and
/// puts back are kept by the caller, as the process holds them.
#[derive(Debug, Clone, PartialEq, Eq)]
pub enum EnvStep {
    /// Remember the variable's current value, set or not, unless it is
    /// remembered already.
    Save(String),
    /// Give the variable a value.
    Assign(String, String),
    /// Put back the value remembered for the variable, if there is one:
    /// set it again, or unset it.
    Restore(String),
}

pub enum EnvStepModel {
    Save(Seq<char>),
    Assign(Seq<char>, Seq<char>),
    Restore(Seq<char>),
}

impl View for EnvStep {
    type V = EnvStepModel;

    open spec fn view(&self) -> EnvStepModel {
        match self {
            EnvStep::Save(k) => EnvStepModel::Save(k@),
            EnvStep::Assign(k, v) => EnvStepModel::Assign(k@, v@),
            EnvStep::Restore(k) => EnvStepModel::Restore(k@),
        }
    }
}

pub open spec fn step_views(v: Seq<EnvStep>) -> Seq<EnvStepModel> {
    v.map_values(|s: EnvStep| s@)
}

/// The value of a variable: `None` where it is not set.
pub open spec fn value_of(env: Map<Seq<char>, Seq<char>>, k: Seq<char>) -> Option<Seq<char>> {
    if env.contains_key(k) {
        Some(env[k])
    } else {
        None
    }
}

/// An environment and what is remembered of it, after one step.
pub open spec fn apply_step(
    env: Map<Seq<char>, Seq<char>>,
    saved: Map<Seq<char>, Option<Seq<char>>>,
    step: EnvStepModel,
) -> (Map<Seq<char>, Seq<char>>, Map<Seq<char>, Option<Seq<char>>>) {
    match step {
        EnvStepModel::Save(k) => if saved.contains_key(k) {
            (env, saved)
        } else {
            (env, saved.insert(k, value_of(env, k)))
        },
        EnvStepModel::Assign(k, v) => (env.insert(k, v), saved),
        EnvStepModel::Restore(k) => if saved.contains_key(k) {
            match saved[k] {
                Some(v) => (env.insert(k, v), saved),
                None => (env.remove(k), saved),
            }
        } else {
            (env, saved)
        },
    }
}

/// The steps taken in order.
pub open spec fn apply_steps(
    env: Map<Seq<char>, Seq<char>>,
    saved: Map<Seq<char>, Option<Seq<char>>>,
    steps: Seq<EnvStepModel>,
) -> (Map<Seq<char>, Seq<char>>, Map<Seq<char>, Option<Seq<char>>>)
    decreases steps.len(),
{
    if steps.len() == 0 {
        (env, saved)
    } else {
        let before = apply_steps(env, saved, steps.drop_last());
        apply_step(before.0, before.1, steps.last())
    }
}

/// Each entry saved, then set.
pub open spec fn set_steps(p: Seq<(Seq<char>, Seq<char>)>) -> Seq<EnvStepModel>
    decreases p.len(),
{
    if p.len() == 0 {
        Seq::empty()
    } else {
        set_steps(p.drop_last()) + seq![
            EnvStepModel::Save(p.last().0),
            EnvStepModel::Assign(p.last().0, p.last().1),
        ]
    }
}

/// Each variable put back.
pub open spec fn restore_steps(keys: Seq<Seq<char>>) -> Seq<EnvStepModel> {
    keys.map_values(|k: Seq<char>| EnvStepModel::Restore(k))
}

pub open spec fn pair_keys(p: Seq<(Seq<char>, Seq<char>)>) -> Seq<Seq<char>> {
    p.map_values(|x: (Seq<char>, Seq<char>)| x.0)
}

/// What saving the variables of `m` remembers, on top of `saved`: the value
/// each had in `env`, unless remembered already.
pub open spec fn saved_over(
    saved: Map<Seq<char>, Option<Seq<char>>>,
    env: Map<Seq<char>, Seq<char>>,
    m: Map<Seq<char>, Seq<char>>,
) -> Map<Seq<char>, Option<Seq<char>>> {
    Map::new(
        |k: Seq<char>| saved.contains_key(k) || m.contains_key(k),
        |k: Seq<char>|
            if saved.contains_key(k) {
                saved[k]
            } else {
                value_of(env, k)
            },
    )
}

/// `env` with the variables `keys` put back as `saved` remembers them.
pub open spec fn restored(
    env: Map<Seq<char>, Seq<char>>,
    saved: Map<Seq<char>, Option<Seq<char>>>,
    keys: Seq<Seq<char>>,
) -> Map<Seq<char>, Seq<char>> {
    Map::new(
        |k: Seq<char>|
            if keys.contains(k) && saved.contains_key(k) {
                saved[k] is Some
            } else {
                env.contains_key(k)
            },
        |k: Seq<char>|
            if keys.contains(k) && saved.contains_key(k) {
                saved[k]->Some_0
            } else {
                env[k]
            },
    )
}

proof fn lemma_apply_two(
    env: Map<Seq<char>, Seq<char>>,
    saved: Map<Seq<char>, Option<Seq<char>>>,
    x: Seq<EnvStepModel>,
    a: EnvStepModel,
    b: EnvStepModel,
)
    ensures
        apply_steps(env, saved, x + seq![a, b]) == ({
            let m = apply_steps(env, saved, x);
            let n = apply_step(m.0, m.1, a);
            apply_step(n.0, n.1, b)
        }),
{
    let y = x + seq![a, b];
    assert(y.drop_last() =~= x.push(a));
    assert(y.last() == b);
    assert(x.push(a).drop_last() =~= x);
    assert(x.push(a).last() == a);
    assert(apply_steps(env, saved, y) == ({
        let m = apply_steps(env, saved, x.push(a));
        apply_step(m.0, m.1, b)
    }));
}

proof fn lemma_apply_one(
    env: Map<Seq<char>, Seq<char>>,
    saved: Map<Seq<char>, Option<Seq<char>>>,
    x: Seq<EnvStepModel>,
    a: EnvStepModel,
)
    ensures
        apply_steps(env, saved, x.push(a)) == ({
            let m = apply_steps(env, saved, x);
            apply_step(m.0, m.1, a)
        }),
{
    assert(x.push(a).drop_last() =~= x);
}

/// Saving and setting each entry of a table: the entries win, and what was
/// there before is remembered, once.
pub proof fn lemma_set_steps(
    env: Map<Seq<char>, Seq<char>>,
    saved: Map<Seq<char>, Option<Seq<char>>>,
    p: Seq<(Seq<char>, Seq<char>)>,
)
    requires
        unique_keys(p),
    ensures
        apply_steps(env, saved, set_steps(p)).0 == env.union_prefer_right(map_of_pairs(p)),
        apply_steps(env, saved, set_steps(p)).1 == saved_over(saved, env, map_of_pairs(p)),
    decreases p.len(),
{
    let m = map_of_pairs(p);
    if p.len() == 0 {
        assert(m =~= Map::<Seq<char>, Seq<char>>::empty());
        assert(env.union_prefer_right(m) =~= env);
        assert(saved_over(saved, env, m) =~= saved);
    } else {
        let q = p.drop_last();
        let (k, v) = p.last();
        assert(unique_keys(q)) by {
            assert forall|i: int, j: int|
                0 <= i < q.len() && 0 <= j < q.len() && i != j implies #[trigger] q[i].0
                != #[trigger] q[j].0 by {
                assert(q[i] == p[i] && q[j] == p[j]);
            }
        }
        lemma_set_steps(env, saved, q);
        lemma_apply_two(env, saved, set_steps(q), EnvStepModel::Save(k), EnvStepModel::Assign(k, v));
        let mq = map_of_pairs(q);
        assert(!mq.contains_key(k)) by {
            if mq.contains_key(k) {
                let i = key_index(q, k);
                assert(q[i].0 == k);
                assert(p[i].0 == p[p.len() - 1].0);
            }
        }
        crate::table::lemma_push(q, k, v);
        assert(q.push((k, v)) =~= p);
        assert(m == mq.insert(k, v));
        let e1 = env.union_prefer_right(mq);
        assert(value_of(e1, k) == value_of(env, k));
        let s1 = saved_over(saved, env, mq);
        assert(s1.contains_key(k) == saved.contains_key(k));
        assert(e1.insert(k, v) =~= env.union_prefer_right(m));
        if saved.contains_key(k) {
            assert(s1 =~= saved_over(saved, env, m));
        } else {
            assert(s1.insert(k, value_of(env, k)) =~= saved_over(saved, env, m));
        }
    }
}

/// Putting back each of `keys` sets or unsets it as remembered, and leaves
/// every other variable alone.
pub proof fn lemma_restore_steps(
    env: Map<Seq<char>, Seq<char>>,
    saved: Map<Seq<char>, Option<Seq<char>>>,
    keys: Seq<Seq<char>>,
)
    ensures
        apply_steps(env, saved, restore_steps(keys)).0 == restored(env, saved, keys),
        apply_steps(env, saved, restore_steps(keys)).1 == saved,
    decreases keys.len(),
{
    if keys.len() == 0 {
        assert(restore_steps(keys) =~= Seq::<EnvStepModel>::empty());
        assert(restored(env, saved, keys) =~= env);
    } else {
        let q = keys.drop_last();
        let k = keys.last();
        lemma_restore_steps(env, saved, q);
        assert(restore_steps(keys) =~= restore_steps(q).push(EnvStepModel::Restore(k)));
        lemma_apply_one(env, saved, restore_steps(q), EnvStepModel::Restore(k));
        let r = restored(env, saved, q);
        assert forall|x: Seq<char>| #[trigger] keys.contains(x) <==> (q.contains(x) || x == k) by {
            if keys.contains(x) {
                let i = choose|i: int| 0 <= i < keys.len() && keys[i] == x;
                if i < q.len() {
                    assert(q[i] == x);
                }
            }
            if q.contains(x) {
                let i = choose|i: int| 0 <= i < q.len() && q[i] == x;
                assert(keys[i] == x);
            }
            if x == k {
                assert(keys[keys.len() - 1] == x);
            }
        }
        let out = apply_step(r, saved, EnvStepModel::Restore(k)).0;
        assert(out =~= restored(env, saved, keys));
    }
}

proof fn lemma_apply_append(
    env: Map<Seq<char>, Seq<char>>,
    saved: Map<Seq<char>, Option<Seq<char>>>,
    a: Seq<EnvStepModel>,
    b: Seq<EnvStepModel>,
)
    ensures
        apply_steps(env, saved, a + b) == ({
            let m = apply_steps(env, saved, a);
            apply_steps(m.0, m.1, b)
        }),
    decreases b.len(),
{
    if b.len() == 0 {
        assert(a + b =~= a);
    } else {
        lemma_apply_append(env, saved, a, b.drop_last());
        assert((a + b).drop_last() =~= a + b.drop_last());
        assert((a + b).last() == b.last());
    }
}

proof fn lemma_pair_keys_contains(p: Seq<(Seq<char>, Seq<char>)>, k: Seq<char>)
    ensures
        pair_keys(p).contains(k) <==> has_key(p, k),
{
    if has_key(p, k) {
        let i = choose|i: int| 0 <= i < p.len() && #[trigger] p[i].0 == k;
        assert(pair_keys(p)[i] == k);
    }
    if pair_keys(p).contains(k) {
        let i = choose|i: int| 0 <= i < pair_keys(p).len() && pair_keys(p)[i] == k;
        assert(p[i].0 == k);
    }
}

/// Entering a room over any environment sets the room's variables over it;
/// leaving puts that environment back exactly.
pub proof fn lemma_room_round_trip(base: Map<Seq<char>, Seq<char>>, room: Seq<(Seq<char>, Seq<char>)>)
    requires
        unique_keys(room),
    ensures
        ({
            let entered = apply_steps(base, Map::empty(), set_steps(room));
            &&& entered.0 == base.union_prefer_right(map_of_pairs(room))
            &&& apply_steps(entered.0, entered.1, restore_steps(pair_keys(room))).0 == base
        }),
{
    let empty = Map::<Seq<char>, Option<Seq<char>>>::empty();
    lemma_set_steps(base, empty, room);
    let mr = map_of_pairs(room);
    let entered = base.union_prefer_right(mr);
    let kept = saved_over(empty, base, mr);
    lemma_restore_steps(entered, kept, pair_keys(room));
    let back = restored(entered, kept, pair_keys(room));
    assert forall|k: Seq<char>| #[trigger] back.contains_key(k) == base.contains_key(k) && (
    back.contains_key(k) ==> back[k] == base[k]) by {
        lemma_pair_keys_contains(room, k);
    }
    assert(back =~= base);
}

/// Room over configuration over what the shell inherited: applying a
/// configuration and then entering a room leaves each variable as the room
/// sets it, else as the configuration sets it, else as it was; leaving the
/// room puts back the configuration's environment exactly.
pub proof fn lemma_room_over_config(
    env: Map<Seq<char>, Seq<char>>,
    config: Seq<(Seq<char>, Seq<char>)>,
    room: Seq<(Seq<char>, Seq<char>)>,
)
    requires
        unique_keys(config),
        unique_keys(room),
    ensures
        ({
            let configured = apply_steps(env, Map::empty(), set_steps(config)).0;
            let entered = apply_steps(configured, Map::empty(), set_steps(room));
            &&& configured == env.union_prefer_right(map_of_pairs(config))
            &&& entered.0 == configured.union_prefer_right(map_of_pairs(room))
            &&& apply_steps(entered.0, entered.1, restore_steps(pair_keys(room))).0 == configured
        }),
{
    lemma_set_steps(env, Map::empty(), config);
    lemma_room_round_trip(env.union_prefer_right(map_of_pairs(config)), room);
}

proof fn lemma_dropped_keys(p: Seq<(Seq<char>, Seq<char>)>, next: Map<Seq<char>, Seq<char>>, k: Seq<char>)
    ensures
        dropped_keys(p, next).contains(k) <==> (has_key(p, k) && !next.contains_key(k)),
    decreases p.len(),
{
    if p.len() > 0 {
        let q = p.drop_last();
        lemma_dropped_keys(q, next, k);
        assert(has_key(p, k) <==> (has_key(q, k) || p.last().0 == k)) by {
            if has_key(p, k) {
                let i = choose|i: int| 0 <= i < p.len() && #[trigger] p[i].0 == k;
                if i < q.len() {
                    assert(q[i].0 == k);
                }
            }
            if has_key(q, k) {
                let i = choose|i: int| 0 <= i < q.len() && #[trigger] q[i].0 == k;
                assert(p[i].0 == k);
            }
            if p.last().0 == k {
                assert(p[p.len() - 1].0 == k);
            }
        }
        let d = dropped_keys(q, next);
        if !next.contains_key(p.last().0) {
            assert(d.push(p.last().0).contains(k) <==> (d.contains(k) || k == p.last().0)) by {
                if d.push(p.last().0).contains(k) {
                    let i = choose|i: int| 0 <= i < d.len() + 1 && d.push(p.last().0)[i] == k;
                    if i < d.len() {
                        assert(d[i] == k);
                    }
                }
                if d.contains(k) {
                    let i = choose|i: int| 0 <= i < d.len() && d[i] == k;
                    assert(d.push(p.last().0)[i] == k);
                }
                if k == p.last().0 {
                    assert(d.push(p.last().0)[d.len() as int] == k);
                }
            }
        }
    }
}

/// A reload with a room in force leaves the room, moves to the new
/// configuration and enters the room again. Afterwards each variable holds
/// the room's value, else the new configuration's, else the one the shell
/// inherited; leaving the room then gives the new configuration's
/// environment over the inherited one.
pub proof fn lemma_reload_with_room(
    env: Map<Seq<char>, Seq<char>>,
    old: Seq<(Seq<char>, Seq<char>)>,
    new: Seq<(Seq<char>, Seq<char>)>,
    room: Seq<(Seq<char>, Seq<char>)>,
)
    requires
        unique_keys(old),
        unique_keys(new),
        unique_keys(room),
    ensures
        ({
            let (configured, inherited) = apply_steps(env, Map::empty(), set_steps(old));
            let entered = apply_steps(configured, Map::empty(), set_steps(room));
            let left = apply_steps(entered.0, entered.1, restore_steps(pair_keys(room))).0;
            let reloaded = apply_steps(
                left,
                inherited,
                restore_steps(dropped_keys(old, map_of_pairs(new))) + set_steps(new),
            ).0;
            let again = apply_steps(reloaded, Map::empty(), set_steps(room));
            &&& again.0 == env.union_prefer_right(map_of_pairs(new)).union_prefer_right(
                map_of_pairs(room),
            )
            &&& apply_steps(again.0, again.1, restore_steps(pair_keys(room))).0
                == env.union_prefer_right(map_of_pairs(new))
        }),
{
    let empty = Map::<Seq<char>, Option<Seq<char>>>::empty();
    lemma_set_steps(env, empty, old);
    let configured = env.union_prefer_right(map_of_pairs(old));
    let inherited = saved_over(empty, env, map_of_pairs(old));
    lemma_room_round_trip(configured, room);
    lemma_config_change(configured, inherited, old, new);
    let dropped = dropped_keys(old, map_of_pairs(new));
    let mn = map_of_pairs(new);
    let reloaded = restored(configured, inherited, dropped).union_prefer_right(mn);
    let target = env.union_prefer_right(mn);
    assert forall|k: Seq<char>| #[trigger] reloaded.contains_key(k) == target.contains_key(k) && (
    reloaded.contains_key(k) ==> reloaded[k] == target[k]) by {
        lemma_dropped_keys(old, mn, k);
    }
    assert(reloaded =~= target);
    lemma_room_round_trip(target, room);
}

/// Moving to a new configuration: each variable it sets has its value; each
/// that the old one set and it does not is back as it was before the shell
/// first set it; every other keeps its value.
pub proof fn lemma_config_change(
    env: Map<Seq<char>, Seq<char>>,
    inherited: Map<Seq<char>, Option<Seq<char>>>,
    previous: Seq<(Seq<char>, Seq<char>)>,
    next: Seq<(Seq<char>, Seq<char>)>,
)
    requires
        unique_keys(next),
    ensures
        apply_steps(
            env,
            inherited,
            restore_steps(dropped_keys(previous, map_of_pairs(next))) + set_steps(next),
        ).0 == restored(env, inherited, dropped_keys(previous, map_of_pairs(next))).union_prefer_right(
            map_of_pairs(next),
        ),
{
    let dropped = dropped_keys(previous, map_of_pairs(next));
    lemma_apply_append(env, inherited, restore_steps(dropped), set_steps(next));
    lemma_restore_steps(env, inherited, dropped);
    lemma_set_steps(restored(env, inherited, dropped), inherited, next);
}

/// The steps that enter a room: each of its variables saved, then set.
pub fn entry_steps(variables: &Table<String>) -> (r: Vec<EnvStep>)
    ensures
        step_views(r@) == set_steps(variables.pairs()),
{
    let entries = variables.entries();
    let ghost p = variables.pairs();
    let mut r: Vec<EnvStep> = Vec::new();
    let mut i: usize = 0;
    while i < entries.len()
        invariant
            i <= entries@.len(),
            entries@.len() == p.len(),
            p == variables.pairs(),
            forall|j: int|
                0 <= j < entries@.len() ==> (#[trigger] entries@[j]).0@ == p[j].0 && entries@[j].1@
                    == p[j].1,
            step_views(r@) == set_steps(p.take(i as int)),
        decreases entries@.len() - i,
    {
        let ghost before = r@;
        let key = String::from_str(entries[i].0.as_str());
        let key2 = String::from_str(entries[i].0.as_str());
        let value = String::from_str(entries[i].1.as_str());
        r.push(EnvStep::Save(key));
        r.push(EnvStep::Assign(key2, value));
        assert(p.take(i + 1).drop_last() =~= p.take(i as int));
        assert(p.take(i + 1).last() == p[i as int]);
        assert(step_views(r@) =~= step_views(before) + seq![
            EnvStepModel::Save(p[i as int].0),
            EnvStepModel::Assign(p[i as int].0, p[i as int].1),
        ]);
        i += 1;
    }
    assert(p.take(p.len() as int) =~= p);
    r
}

/// The steps that leave a room: each of its variables put back.
pub fn leave_steps(variables: &Table<String>) -> (r: Vec<EnvStep>)
    ensures
        step_views(r@) == restore_steps(pair_keys(variables.pairs())),
{
    let entries = variables.entries();
    let ghost p = variables.pairs();
    let mut r: Vec<EnvStep> = Vec::new();
    let mut i: usize = 0;
    while i < entries.len()
        invariant
            i <= entries@.len(),
            entries@.len() == p.len(),
            p == variables.pairs(),
            forall|j: int| 0 <= j < entries@.len() ==> (#[trigger] entries@[j]).0@ == p[j].0,
            step_views(r@) == restore_steps(pair_keys(p.take(i as int))),
        decreases entries@.len() - i,
    {
        let ghost before = r@;
        r.push(EnvStep::Restore(String::from_str(entries[i].0.as_str())));
        assert(pair_keys(p.take(i + 1)) =~= pair_keys(p.take(i as int)).push(p[i as int].0));
        assert(step_views(r@) =~= step_views(before).push(EnvStepModel::Restore(p[i as int].0)));
        assert(step_views(r@) =~= restore_steps(pair_keys(p.take(i + 1))));
        i += 1;
    }
    assert(p.take(p.len() as int) =~= p);
    r
}

/// The variables of `previous` that `next` no longer has, in order.
pub open spec fn dropped_keys(p: Seq<(Seq<char>, Seq<char>)>, next: Map<Seq<char>, Seq<char>>) -> Seq<
    Seq<char>,
>
    decreases p.len(),
{
    if p.len() == 0 {
        Seq::empty()
    } else if !next.contains_key(p.last().0) {
        dropped_keys(p.drop_last(), next).push(p.last().0)
    } else {
        dropped_keys(p.drop_last(), next)
    }
}

/// The steps that move the environment from one configuration to the next:
/// each variable the old one set and the new one does not put back as it
/// was before the shell first set it, then each of the new one's saved
/// (once) and set.
pub fn config_steps(previous: &Table<String>, next: &Table<String>) -> (r: Vec<EnvStep>)
    ensures
        step_views(r@) == restore_steps(dropped_keys(previous.pairs(), next.view()))
            + set_steps(next.pairs()),
{
    let entries = previous.entries();
    let ghost p = previous.pairs();
    let mut r: Vec<EnvStep> = Vec::new();
    let mut i: usize = 0;
    while i < entries.len()
        invariant
            i <= entries@.len(),
            entries@.len() == p.len(),
            p == previous.pairs(),
            forall|j: int| 0 <= j < entries@.len() ==> (#[trigger] entries@[j]).0@ == p[j].0,
            step_views(r@) == restore_steps(dropped_keys(p.take(i as int), next.view())),
        decreases entries@.len() - i,
    {
        let ghost before = r@;
        let ghost k = p[i as int].0;
        assert(p.take(i + 1).drop_last() =~= p.take(i as int));
        assert(p.take(i + 1).last() == p[i as int]);
        assert(entries@[i as int].0@ == k);
        if !next.contains_key(&entries[i].0) {
            r.push(EnvStep::Restore(String::from_str(entries[i].0.as_str())));
            assert(step_views(r@) =~= step_views(before).push(EnvStepModel::Restore(k)));
            assert(step_views(r@) =~= restore_steps(dropped_keys(p.take(i + 1), next.view())));
        } else {
            assert(step_views(r@) =~= restore_steps(dropped_keys(p.take(i + 1), next.view())));
        }
        i += 1;
    }
    assert(p.take(p.len() as int) =~= p);
    let ghost dropped = r@;
    let mut sets = entry_steps(next);
    r.append(&mut sets);
    assert(step_views(r@) =~= step_views(dropped) + set_steps(next.pairs()));
    r
}

} // verus!
