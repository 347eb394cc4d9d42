//! The mutable plugin list shared by every load-order method, and the
//! operations that keep its rules.

use crate::enums::{game_supports_light_plugins, Error, LoadOrderMethod};
use crate::game_settings::{method_of, GameSettings};
use crate::identity::{ends_with_ci, ghost_suffix, plugin_key, plugin_name_key, trim_ghost};
use crate::invariants::{
    all_wf, generic_insert_position, generic_insert_position_ok, index_valid, valid_load_order,
    validate_index, validate_load_order,
};
use crate::plugin::{copy_strings, Plugin, PluginMetadata};
use vstd::prelude::*;

verus! {

/// No two plugins share an identity.
pub open spec fn unique_keys(ps: Seq<Plugin>) -> bool {
    forall|i: int, j: int|
        0 <= i < ps.len() && 0 <= j < ps.len() && i != j ==> (#[trigger] ps[i]).key@ != (
        #[trigger] ps[j]).key@
}

/// Some plugin of `ps` has the identity `key`.
pub open spec fn has_key(ps: Seq<Plugin>, key: Seq<char>) -> bool {
    exists|i: int| 0 <= i < ps.len() && (#[trigger] ps[i]).key@ == key
}

/// Position of the first plugin with identity `key`, if any.
pub open spec fn key_position_ok(ps: Seq<Plugin>, key: Seq<char>, r: Option<usize>) -> bool {
    match r {
        Some(i) => i < ps.len() && ps[i as int].key@ == key && forall|j: int|
            0 <= j < i ==> (#[trigger] ps[j]).key@ != key,
        None => !has_key(ps, key),
    }
}

/// Position of the plugin with identity `key`, where one has it.
pub open spec fn index_of_key_spec(ps: Seq<Plugin>, key: Seq<char>) -> int {
    choose|i: int| 0 <= i < ps.len() && (#[trigger] ps[i]).key@ == key
}

pub proof fn lemma_index_of_key_spec(ps: Seq<Plugin>, key: Seq<char>, i: int)
    requires
        unique_keys(ps),
        0 <= i < ps.len(),
        ps[i].key@ == key,
    ensures
        index_of_key_spec(ps, key) == i,
        has_key(ps, key),
{
    let c = index_of_key_spec(ps, key);
    assert(0 <= c < ps.len() && ps[c].key@ == key);
    if c != i {
        assert(ps[c].key@ != ps[i].key@);
    }
}

proof fn lemma_count_insert(ps: Seq<Plugin>, i: int, p: Plugin, light_games: bool, light: bool)
    requires
        0 <= i <= ps.len(),
    ensures
        active_count(ps.insert(i, p), light_games, light) == active_count(ps, light_games, light)
            + (if p.active && (light_games && p.light_flag) == light {
            1nat
        } else {
            0nat
        }),
    decreases ps.len(),
{
    if i == ps.len() {
        assert(ps.insert(i, p).drop_last() =~= ps);
    } else {
        assert(ps.insert(i, p).drop_last() =~= ps.drop_last().insert(i, p));
        lemma_count_insert(ps.drop_last(), i, p, light_games, light);
    }
}

pub proof fn lemma_insert_keeps_wf(ps: Seq<Plugin>, i: int, p: Plugin)
    requires
        all_wf(ps),
        unique_keys(ps),
        p.wf(),
        !has_key(ps, p.key@),
        0 <= i <= ps.len(),
    ensures
        all_wf(ps.insert(i, p)),
        unique_keys(ps.insert(i, p)),
{
    let qs = ps.insert(i, p);
    assert forall|a: int| 0 <= a < qs.len() implies (#[trigger] qs[a]).wf() by {
        if a > i {
            assert(qs[a] == ps[a - 1]);
        }
    }
    assert forall|a: int, b: int|
        0 <= a < qs.len() && 0 <= b < qs.len() && a != b implies (#[trigger] qs[a]).key@ != (
        #[trigger] qs[b]).key@ by {
        let pa = if a < i {
            a
        } else {
            a - 1
        };
        let pb = if b < i {
            b
        } else {
            b - 1
        };
        if a == i {
            assert(qs[b] == ps[pb]);
        } else if b == i {
            assert(qs[a] == ps[pa]);
        } else {
            assert(qs[a] == ps[pa]);
            assert(qs[b] == ps[pb]);
        }
    }
}

pub proof fn lemma_remove_keeps_wf(ps: Seq<Plugin>, i: int)
    requires
        all_wf(ps),
        unique_keys(ps),
        0 <= i < ps.len(),
    ensures
        all_wf(ps.remove(i)),
        unique_keys(ps.remove(i)),
        !has_key(ps.remove(i), ps[i].key@),
{
    let qs = ps.remove(i);
    assert forall|a: int| 0 <= a < qs.len() implies (#[trigger] qs[a]).wf() by {
        if a >= i {
            assert(qs[a] == ps[a + 1]);
        }
    }
    assert forall|a: int, b: int|
        0 <= a < qs.len() && 0 <= b < qs.len() && a != b implies (#[trigger] qs[a]).key@ != (
        #[trigger] qs[b]).key@ by {
        let pa = if a < i {
            a
        } else {
            a + 1
        };
        let pb = if b < i {
            b
        } else {
            b + 1
        };
        assert(qs[a] == ps[pa]);
        assert(qs[b] == ps[pb]);
    }
    assert forall|a: int| 0 <= a < qs.len() implies (#[trigger] qs[a]).key@ != ps[i].key@ by {
        let pa = if a < i {
            a
        } else {
            a + 1
        };
        assert(qs[a] == ps[pa]);
    }
}

/// The most normal plugins that can be active at once.
pub const MAX_ACTIVE_NORMAL_PLUGINS: usize = 255;

/// The most light plugins that can be active at once, where a game has them.
pub const MAX_ACTIVE_LIGHT_PLUGINS: usize = 4096;

/// Number of active plugins of `ps` in one category: light (where `light_games`
/// says the game has light plugins) or normal.
pub open spec fn active_count(ps: Seq<Plugin>, light_games: bool, light: bool) -> nat
    decreases ps.len(),
{
    if ps.len() == 0 {
        0
    } else {
        active_count(ps.drop_last(), light_games, light) + if ps.last().active && (light_games
            && ps.last().light_flag) == light {
            1nat
        } else {
            0nat
        }
    }
}

/// Counts the active plugins of one category.
fn count_active(plugins: &Vec<Plugin>, light_games: bool, light: bool) -> (r: usize)
    ensures
        r == active_count(plugins@, light_games, light),
{
    let mut count: usize = 0;
    let mut i: usize = 0;
    while i < plugins.len()
        invariant
            i <= plugins@.len(),
            count == active_count(plugins@.take(i as int), light_games, light),
            count <= i,
        decreases plugins@.len() - i,
    {
        assert(plugins@.take(i + 1).drop_last() =~= plugins@.take(i as int));
        if plugins[i].active && (light_games && plugins[i].light_flag) == light {
            count = count + 1;
        }
        i = i + 1;
    }
    assert(plugins@.take(i as int) =~= plugins@);
    count
}

/// Counting is unchanged by changing one plugin's active flag, except for that plugin.
proof fn lemma_count_update(ps: Seq<Plugin>, i: int, p: Plugin, light_games: bool, light: bool)
    requires
        0 <= i < ps.len(),
        p.light_flag == ps[i].light_flag,
    ensures
        active_count(ps.update(i, p), light_games, light) + (if ps[i].active && (light_games
            && ps[i].light_flag) == light {
            1int
        } else {
            0int
        }) == active_count(ps, light_games, light) + (if p.active && (light_games
            && p.light_flag) == light {
            1int
        } else {
            0int
        }),
    decreases ps.len(),
{
    if i == ps.len() - 1 {
        assert(ps.update(i, p).drop_last() =~= ps.drop_last());
    } else {
        assert(ps.update(i, p).drop_last() =~= ps.drop_last().update(i, p));
        lemma_count_update(ps.drop_last(), i, p, light_games, light);
    }
}

/// Some parsed file of `installed` has the identity `key`.
pub open spec fn is_installed(installed: Seq<PluginMetadata>, key: Seq<char>) -> bool {
    exists|i: int| 0 <= i < installed.len() && plugin_key((#[trigger] installed[i]).filename@) == key
}

/// Position in `installed` of the parsed file with identity `key`.
pub fn find_installed(installed: &[PluginMetadata], key: &String) -> (r: Option<usize>)
    ensures
        match r {
            Some(i) => i < installed@.len() && plugin_key(installed@[i as int].filename@) == key@,
            None => !is_installed(installed@, key@),
        },
{
    let mut i: usize = 0;
    while i < installed.len()
        invariant
            i <= installed@.len(),
            forall|j: int|
                0 <= j < i ==> plugin_key((#[trigger] installed@[j]).filename@) != key@,
        decreases installed@.len() - i,
    {
        let k = plugin_name_key(installed[i].filename.as_str());
        if k == *key {
            return Some(i);
        }
        i = i + 1;
    }
    None
}

/// No two names denote the same plugin.
pub open spec fn names_unique(names: Seq<&str>) -> bool {
    forall|i: int, j: int|
        0 <= i < j < names.len() ==> plugin_key((#[trigger] names[i])@) != plugin_key(
            (#[trigger] names[j])@,
        )
}

/// Position of a name that repeats an earlier one, if any.
fn find_duplicate_name(names: &[&str]) -> (r: Option<usize>)
    ensures
        r is None <==> names_unique(names@),
        r matches Some(j) ==> j < names@.len(),
{
    let mut keys: Vec<String> = Vec::new();
    let mut j: usize = 0;
    while j < names.len()
        invariant
            j <= names@.len(),
            keys@.len() == j,
            forall|q: int| 0 <= q < j ==> (#[trigger] keys@[q])@ == plugin_key(names@[q]@),
            forall|a: int, b: int|
                0 <= a < b < j ==> plugin_key((#[trigger] names@[a])@) != plugin_key(
                    (#[trigger] names@[b])@,
                ),
        decreases names@.len() - j,
    {
        let k = plugin_name_key(names[j]);
        let mut i: usize = 0;
        while i < j
            invariant
                i <= j,
                j < names@.len(),
                keys@.len() == j,
                k@ == plugin_key(names@[j as int]@),
                forall|q: int| 0 <= q < j ==> (#[trigger] keys@[q])@ == plugin_key(names@[q]@),
                forall|q: int| 0 <= q < i ==> plugin_key((#[trigger] names@[q])@) != k@,
            decreases j - i,
        {
            if keys[i] == k {
                assert(plugin_key(names@[i as int]@) == plugin_key(names@[j as int]@));
                return Some(j);
            }
            i = i + 1;
        }
        keys.push(k);
        j = j + 1;
    }
    None
}

/// Whether no two names denote the same plugin.
pub fn are_plugin_names_unique(names: &[&str]) -> (r: bool)
    ensures
        r == names_unique(names@),
{
    find_duplicate_name(names).is_none()
}

/// The record that a name stands for: the plugin already in the load order,
/// else a new record for the installed file of that identity.
fn to_plugin(plugin_name: &str, existing: &[Plugin], installed: &[PluginMetadata], active: bool) -> (r:
    Option<Plugin>)
    requires
        all_wf(existing@),
    ensures
        r is None <==> !has_key(existing@, plugin_key(plugin_name@)) && !is_installed(
            installed@,
            plugin_key(plugin_name@),
        ),
        r matches Some(p) ==> {
            &&& p.wf()
            &&& p.key@ == plugin_key(plugin_name@)
            &&& has_key(existing@, plugin_key(plugin_name@)) ==> exists|i: int|
                0 <= i < existing@.len() && existing@[i].key@ == p.key@ && p.same_as(
                    #[trigger] existing@[i],
                )
            &&& !has_key(existing@, plugin_key(plugin_name@)) ==> p.active == active
            &&& !has_key(existing@, plugin_key(plugin_name@)) ==> built_from_installed(p, installed@)
        },
{
    let key = plugin_name_key(plugin_name);
    let mut i: usize = 0;
    while i < existing.len()
        invariant
            i <= existing@.len(),
            all_wf(existing@),
            key@ == plugin_key(plugin_name@),
            forall|j: int| 0 <= j < i ==> (#[trigger] existing@[j]).key@ != key@,
        decreases existing@.len() - i,
    {
        if existing[i].key == key {
            let p = existing[i].duplicate();
            assert(existing@[i as int].wf());
            return Some(p);
        }
        i = i + 1;
    }
    match find_installed(installed, &key) {
        Some(j) => {
            let p = Plugin::with_active(&installed[j], active);
            assert(built_from(p, installed@[j as int]));
            Some(p)
        },
        None => None,
    }
}

/// `ps` without the plugin of identity `key`, where it has one.
pub open spec fn without_key(ps: Seq<Plugin>, key: Seq<char>) -> Seq<Plugin> {
    if has_key(ps, key) {
        ps.remove(index_of_key_spec(ps, key))
    } else {
        ps
    }
}

/// The identity of a name, as a spec function of the name's text.
pub open spec fn plugin_name_key_spec(name: &str) -> Seq<char> {
    plugin_key(name@)
}

/// One of `names` denotes the plugin with identity `key`.
pub open spec fn requested(names: Seq<&str>, key: Seq<char>) -> bool {
    exists|j: int| 0 <= j < names.len() && plugin_key((#[trigger] names[j])@) == key
}

/// Moving the element at `f` to `t` keeps the records, their identities and
/// the length.
pub proof fn lemma_move_keeps_wf(ps: Seq<Plugin>, f: int, t: int)
    requires
        all_wf(ps),
        unique_keys(ps),
        0 <= f < ps.len(),
        0 <= t < ps.len(),
    ensures
        all_wf(ps.remove(f).insert(t, ps[f])),
        unique_keys(ps.remove(f).insert(t, ps[f])),
        ps.remove(f).insert(t, ps[f]).len() == ps.len(),
        forall|k: Seq<char>| has_key(ps.remove(f).insert(t, ps[f]), k) <==> has_key(ps, k),
        forall|k: Seq<char>|
            is_active_key(ps.remove(f).insert(t, ps[f]), k) <==> is_active_key(ps, k),
        forall|i: int| 0 <= i < ps.len() ==> ps.contains(#[trigger] ps.remove(f).insert(t, ps[f])[i]),
{
    lemma_remove_keeps_wf(ps, f);
    let rs = ps.remove(f);
    lemma_insert_keeps_wf(rs, t, ps[f]);
    let qs = rs.insert(t, ps[f]);
    assert forall|k: Seq<char>| has_key(qs, k) <==> has_key(ps, k) by {
        if has_key(ps, k) {
            let i = choose|i: int| 0 <= i < ps.len() && (#[trigger] ps[i]).key@ == k;
            if i == f {
                assert(qs[t] == ps[f]);
            } else {
                let ri = if i < f {
                    i
                } else {
                    i - 1
                };
                assert(rs[ri] == ps[i]);
                let qi = if ri < t {
                    ri
                } else {
                    ri + 1
                };
                assert(qs[qi] == rs[ri]);
            }
        }
        if has_key(qs, k) {
            let i = choose|i: int| 0 <= i < qs.len() && (#[trigger] qs[i]).key@ == k;
            if i == t {
                assert(ps[f].key@ == k);
            } else {
                let ri = if i < t {
                    i
                } else {
                    i - 1
                };
                assert(qs[i] == rs[ri]);
                let pi = if ri < f {
                    ri
                } else {
                    ri + 1
                };
                assert(rs[ri] == ps[pi]);
            }
        }
    }
    assert forall|i: int| 0 <= i < ps.len() implies ps.contains(#[trigger] qs[i]) by {
        if i == t {
            assert(qs[i] == ps[f]);
        } else {
            let ri = if i < t {
                i
            } else {
                i - 1
            };
            assert(qs[i] == rs[ri]);
            let pi = if ri < f {
                ri
            } else {
                ri + 1
            };
            assert(rs[ri] == ps[pi]);
        }
    }
    assert forall|k: Seq<char>| is_active_key(qs, k) <==> is_active_key(ps, k) by {
        if is_active_key(ps, k) {
            let i = choose|i: int| 0 <= i < ps.len() && (#[trigger] ps[i]).key@ == k && ps[i].active;
            if i == f {
                assert(qs[t] == ps[f]);
            } else {
                let ri = if i < f {
                    i
                } else {
                    i - 1
                };
                assert(rs[ri] == ps[i]);
                let qi = if ri < t {
                    ri
                } else {
                    ri + 1
                };
                assert(qs[qi] == rs[ri]);
            }
        }
        if is_active_key(qs, k) {
            let i = choose|i: int| 0 <= i < qs.len() && (#[trigger] qs[i]).key@ == k && qs[i].active;
            if i == t {
                assert(ps[f].key@ == k);
            } else {
                let ri = if i < t {
                    i
                } else {
                    i - 1
                };
                assert(qs[i] == rs[ri]);
                let pi = if ri < f {
                    ri
                } else {
                    ri + 1
                };
                assert(rs[ri] == ps[pi]);
            }
        }
    }
}

/// The moves still to make after moving an element to `t`: destinations past
/// `t` shift by one.
pub open spec fn shift_moves(moves: Seq<(usize, usize)>, t: usize) -> Seq<(usize, usize)> {
    moves.map_values(
        |m: (usize, usize)|
            if t < m.1 && m.1 < usize::MAX {
                (m.0, (m.1 + 1) as usize)
            } else {
                m
            },
    )
}

/// The result of making each move in turn, removing the element at the
/// source and inserting it at the destination. A move outside the list is
/// skipped.
pub open spec fn apply_moves(ps: Seq<Plugin>, moves: Seq<(usize, usize)>) -> Seq<Plugin>
    decreases moves.len(),
{
    if moves.len() == 0 {
        ps
    } else {
        let (f, t) = moves[0];
        let next = if f < ps.len() && t < ps.len() {
            ps.remove(f as int).insert(t as int, ps[f as int])
        } else {
            ps
        };
        apply_moves(next, shift_moves(moves.drop_first(), t))
    }
}

/// Applying moves keeps well-formedness, length and the set of identities.
pub proof fn lemma_apply_moves_keeps_wf(ps: Seq<Plugin>, moves: Seq<(usize, usize)>)
    requires
        all_wf(ps),
        unique_keys(ps),
    ensures
        all_wf(apply_moves(ps, moves)),
        unique_keys(apply_moves(ps, moves)),
        apply_moves(ps, moves).len() == ps.len(),
        forall|k: Seq<char>| has_key(apply_moves(ps, moves), k) <==> has_key(ps, k),
        forall|k: Seq<char>| is_active_key(apply_moves(ps, moves), k) <==> is_active_key(ps, k),
        forall|i: int| 0 <= i < ps.len() ==> ps.contains(#[trigger] apply_moves(ps, moves)[i]),
    decreases moves.len(),
{
    if moves.len() > 0 {
        let (f, t) = moves[0];
        if f < ps.len() && t < ps.len() {
            lemma_move_keeps_wf(ps, f as int, t as int);
            let next = ps.remove(f as int).insert(t as int, ps[f as int]);
            lemma_apply_moves_keeps_wf(next, shift_moves(moves.drop_first(), t));
            let res = apply_moves(ps, moves);
            assert(res == apply_moves(next, shift_moves(moves.drop_first(), t)));
            assert forall|i: int| 0 <= i < ps.len() implies ps.contains(#[trigger] res[i]) by {
                assert(next.contains(res[i]));
                let a = choose|a: int| 0 <= a < next.len() && next[a] == res[i];
                assert(ps.contains(next[a]));
            }
        } else {
            lemma_apply_moves_keeps_wf(ps, shift_moves(moves.drop_first(), t));
            assert(apply_moves(ps, moves) == apply_moves(ps, shift_moves(moves.drop_first(), t)));
        }
    } else {
        assert forall|i: int| 0 <= i < ps.len() implies ps.contains(
            #[trigger] apply_moves(ps, moves)[i],
        ) by {
            assert(apply_moves(ps, moves)[i] == ps[i]);
        }
    }
}

/// Makes the moves of `from_to_indices` in order. Each move of an element to
/// an earlier position shifts the later destinations past it by one.
pub fn move_elements(plugins: &mut Vec<Plugin>, from_to_indices: Vec<(usize, usize)>)
    ensures
        final(plugins)@ == apply_moves(old(plugins)@, from_to_indices@),
{
    let mut moves = from_to_indices;
    let mut i: usize = 0;
    assert(moves@.skip(0) =~= moves@);
    while i < moves.len()
        invariant
            i <= moves@.len(),
            moves@.len() == from_to_indices@.len(),
            apply_moves(plugins@, moves@.skip(i as int)) == apply_moves(
                old(plugins)@,
                from_to_indices@,
            ),
        decreases moves@.len() - i,
    {
        let (from_index, to_index) = moves[i];
        let ghost before = plugins@;
        let ghost rest = moves@.skip(i as int);
        assert(rest[0] == (from_index, to_index));
        if from_index < plugins.len() && to_index < plugins.len() {
            let element = plugins.remove(from_index);
            plugins.insert(to_index, element);
        }
        let ghost old_moves = moves@;
        let mut j: usize = i + 1;
        while j < moves.len()
            invariant
                i < j <= moves@.len(),
                moves@.len() == old_moves.len(),
                forall|q: int| 0 <= q <= i ==> moves@[q] == old_moves[q],
                forall|q: int| j <= q < moves@.len() ==> moves@[q] == old_moves[q],
                forall|q: int|
                    i < q < j ==> moves@[q] == (if to_index < old_moves[q].1 && old_moves[q].1
                        < usize::MAX {
                        (old_moves[q].0, (old_moves[q].1 + 1) as usize)
                    } else {
                        old_moves[q]
                    }),
            decreases moves@.len() - j,
        {
            let (f, t) = moves[j];
            if to_index < t && t < usize::MAX {
                moves.set(j, (f, t + 1));
            }
            j = j + 1;
        }
        assert(moves@.skip(i + 1) =~= shift_moves(rest.drop_first(), to_index));
        i = i + 1;
    }
}

/// Position of the first plugin with identity `key` at or after `i`, or the
/// length where there is none.
pub open spec fn first_key_from(ps: Seq<Plugin>, key: Seq<char>, i: int) -> int
    decreases ps.len() - i,
{
    if i < 0 || i >= ps.len() {
        ps.len() as int
    } else if ps[i].key@ == key {
        i
    } else {
        first_key_from(ps, key, i + 1)
    }
}

/// Position of the plugin with identity `key`, or 0 where there is none.
pub open spec fn position_or_zero(ps: Seq<Plugin>, key: Seq<char>) -> int {
    let f = first_key_from(ps, key, 0);
    if f < ps.len() {
        f
    } else {
        0
    }
}

/// Position of the first move at or after `p` whose source is at least
/// `from`, or the length where there is none.
pub open spec fn first_source_from(moves: Seq<(usize, usize)>, from: usize, p: int) -> int
    decreases moves.len() - p,
{
    if p < 0 || p >= moves.len() {
        moves.len() as int
    } else if moves[p].0 >= from {
        p
    } else {
        first_source_from(moves, from, p + 1)
    }
}

/// The moves with a move from `from` to `to` recorded, ordered by source; a
/// source that already has a move keeps it.
pub open spec fn insert_move_spec(moves: Seq<(usize, usize)>, from: usize, to: usize) -> Seq<
    (usize, usize),
> {
    let p = first_source_from(moves, from, 0);
    if p < moves.len() && moves[p].0 == from {
        moves
    } else {
        moves.insert(p, (from, to))
    }
}

/// The moves that hoisting records, going on from master `index` and its
/// declared master `m`: for each master of the leading block of masters and
/// each declared master that stands later as a non-master, a move from that
/// position to the master's.
pub open spec fn hoist_scan(ps: Seq<Plugin>, index: int, m: int, moves: Seq<(usize, usize)>) -> Seq<
    (usize, usize),
>
    decreases ps.len() - index, if 0 <= index < ps.len() && 0 <= m <= ps[index].master_keys@.len() {
        ps[index].master_keys@.len() - m
    } else {
        0
    },
{
    if index < 0 || index >= ps.len() || m < 0 || m > ps[index].master_keys@.len() || !ps[index].is_master() {
        moves
    } else if m == ps[index].master_keys@.len() {
        hoist_scan(ps, index + 1, 0, moves)
    } else {
        let pos = position_or_zero(ps, ps[index].master_keys@[m]@);
        let next = if pos > index && !ps[pos].is_master() {
            insert_move_spec(moves, pos as usize, index as usize)
        } else {
            moves
        };
        hoist_scan(ps, index, m + 1, next)
    }
}

/// The moves that hoisting makes on `ps`.
pub open spec fn hoist_moves(ps: Seq<Plugin>) -> Seq<(usize, usize)> {
    hoist_scan(ps, 0, 0, seq![])
}

/// Position of the first plugin with identity `key`.
pub fn find_key(plugins: &[Plugin], key: &String) -> (r: Option<usize>)
    ensures
        key_position_ok(plugins@, key@, r),
        match r {
            Some(i) => i == first_key_from(plugins@, key@, 0),
            None => first_key_from(plugins@, key@, 0) == plugins@.len(),
        },
{
    let mut i: usize = 0;
    while i < plugins.len()
        invariant
            i <= plugins@.len(),
            forall|j: int| 0 <= j < i ==> (#[trigger] plugins@[j]).key@ != key@,
            first_key_from(plugins@, key@, i as int) == first_key_from(plugins@, key@, 0),
        decreases plugins@.len() - i,
    {
        if plugins[i].key == *key {
            return Some(i);
        }
        i = i + 1;
    }
    None
}

/// Records a move from `from` to `to`, keeping the moves ordered by source;
/// a source that already has a move keeps it.
fn insert_move(moves: &mut Vec<(usize, usize)>, from: usize, to: usize)
    ensures
        final(moves)@ == insert_move_spec(old(moves)@, from, to),
        forall|q: int|
            0 <= q < final(moves)@.len() ==> #[trigger] final(moves)@[q] == (from, to) || old(
                moves,
            )@.contains(final(moves)@[q]),
{
    let mut p: usize = 0;
    while p < moves.len() && moves[p].0 < from
        invariant
            p <= moves@.len(),
            moves@ == old(moves)@,
            first_source_from(moves@, from, p as int) == first_source_from(moves@, from, 0),
        decreases moves@.len() - p,
    {
        p = p + 1;
    }
    if p < moves.len() && moves[p].0 == from {
        assert forall|q: int| 0 <= q < moves@.len() implies #[trigger] moves@[q] == (from, to)
            || old(moves)@.contains(moves@[q]) by {
            assert(old(moves)@[q] == moves@[q]);
        }
        return;
    }
    let ghost before = moves@;
    moves.insert(p, (from, to));
    assert forall|q: int| 0 <= q < moves@.len() implies #[trigger] moves@[q] == (from, to)
        || before.contains(moves@[q]) by {
        if q < p {
            assert(moves@[q] == before[q]);
        } else if q > p {
            assert(moves@[q] == before[q - 1]);
        }
    }
}

/// Moves each non-master that a master in the leading block of masters
/// declares to just before the first such master, keeping the order of
/// everything else.
pub fn hoist_masters(plugins: &mut Vec<Plugin>)
    requires
        all_wf(old(plugins)@),
        unique_keys(old(plugins)@),
    ensures
        all_wf(final(plugins)@),
        unique_keys(final(plugins)@),
        final(plugins)@.len() == old(plugins)@.len(),
        forall|k: Seq<char>| has_key(final(plugins)@, k) <==> has_key(old(plugins)@, k),
        forall|k: Seq<char>| is_active_key(final(plugins)@, k) <==> is_active_key(old(plugins)@, k),
        forall|i: int|
            0 <= i < old(plugins)@.len() ==> old(plugins)@.contains(#[trigger] final(plugins)@[i]),
        old(plugins)@.len() > 0 && old(plugins)@[0].master_keys@.len() == 0 ==> final(plugins)@[0]
            == old(plugins)@[0],
        final(plugins)@ == apply_moves(old(plugins)@, hoist_moves(old(plugins)@)),
{
    let mut from_to_map: Vec<(usize, usize)> = Vec::new();
    let n = plugins.len();
    let mut index: usize = 0;
    let mut in_masters = true;
    while index < n && in_masters
        invariant
            n == plugins@.len(),
            plugins@ == old(plugins)@,
            index <= n,
            forall|q: int|
                0 <= q < from_to_map@.len() ==> (#[trigger] from_to_map@[q]).0 >= 1 && (
                from_to_map@[q].1 >= 1 || plugins@[0].master_keys@.len() > 0),
            in_masters ==> hoist_scan(plugins@, index as int, 0, from_to_map@) == hoist_moves(
                plugins@,
            ),
            !in_masters ==> from_to_map@ == hoist_moves(plugins@),
        decreases n - index, if in_masters { 1int } else { 0int },
    {
        if !plugins[index].is_master_file() {
            in_masters = false;
        } else {
            let mut m: usize = 0;
            while m < plugins[index].master_keys.len()
                invariant
                    n == plugins@.len(),
                    plugins@ == old(plugins)@,
                    index < n,
                    m <= plugins@[index as int].master_keys@.len(),
                    plugins@[index as int].is_master(),
                    forall|q: int|
                        0 <= q < from_to_map@.len() ==> (#[trigger] from_to_map@[q]).0 >= 1 && (
                        from_to_map@[q].1 >= 1 || plugins@[0].master_keys@.len() > 0),
                    hoist_scan(plugins@, index as int, m as int, from_to_map@) == hoist_moves(
                        plugins@,
                    ),
                decreases plugins@[index as int].master_keys@.len() - m,
            {
                let pos = match find_key(plugins.as_slice(), &plugins[index].master_keys[m]) {
                    Some(p) => p,
                    None => 0,
                };
                if pos > index && !plugins[pos].is_master_file() {
                    let ghost before = from_to_map@;
                    insert_move(&mut from_to_map, pos, index);
                    proof {
                        assert forall|q: int| 0 <= q < from_to_map@.len() implies (
                        #[trigger] from_to_map@[q]).0 >= 1 && (from_to_map@[q].1 >= 1
                            || plugins@[0].master_keys@.len() > 0) by {
                            if from_to_map@[q] != (pos, index) {
                                let w = choose|w: int|
                                    0 <= w < before.len() && before[w] == from_to_map@[q];
                                assert(before[w].0 >= 1);
                            }
                        }
                    }
                }
                m = m + 1;
            }
            index = index + 1;
        }
    }
    proof {
        lemma_apply_moves_keeps_wf(plugins@, from_to_map@);
        if plugins@.len() > 0 && plugins@[0].master_keys@.len() == 0 {
            lemma_apply_moves_keeps_first(plugins@, from_to_map@);
        }
    }
    move_elements(plugins, from_to_map);
}

/// Some entry of `ts` names a plugin of identity `key`.
pub open spec fn tuple_has_key(ts: Seq<(String, bool)>, key: Seq<char>) -> bool {
    exists|i: int| 0 <= i < ts.len() && plugin_key((#[trigger] ts[i]).0@) == key
}

/// `i` is the last entry of `ts` for its identity.
pub open spec fn last_of_its_key(ts: Seq<(String, bool)>, i: int) -> bool {
    forall|j: int| i < j < ts.len() ==> plugin_key((#[trigger] ts[j]).0@) != plugin_key(ts[i].0@)
}

/// `v` is the entries of `ts` at the increasing positions `src`.
pub open spec fn picks(ts: Seq<(String, bool)>, v: Seq<(String, bool)>, src: Seq<int>) -> bool {
    &&& src.len() == v.len()
    &&& forall|a: int, b: int| 0 <= a < b < src.len() ==> #[trigger] src[a] < #[trigger] src[b]
    &&& forall|q: int| 0 <= q < src.len() ==> 0 <= #[trigger] src[q] < ts.len() && v[q] == ts[src[q]]
}

/// `e` is the last entry of `ts` for its identity.
pub open spec fn from_last_entry(ts: Seq<(String, bool)>, e: (String, bool)) -> bool {
    exists|j: int| 0 <= j < ts.len() && #[trigger] last_of_its_key(ts, j) && e == ts[j]
}

/// Some entry of `v` has the identity `key`.
pub open spec fn entries_have_key(v: Seq<(String, bool)>, key: Seq<char>) -> bool {
    exists|q: int| 0 <= q < v.len() && plugin_key((#[trigger] v[q]).0@) == key
}

/// `i` is the first of `fs` for its identity.
pub open spec fn first_of_its_key(fs: Seq<String>, i: int) -> bool {
    forall|j: int| 0 <= j < i ==> plugin_key((#[trigger] fs[j])@) != plugin_key(fs[i]@)
}

/// Whether some key of `keys` equals `key`.
fn contains_key(keys: &Vec<String>, key: &String) -> (r: bool)
    ensures
        r == exists|i: int| 0 <= i < keys@.len() && (#[trigger] keys@[i])@ == key@,
{
    let mut i: usize = 0;
    while i < keys.len()
        invariant
            i <= keys@.len(),
            forall|j: int| 0 <= j < i ==> (#[trigger] keys@[j])@ != key@,
        decreases keys@.len() - i,
    {
        if keys[i] == *key {
            return true;
        }
        i = i + 1;
    }
    false
}

/// The identities of the names of a list of entries.
fn entry_keys(ts: &Vec<(String, bool)>) -> (r: Vec<String>)
    ensures
        r@.len() == ts@.len(),
        forall|q: int| 0 <= q < ts@.len() ==> (#[trigger] r@[q])@ == plugin_key(ts@[q].0@),
{
    let mut out: Vec<String> = Vec::new();
    let mut i: usize = 0;
    while i < ts.len()
        invariant
            i <= ts@.len(),
            out@.len() == i,
            forall|q: int| 0 <= q < i ==> (#[trigger] out@[q])@ == plugin_key(ts@[q].0@),
        decreases ts@.len() - i,
    {
        out.push(plugin_name_key(ts[i].0.as_str()));
        i = i + 1;
    }
    out
}

/// Every entry has a last entry of its identity at or after it.
proof fn lemma_last_of_key_exists(ts: Seq<(String, bool)>, j: int)
    requires
        0 <= j < ts.len(),
    ensures
        exists|m: int|
            j <= m < ts.len() && plugin_key((#[trigger] ts[m]).0@) == plugin_key(ts[j].0@)
                && last_of_its_key(ts, m),
    decreases ts.len() - j,
{
    if !last_of_its_key(ts, j) {
        let k = choose|k: int|
            j < k < ts.len() && plugin_key((#[trigger] ts[k]).0@) == plugin_key(ts[j].0@);
        lemma_last_of_key_exists(ts, k);
        let m = choose|m: int|
            k <= m < ts.len() && plugin_key((#[trigger] ts[m]).0@) == plugin_key(ts[k].0@)
                && last_of_its_key(ts, m);
        assert(j <= m < ts.len() && plugin_key(ts[m].0@) == plugin_key(ts[j].0@));
    } else {
        assert(plugin_key(ts[j].0@) == plugin_key(ts[j].0@));
    }
}

/// The last entry of each identity in `ts`, in order, with its identity.
#[verifier::rlimit(40)]
fn last_entries(ts: &Vec<(String, bool)>, tkeys: &Vec<String>) -> (r: Vec<(String, bool)>)
    requires
        tkeys@.len() == ts@.len(),
        forall|q: int| 0 <= q < ts@.len() ==> (#[trigger] tkeys@[q])@ == plugin_key(ts@[q].0@),
    ensures
        forall|a: int, b: int|
            0 <= a < b < r@.len() ==> plugin_key((#[trigger] r@[a]).0@) != plugin_key(
                (#[trigger] r@[b]).0@,
            ),
        forall|q: int| 0 <= q < r@.len() ==> from_last_entry(ts@, #[trigger] r@[q]),
        forall|j: int| 0 <= j < ts@.len() ==> entries_have_key(r@, plugin_key((#[trigger] ts@[j]).0@)),
        exists|src: Seq<int>| picks(ts@, r@, src),
{
    let n = ts.len();
    let mut unique: Vec<(String, bool)> = Vec::new();
    let mut unique_keys: Vec<String> = Vec::new();
    let ghost mut src: Seq<int> = seq![];
    let mut i: usize = 0;
    while i < n
        invariant
            n == ts@.len(),
            i <= n,
            tkeys@.len() == n,
            forall|q: int| 0 <= q < n ==> (#[trigger] tkeys@[q])@ == plugin_key(ts@[q].0@),
            unique_keys@.len() == unique@.len(),
            src.len() == unique@.len(),
            forall|q: int|
                0 <= q < unique@.len() ==> (#[trigger] unique_keys@[q])@ == plugin_key(
                    unique@[q].0@,
                ),
            forall|q: int|
                0 <= q < src.len() ==> 0 <= #[trigger] src[q] < i && last_of_its_key(ts@, src[q])
                    && unique@[q] == ts@[src[q]],
            forall|a: int, b: int| 0 <= a < b < src.len() ==> #[trigger] src[a] < #[trigger] src[b],
            forall|m: int|
                0 <= m < i && last_of_its_key(ts@, m) ==> exists|q: int|
                    0 <= q < src.len() && #[trigger] src[q] == m,
        decreases n - i,
    {
        let mut last = true;
        let mut j: usize = i + 1;
        while j < n
            invariant
                n == ts@.len(),
                i < n,
                i < j <= n || (j == i + 1),
                tkeys@.len() == n,
                forall|q: int| 0 <= q < n ==> (#[trigger] tkeys@[q])@ == plugin_key(ts@[q].0@),
                last == forall|q: int|
                    i < q < j && q < n ==> plugin_key((#[trigger] ts@[q]).0@) != plugin_key(
                        ts@[i as int].0@,
                    ),
            decreases n - j,
        {
            if tkeys[j] == tkeys[i] {
                last = false;
            }
            j = j + 1;
        }
        if last {
            let ghost old_len = unique@.len();
            unique.push((ts[i].0.clone(), ts[i].1));
            unique_keys.push(tkeys[i].clone());
            proof {
                let old_src = src;
                src = src.push(i as int);
                assert(src[old_len as int] == i);
                assert forall|m: int| 0 <= m < i + 1 && last_of_its_key(ts@, m) implies exists|q: int|
                    0 <= q < src.len() && #[trigger] src[q] == m by {
                    if m < i {
                        let q = choose|q: int| 0 <= q < old_src.len() && #[trigger] old_src[q] == m;
                        assert(src[q] == old_src[q]);
                    }
                }
            }
        }
        i = i + 1;
    }
    proof {
        assert forall|j: int| 0 <= j < n implies entries_have_key(
            unique@,
            plugin_key((#[trigger] ts@[j]).0@),
        ) by {
            lemma_last_of_key_exists(ts@, j);
            let m = choose|m: int|
                j <= m < ts@.len() && plugin_key((#[trigger] ts@[m]).0@) == plugin_key(ts@[j].0@)
                    && last_of_its_key(ts@, m);
            let q = choose|q: int| 0 <= q < src.len() && #[trigger] src[q] == m;
            assert(unique@[q] == ts@[src[q]]);
        }
        assert forall|a: int, b: int|
            0 <= a < b < unique@.len() implies plugin_key((#[trigger] unique@[a]).0@) != plugin_key(
            (#[trigger] unique@[b]).0@,
        ) by {
            assert(src[a] < src[b]);
            assert(last_of_its_key(ts@, src[a]));
            assert(unique@[b] == ts@[src[b]]);
            assert(unique@[a] == ts@[src[a]]);
        }
        assert forall|q: int| 0 <= q < unique@.len() implies from_last_entry(
            ts@,
            #[trigger] unique@[q],
        ) by {
            assert(unique@[q] == ts@[src[q]]);
        }
        assert(picks(ts@, unique@, src));
    }
    unique
}

/// Appends the files whose identity neither `tkeys` nor `unique_keys` has,
/// inactive, keeping the first of each identity.
fn append_unlisted(
    unique: Vec<(String, bool)>,
    unique_keys: Vec<String>,
    ts: &Vec<(String, bool)>,
    tkeys: &Vec<String>,
    filenames: &Vec<String>,
) -> (r: Vec<(String, bool)>)
    requires
        unique_keys@.len() == unique@.len(),
        forall|q: int|
            0 <= q < unique@.len() ==> (#[trigger] unique_keys@[q])@ == plugin_key(unique@[q].0@),
        forall|a: int, b: int|
            0 <= a < b < unique@.len() ==> (#[trigger] unique_keys@[a])@ != (
            #[trigger] unique_keys@[b])@,
        tkeys@.len() == ts@.len(),
        forall|q: int| 0 <= q < ts@.len() ==> (#[trigger] tkeys@[q])@ == plugin_key(ts@[q].0@),
    ensures
        r@.len() >= unique@.len(),
        forall|q: int| 0 <= q < unique@.len() ==> #[trigger] r@[q] == unique@[q],
        forall|a: int, b: int|
            0 <= a < b < r@.len() ==> plugin_key((#[trigger] r@[a]).0@) != plugin_key(
                (#[trigger] r@[b]).0@,
            ),
        forall|q: int|
            unique@.len() <= q < r@.len() ==> !tuple_has_key(
                ts@,
                plugin_key((#[trigger] r@[q]).0@),
            ) && exists|j: int|
                0 <= j < filenames@.len() && first_of_its_key(filenames@, j) && r@[q] == (
                #[trigger] filenames@[j], false),
        forall|j: int|
            0 <= j < filenames@.len() ==> (exists|q: int|
                0 <= q < r@.len() && plugin_key((#[trigger] r@[q]).0@) == plugin_key(
                    (#[trigger] filenames@[j])@,
                )) || tuple_has_key(ts@, plugin_key(filenames@[j]@)),
{
    let ghost start = unique@;
    let mut unique = unique;
    let mut unique_keys = unique_keys;
    let n_tuples = unique.len();
    let mut f: usize = 0;
    while f < filenames.len()
        invariant
            f <= filenames@.len(),
            n_tuples == start.len(),
            n_tuples <= unique@.len(),
            forall|q: int| 0 <= q < n_tuples ==> #[trigger] unique@[q] == start[q],
            unique_keys@.len() == unique@.len(),
            forall|q: int|
                0 <= q < unique@.len() ==> (#[trigger] unique_keys@[q])@ == plugin_key(
                    unique@[q].0@,
                ),
            forall|a: int, b: int|
                0 <= a < b < unique@.len() ==> (#[trigger] unique_keys@[a])@ != (
                #[trigger] unique_keys@[b])@,
            tkeys@.len() == ts@.len(),
            forall|q: int| 0 <= q < ts@.len() ==> (#[trigger] tkeys@[q])@ == plugin_key(ts@[q].0@),
            forall|q: int|
                n_tuples <= q < unique@.len() ==> !tuple_has_key(
                    ts@,
                    plugin_key((#[trigger] unique@[q]).0@),
                ) && exists|j: int|
                    0 <= j < filenames@.len() && first_of_its_key(filenames@, j) && unique@[q]
                        == (#[trigger] filenames@[j], false),
            forall|j: int|
                0 <= j < f ==> (exists|q: int|
                    0 <= q < unique@.len() && (#[trigger] unique_keys@[q])@ == plugin_key(
                        (#[trigger] filenames@[j])@,
                    )) || tuple_has_key(ts@, plugin_key(filenames@[j]@)),
        decreases filenames@.len() - f,
    {
        let k = plugin_name_key(filenames[f].as_str());
        if !contains_key(tkeys, &k) && !contains_key(&unique_keys, &k) {
            proof {
                assert(!tuple_has_key(ts@, k@)) by {
                    if tuple_has_key(ts@, k@) {
                        let j = choose|j: int|
                            0 <= j < ts@.len() && plugin_key((#[trigger] ts@[j]).0@) == k@;
                        assert(tkeys@[j]@ == k@);
                    }
                }
                assert(first_of_its_key(filenames@, f as int)) by {
                    assert forall|j: int| 0 <= j < f implies plugin_key((#[trigger] filenames@[j])@)
                        != plugin_key(filenames@[f as int]@) by {
                        if exists|q: int|
                            0 <= q < unique@.len() && (#[trigger] unique_keys@[q])@ == plugin_key(
                                filenames@[j]@,
                            ) {
                            let q = choose|q: int|
                                0 <= q < unique@.len() && (#[trigger] unique_keys@[q])@
                                    == plugin_key(filenames@[j]@);
                        }
                    }
                }
            }
            let ghost old_unique = unique@;
            let ghost old_keys = unique_keys@;
            unique.push((filenames[f].clone(), false));
            unique_keys.push(k);
            proof {
                assert forall|q: int| 0 <= q < n_tuples implies #[trigger] unique@[q] == start[q] by {
                    assert(unique@[q] == old_unique[q]);
                }
                assert forall|q: int| n_tuples <= q < unique@.len() implies !tuple_has_key(
                    ts@,
                    plugin_key((#[trigger] unique@[q]).0@),
                ) && exists|j: int|
                    0 <= j < filenames@.len() && first_of_its_key(filenames@, j) && unique@[q]
                        == (#[trigger] filenames@[j], false) by {
                    if q < old_unique.len() {
                        assert(unique@[q] == old_unique[q]);
                    } else {
                        assert(unique@[q] == (filenames@[f as int], false));
                    }
                }
                assert forall|j: int| 0 <= j < f + 1 implies (exists|q: int|
                    0 <= q < unique@.len() && (#[trigger] unique_keys@[q])@ == plugin_key(
                        (#[trigger] filenames@[j])@,
                    )) || tuple_has_key(ts@, plugin_key(filenames@[j]@)) by {
                    if j == f {
                        assert(unique_keys@[old_keys.len() as int]@ == plugin_key(filenames@[j]@));
                    } else if exists|q: int|
                        0 <= q < old_keys.len() && (#[trigger] old_keys[q])@ == plugin_key(
                            filenames@[j]@,
                        ) {
                        let q = choose|q: int|
                            0 <= q < old_keys.len() && (#[trigger] old_keys[q])@ == plugin_key(
                                filenames@[j]@,
                            );
                        assert(unique_keys@[q] == old_keys[q]);
                    }
                }
            }
        } else {
            proof {
                if exists|q: int| 0 <= q < unique_keys@.len() && (#[trigger] unique_keys@[q])@ == k@ {
                    let q = choose|q: int|
                        0 <= q < unique_keys@.len() && (#[trigger] unique_keys@[q])@ == k@;
                    assert(plugin_key(filenames@[f as int]@) == k@);
                } else {
                    let q = choose|q: int| 0 <= q < tkeys@.len() && (#[trigger] tkeys@[q])@ == k@;
                    assert(plugin_key(ts@[q].0@) == k@);
                }
            }
        }
        f = f + 1;
    }
    proof {
        assert forall|a: int, b: int|
            0 <= a < b < unique@.len() implies plugin_key((#[trigger] unique@[a]).0@) != plugin_key(
            (#[trigger] unique@[b]).0@,
        ) by {
            assert(unique_keys@[a]@ != unique_keys@[b]@);
        }
        assert forall|j: int| 0 <= j < filenames@.len() implies (exists|q: int|
            0 <= q < unique@.len() && plugin_key((#[trigger] unique@[q]).0@) == plugin_key(
                (#[trigger] filenames@[j])@,
            )) || tuple_has_key(ts@, plugin_key(filenames@[j]@)) by {
            if exists|q: int|
                0 <= q < unique@.len() && (#[trigger] unique_keys@[q])@ == plugin_key(
                    filenames@[j]@,
                ) {
                let q = choose|q: int|
                    0 <= q < unique@.len() && (#[trigger] unique_keys@[q])@ == plugin_key(
                        filenames@[j]@,
                    );
                assert(plugin_key(unique@[q].0@) == plugin_key(filenames@[j]@));
            }
        }
    }
    unique
}

/// Merges a persisted list with the installed file names: one entry per
/// identity, the persisted entries first, each the last one listed for its
/// identity, then the installed files not listed, inactive.
#[verifier::rlimit(40)]
pub fn remove_duplicates_icase(plugin_tuples: Vec<(String, bool)>, filenames: Vec<String>) -> (r: Vec<
    (String, bool),
>)
    ensures
        forall|a: int, b: int|
            0 <= a < b < r@.len() ==> plugin_key((#[trigger] r@[a]).0@) != plugin_key(
                (#[trigger] r@[b]).0@,
            ),
        forall|i: int|
            #![trigger r@[i]]
            0 <= i < r@.len() ==> (exists|j: int|
                0 <= j < plugin_tuples@.len() && #[trigger] last_of_its_key(plugin_tuples@, j)
                    && r@[i] == plugin_tuples@[j]) || (!tuple_has_key(
                plugin_tuples@,
                plugin_key(r@[i].0@),
            ) && exists|j: int|
                0 <= j < filenames@.len() && first_of_its_key(filenames@, j) && r@[i] == (
                #[trigger] filenames@[j], false)),
        forall|k: Seq<char>|
            tuple_has_key(plugin_tuples@, k) || (exists|j: int|
                0 <= j < filenames@.len() && plugin_key((#[trigger] filenames@[j])@) == k)
                ==> exists|i: int| 0 <= i < r@.len() && plugin_key((#[trigger] r@[i]).0@) == k,
        exists|n: int, src: Seq<int>|
            0 <= n <= r@.len() && #[trigger] picks(plugin_tuples@, r@.take(n), src) && forall|q: int|
                n <= q < r@.len() ==> !tuple_has_key(plugin_tuples@, plugin_key((#[trigger] r@[q]).0@)),
{
    let ts = plugin_tuples;
    let tkeys = entry_keys(&ts);
    let unique = last_entries(&ts, &tkeys);
    let unique_keys = entry_keys(&unique);
    proof {
        assert forall|a: int, b: int|
            0 <= a < b < unique@.len() implies (#[trigger] unique_keys@[a])@ != (
            #[trigger] unique_keys@[b])@ by {
            assert(plugin_key(unique@[a].0@) != plugin_key(unique@[b].0@));
        }
    }
    let ghost first = unique@;
    let r = append_unlisted(unique, unique_keys, &ts, &tkeys, &filenames);
    proof {
        let src = choose|src: Seq<int>| picks(ts@, first, src);
        assert(r@.take(first.len() as int) =~= first);
        assert(picks(ts@, r@.take(first.len() as int), src));
        assert forall|i: int| #![trigger r@[i]] 0 <= i < r@.len() implies (exists|j: int|
            0 <= j < ts@.len() && #[trigger] last_of_its_key(ts@, j) && r@[i] == ts@[j]) || (
        !tuple_has_key(ts@, plugin_key(r@[i].0@)) && exists|j: int|
            0 <= j < filenames@.len() && first_of_its_key(filenames@, j) && r@[i] == (
            #[trigger] filenames@[j], false)) by {
            if i < first.len() {
                assert(r@[i] == first[i]);
                assert(from_last_entry(ts@, first[i]));
            }
        }
        assert forall|k: Seq<char>|
            tuple_has_key(ts@, k) || (exists|j: int|
                0 <= j < filenames@.len() && plugin_key((#[trigger] filenames@[j])@) == k)
                implies exists|i: int| 0 <= i < r@.len() && plugin_key((#[trigger] r@[i]).0@) == k by {
            if tuple_has_key(ts@, k) {
                let j = choose|j: int| 0 <= j < ts@.len() && plugin_key((#[trigger] ts@[j]).0@) == k;
                assert(entries_have_key(first, plugin_key(ts@[j].0@)));
                let q = choose|q: int|
                    0 <= q < first.len() && plugin_key((#[trigger] first[q]).0@) == plugin_key(
                        ts@[j].0@,
                    );
                assert(r@[q] == first[q]);
            } else {
                let j = choose|j: int|
                    0 <= j < filenames@.len() && plugin_key((#[trigger] filenames@[j])@) == k;
                let q = choose|q: int|
                    0 <= q < r@.len() && plugin_key((#[trigger] r@[q]).0@) == plugin_key(
                        filenames@[j]@,
                    );
            }
        }
    }
    r
}

/// The plugin with identity `key` is in `ps` and active.
pub open spec fn is_active_key(ps: Seq<Plugin>, key: Seq<char>) -> bool {
    exists|i: int| 0 <= i < ps.len() && (#[trigger] ps[i]).key@ == key && ps[i].active
}

/// One of `names` denotes the plugin with identity `key`.
pub open spec fn listed(names: Seq<String>, key: Seq<char>) -> bool {
    exists|j: int| 0 <= j < names.len() && plugin_key((#[trigger] names[j])@) == key
}

/// Inserting keeps every identity and every active identity.
proof fn lemma_insert_frame(ps: Seq<Plugin>, i: int, p: Plugin)
    requires
        0 <= i <= ps.len(),
    ensures
        forall|k: Seq<char>| has_key(ps, k) ==> has_key(ps.insert(i, p), k),
        forall|k: Seq<char>| is_active_key(ps, k) ==> is_active_key(ps.insert(i, p), k),
        has_key(ps.insert(i, p), p.key@),
        p.active ==> is_active_key(ps.insert(i, p), p.key@),
{
    let qs = ps.insert(i, p);
    assert(qs[i] == p);
    assert forall|k: Seq<char>| has_key(ps, k) implies has_key(qs, k) by {
        let a = choose|a: int| 0 <= a < ps.len() && (#[trigger] ps[a]).key@ == k;
        if a < i {
            assert(qs[a] == ps[a]);
        } else {
            assert(qs[a + 1] == ps[a]);
        }
    }
    assert forall|k: Seq<char>| is_active_key(ps, k) implies is_active_key(qs, k) by {
        let a = choose|a: int| 0 <= a < ps.len() && (#[trigger] ps[a]).key@ == k && ps[a].active;
        if a < i {
            assert(qs[a] == ps[a]);
        } else {
            assert(qs[a + 1] == ps[a]);
        }
    }
}

/// Activating one plugin leaves whether any other identity is active.
proof fn lemma_update_active_other(ps: Seq<Plugin>, i: int, k: Seq<char>)
    requires
        0 <= i < ps.len(),
        k != ps[i].key@,
    ensures
        is_active_key(ps.update(i, Plugin { active: true, ..ps[i] }), k) <==> is_active_key(ps, k),
{
    let qs = ps.update(i, Plugin { active: true, ..ps[i] });
    if is_active_key(qs, k) {
        let a = choose|a: int| 0 <= a < qs.len() && (#[trigger] qs[a]).key@ == k && qs[a].active;
        assert(a != i);
        assert(ps[a] == qs[a]);
    }
    if is_active_key(ps, k) {
        let a = choose|a: int| 0 <= a < ps.len() && (#[trigger] ps[a]).key@ == k && ps[a].active;
        assert(qs[a].key@ == k && qs[a].active);
    }
}

/// Inserting a record leaves whether any other identity is present or active.
proof fn lemma_insert_other(ps: Seq<Plugin>, r: int, p: Plugin, k: Seq<char>)
    requires
        0 <= r <= ps.len(),
        k != p.key@,
    ensures
        is_active_key(ps.insert(r, p), k) <==> is_active_key(ps, k),
        has_key(ps.insert(r, p), k) <==> has_key(ps, k),
{
    let qs = ps.insert(r, p);
    lemma_insert_frame(ps, r, p);
    if is_active_key(qs, k) {
        let a = choose|a: int| 0 <= a < qs.len() && (#[trigger] qs[a]).key@ == k && qs[a].active;
        if a < r {
            assert(qs[a] == ps[a]);
        } else {
            assert(a != r);
            assert(qs[a] == ps[a - 1]);
        }
    }
    if has_key(qs, k) {
        let a = choose|a: int| 0 <= a < qs.len() && (#[trigger] qs[a]).key@ == k;
        if a < r {
            assert(qs[a] == ps[a]);
        } else {
            assert(a != r);
            assert(qs[a] == ps[a - 1]);
        }
    }
}

/// Activating one plugin keeps every identity and every active identity.
proof fn lemma_activate_frame(ps: Seq<Plugin>, i: int)
    requires
        0 <= i < ps.len(),
    ensures
        forall|k: Seq<char>| has_key(ps, k) ==> has_key(ps.update(i, Plugin { active: true, ..ps[i] }), k),
        forall|k: Seq<char>| is_active_key(ps, k) ==> is_active_key(ps.update(i, Plugin { active: true, ..ps[i] }), k),
        is_active_key(ps.update(i, Plugin { active: true, ..ps[i] }), ps[i].key@),
{
    let qs = ps.update(i, Plugin { active: true, ..ps[i] });
    assert(qs[i].key@ == ps[i].key@ && qs[i].active);
    assert forall|k: Seq<char>| has_key(ps, k) implies has_key(qs, k) by {
        let a = choose|a: int| 0 <= a < ps.len() && (#[trigger] ps[a]).key@ == k;
        assert(qs[a].key@ == ps[a].key@);
    }
    assert forall|k: Seq<char>| is_active_key(ps, k) implies is_active_key(qs, k) by {
        let a = choose|a: int| 0 <= a < ps.len() && (#[trigger] ps[a]).key@ == k && ps[a].active;
        assert(qs[a].key@ == ps[a].key@ && qs[a].active);
    }
}

/// Where the plugin of identity `gm` is present, it loads first.
pub open spec fn first_where_present(ps: Seq<Plugin>, gm: Seq<char>) -> bool {
    has_key(ps, gm) ==> ps.len() > 0 && ps[0].key@ == gm
}

/// Every record of identity `gm` is a master that declares no masters.
pub open spec fn plain_master_in(ps: Seq<Plugin>, gm: Seq<char>) -> bool {
    forall|i: int|
        0 <= i < ps.len() && (#[trigger] ps[i]).key@ == gm ==> ps[i].is_master()
            && ps[i].master_keys@.len() == 0
}

/// Every parsed file of identity `gm` is a master that declares no masters.
pub open spec fn installed_plain_master(installed: Seq<PluginMetadata>, gm: Seq<char>) -> bool {
    forall|i: int|
        0 <= i < installed.len() && plugin_key((#[trigger] installed[i]).filename@) == gm ==> (
        installed[i].is_master_flag || installed[i].is_light_flag) && installed[i].masters@.len()
            == 0
}

/// A plugin's record, made from a parsed file that `installed_plain_master`
/// covers, is plain where it is the game's master file.
pub open spec fn plain_if_master(p: Plugin, gm: Seq<char>) -> bool {
    p.key@ == gm ==> p.is_master() && p.master_keys@.len() == 0
}

/// Inserting at the insert position keeps the game's master file first.
pub proof fn lemma_insert_keeps_master_first(lo: MutableLoadOrder, plugin: Plugin, r: usize)
    requires
        lo.pins_game_master(),
        r <= lo.plugins@.len(),
        lo.insert_position_ok(
            plugin,
            if r < lo.plugins@.len() {
                Some(r)
            } else {
                None
            },
        ),
        lo.master_loads_first(),
        plain_if_master(plugin, lo.game_master_key()),
    ensures
        first_where_present(lo.plugins@.insert(r as int, plugin), lo.game_master_key()),
        plain_master_in(lo.plugins@.insert(r as int, plugin), lo.game_master_key()),
{
    let ps = lo.plugins@;
    let qs = ps.insert(r as int, plugin);
    let gm = lo.game_master_key();
    assert forall|i: int| 0 <= i < qs.len() && (#[trigger] qs[i]).key@ == gm implies qs[i].is_master()
        && qs[i].master_keys@.len() == 0 by {
        if i < r {
            assert(qs[i] == ps[i]);
        } else if i > r {
            assert(qs[i] == ps[i - 1]);
        }
    }
    if has_key(qs, gm) {
        if plugin.key@ == gm {
            assert(qs[r as int] == plugin);
        } else {
            let i = choose|i: int| 0 <= i < qs.len() && (#[trigger] qs[i]).key@ == gm;
            if i < r {
                assert(qs[i] == ps[i]);
            } else if i > r {
                assert(qs[i] == ps[i - 1]);
            }
            assert(has_key(ps, gm));
            assert(ps[0].key@ == gm);
            assert(ps[0].is_master() && ps[0].master_keys@.len() == 0);
            assert(!ps[0].declares(plugin.key@));
            assert(r >= 1);
            assert(qs[0] == ps[0]);
        }
    }
}

/// Changing active flags keeps the game's master file first.
pub proof fn lemma_flags_keep_master_first(before: Seq<Plugin>, after: Seq<Plugin>, gm: Seq<char>)
    requires
        after.len() == before.len(),
        forall|i: int|
            0 <= i < before.len() ==> #[trigger] after[i] == (Plugin {
                active: after[i].active,
                ..before[i]
            }),
        first_where_present(before, gm),
        plain_master_in(before, gm),
    ensures
        first_where_present(after, gm),
        plain_master_in(after, gm),
{
    assert forall|i: int| 0 <= i < after.len() && (#[trigger] after[i]).key@ == gm implies after[i].is_master()
        && after[i].master_keys@.len() == 0 by {
        assert(before[i].key@ == gm);
    }
    if has_key(after, gm) {
        let i = choose|i: int| 0 <= i < after.len() && (#[trigger] after[i]).key@ == gm;
        assert(before[i].key@ == gm);
        assert(after[0].key@ == before[0].key@);
    }
}

/// Hoisting keeps the game's master file first.
pub proof fn lemma_hoist_keeps_master_first(before: Seq<Plugin>, after: Seq<Plugin>, gm: Seq<char>)
    requires
        after.len() == before.len(),
        forall|k: Seq<char>| has_key(after, k) <==> has_key(before, k),
        forall|i: int| 0 <= i < before.len() ==> before.contains(#[trigger] after[i]),
        before.len() > 0 && before[0].master_keys@.len() == 0 ==> after[0] == before[0],
        first_where_present(before, gm),
        plain_master_in(before, gm),
    ensures
        first_where_present(after, gm),
        plain_master_in(after, gm),
{
    assert forall|i: int| 0 <= i < after.len() && (#[trigger] after[i]).key@ == gm implies after[i].is_master()
        && after[i].master_keys@.len() == 0 by {
        assert(before.contains(after[i]));
        let j = choose|j: int| 0 <= j < before.len() && before[j] == after[i];
        assert(before[j].key@ == gm);
    }
    if has_key(after, gm) {
        assert(has_key(before, gm));
        assert(before[0].key@ == gm);
    }
}

/// The first element stays in place when every move starts and ends after it.
pub proof fn lemma_apply_moves_keeps_first(ps: Seq<Plugin>, moves: Seq<(usize, usize)>)
    requires
        ps.len() > 0,
        forall|q: int| 0 <= q < moves.len() ==> (#[trigger] moves[q]).0 >= 1 && moves[q].1 >= 1,
    ensures
        apply_moves(ps, moves).len() > 0 ==> apply_moves(ps, moves)[0] == ps[0],
    decreases moves.len(),
{
    if moves.len() > 0 {
        let (f, t) = moves[0];
        assert(moves[0].0 >= 1 && moves[0].1 >= 1);
        let next = if f < ps.len() && t < ps.len() {
            ps.remove(f as int).insert(t as int, ps[f as int])
        } else {
            ps
        };
        if f < ps.len() && t < ps.len() {
            assert(ps.remove(f as int)[0] == ps[0]);
            assert(next[0] == ps[0]);
        }
        let rest = shift_moves(moves.drop_first(), t);
        assert forall|q: int| 0 <= q < rest.len() implies (#[trigger] rest[q]).0 >= 1 && rest[q].1
            >= 1 by {
            assert(moves.drop_first()[q] == moves[q + 1]);
        }
        lemma_apply_moves_keeps_first(next, rest);
    }
}

/// `p` is a record that `Plugin::with_active` makes of the parsed file `m`.
pub open spec fn built_from(p: Plugin, m: PluginMetadata) -> bool {
    &&& p.wf()
    &&& p.name@ == crate::identity::trim_ghost(m.filename@)
    &&& p.key@ == plugin_key(m.filename@)
    &&& p.master_flag == m.is_master_flag
    &&& p.light_flag == m.is_light_flag
    &&& p.masters@ == m.masters@
}

/// `p` is the inactive record that `Plugin::new` makes of the parsed file `m`.
pub open spec fn from_metadata(p: Plugin, m: PluginMetadata) -> bool {
    built_from(p, m) && !p.active
}

/// `p` is a record made of one of the parsed files `installed`.
pub open spec fn built_from_installed(p: Plugin, installed: Seq<PluginMetadata>) -> bool {
    exists|j: int| 0 <= j < installed.len() && built_from(p, #[trigger] installed[j])
}

/// Placing every record that `m` gives at `index` of `ps` keeps the
/// partitioning rules.
pub open spec fn metadata_index_valid(ps: Seq<Plugin>, m: PluginMetadata, index: int) -> bool {
    forall|p: Plugin| #[trigger] from_metadata(p, m) ==> index_valid(ps, p, index)
}

/// What moving or inserting the plugin `name` at `position` does, from `old`
/// to `fin`, with result `r`.
pub open spec fn move_or_insert_post(
    old: MutableLoadOrder,
    fin: MutableLoadOrder,
    name: Seq<char>,
    position: usize,
    metadata: Option<PluginMetadata>,
    r: Result<usize, Error>,
) -> bool {
    let key = plugin_key(name);
    let ps = old.plugins@;
    let base = without_key(ps, key);
    let at = index_of_key_spec(ps, key);
    &&& r is Err ==> fin.same_state(old)
    &&& has_key(ps, key) && at == position ==> r == Ok::<usize, Error>(position) && fin.plugins@
        == ps
    &&& has_key(ps, key) && at != position ==> (r is Ok <==> index_valid(ps, ps[at], position as int))
    &&& !has_key(ps, key) ==> match metadata {
        None => (r matches Err(e) && e is InvalidPlugin),
        Some(m) => plugin_key(m.filename@) == key && metadata_index_valid(ps, m, position as int)
            ==> r is Ok,
    }
    &&& r matches Ok(i) ==> {
        &&& i < fin.plugins@.len()
        &&& fin.plugins@[i as int].key@ == key
        &&& !(has_key(ps, key) && at == position) ==> {
            &&& i == (if position < base.len() {
                position as int
            } else {
                base.len() as int
            })
            &&& fin.plugins@ == base.insert(i as int, fin.plugins@[i as int])
            &&& index_valid(ps, fin.plugins@[i as int], position as int)
            &&& has_key(ps, key) ==> fin.plugins@[i as int] == ps[at]
            &&& !has_key(ps, key) ==> match metadata {
                Some(m) => from_metadata(fin.plugins@[i as int], m),
                None => false,
            }
        }
    }
}

/// No record's name ends in `.ghost`.
pub open spec fn clean_names(ps: Seq<Plugin>) -> bool {
    forall|i: int| 0 <= i < ps.len() ==> !ends_with_ci((#[trigger] ps[i]).name@, ghost_suffix())
}

/// No parsed file keeps a `.ghost` suffix once one is removed.
pub open spec fn installed_clean(installed: Seq<PluginMetadata>) -> bool {
    forall|j: int|
        0 <= j < installed.len() ==> !ends_with_ci(
            trim_ghost((#[trigger] installed[j]).filename@),
            ghost_suffix(),
        )
}

/// In a well-formed list whose names have no `.ghost` suffix, no two names
/// denote the same plugin.
pub proof fn lemma_clean_names_distinct(ps: Seq<Plugin>)
    requires
        all_wf(ps),
        unique_keys(ps),
        clean_names(ps),
    ensures
        forall|i: int, j: int|
            0 <= i < j < ps.len() ==> !crate::identity::names_match(
                (#[trigger] ps[i]).name@,
                (#[trigger] ps[j]).name@,
            ),
{
    assert forall|i: int, j: int| 0 <= i < j < ps.len() implies !crate::identity::names_match(
        (#[trigger] ps[i]).name@,
        (#[trigger] ps[j]).name@,
    ) by {
        crate::identity::lemma_clean_name_key(ps[i].name@);
        crate::identity::lemma_clean_name_key(ps[j].name@);
        assert(ps[i].wf() && ps[j].wf());
        assert(ps[i].key@ != ps[j].key@);
    }
}

/// Records taken from a list with clean names have clean names.
pub proof fn lemma_contained_keep_clean(before: Seq<Plugin>, after: Seq<Plugin>)
    requires
        clean_names(before),
        forall|i: int| 0 <= i < after.len() ==> before.contains(#[trigger] after[i]),
    ensures
        clean_names(after),
{
    assert forall|i: int| 0 <= i < after.len() implies !ends_with_ci(
        (#[trigger] after[i]).name@,
        ghost_suffix(),
    ) by {
        assert(before.contains(after[i]));
        let j = choose|j: int| 0 <= j < before.len() && before[j] == after[i];
    }
}

/// Changing active flags keeps names clean.
pub proof fn lemma_flags_keep_clean(before: Seq<Plugin>, after: Seq<Plugin>)
    requires
        clean_names(before),
        after.len() == before.len(),
        forall|i: int|
            0 <= i < before.len() ==> #[trigger] after[i] == (Plugin {
                active: after[i].active,
                ..before[i]
            }),
    ensures
        clean_names(after),
{
    assert forall|i: int| 0 <= i < after.len() implies !ends_with_ci(
        (#[trigger] after[i]).name@,
        ghost_suffix(),
    ) by {
        assert(after[i].name == before[i].name);
    }
}

/// Inserting a record with a clean name keeps all names clean.
pub proof fn lemma_insert_keeps_clean(ps: Seq<Plugin>, i: int, p: Plugin)
    requires
        0 <= i <= ps.len(),
        clean_names(ps),
        !ends_with_ci(p.name@, ghost_suffix()),
    ensures
        clean_names(ps.insert(i, p)),
{
    let qs = ps.insert(i, p);
    assert forall|a: int| 0 <= a < qs.len() implies !ends_with_ci(
        (#[trigger] qs[a]).name@,
        ghost_suffix(),
    ) by {
        if a < i {
            assert(qs[a] == ps[a]);
        } else if a > i {
            assert(qs[a] == ps[a - 1]);
        }
    }
}

/// The game settings and the ordered plugins of one game.
#[derive(Clone, Debug)]
pub struct MutableLoadOrder {
    pub game_settings: GameSettings,
    pub plugins: Vec<Plugin>,
}

impl MutableLoadOrder {
    pub open spec fn wf(self) -> bool {
        all_wf(self.plugins@) && unique_keys(self.plugins@)
    }

    /// The same settings and the same plugin records.
    pub open spec fn same_state(self, other: MutableLoadOrder) -> bool {
        self.game_settings == other.game_settings && self.plugins@ == other.plugins@
    }

    pub open spec fn light_games(self) -> bool {
        game_supports_light_plugins(self.game_settings.id)
    }

    pub open spec fn active_normal_count(self) -> nat {
        active_count(self.plugins@, self.light_games(), false)
    }

    pub open spec fn active_light_count(self) -> nat {
        active_count(self.plugins@, self.light_games(), true)
    }

    /// The active plugins fit the game's limits.
    pub open spec fn within_caps(self) -> bool {
        self.active_normal_count() <= MAX_ACTIVE_NORMAL_PLUGINS && self.active_light_count()
            <= MAX_ACTIVE_LIGHT_PLUGINS
    }

    /// Activating `p` keeps the active plugins within the game's limits.
    pub open spec fn can_activate(self, p: Plugin) -> bool {
        p.active || if self.light_games() && p.light_flag {
            self.active_light_count() < MAX_ACTIVE_LIGHT_PLUGINS
        } else {
            self.active_normal_count() < MAX_ACTIVE_NORMAL_PLUGINS
        }
    }

    /// The plugin with identity `key` is the game's master file or one of its
    /// implicitly active plugins.
    pub open spec fn loads_early(self, key: Seq<char>) -> bool {
        self.is_game_master(key) || self.implicitly_active_key(key)
    }

    /// The game loads the plugin with identity `key` whatever its settings say.
    pub open spec fn implicitly_active_key(self, key: Seq<char>) -> bool {
        exists|j: int|
            0 <= j < self.game_settings.implicitly_active_plugins@.len() && plugin_key(
                (#[trigger] self.game_settings.implicitly_active_plugins@[j])@,
            ) == key
    }

    /// The plugin is the game's own master file.
    pub open spec fn is_game_master(self, key: Seq<char>) -> bool {
        key == self.game_master_key()
    }

    /// The identity of the game's master file.
    pub open spec fn game_master_key(self) -> Seq<char> {
        plugin_key(self.game_settings.master_file@)
    }

    /// The game's master file loads first when present, and is a master that
    /// declares no masters.
    pub open spec fn master_loads_first(self) -> bool {
        first_where_present(self.plugins@, self.game_master_key()) && plain_master_in(
            self.plugins@,
            self.game_master_key(),
        )
    }

    /// The records with the flags that activating exactly `names` and the
    /// implicitly active plugins gives.
    pub open spec fn with_requested(self, names: Seq<&str>) -> Seq<Plugin> {
        self.plugins@.map_values(
            |p: Plugin|
                Plugin { active: requested(names, p.key@) || self.implicitly_active_key(p.key@), ..p },
        )
    }

    /// `v` is what replacing the load order by `names` gives: one record per
    /// name, the present plugins' own records, and new records made of
    /// `installed`, active only where the game loads them implicitly.
    pub open spec fn records_for(self, names: Seq<&str>, installed: Seq<PluginMetadata>, v: Seq<Plugin>) -> bool {
        &&& v.len() == names.len()
        &&& all_wf(v)
        &&& forall|i: int| 0 <= i < v.len() ==> (#[trigger] v[i]).key@ == plugin_key(names[i]@)
        &&& forall|i: int|
            0 <= i < v.len() && has_key(self.plugins@, v[i].key@) ==> (#[trigger] v[i]).same_as(
                self.plugins@[index_of_key_spec(self.plugins@, v[i].key@)],
            )
        &&& forall|i: int|
            0 <= i < v.len() && !has_key(self.plugins@, v[i].key@) ==> (#[trigger] v[i]).active
                == self.implicitly_active_key(v[i].key@) && built_from_installed(v[i], installed)
    }

    /// Every record that the parsed file `m` gives keeps the partitioning rules
    /// at its insert position.
    pub open spec fn metadata_insert_valid(self, m: PluginMetadata) -> bool {
        forall|p: Plugin, o: Option<usize>|
            #[trigger] from_metadata(p, m) && #[trigger] self.insert_position_ok(p, o) ==> index_valid(
                self.plugins@,
                p,
                match o {
                    Some(i) => i as int,
                    None => self.plugins@.len() as int,
                },
            )
    }

    /// Putting the plugin of identity `key` at `position` respects the game
    /// master's place: where the game pins it, position 0 is the master
    /// file's and no other.
    pub open spec fn master_position_allowed(self, key: Seq<char>, position: usize) -> bool {
        !self.pins_game_master() || !((position != 0 && self.plugins@.len() != 0
            && self.is_game_master(key)) || (position == 0 && !self.is_game_master(key)))
    }

    /// The game's master file is pinned to the first position.
    pub open spec fn pins_game_master(self) -> bool {
        method_of(self.game_settings.id) != LoadOrderMethod::Timestamp
    }

    /// Where `insert` puts `plugin`; `None` means at the end.
    pub open spec fn insert_position_ok(self, plugin: Plugin, r: Option<usize>) -> bool {
        if self.pins_game_master() && self.is_game_master(plugin.key@) {
            r == (if self.plugins@.len() == 0 {
                None::<usize>
            } else {
                Some(0usize)
            })
        } else {
            generic_insert_position_ok(self.plugins@, plugin, r)
        }
    }

    pub fn new(game_settings: GameSettings) -> (r: MutableLoadOrder)
        ensures
            r.wf(),
            r.game_settings == game_settings,
            r.plugins@.len() == 0,
    {
        MutableLoadOrder { game_settings, plugins: Vec::new() }
    }

    pub fn game_settings(&self) -> (r: &GameSettings)
        ensures
            *r == self.game_settings,
    {
        &self.game_settings
    }

    pub fn plugins(&self) -> (r: &Vec<Plugin>)
        ensures
            r@ == self.plugins@,
    {
        &self.plugins
    }

    /// Position of the plugin with the same identity as `name`.
    pub fn index_of(&self, name: &str) -> (r: Option<usize>)
        requires
            self.wf(),
        ensures
            key_position_ok(self.plugins@, plugin_key(name@), r),
    {
        let key = plugin_name_key(name);
        self.index_of_key(&key)
    }

    pub fn index_of_key(&self, key: &String) -> (r: Option<usize>)
        ensures
            key_position_ok(self.plugins@, key@, r),
    {
        let mut i: usize = 0;
        while i < self.plugins.len()
            invariant
                i <= self.plugins@.len(),
                forall|j: int| 0 <= j < i ==> (#[trigger] self.plugins@[j]).key@ != key@,
            decreases self.plugins@.len() - i,
        {
            if self.plugins[i].key == *key {
                return Some(i);
            }
            i = i + 1;
        }
        None
    }

    /// Whether `name` is the game's master file.
    pub fn is_game_master_name(&self, name: &str) -> (r: bool)
        ensures
            r == self.is_game_master(plugin_key(name@)),
    {
        let key = plugin_name_key(name);
        let master = plugin_name_key(self.game_settings.master_file.as_str());
        key == master
    }

    pub fn insert_position(&self, plugin: &Plugin) -> (r: Option<usize>)
        requires
            plugin.wf(),
        ensures
            self.insert_position_ok(*plugin, r),
    {
        let master = plugin_name_key(self.game_settings.master_file.as_str());
        if self.game_settings.load_order_method() != LoadOrderMethod::Timestamp && plugin.key
            == master {
            if self.plugins.len() == 0 {
                None
            } else {
                Some(0)
            }
        } else {
            generic_insert_position(self.plugins.as_slice(), plugin)
        }
    }

    /// Adds a plugin whose identity is not yet present at its insert position.
    pub fn insert(&mut self, plugin: Plugin) -> (r: usize)
        requires
            old(self).wf(),
            plugin.wf(),
            !has_key(old(self).plugins@, plugin.key@),
        ensures
            final(self).wf(),
            final(self).game_settings == old(self).game_settings,
            r <= old(self).plugins@.len(),
            final(self).plugins@ == old(self).plugins@.insert(r as int, plugin),
            old(self).insert_position_ok(
                plugin,
                if r < old(self).plugins@.len() {
                    Some(r)
                } else {
                    None
                },
            ),
    {
        let pos = self.insert_position(&plugin);
        proof {
            lemma_insert_keeps_wf(
                self.plugins@,
                match pos {
                    Some(p) => p as int,
                    None => self.plugins@.len() as int,
                },
                plugin,
            );
        }
        match pos {
            Some(position) => {
                self.plugins.insert(position, plugin);
                position
            },
            None => {
                let n = self.plugins.len();
                self.plugins.push(plugin);
                assert(self.plugins@ =~= old(self).plugins@.insert(n as int, plugin));
                n
            },
        }
    }

    /// Checks that placing `plugin` at `index` keeps the partitioning rules.
    pub fn validate_index(&self, plugin: &Plugin, index: usize) -> (r: Result<(), Error>)
        requires
            self.wf(),
            plugin.wf(),
        ensures
            r is Ok <==> index_valid(self.plugins@, *plugin, index as int),
            r matches Err(e) ==> (e is NonMasterBeforeMaster || e is UnrepresentedHoist),
    {
        validate_index(self.plugins.as_slice(), plugin, index)
    }

    /// Whether `name` is one of the game's implicitly active plugins.
    pub fn is_implicitly_active(&self, name: &str) -> (r: bool)
        ensures
            r == self.implicitly_active_key(plugin_key(name@)),
    {
        let key = plugin_name_key(name);
        let implicit = &self.game_settings.implicitly_active_plugins;
        let mut j: usize = 0;
        while j < implicit.len()
            invariant
                j <= implicit@.len(),
                implicit@ == self.game_settings.implicitly_active_plugins@,
                key@ == plugin_key(name@),
                forall|q: int| 0 <= q < j ==> plugin_key((#[trigger] implicit@[q])@) != key@,
            decreases implicit@.len() - j,
        {
            let k = plugin_name_key(implicit[j].as_str());
            if k == key {
                return true;
            }
            j = j + 1;
        }
        false
    }

    /// Whether the plugin of identity `key` is implicitly active.
    pub fn is_implicitly_active_key(&self, key: &String) -> (r: bool)
        ensures
            r == self.implicitly_active_key(key@),
    {
        let implicit = &self.game_settings.implicitly_active_plugins;
        let mut j: usize = 0;
        while j < implicit.len()
            invariant
                j <= implicit@.len(),
                implicit@ == self.game_settings.implicitly_active_plugins@,
                forall|q: int| 0 <= q < j ==> plugin_key((#[trigger] implicit@[q])@) != key@,
            decreases implicit@.len() - j,
        {
            let k = plugin_name_key(implicit[j].as_str());
            if k == *key {
                return true;
            }
            j = j + 1;
        }
        false
    }

    /// Whether the plugin of identity `key` loads early.
    pub fn loads_early_key(&self, key: &String) -> (r: bool)
        ensures
            r == self.loads_early(key@),
    {
        let master = plugin_name_key(self.game_settings.master_file.as_str());
        master == *key || self.is_implicitly_active_key(key)
    }

    /// Number of active normal plugins.
    pub fn count_active_normal_plugins(&self) -> (r: usize)
        ensures
            r == self.active_normal_count(),
    {
        count_active(&self.plugins, self.game_settings.id.supports_light_plugins(), false)
    }

    /// Number of active light plugins.
    pub fn count_active_light_plugins(&self) -> (r: usize)
        ensures
            r == self.active_light_count(),
    {
        count_active(&self.plugins, self.game_settings.id.supports_light_plugins(), true)
    }

    /// Activates the plugin at `index` unless that would pass a cap.
    fn activate_at(&mut self, index: usize) -> (r: Result<(), Error>)
        requires
            old(self).wf(),
            index < old(self).plugins@.len(),
        ensures
            final(self).wf(),
            final(self).game_settings == old(self).game_settings,
            r is Ok <==> old(self).can_activate(old(self).plugins@[index as int]),
            match r {
                Ok(()) => {
                    &&& final(self).plugins@ == old(self).plugins@.update(
                        index as int,
                        Plugin { active: true, ..old(self).plugins@[index as int] },
                    )
                    &&& (old(self).within_caps() ==> final(self).within_caps())
                },
                Err(e) => {
                    &&& final(self).same_state(*old(self))
                    &&& !old(self).plugins@[index as int].active
                    &&& e == Error::TooManyActivePlugins {
                        light_count: old(self).active_light_count() as usize,
                        normal_count: old(self).active_normal_count() as usize,
                    }
                    &&& if old(self).light_games() && old(self).plugins@[index as int].light_flag {
                        old(self).active_light_count() >= MAX_ACTIVE_LIGHT_PLUGINS
                    } else {
                        old(self).active_normal_count() >= MAX_ACTIVE_NORMAL_PLUGINS
                    }
                },
            },
    {
        if self.plugins[index].active {
            assert(self.plugins@ =~= old(self).plugins@.update(
                index as int,
                Plugin { active: true, ..old(self).plugins@[index as int] },
            ));
            return Ok(());
        }
        let light_games = self.game_settings.id.supports_light_plugins();
        let light_count = self.count_active_light_plugins();
        let normal_count = self.count_active_normal_plugins();
        let is_light = light_games && self.plugins[index].light_flag;
        if (is_light && light_count >= MAX_ACTIVE_LIGHT_PLUGINS) || (!is_light && normal_count
            >= MAX_ACTIVE_NORMAL_PLUGINS) {
            return Err(Error::TooManyActivePlugins { light_count, normal_count });
        }
        let ghost ps = self.plugins@;
        let ghost p = Plugin { active: true, ..ps[index as int] };
        self.plugins[index].activate();
        proof {
            assert(self.plugins@ =~= ps.update(index as int, p));
            lemma_count_update(ps, index as int, p, light_games, true);
            lemma_count_update(ps, index as int, p, light_games, false);
            let qs = self.plugins@;
            assert forall|a: int| 0 <= a < qs.len() implies (#[trigger] qs[a]).wf() by {
                assert(ps[a].wf());
            }
            assert forall|a: int, b: int|
                0 <= a < qs.len() && 0 <= b < qs.len() && a != b implies (#[trigger] qs[a]).key@
                != (#[trigger] qs[b]).key@ by {
                assert(ps[a].key@ != ps[b].key@);
            }
        }
        Ok(())
    }

    /// Activates the named plugin. A plugin not yet in the load order is
    /// added, where `metadata` describes it.
    pub fn activate(&mut self, plugin_name: &str, metadata: Option<&PluginMetadata>) -> (r: Result<
        (),
        Error,
    >)
        requires
            old(self).wf(),
        ensures
            final(self).wf(),
            final(self).game_settings == old(self).game_settings,
            old(self).within_caps() && r is Ok ==> final(self).within_caps(),
            r is Err ==> final(self).same_state(*old(self)),
            r is Ok ==> exists|i: int|
                0 <= i < final(self).plugins@.len() && (#[trigger] final(self).plugins@[i]).key@
                    == plugin_key(plugin_name@) && final(self).plugins@[i].active,
            has_key(old(self).plugins@, plugin_key(plugin_name@)) ==> (r is Ok
                <==> old(self).can_activate(
                old(self).plugins@[index_of_key_spec(old(self).plugins@, plugin_key(plugin_name@))],
            )),
            has_key(old(self).plugins@, plugin_key(plugin_name@)) && r is Ok ==> {
                let i = index_of_key_spec(old(self).plugins@, plugin_key(plugin_name@));
                final(self).plugins@ == old(self).plugins@.update(
                    i,
                    Plugin { active: true, ..old(self).plugins@[i] },
                )
            },
            has_key(old(self).plugins@, plugin_key(plugin_name@)) && r is Err ==> (r matches Err(
                Error::TooManyActivePlugins { light_count, normal_count },
            ) && light_count == old(self).active_light_count() as usize && normal_count
                == old(self).active_normal_count() as usize),
            r matches Err(e) ==> (e is TooManyActivePlugins || e is PluginNotFound
                || e is InvalidPlugin),
    {
        let key = plugin_name_key(plugin_name);
        match self.index_of_key(&key) {
            Some(i) => {
                proof {
                    lemma_index_of_key_spec(self.plugins@, key@, i as int);
                }
                let r = self.activate_at(i);
                proof {
                    if r is Ok {
                        assert(self.plugins@[i as int].key@ == key@);
                    }
                }
                r
            },
            None => match metadata {
                None => Err(Error::PluginNotFound(plugin_name.to_owned())),
                Some(m) => {
                    let plugin = Plugin::with_active(m, false);
                    if plugin.key != key {
                        return Err(Error::InvalidPlugin(plugin_name.to_owned()));
                    }
                    let light_games = self.game_settings.id.supports_light_plugins();
                    let light_count = self.count_active_light_plugins();
                    let normal_count = self.count_active_normal_plugins();
                    let is_light = light_games && plugin.light_flag;
                    if (is_light && light_count >= MAX_ACTIVE_LIGHT_PLUGINS) || (!is_light
                        && normal_count >= MAX_ACTIVE_NORMAL_PLUGINS) {
                        return Err(Error::TooManyActivePlugins { light_count, normal_count });
                    }
                    let ghost ps = self.plugins@;
                    let i = self.insert(plugin);
                    proof {
                        assert(self.plugins@[i as int] == plugin);
                        lemma_count_insert(ps, i as int, plugin, light_games, true);
                        lemma_count_insert(ps, i as int, plugin, light_games, false);
                    }
                    let r = self.activate_at(i);
                    proof {
                        assert(r is Ok);
                        assert(self.plugins@[i as int].key@ == key@);
                        assert(self.plugins@[i as int].active);
                    }
                    r
                },
            },
        }
    }

    /// Deactivates the named plugin; the game's implicitly active plugins
    /// cannot be deactivated.
    pub fn deactivate(&mut self, plugin_name: &str) -> (r: Result<(), Error>)
        requires
            old(self).wf(),
        ensures
            final(self).wf(),
            final(self).game_settings == old(self).game_settings,
            old(self).implicitly_active_key(plugin_key(plugin_name@)) ==> (r matches Err(
                Error::ImplicitlyActivePlugin(n),
            ) && n@ == plugin_name@),
            !old(self).implicitly_active_key(plugin_key(plugin_name@)) && !has_key(
                old(self).plugins@,
                plugin_key(plugin_name@),
            ) ==> (r matches Err(Error::PluginNotFound(n)) && n@ == plugin_name@),
            !old(self).implicitly_active_key(plugin_key(plugin_name@)) && has_key(
                old(self).plugins@,
                plugin_key(plugin_name@),
            ) ==> r is Ok,
            r is Err ==> final(self).same_state(*old(self)),
            r is Ok ==> {
                let i = index_of_key_spec(old(self).plugins@, plugin_key(plugin_name@));
                &&& !old(self).implicitly_active_key(plugin_key(plugin_name@))
                &&& has_key(old(self).plugins@, plugin_key(plugin_name@))
                &&& final(self).plugins@ == old(self).plugins@.update(
                    i,
                    Plugin { active: false, ..old(self).plugins@[i] },
                )
            },
            old(self).within_caps() ==> final(self).within_caps(),
    {
        if self.is_implicitly_active(plugin_name) {
            return Err(Error::ImplicitlyActivePlugin(plugin_name.to_owned()));
        }
        let key = plugin_name_key(plugin_name);
        match self.index_of_key(&key) {
            None => Err(Error::PluginNotFound(plugin_name.to_owned())),
            Some(i) => {
                proof {
                    lemma_index_of_key_spec(self.plugins@, key@, i as int);
                }
                let ghost ps = self.plugins@;
                let ghost p = Plugin { active: false, ..ps[i as int] };
                self.plugins[i].deactivate();
                proof {
                    assert(self.plugins@ =~= ps.update(i as int, p));
                    let light_games = self.light_games();
                    lemma_count_update(ps, i as int, p, light_games, true);
                    lemma_count_update(ps, i as int, p, light_games, false);
                    let qs = self.plugins@;
                    assert forall|a: int| 0 <= a < qs.len() implies (#[trigger] qs[a]).wf() by {
                        assert(ps[a].wf());
                    }
                    assert forall|a: int, b: int|
                        0 <= a < qs.len() && 0 <= b < qs.len() && a != b implies (
                        #[trigger] qs[a]).key@ != (#[trigger] qs[b]).key@ by {
                        assert(ps[a].key@ != ps[b].key@);
                    }
                }
                Ok(())
            },
        }
    }

    /// The records for a list of names, in order; fails on the first name that
    /// is neither in the load order nor installed.
    pub fn map_to_plugins(&self, plugin_names: &[&str], installed: &[PluginMetadata]) -> (r:
        Result<Vec<Plugin>, Error>)
        requires
            self.wf(),
        ensures
            r is Ok <==> forall|i: int|
                0 <= i < plugin_names@.len() ==> has_key(
                    self.plugins@,
                    plugin_key((#[trigger] plugin_names@[i])@),
                ) || is_installed(installed@, plugin_key(plugin_names@[i]@)),
            r matches Err(e) ==> e is InvalidPlugin,
            r matches Ok(v) ==> {
                &&& v@.len() == plugin_names@.len()
                &&& all_wf(v@)
                &&& forall|i: int|
                    0 <= i < v@.len() ==> (#[trigger] v@[i]).key@ == plugin_key(plugin_names@[i]@)
                &&& forall|i: int|
                    0 <= i < v@.len() && has_key(self.plugins@, v@[i].key@) ==> (#[trigger] v@[i]).same_as(
                        self.plugins@[index_of_key_spec(self.plugins@, v@[i].key@)],
                    )
                &&& forall|i: int|
                    0 <= i < v@.len() && !has_key(self.plugins@, v@[i].key@) ==> (#[trigger] v@[i]).active
                        == self.implicitly_active_key(v@[i].key@)
                &&& self.records_for(plugin_names@, installed@, v@)
            },
    {
        let mut out: Vec<Plugin> = Vec::new();
        let mut i: usize = 0;
        while i < plugin_names.len()
            invariant
                self.wf(),
                i <= plugin_names@.len(),
                out@.len() == i,
                all_wf(out@),
                forall|q: int|
                    0 <= q < i ==> has_key(self.plugins@, plugin_key((#[trigger] plugin_names@[q])@))
                        || is_installed(installed@, plugin_key(plugin_names@[q]@)),
                forall|q: int|
                    0 <= q < i ==> (#[trigger] out@[q]).key@ == plugin_key(plugin_names@[q]@),
                forall|q: int|
                    0 <= q < i && has_key(self.plugins@, out@[q].key@) ==> (#[trigger] out@[q]).same_as(
                        self.plugins@[index_of_key_spec(self.plugins@, out@[q].key@)],
                    ),
                forall|q: int|
                    0 <= q < i && !has_key(self.plugins@, out@[q].key@) ==> (#[trigger] out@[q]).active
                        == self.implicitly_active_key(out@[q].key@),
                forall|q: int|
                    0 <= q < i && !has_key(self.plugins@, out@[q].key@) ==> built_from_installed(
                        #[trigger] out@[q],
                        installed@,
                    ),
            decreases plugin_names@.len() - i,
        {
            let implicit = self.is_implicitly_active(plugin_names[i]);
            match to_plugin(plugin_names[i], self.plugins.as_slice(), installed, implicit) {
                Some(p) => {
                    proof {
                        if has_key(self.plugins@, p.key@) {
                            let w = choose|w: int|
                                0 <= w < self.plugins@.len() && self.plugins@[w].key@ == p.key@
                                    && p.same_as(#[trigger] self.plugins@[w]);
                            lemma_index_of_key_spec(self.plugins@, p.key@, w);
                        }
                    }
                    out.push(p);
                },
                None => {
                    return Err(Error::InvalidPlugin(plugin_names[i].to_owned()));
                },
            }
            i = i + 1;
        }
        Ok(out)
    }

    /// Replaces the whole load order by the named plugins, in the given order.
    /// Plugins already present keep their records; others are read from
    /// `installed` and start active only if the game loads them implicitly.
    pub fn replace_plugins(&mut self, plugin_names: &[&str], installed: &[PluginMetadata]) -> (r:
        Result<(), Error>)
        requires
            old(self).wf(),
        ensures
            final(self).wf(),
            final(self).game_settings == old(self).game_settings,
            r is Err ==> final(self).same_state(*old(self)),
            !names_unique(plugin_names@) ==> (r matches Err(e) && e is DuplicatePlugin),
            r is Ok ==> {
                &&& names_unique(plugin_names@)
                &&& valid_load_order(final(self).plugins@)
                &&& final(self).plugins@.len() == plugin_names@.len()
                &&& forall|i: int|
                    0 <= i < plugin_names@.len() ==> (#[trigger] final(self).plugins@[i]).key@
                        == plugin_key(plugin_names@[i]@)
                &&& forall|i: int|
                    0 <= i < plugin_names@.len() && has_key(
                        old(self).plugins@,
                        final(self).plugins@[i].key@,
                    ) ==> (#[trigger] final(self).plugins@[i]).same_as(
                        old(self).plugins@[index_of_key_spec(
                            old(self).plugins@,
                            final(self).plugins@[i].key@,
                        )],
                    )
            },
            names_unique(plugin_names@) && r is Err ==> (r matches Err(e) && (e is InvalidPlugin
                || e is NonMasterBeforeMaster || e is UnrepresentedHoist)),
            names_unique(plugin_names@) && (forall|i: int|
                0 <= i < plugin_names@.len() ==> has_key(
                    old(self).plugins@,
                    plugin_key((#[trigger] plugin_names@[i])@),
                ) || is_installed(installed@, plugin_key(plugin_names@[i]@))) && (forall|
                v: Seq<Plugin>,
            |
                #[trigger] old(self).records_for(plugin_names@, installed@, v) ==> valid_load_order(
                    v,
                )) ==> r is Ok,
            r is Ok ==> old(self).records_for(plugin_names@, installed@, final(self).plugins@),
            names_unique(plugin_names@) && !(forall|i: int|
                0 <= i < plugin_names@.len() ==> has_key(
                    old(self).plugins@,
                    plugin_key((#[trigger] plugin_names@[i])@),
                ) || is_installed(installed@, plugin_key(plugin_names@[i]@))) ==> (r matches Err(e)
                && e is InvalidPlugin),
    {
        match find_duplicate_name(plugin_names) {
            Some(j) => {
                return Err(Error::DuplicatePlugin(plugin_names[j].to_owned()));
            },
            None => {},
        }
        let mut plugins = match self.map_to_plugins(plugin_names, installed) {
            Ok(v) => v,
            Err(e) => {
                return Err(e);
            },
        };
        assert(self.records_for(plugin_names@, installed@, plugins@));
        match validate_load_order(plugins.as_slice()) {
            Ok(()) => {},
            Err(e) => {
                return Err(e);
            },
        }
        proof {
            let ps = plugins@;
            assert forall|a: int, b: int|
                0 <= a < ps.len() && 0 <= b < ps.len() && a != b implies (#[trigger] ps[a]).key@
                != (#[trigger] ps[b]).key@ by {
                if a < b {
                    assert(plugin_key(plugin_names@[a]@) != plugin_key(plugin_names@[b]@));
                } else {
                    assert(plugin_key(plugin_names@[b]@) != plugin_key(plugin_names@[a]@));
                }
            }
        }
        self.plugins = plugins;
        Ok(())
    }

    /// Takes out the record to place at `position`: the named plugin, if it is
    /// in the load order, else a new record for the parsed file `metadata`.
    fn get_plugin_to_insert_at(
        &mut self,
        plugin_name: &str,
        position: usize,
        metadata: Option<&PluginMetadata>,
    ) -> (r: Result<Plugin, Error>)
        requires
            old(self).wf(),
        ensures
            final(self).wf(),
            final(self).game_settings == old(self).game_settings,
            r is Err ==> final(self).same_state(*old(self)),
            r matches Ok(p) ==> {
                &&& p.wf()
                &&& p.key@ == plugin_key(plugin_name@)
                &&& final(self).plugins@ == without_key(old(self).plugins@, p.key@)
                &&& index_valid(old(self).plugins@, p, position as int)
                &&& has_key(old(self).plugins@, p.key@) ==> p == old(self).plugins@[index_of_key_spec(
                    old(self).plugins@,
                    p.key@,
                )]
                &&& !has_key(old(self).plugins@, p.key@) ==> !p.active
            },
            has_key(old(self).plugins@, plugin_key(plugin_name@)) ==> (r is Ok <==> index_valid(
                old(self).plugins@,
                old(self).plugins@[index_of_key_spec(old(self).plugins@, plugin_key(plugin_name@))],
                position as int,
            )),
            !has_key(old(self).plugins@, plugin_key(plugin_name@)) && metadata is None ==> (r matches Err(
                e,
            ) && e is InvalidPlugin),
            !has_key(old(self).plugins@, plugin_key(plugin_name@)) ==> match metadata {
                Some(m) => plugin_key(m.filename@) == plugin_key(plugin_name@)
                    && metadata_index_valid(old(self).plugins@, *m, position as int) ==> r is Ok,
                None => true,
            },
            r matches Ok(p) ==> (!has_key(old(self).plugins@, p.key@) ==> match metadata {
                Some(m) => from_metadata(p, *m),
                None => false,
            }),
            r matches Err(e) ==> (e is InvalidPlugin || e is NonMasterBeforeMaster
                || e is UnrepresentedHoist),
    {
        let key = plugin_name_key(plugin_name);
        match self.index_of_key(&key) {
            Some(p) => {
                proof {
                    lemma_index_of_key_spec(self.plugins@, key@, p as int);
                }
                self.validate_index(&self.plugins[p], position)?;
                proof {
                    lemma_remove_keeps_wf(self.plugins@, p as int);
                }
                let plugin = self.plugins.remove(p);
                Ok(plugin)
            },
            None => match metadata {
                None => Err(Error::InvalidPlugin(plugin_name.to_owned())),
                Some(m) => {
                    let plugin = Plugin::new(m);
                    assert(from_metadata(plugin, *m));
                    if plugin.key != key {
                        return Err(Error::InvalidPlugin(plugin_name.to_owned()));
                    }
                    self.validate_index(&plugin, position)?;
                    Ok(plugin)
                },
            },
        }
    }

    /// Moves the named plugin to `position`, or inserts it there from the
    /// parsed file `metadata`; a position past the end means the end.
    pub fn move_or_insert_plugin_with_index(
        &mut self,
        plugin_name: &str,
        position: usize,
        metadata: Option<&PluginMetadata>,
    ) -> (r: Result<usize, Error>)
        requires
            old(self).wf(),
        ensures
            final(self).wf(),
            final(self).game_settings == old(self).game_settings,
            move_or_insert_post(
                *old(self),
                *final(self),
                plugin_name@,
                position,
                match metadata {
                    Some(m) => Some(*m),
                    None => None,
                },
                r,
            ),
    {
        let key = plugin_name_key(plugin_name);
        match self.index_of_key(&key) {
            Some(x) => {
                proof {
                    lemma_index_of_key_spec(self.plugins@, key@, x as int);
                }
                if x == position {
                    return Ok(position);
                }
            },
            None => {},
        }
        let plugin = self.get_plugin_to_insert_at(plugin_name, position, metadata)?;
        proof {
            lemma_insert_keeps_wf(
                self.plugins@,
                if position < self.plugins@.len() {
                    position as int
                } else {
                    self.plugins@.len() as int
                },
                plugin,
            );
        }
        if position >= self.plugins.len() {
            let n = self.plugins.len();
            self.plugins.push(plugin);
            proof {
                let base = without_key(old(self).plugins@, key@);
                assert(self.plugins@ =~= base.insert(n as int, plugin));
            }
            Ok(n)
        } else {
            self.plugins.insert(position, plugin);
            Ok(position)
        }
    }

    /// Positions of the named plugins; fails on the first that is not in the
    /// load order.
    pub fn lookup_plugins(&self, plugin_names: &[&str]) -> (r: Result<Vec<usize>, Error>)
        requires
            self.wf(),
        ensures
            r is Ok <==> forall|j: int|
                0 <= j < plugin_names@.len() ==> has_key(
                    self.plugins@,
                    plugin_key((#[trigger] plugin_names@[j])@),
                ),
            r matches Err(e) ==> e is PluginNotFound,
            r matches Err(Error::PluginNotFound(n)) ==> exists|j: int|
                0 <= j < plugin_names@.len() && n@ == (#[trigger] plugin_names@[j])@ && !has_key(
                    self.plugins@,
                    plugin_key(plugin_names@[j]@),
                ),
            r matches Ok(v) ==> v@.len() == plugin_names@.len() && forall|j: int|
                0 <= j < v@.len() ==> (#[trigger] v@[j]) < self.plugins@.len()
                    && self.plugins@[v@[j] as int].key@ == plugin_key(plugin_names@[j]@),
    {
        let mut out: Vec<usize> = Vec::new();
        let mut j: usize = 0;
        while j < plugin_names.len()
            invariant
                self.wf(),
                j <= plugin_names@.len(),
                out@.len() == j,
                forall|q: int|
                    0 <= q < j ==> has_key(self.plugins@, plugin_key((#[trigger] plugin_names@[q])@)),
                forall|q: int|
                    0 <= q < j ==> (#[trigger] out@[q]) < self.plugins@.len()
                        && self.plugins@[out@[q] as int].key@ == plugin_key(plugin_names@[q]@),
            decreases plugin_names@.len() - j,
        {
            match self.index_of(plugin_names[j]) {
                Some(i) => {
                    out.push(i);
                },
                None => {
                    return Err(Error::PluginNotFound(plugin_names[j].to_owned()));
                },
            }
            j = j + 1;
        }
        Ok(out)
    }

    /// Moves or inserts the named plugin at `position`. Where the game pins its
    /// master file, position 0 is the master file's and no other.
    pub fn set_plugin_index(
        &mut self,
        plugin_name: &str,
        position: usize,
        metadata: Option<&PluginMetadata>,
    ) -> (r: Result<usize, Error>)
        requires
            old(self).wf(),
        ensures
            final(self).wf(),
            final(self).game_settings == old(self).game_settings,
            r is Err ==> final(self).same_state(*old(self)),
            old(self).pins_game_master() && old(self).is_game_master(plugin_key(plugin_name@))
                && position != 0 && old(self).plugins@.len() != 0 ==> (r matches Err(e)
                && e is GameMasterMustLoadFirst),
            old(self).pins_game_master() && !old(self).is_game_master(plugin_key(plugin_name@))
                && position == 0 ==> (r matches Err(e) && e is GameMasterMustLoadFirst),
            old(self).master_position_allowed(plugin_key(plugin_name@), position)
                ==> move_or_insert_post(
                *old(self),
                *final(self),
                plugin_name@,
                position,
                match metadata {
                    Some(m) => Some(*m),
                    None => None,
                },
                r,
            ),
            r matches Ok(i) ==> {
                &&& i < final(self).plugins@.len()
                &&& final(self).plugins@[i as int].key@ == plugin_key(plugin_name@)
                &&& old(self).pins_game_master() && position == 0 ==> old(self).is_game_master(
                    plugin_key(plugin_name@),
                )
            },
    {
        if self.game_settings.load_order_method() != LoadOrderMethod::Timestamp {
            let is_master = self.is_game_master_name(plugin_name);
            if (position != 0 && self.plugins.len() != 0 && is_master) || (position == 0
                && !is_master) {
                return Err(Error::GameMasterMustLoadFirst(self.game_settings.master_file.clone()));
            }
        }
        self.move_or_insert_plugin_with_index(plugin_name, position, metadata)
    }

    /// Adds the named plugin, parsed as `metadata`, at its insert position.
    pub fn add(&mut self, plugin_name: &str, metadata: Option<&PluginMetadata>) -> (r: Result<
        usize,
        Error,
    >)
        requires
            old(self).wf(),
        ensures
            final(self).wf(),
            final(self).game_settings == old(self).game_settings,
            r is Err ==> final(self).same_state(*old(self)),
            has_key(old(self).plugins@, plugin_key(plugin_name@)) ==> (r matches Err(
                Error::InstalledPlugin(n),
            ) && n@ == plugin_name@),
            !has_key(old(self).plugins@, plugin_key(plugin_name@)) ==> match metadata {
                None => (r matches Err(e) && e is InvalidPlugin),
                Some(m) => plugin_key(m.filename@) == plugin_key(plugin_name@)
                    && old(self).metadata_insert_valid(*m) ==> r is Ok,
            },
            r matches Ok(i) ==> match metadata {
                Some(m) => from_metadata(final(self).plugins@[i as int], *m),
                None => false,
            },
            r matches Ok(i) ==> {
                let p = final(self).plugins@[i as int];
                &&& i <= old(self).plugins@.len()
                &&& p.key@ == plugin_key(plugin_name@)
                &&& !p.active
                &&& final(self).plugins@ == old(self).plugins@.insert(i as int, p)
                &&& index_valid(old(self).plugins@, p, i as int)
                &&& old(self).insert_position_ok(
                    p,
                    if i < old(self).plugins@.len() {
                        Some(i)
                    } else {
                        None
                    },
                )
            },
    {
        let key = plugin_name_key(plugin_name);
        if self.index_of_key(&key).is_some() {
            return Err(Error::InstalledPlugin(plugin_name.to_owned()));
        }
        let plugin = match metadata {
            None => {
                return Err(Error::InvalidPlugin(plugin_name.to_owned()));
            },
            Some(m) => {
                let p = Plugin::new(m);
                assert(from_metadata(p, *m));
                p
            },
        };
        if plugin.key != key {
            return Err(Error::InvalidPlugin(plugin_name.to_owned()));
        }
        let pos = self.insert_position(&plugin);
        let position = match pos {
            Some(p) => p,
            None => self.plugins.len(),
        };
        self.validate_index(&plugin, position)?;
        let i = self.insert(plugin);
        Ok(i)
    }

    /// Removes the named plugin, which must no longer be installed. Removing a
    /// master must leave the partitioning rules intact.
    pub fn remove(&mut self, plugin_name: &str, is_installed: bool) -> (r: Result<(), Error>)
        requires
            old(self).wf(),
        ensures
            final(self).wf(),
            final(self).game_settings == old(self).game_settings,
            r is Err ==> final(self).same_state(*old(self)),
            !has_key(old(self).plugins@, plugin_key(plugin_name@)) ==> (r matches Err(
                Error::PluginNotFound(n),
            ) && n@ == plugin_name@),
            has_key(old(self).plugins@, plugin_key(plugin_name@)) && is_installed ==> (r matches Err(
                Error::InstalledPlugin(n),
            ) && n@ == plugin_name@),
            has_key(old(self).plugins@, plugin_key(plugin_name@)) && !is_installed
                && old(self).implicitly_active_key(plugin_key(plugin_name@)) ==> (r matches Err(
                Error::ImplicitlyActivePlugin(n),
            ) && n@ == plugin_name@),
            r is Ok ==> {
                let i = index_of_key_spec(old(self).plugins@, plugin_key(plugin_name@));
                &&& has_key(old(self).plugins@, plugin_key(plugin_name@))
                &&& !is_installed
                &&& !old(self).implicitly_active_key(plugin_key(plugin_name@))
                &&& final(self).plugins@ == old(self).plugins@.remove(i)
                &&& old(self).plugins@[i].is_master() ==> valid_load_order(final(self).plugins@)
            },
            has_key(old(self).plugins@, plugin_key(plugin_name@)) && !is_installed
                && !old(self).implicitly_active_key(plugin_key(plugin_name@)) ==> (r is Ok <==> (
            !old(self).plugins@[index_of_key_spec(
                old(self).plugins@,
                plugin_key(plugin_name@),
            )].is_master() || valid_load_order(
                old(self).plugins@.remove(
                    index_of_key_spec(old(self).plugins@, plugin_key(plugin_name@)),
                ),
            ))),
    {
        let key = plugin_name_key(plugin_name);
        let index = match self.index_of_key(&key) {
            None => {
                return Err(Error::PluginNotFound(plugin_name.to_owned()));
            },
            Some(i) => i,
        };
        proof {
            lemma_index_of_key_spec(self.plugins@, key@, index as int);
        }
        if is_installed {
            return Err(Error::InstalledPlugin(plugin_name.to_owned()));
        }
        if self.is_implicitly_active(plugin_name) {
            return Err(Error::ImplicitlyActivePlugin(plugin_name.to_owned()));
        }
        let ghost ps = self.plugins@;
        proof {
            lemma_remove_keeps_wf(ps, index as int);
        }
        let plugin = self.plugins.remove(index);
        if plugin.is_master_file() {
            match validate_load_order(self.plugins.as_slice()) {
                Ok(()) => {},
                Err(e) => {
                    self.plugins.insert(index, plugin);
                    assert(self.plugins@ =~= ps);
                    return Err(e);
                },
            }
        }
        Ok(())
    }

    /// Makes exactly the named plugins active, together with the game's
    /// implicitly active plugins.
    pub fn set_active_plugins(&mut self, active_plugin_names: &[&str]) -> (r: Result<(), Error>)
        requires
            old(self).wf(),
        ensures
            final(self).wf(),
            final(self).game_settings == old(self).game_settings,
            r is Err ==> final(self).same_state(*old(self)),
            !(forall|j: int|
                0 <= j < active_plugin_names@.len() ==> has_key(
                    old(self).plugins@,
                    plugin_key((#[trigger] active_plugin_names@[j])@),
                )) ==> (r matches Err(e) && e is PluginNotFound),
            r matches Err(e) ==> (e is PluginNotFound || e is TooManyActivePlugins),
            r matches Err(Error::PluginNotFound(n)) ==> exists|j: int|
                0 <= j < active_plugin_names@.len() && n@ == (#[trigger] active_plugin_names@[j])@
                    && !has_key(old(self).plugins@, plugin_key(active_plugin_names@[j]@)),
            (forall|j: int|
                0 <= j < active_plugin_names@.len() ==> has_key(
                    old(self).plugins@,
                    plugin_key((#[trigger] active_plugin_names@[j])@),
                )) ==> {
                let new_ps = old(self).with_requested(active_plugin_names@);
                let light = active_count(new_ps, old(self).light_games(), true);
                let normal = active_count(new_ps, old(self).light_games(), false);
                &&& r is Ok <==> (light <= MAX_ACTIVE_LIGHT_PLUGINS && normal
                    <= MAX_ACTIVE_NORMAL_PLUGINS)
                &&& r is Err ==> (r matches Err(
                    Error::TooManyActivePlugins { light_count, normal_count },
                ) && light_count == light && normal_count == normal)
            },
            r is Ok ==> {
                &&& final(self).within_caps()
                &&& final(self).plugins@.len() == old(self).plugins@.len()
                &&& forall|i: int|
                    0 <= i < old(self).plugins@.len() ==> #[trigger] final(self).plugins@[i] == (
                    Plugin {
                        active: requested(active_plugin_names@, old(self).plugins@[i].key@)
                            || old(self).implicitly_active_key(old(self).plugins@[i].key@),
                        ..old(self).plugins@[i]
                    })
            },
    {
        match self.lookup_plugins(active_plugin_names) {
            Ok(_) => {},
            Err(e) => {
                return Err(e);
            },
        }
        let mut keys: Vec<String> = Vec::new();
        let mut j: usize = 0;
        while j < active_plugin_names.len()
            invariant
                j <= active_plugin_names@.len(),
                keys@.len() == j,
                forall|q: int|
                    0 <= q < j ==> (#[trigger] keys@[q])@ == plugin_key(active_plugin_names@[q]@),
            decreases active_plugin_names@.len() - j,
        {
            keys.push(plugin_name_key(active_plugin_names[j]));
            j = j + 1;
        }
        let ghost ps = self.plugins@;
        let mut previous: Vec<bool> = Vec::new();
        let mut i: usize = 0;
        while i < self.plugins.len()
            invariant
                i <= self.plugins@.len(),
                self.plugins@.len() == ps.len(),
                self.game_settings == old(self).game_settings,
                ps == old(self).plugins@,
                keys@.len() == active_plugin_names@.len(),
                forall|q: int|
                    0 <= q < keys@.len() ==> (#[trigger] keys@[q])@ == plugin_key(
                        active_plugin_names@[q]@,
                    ),
                previous@.len() == i,
                forall|q: int| 0 <= q < i ==> (#[trigger] previous@[q]) == ps[q].active,
                forall|q: int|
                    0 <= q < i ==> #[trigger] self.plugins@[q] == (Plugin {
                        active: requested(active_plugin_names@, ps[q].key@)
                            || old(self).implicitly_active_key(ps[q].key@),
                        ..ps[q]
                    }),
                forall|q: int| i <= q < ps.len() ==> #[trigger] self.plugins@[q] == ps[q],
            decreases ps.len() - i,
        {
            previous.push(self.plugins[i].active);
            let mut wanted = false;
            let mut q: usize = 0;
            while q < keys.len()
                invariant
                    q <= keys@.len(),
                    i < self.plugins@.len(),
                    keys@.len() == active_plugin_names@.len(),
                    forall|t: int|
                        0 <= t < keys@.len() ==> (#[trigger] keys@[t])@ == plugin_key(
                            active_plugin_names@[t]@,
                        ),
                    wanted == exists|t: int|
                        0 <= t < q && plugin_key((#[trigger] active_plugin_names@[t])@)
                            == self.plugins@[i as int].key@,
                decreases keys@.len() - q,
            {
                if keys[q] == self.plugins[i].key {
                    wanted = true;
                }
                q = q + 1;
            }
            if !wanted {
                wanted = self.is_implicitly_active_key(&self.plugins[i].key);
            }
            self.plugins[i].active = wanted;
            i = i + 1;
        }
        assert(self.plugins@ =~= old(self).with_requested(active_plugin_names@));
        let light_count = self.count_active_light_plugins();
        let normal_count = self.count_active_normal_plugins();
        if light_count > MAX_ACTIVE_LIGHT_PLUGINS || normal_count > MAX_ACTIVE_NORMAL_PLUGINS {
            let mut k: usize = 0;
            while k < self.plugins.len()
                invariant
                    k <= self.plugins@.len(),
                    self.plugins@.len() == ps.len(),
                    previous@.len() == ps.len(),
                    self.game_settings == old(self).game_settings,
                    forall|q: int| 0 <= q < ps.len() ==> (#[trigger] previous@[q]) == ps[q].active,
                    forall|q: int| 0 <= q < k ==> #[trigger] self.plugins@[q] == ps[q],
                    forall|q: int|
                        k <= q < ps.len() ==> #[trigger] self.plugins@[q] == (Plugin {
                            active: self.plugins@[q].active,
                            ..ps[q]
                        }),
                decreases ps.len() - k,
            {
                self.plugins[k].active = previous[k];
                k = k + 1;
            }
            assert(self.plugins@ =~= ps);
            return Err(Error::TooManyActivePlugins { light_count, normal_count });
        }
        proof {
            let qs = self.plugins@;
            assert forall|a: int| 0 <= a < qs.len() implies (#[trigger] qs[a]).wf() by {
                assert(ps[a].wf());
            }
            assert forall|a: int, b: int|
                0 <= a < qs.len() && 0 <= b < qs.len() && a != b implies (#[trigger] qs[a]).key@
                != (#[trigger] qs[b]).key@ by {
                assert(ps[a].key@ != ps[b].key@);
            }
        }
        Ok(())
    }

    /// Activates the named plugin without checking the caps, adding it from
    /// `installed` where it is not yet in the load order.
    pub fn activate_unvalidated(&mut self, filename: &str, installed: &[PluginMetadata])
        requires
            old(self).wf(),
        ensures
            final(self).wf(),
            final(self).game_settings == old(self).game_settings,
            forall|k: Seq<char>| has_key(old(self).plugins@, k) ==> has_key(final(self).plugins@, k),
            forall|k: Seq<char>|
                is_active_key(old(self).plugins@, k) ==> is_active_key(final(self).plugins@, k),
            forall|k: Seq<char>|
                has_key(final(self).plugins@, k) ==> has_key(old(self).plugins@, k) || is_installed(
                    installed@,
                    k,
                ),
            has_key(old(self).plugins@, plugin_key(filename@)) || is_installed(
                installed@,
                plugin_key(filename@),
            ) ==> is_active_key(final(self).plugins@, plugin_key(filename@)),
            has_key(old(self).plugins@, plugin_key(filename@)) ==> {
                let i = index_of_key_spec(old(self).plugins@, plugin_key(filename@));
                final(self).plugins@ == old(self).plugins@.update(
                    i,
                    Plugin { active: true, ..old(self).plugins@[i] },
                )
            },
            !has_key(old(self).plugins@, plugin_key(filename@)) && !is_installed(
                installed@,
                plugin_key(filename@),
            ) ==> final(self).plugins@ == old(self).plugins@,
            !has_key(old(self).plugins@, plugin_key(filename@)) && is_installed(
                installed@,
                plugin_key(filename@),
            ) ==> exists|r: int|
                0 <= r <= old(self).plugins@.len() && final(self).plugins@ == old(
                    self,
                ).plugins@.insert(r, #[trigger] final(self).plugins@[r]) && final(self).plugins@[r].active
                    && built_from_installed(final(self).plugins@[r], installed@) && old(
                    self,
                ).insert_position_ok(
                    final(self).plugins@[r],
                    if r < old(self).plugins@.len() {
                        Some(r as usize)
                    } else {
                        None
                    },
                ),
            old(self).pins_game_master() && old(self).master_loads_first()
                && installed_plain_master(installed@, old(self).game_master_key())
                ==> final(self).master_loads_first(),
            installed_clean(installed@) && clean_names(old(self).plugins@) ==> clean_names(
                final(self).plugins@,
            ),
    {
        let key = plugin_name_key(filename);
        match self.index_of_key(&key) {
            Some(i) => {
                let ghost ps = self.plugins@;
                self.plugins[i].activate();
                proof {
                    lemma_index_of_key_spec(ps, key@, i as int);
                    assert(self.plugins@ =~= ps.update(i as int, Plugin { active: true, ..ps[i as int] }));
                    lemma_activate_frame(ps, i as int);
                    let qs = self.plugins@;
                    assert forall|a: int| 0 <= a < qs.len() implies (#[trigger] qs[a]).wf() by {
                        assert(ps[a].wf());
                    }
                    assert forall|a: int, b: int|
                        0 <= a < qs.len() && 0 <= b < qs.len() && a != b implies (
                        #[trigger] qs[a]).key@ != (#[trigger] qs[b]).key@ by {
                        assert(ps[a].key@ != ps[b].key@);
                    }
                    assert forall|k: Seq<char>| has_key(qs, k) implies has_key(ps, k) by {
                        let a = choose|a: int| 0 <= a < qs.len() && (#[trigger] qs[a]).key@ == k;
                        assert(ps[a].key@ == k);
                    }
                    assert forall|a: int| 0 <= a < qs.len() implies (#[trigger] qs[a]).name@
                        == ps[a].name@ by {}
                    let gm = old(self).game_master_key();
                    if old(self).master_loads_first() {
                        assert forall|a: int|
                            0 <= a < qs.len() && (#[trigger] qs[a]).key@ == gm implies qs[a].is_master()
                            && qs[a].master_keys@.len() == 0 by {
                            assert(ps[a].key@ == gm);
                        }
                        if has_key(qs, gm) {
                            assert(has_key(ps, gm));
                        }
                    }
                }
            },
            None => match find_installed(installed, &key) {
                Some(j) => {
                    let plugin = Plugin::with_active(&installed[j], true);
                    assert(built_from(plugin, installed@[j as int]));
                    let ghost ps = self.plugins@;
                    let ghost lo0 = *self;
                    let r = self.insert(plugin);
                    proof {
                        assert(self.plugins@[r as int] == plugin);
                        if installed_clean(installed@) && clean_names(ps) {
                            assert(!ends_with_ci(
                                trim_ghost(installed@[j as int].filename@),
                                ghost_suffix(),
                            ));
                            lemma_insert_keeps_clean(ps, r as int, plugin);
                        }
                        if lo0.pins_game_master() && lo0.master_loads_first() && installed_plain_master(
                            installed@,
                            lo0.game_master_key(),
                        ) {
                            lemma_insert_keeps_master_first(lo0, plugin, r);
                        }
                        lemma_insert_frame(ps, r as int, plugin);
                        let qs = self.plugins@;
                        assert forall|k: Seq<char>| has_key(qs, k) implies has_key(ps, k)
                            || is_installed(installed@, k) by {
                            let a = choose|a: int| 0 <= a < qs.len() && (#[trigger] qs[a]).key@ == k;
                            if a < r {
                                assert(qs[a] == ps[a]);
                            } else if a > r {
                                assert(qs[a] == ps[a - 1]);
                            }
                        }
                    }
                },
                None => {},
            },
        }
    }

    /// Activates each of the game's implicitly active plugins that is in the
    /// load order or installed, adding those that are missing.
    pub fn add_implicitly_active_plugins(&mut self, installed: &[PluginMetadata])
        requires
            old(self).wf(),
        ensures
            final(self).wf(),
            final(self).game_settings == old(self).game_settings,
            forall|k: Seq<char>| has_key(old(self).plugins@, k) ==> has_key(final(self).plugins@, k),
            forall|k: Seq<char>|
                is_active_key(old(self).plugins@, k) ==> is_active_key(final(self).plugins@, k),
            forall|k: Seq<char>|
                has_key(final(self).plugins@, k) ==> has_key(old(self).plugins@, k) || is_installed(
                    installed@,
                    k,
                ),
            forall|k: Seq<char>|
                old(self).implicitly_active_key(k) && (has_key(old(self).plugins@, k)
                    || is_installed(installed@, k)) ==> is_active_key(final(self).plugins@, k),
            old(self).pins_game_master() && old(self).master_loads_first()
                && installed_plain_master(installed@, old(self).game_master_key())
                ==> final(self).master_loads_first(),
            installed_clean(installed@) && clean_names(old(self).plugins@) ==> clean_names(
                final(self).plugins@,
            ),
            forall|k: Seq<char>|
                has_key(final(self).plugins@, k) && !has_key(old(self).plugins@, k)
                    ==> old(self).implicitly_active_key(k),
            forall|k: Seq<char>|
                !old(self).implicitly_active_key(k) ==> (is_active_key(final(self).plugins@, k)
                    <==> is_active_key(old(self).plugins@, k)),
    {
        let names = copy_strings(&self.game_settings.implicitly_active_plugins);
        let mut j: usize = 0;
        while j < names.len()
            invariant
                self.wf(),
                self.game_settings == old(self).game_settings,
                names@ == old(self).game_settings.implicitly_active_plugins@,
                j <= names@.len(),
                forall|k: Seq<char>| has_key(old(self).plugins@, k) ==> has_key(self.plugins@, k),
                forall|k: Seq<char>|
                    is_active_key(old(self).plugins@, k) ==> is_active_key(self.plugins@, k),
                forall|k: Seq<char>|
                    has_key(self.plugins@, k) ==> has_key(old(self).plugins@, k) || is_installed(
                        installed@,
                        k,
                    ),
                forall|q: int|
                    0 <= q < j && (has_key(old(self).plugins@, plugin_key((#[trigger] names@[q])@))
                        || is_installed(installed@, plugin_key(names@[q]@))) ==> is_active_key(
                        self.plugins@,
                        plugin_key(names@[q]@),
                    ),
                old(self).pins_game_master() && old(self).master_loads_first()
                    && installed_plain_master(installed@, old(self).game_master_key())
                    ==> self.master_loads_first(),
                installed_clean(installed@) && clean_names(old(self).plugins@) ==> clean_names(
                    self.plugins@,
                ),
                forall|k: Seq<char>|
                    has_key(self.plugins@, k) && !has_key(old(self).plugins@, k)
                        ==> old(self).implicitly_active_key(k),
                forall|k: Seq<char>|
                    !old(self).implicitly_active_key(k) ==> (is_active_key(self.plugins@, k)
                        <==> is_active_key(old(self).plugins@, k)),
            decreases names@.len() - j,
        {
            let ghost before = self.plugins@;
            let ghost kj = plugin_key(names@[j as int]@);
            self.activate_unvalidated(names[j].as_str(), installed);
            proof {
                assert(old(self).implicitly_active_key(kj)) by {
                    assert(plugin_key(names@[j as int]@) == kj);
                }
                let after = self.plugins@;
                if has_key(before, kj) {
                    let i = index_of_key_spec(before, kj);
                    assert forall|k: Seq<char>| k != kj implies (is_active_key(after, k)
                        <==> is_active_key(before, k)) by {
                        lemma_update_active_other(before, i, k);
                    }
                    assert forall|k: Seq<char>| has_key(after, k) implies has_key(before, k) by {
                        let a = choose|a: int| 0 <= a < after.len() && (#[trigger] after[a]).key@ == k;
                        assert(before[a].key@ == k);
                    }
                } else if is_installed(installed@, kj) {
                    let r = choose|r: int|
                        0 <= r <= before.len() && after == before.insert(r, #[trigger] after[r])
                            && after[r].active && built_from_installed(after[r], installed@);
                    let w = choose|w: int|
                        0 <= w < installed@.len() && built_from(after[r], #[trigger] installed@[w]);
                    assert(after[r].key@ == plugin_key(installed@[w].filename@));
                    assert(has_key(after, kj));
                    assert(!has_key(before, kj));
                    assert(after[r].key@ == kj) by {
                        if after[r].key@ != kj {
                            lemma_insert_other(before, r, after[r], kj);
                        }
                    }
                    assert forall|k: Seq<char>| k != kj implies (is_active_key(after, k)
                        <==> is_active_key(before, k)) && (has_key(after, k) <==> has_key(before, k)) by {
                        lemma_insert_other(before, r, after[r], k);
                    }
                }
            }
            j = j + 1;
        }
        proof {
            assert forall|k: Seq<char>|
                old(self).implicitly_active_key(k) && (has_key(old(self).plugins@, k)
                    || is_installed(installed@, k)) implies is_active_key(self.plugins@, k) by {
                let q = choose|q: int|
                    0 <= q < names@.len() && plugin_key((#[trigger] names@[q])@) == k;
            }
        }
    }

    /// Makes exactly the plugins that `active_plugin_names` lists active,
    /// without checking caps; names not in the load order are ignored.
    pub fn load_active_plugins(&mut self, active_plugin_names: &Vec<String>)
        requires
            old(self).wf(),
        ensures
            final(self).wf(),
            final(self).game_settings == old(self).game_settings,
            final(self).plugins@.len() == old(self).plugins@.len(),
            forall|i: int|
                0 <= i < old(self).plugins@.len() ==> #[trigger] final(self).plugins@[i] == (Plugin {
                    active: listed(active_plugin_names@, old(self).plugins@[i].key@),
                    ..old(self).plugins@[i]
                }),
    {
        self.deactivate_all();
        let ghost ps = old(self).plugins@;
        let mut j: usize = 0;
        while j < active_plugin_names.len()
            invariant
                self.wf(),
                self.game_settings == old(self).game_settings,
                self.plugins@.len() == ps.len(),
                ps == old(self).plugins@,
                j <= active_plugin_names@.len(),
                forall|i: int|
                    0 <= i < ps.len() ==> #[trigger] self.plugins@[i] == (Plugin {
                        active: exists|q: int|
                            0 <= q < j && plugin_key((#[trigger] active_plugin_names@[q])@)
                                == ps[i].key@,
                        ..ps[i]
                    }),
            decreases active_plugin_names@.len() - j,
        {
            let ghost before = self.plugins@;
            match self.index_of(active_plugin_names[j].as_str()) {
                Some(i) => {
                    self.plugins[i].activate();
                    proof {
                        let qs = self.plugins@;
                        assert forall|a: int| 0 <= a < qs.len() implies (#[trigger] qs[a]).wf() by {
                            assert(before[a].wf());
                        }
                        assert forall|a: int, b: int|
                            0 <= a < qs.len() && 0 <= b < qs.len() && a != b implies (
                            #[trigger] qs[a]).key@ != (#[trigger] qs[b]).key@ by {
                            assert(before[a].key@ != before[b].key@);
                        }
                        assert forall|a: int| 0 <= a < ps.len() implies #[trigger] qs[a] == (Plugin {
                            active: exists|q: int|
                                0 <= q < j + 1 && plugin_key((#[trigger] active_plugin_names@[q])@)
                                    == ps[a].key@,
                            ..ps[a]
                        }) by {
                            if a == i {
                                assert(plugin_key(active_plugin_names@[j as int]@) == ps[a].key@);
                            } else {
                                assert(ps[a].key@ != ps[i as int].key@) by {
                                    assert(before[a].key@ != before[i as int].key@);
                                }
                            }
                        }
                    }
                },
                None => {
                    proof {
                        assert forall|a: int| 0 <= a < ps.len() implies #[trigger] self.plugins@[a] == (Plugin {
                            active: exists|q: int|
                                0 <= q < j + 1 && plugin_key((#[trigger] active_plugin_names@[q])@)
                                    == ps[a].key@,
                            ..ps[a]
                        }) by {
                            assert(before[a].key@ == ps[a].key@);
                            assert(plugin_key(active_plugin_names@[j as int]@) != ps[a].key@);
                        }
                    }
                },
            }
            j = j + 1;
        }
    }

    /// Adds the plugins of a merged list that are installed and not yet in the
    /// load order, each at its insert position with its listed active state.
    pub fn load_unique_plugins(
        &mut self,
        plugin_name_tuples: Vec<(String, bool)>,
        installed_filenames: Vec<String>,
        installed: &[PluginMetadata],
    )
        requires
            old(self).wf(),
        ensures
            final(self).wf(),
            final(self).game_settings == old(self).game_settings,
            forall|k: Seq<char>| has_key(old(self).plugins@, k) ==> has_key(final(self).plugins@, k),
            forall|k: Seq<char>|
                has_key(final(self).plugins@, k) ==> has_key(old(self).plugins@, k) || is_installed(
                    installed@,
                    k,
                ),
            forall|k: Seq<char>|
                (tuple_has_key(plugin_name_tuples@, k) || exists|j: int|
                    0 <= j < installed_filenames@.len() && plugin_key(
                        (#[trigger] installed_filenames@[j])@,
                    ) == k) && is_installed(installed@, k) ==> has_key(final(self).plugins@, k),
            old(self).pins_game_master() && old(self).master_loads_first()
                && installed_plain_master(installed@, old(self).game_master_key())
                ==> final(self).master_loads_first(),
            installed_clean(installed@) && clean_names(old(self).plugins@) ==> clean_names(
                final(self).plugins@,
            ),
    {
        let ghost tuples = plugin_name_tuples@;
        let ghost files = installed_filenames@;
        let entries = remove_duplicates_icase(plugin_name_tuples, installed_filenames);
        let mut i: usize = 0;
        while i < entries.len()
            invariant
                self.wf(),
                self.game_settings == old(self).game_settings,
                i <= entries@.len(),
                forall|k: Seq<char>| has_key(old(self).plugins@, k) ==> has_key(self.plugins@, k),
                forall|k: Seq<char>|
                    has_key(self.plugins@, k) ==> has_key(old(self).plugins@, k) || is_installed(
                        installed@,
                        k,
                    ),
                forall|q: int|
                    0 <= q < i && is_installed(installed@, plugin_key((#[trigger] entries@[q]).0@))
                        ==> has_key(self.plugins@, plugin_key(entries@[q].0@)),
                forall|k: Seq<char>|
                    tuple_has_key(tuples, k) || (exists|j: int|
                        0 <= j < files.len() && plugin_key((#[trigger] files[j])@) == k)
                        ==> exists|q: int|
                        0 <= q < entries@.len() && plugin_key((#[trigger] entries@[q]).0@) == k,
                old(self).pins_game_master() && old(self).master_loads_first()
                    && installed_plain_master(installed@, old(self).game_master_key())
                    ==> self.master_loads_first(),
                installed_clean(installed@) && clean_names(old(self).plugins@) ==> clean_names(
                    self.plugins@,
                ),
            decreases entries@.len() - i,
        {
            let key = plugin_name_key(entries[i].0.as_str());
            match find_installed(installed, &key) {
                Some(j) => {
                    if self.index_of_key(&key).is_none() {
                        let plugin = Plugin::with_active(&installed[j], entries[i].1);
                        let ghost ps = self.plugins@;
                        let ghost lo0 = *self;
                        let r = self.insert(plugin);
                        proof {
                            if installed_clean(installed@) && clean_names(ps) {
                                assert(!ends_with_ci(
                                    trim_ghost(installed@[j as int].filename@),
                                    ghost_suffix(),
                                ));
                                lemma_insert_keeps_clean(ps, r as int, plugin);
                            }
                            if lo0.pins_game_master() && lo0.master_loads_first()
                                && installed_plain_master(installed@, lo0.game_master_key()) {
                                lemma_insert_keeps_master_first(lo0, plugin, r);
                            }
                            lemma_insert_frame(ps, r as int, plugin);
                            let qs = self.plugins@;
                            assert forall|k: Seq<char>| has_key(qs, k) implies has_key(
                                old(self).plugins@,
                                k,
                            ) || is_installed(installed@, k) by {
                                let a = choose|a: int| 0 <= a < qs.len() && (#[trigger] qs[a]).key@ == k;
                                if a < r {
                                    assert(qs[a] == ps[a]);
                                } else if a > r {
                                    assert(qs[a] == ps[a - 1]);
                                }
                            }
                        }
                    }
                },
                None => {},
            }
            i = i + 1;
        }
        proof {
            assert forall|k: Seq<char>|
                (tuple_has_key(tuples, k) || exists|j: int|
                    0 <= j < files.len() && plugin_key((#[trigger] files[j])@) == k) && is_installed(
                    installed@,
                    k,
                ) implies has_key(self.plugins@, k) by {
                let q = choose|q: int|
                    0 <= q < entries@.len() && plugin_key((#[trigger] entries@[q]).0@) == k;
            }
        }
    }

    pub fn deactivate_all(&mut self)
        requires
            old(self).wf(),
        ensures
            final(self).wf(),
            final(self).game_settings == old(self).game_settings,
            final(self).plugins@.len() == old(self).plugins@.len(),
            forall|i: int|
                0 <= i < old(self).plugins@.len() ==> #[trigger] final(self).plugins@[i] == (Plugin {
                    active: false,
                    ..old(self).plugins@[i]
                }),
    {
        let mut i: usize = 0;
        while i < self.plugins.len()
            invariant
                i <= self.plugins@.len(),
                self.plugins@.len() == old(self).plugins@.len(),
                self.game_settings == old(self).game_settings,
                forall|j: int|
                    0 <= j < i ==> #[trigger] self.plugins@[j] == (Plugin {
                        active: false,
                        ..old(self).plugins@[j]
                    }),
                forall|j: int| i <= j < self.plugins@.len() ==> #[trigger] self.plugins@[j] == old(
                    self,
                ).plugins@[j],
            decreases self.plugins@.len() - i,
        {
            self.plugins[i].deactivate();
            i = i + 1;
        }
        proof {
            let ps = self.plugins@;
            assert forall|a: int| 0 <= a < ps.len() implies (#[trigger] ps[a]).wf() by {
                assert(old(self).plugins@[a].wf());
            }
            assert forall|a: int, b: int|
                0 <= a < ps.len() && 0 <= b < ps.len() && a != b implies (#[trigger] ps[a]).key@
                != (#[trigger] ps[b]).key@ by {
                assert(old(self).plugins@[a].key@ != old(self).plugins@[b].key@);
            }
        }
    }
}

} // verus!
