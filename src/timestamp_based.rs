//! The timestamp load-order method: the order is the plugins' modification
//! times, and `plugins.txt` lists the active plugins.

use crate::codec::read_plugin_names;
use crate::enums::Error;
use crate::game_settings::GameSettings;
use crate::identity::plugin_key;
use crate::identity::{
    ends_with_ci, ghost_suffix, is_plugin_filename, lemma_plugin_filename_trimmed, names_match,
    trim_ghost,
};
use crate::mutable::{
    clean_names, lemma_clean_names_distinct, lemma_contained_keep_clean, lemma_flags_keep_clean,has_key, hoist_masters, is_active_key, is_installed, MutableLoadOrder};
use crate::plugin::{Plugin, PluginMetadata};
use crate::scan::PluginFile;
use crate::textfile_based::{
    active_file_names, active_names_of, active_plugins_file_bytes, strict_lines,
};
use vstd::prelude::*;

verus! {

/// Nanoseconds in a second.
pub const NANOS_PER_SECOND: i128 = 1_000_000_000;

/// The gap that saving leaves between consecutive plugins' times: a minute.
pub const SAVE_INTERVAL: i128 = 60_000_000_000;

/// The whole second in which a time in nanoseconds falls.
pub open spec fn second_of(t: i128) -> int {
    t as int / NANOS_PER_SECOND as int
}

fn whole_second(t: i128) -> (r: i128)
    ensures
        r as int == second_of(t),
{
    if t >= 0 {
        let q = t / NANOS_PER_SECOND;
        assert(q as int == t as int / NANOS_PER_SECOND as int);
        q
    } else {
        let u: i128 = -(t + 1);
        let q = u / NANOS_PER_SECOND;
        proof {
            let s = NANOS_PER_SECOND as int;
            let ti = t as int;
            let ui = u as int;
            assert(ui == -ti - 1);
            assert(q as int == ui / s);
            vstd::arithmetic::div_mod::lemma_fundamental_div_mod(ui, s);
            vstd::arithmetic::div_mod::lemma_fundamental_div_mod(ti, s);
            let qq = ui / s;
            let rr = ui % s;
            assert(0 <= rr < s);
            assert(ti == (-qq - 1) * s + (s - 1 - rr)) by (nonlinear_arith)
                requires
                    ui == qq * s + rr,
                    ti == -ui - 1,
            ;
            vstd::arithmetic::div_mod::lemma_fundamental_div_mod_converse_div(ti, s, -qq - 1, s - 1 - rr);
        }
        -q - 1
    }
}

/// Two of `files` were modified in the same second.
pub open spec fn times_tie(files: Seq<PluginFile>) -> bool {
    exists|i: int, j: int|
        0 <= i < j < files.len() && second_of((#[trigger] files[i]).modified) == second_of(
            (#[trigger] files[j]).modified,
        )
}

/// Whether the plugins' modification times leave their order open: two were
/// modified in the same second.
pub fn timestamps_are_ambiguous(files: &Vec<PluginFile>) -> (r: bool)
    ensures
        r == times_tie(files@),
{
    let n = files.len();
    let mut i: usize = 0;
    while i < n
        invariant
            n == files@.len(),
            i <= n,
            forall|a: int, b: int|
                0 <= a < b < n && a < i ==> second_of((#[trigger] files@[a]).modified) != second_of(
                    (#[trigger] files@[b]).modified,
                ),
        decreases n - i,
    {
        let si = whole_second(files[i].modified);
        let mut j: usize = i + 1;
        while j < n
            invariant
                n == files@.len(),
                i < n,
                i < j <= n,
                si as int == second_of(files@[i as int].modified),
                forall|b: int|
                    i < b < j ==> second_of(files@[i as int].modified) != second_of(
                        (#[trigger] files@[b]).modified,
                    ),
            decreases n - j,
        {
            if whole_second(files[j].modified) == si {
                assert(second_of(files@[i as int].modified) == second_of(files@[j as int].modified));
                return true;
            }
            j = j + 1;
        }
        i = i + 1;
    }
    false
}

/// A load order whose state lives in the plugins' modification times and in
/// `plugins.txt`.
#[derive(Clone, Debug)]
pub struct TimestampBasedLoadOrder {
    pub load_order: MutableLoadOrder,
}

impl TimestampBasedLoadOrder {
    pub open spec fn wf(self) -> bool {
        self.load_order.wf()
    }

    pub open spec fn plugins_view(self) -> Seq<Plugin> {
        self.load_order.plugins@
    }

    pub fn new(game_settings: GameSettings) -> (r: TimestampBasedLoadOrder)
        ensures
            r.wf(),
            r.load_order.game_settings == game_settings,
            r.plugins_view().len() == 0,
    {
        TimestampBasedLoadOrder { load_order: MutableLoadOrder::new(game_settings) }
    }

    /// Reloads the load order from the parsed installed plugin files, given in
    /// order of modification time, and the contents of `plugins.txt`.
    pub fn load(&mut self, active_plugins_file: Option<&[u8]>, installed: &[PluginMetadata]) -> (r:
        Result<(), Error>)
        requires
            old(self).wf(),
        ensures
            final(self).wf(),
            final(self).load_order.game_settings == old(self).load_order.game_settings,
            r is Err ==> final(self).load_order.same_state(old(self).load_order),
            r is Ok <==> match active_plugins_file {
                Some(c) => active_file_names(c@) is Some,
                None => true,
            },
            r matches Err(e) ==> e is DecodeError,
            r is Ok ==> forall|k: Seq<char>|
                has_key(final(self).plugins_view(), k) <==> is_installed(installed@, k),
            r is Ok ==> forall|k: Seq<char>|
                old(self).load_order.implicitly_active_key(k) && is_installed(installed@, k)
                    ==> is_active_key(final(self).plugins_view(), k),
            r is Ok && (forall|j: int|
                0 <= j < installed@.len() ==> is_plugin_filename(
                    (#[trigger] installed@[j]).filename@,
                    old(self).load_order.game_settings.id,
                )) ==> forall|i: int, j: int|
                0 <= i < j < final(self).plugins_view().len() ==> !names_match(
                    (#[trigger] final(self).plugins_view()[i]).name@,
                    (#[trigger] final(self).plugins_view()[j]).name@,
                ),
    {
        let names = match read_plugin_names(active_plugins_file) {
            Ok(n) => n,
            Err(e) => {
                return Err(e);
            },
        };
        let mut filenames: Vec<String> = Vec::new();
        let mut i: usize = 0;
        while i < installed.len()
            invariant
                i <= installed@.len(),
                filenames@.len() == i,
                forall|q: int| 0 <= q < i ==> #[trigger] filenames@[q] == installed@[q].filename,
            decreases installed@.len() - i,
        {
            filenames.push(installed[i].filename.clone());
            i = i + 1;
        }
        proof {
            assert forall|k: Seq<char>| is_installed(installed@, k) implies exists|j: int|
                0 <= j < filenames@.len() && plugin_key((#[trigger] filenames@[j])@) == k by {
                let j = choose|j: int|
                    0 <= j < installed@.len() && plugin_key((#[trigger] installed@[j]).filename@) == k;
                assert(filenames@[j] == installed@[j].filename);
            }
        }
        self.load_order.plugins = Vec::new();
        proof {
            if forall|j: int|
                0 <= j < installed@.len() ==> is_plugin_filename(
                    (#[trigger] installed@[j]).filename@,
                    self.load_order.game_settings.id,
                ) {
                assert forall|j: int| 0 <= j < installed@.len() implies !ends_with_ci(
                    trim_ghost((#[trigger] installed@[j]).filename@),
                    ghost_suffix(),
                ) by {
                    lemma_plugin_filename_trimmed(installed@[j].filename@, self.load_order.game_settings.id);
                }
            }
        }
        self.load_order.load_unique_plugins(Vec::new(), filenames, installed);
        let ghost before = self.load_order.plugins@;
        self.load_order.load_active_plugins(&names);
        proof {
            let after = self.load_order.plugins@;
            if clean_names(before) {
                lemma_flags_keep_clean(before, after);
            }
            assert forall|k: Seq<char>| has_key(after, k) implies has_key(before, k) by {
                let a = choose|a: int| 0 <= a < after.len() && (#[trigger] after[a]).key@ == k;
                assert(before[a].key@ == k);
            }
            assert forall|k: Seq<char>| has_key(before, k) implies has_key(after, k) by {
                let a = choose|a: int| 0 <= a < before.len() && (#[trigger] before[a]).key@ == k;
                assert(after[a].key@ == k);
            }
        }
        self.load_order.add_implicitly_active_plugins(installed);
        let ghost unhoisted = self.load_order.plugins@;
        hoist_masters(&mut self.load_order.plugins);
        proof {
            if clean_names(unhoisted) {
                lemma_contained_keep_clean(unhoisted, self.load_order.plugins@);
            }
        }
        proof {
            if clean_names(self.load_order.plugins@) {
                lemma_clean_names_distinct(self.load_order.plugins@);
            }
        }
        Ok(())
    }

    /// The contents of `plugins.txt`: the active plugin names, in order, as
    /// strictly Windows-1252 encoded lines.
    pub fn save_active_plugins(&self) -> (r: Result<Vec<u8>, Error>)
        ensures
            match r {
                Ok(b) => strict_lines(active_names_of(self.plugins_view())) == Some(b@),
                Err(e) => strict_lines(active_names_of(self.plugins_view())) is None
                    && (e matches Error::EncodeError(m) && m@ == "unrepresentable character"@),
            },
    {
        active_plugins_file_bytes(&self.load_order.plugins)
    }

    /// The modification times that saving gives the plugins: `base` for the
    /// first, then a minute more for each next one, which keeps the order and
    /// leaves no ties.
    pub fn modification_times(&self, base: i128) -> (r: Vec<(String, i128)>)
        requires
            0 <= base,
            base + SAVE_INTERVAL * self.plugins_view().len() <= i128::MAX,
        ensures
            r@.len() == self.plugins_view().len(),
            forall|i: int|
                0 <= i < r@.len() ==> (#[trigger] r@[i]).0@ == self.plugins_view()[i].name@ && r@[i].1
                    == base + SAVE_INTERVAL * i,
    {
        let ps = &self.load_order.plugins;
        let mut out: Vec<(String, i128)> = Vec::new();
        let mut t: i128 = base;
        let mut i: usize = 0;
        while i < ps.len()
            invariant
                i <= ps@.len(),
                ps@ == self.plugins_view(),
                base + SAVE_INTERVAL * ps@.len() <= i128::MAX,
                t == base + SAVE_INTERVAL * i,
                out@.len() == i,
                forall|q: int|
                    0 <= q < i ==> (#[trigger] out@[q]).0@ == ps@[q].name@ && out@[q].1 == base
                        + SAVE_INTERVAL * q,
            decreases ps@.len() - i,
        {
            out.push((ps[i].name.clone(), t));
            proof {
                assert(SAVE_INTERVAL * (i + 1) <= SAVE_INTERVAL * ps@.len()) by (nonlinear_arith)
                    requires
                        i + 1 <= ps@.len(),
                ;
            }
            t = t + SAVE_INTERVAL;
            i = i + 1;
        }
        out
    }

    /// The modification times are the only record of the order, which cannot
    /// disagree with itself.
    pub fn is_self_consistent(&self) -> (r: bool)
        ensures
            r,
    {
        true
    }
}

} // verus!
