//! The textfile load-order method: `loadorder.txt` lists every plugin in
//! order and `plugins.txt` lists the active ones. File contents are passed in
//! and handed back as bytes; an absent file is `None`.

use crate::codec::{
    all_decode_1252, all_valid_utf8, decoded_1252_lines, decoded_utf8_lines, plugin_line_mapper,
    plugin_lines, read_lines_utf8, read_lines_windows_1252, read_plugin_names,
    read_utf8_plugin_names, strict_encode, strict_encoding, string_views, text_lines,
};
use crate::enums::Error;
use crate::game_settings::GameSettings;
use crate::identity::{plugin_key, plugin_name_key};
use crate::invariants::{index_valid, valid_load_order};
use crate::identity::{
    ends_with_ci, ghost_suffix, is_plugin_filename, lemma_plugin_filename_trimmed, names_match,
    trim_ghost,
};
use crate::mutable::{
    clean_names, lemma_clean_names_distinct, lemma_contained_keep_clean, lemma_flags_keep_clean,
    active_count, first_where_present, from_metadata, has_key, hoist_masters, index_of_key_spec,
    installed_plain_master, is_active_key, is_installed, key_position_ok,
    lemma_flags_keep_master_first, lemma_hoist_keeps_master_first, listed, move_or_insert_post,
    names_unique, plain_master_in, MutableLoadOrder, MAX_ACTIVE_LIGHT_PLUGINS,
    MAX_ACTIVE_NORMAL_PLUGINS,
};
use crate::plugin::{Plugin, PluginMetadata};
use vstd::prelude::*;

verus! {

/// The names that a load order file lists: read as UTF-8 where every line is
/// valid UTF-8, else as Windows-1252.
pub open spec fn load_order_file_names(c: Seq<u8>) -> Option<Seq<Seq<char>>> {
    if all_valid_utf8(text_lines(c)) {
        Some(plugin_lines(decoded_utf8_lines(text_lines(c))))
    } else if all_decode_1252(text_lines(c)) {
        Some(plugin_lines(decoded_1252_lines(text_lines(c))))
    } else {
        None
    }
}

/// The names that an active plugins file lists, read as Windows-1252.
pub open spec fn active_file_names(c: Seq<u8>) -> Option<Seq<Seq<char>>> {
    if all_decode_1252(text_lines(c)) {
        Some(plugin_lines(decoded_1252_lines(text_lines(c))))
    } else {
        None
    }
}

pub open spec fn tuple_names(v: Seq<(String, bool)>) -> Seq<Seq<char>> {
    v.map_values(|t: (String, bool)| t.0@)
}

/// The names of a load order file, UTF-8 preferred.
pub fn read_load_order_names(content: &[u8]) -> (r: Result<Vec<String>, Error>)
    ensures
        r is Ok <==> load_order_file_names(content@) is Some,
        r matches Ok(v) ==> Some(string_views(v@)) == load_order_file_names(content@),
        r matches Err(e) ==> e is DecodeError,
{
    match read_utf8_plugin_names(Some(content)) {
        Ok(v) => Ok(v),
        Err(_) => read_plugin_names(Some(content)),
    }
}

/// The line of a load order file as an inactive entry.
pub fn load_order_line_mapper(line: &str) -> (r: Option<(String, bool)>)
    ensures
        r is Some <==> crate::codec::is_plugin_line(line@),
        r matches Some(t) ==> t.0@ == line@ && !t.1,
{
    match plugin_line_mapper(line) {
        Some(s) => Some((s, false)),
        None => None,
    }
}

/// The line of an active plugins file as an active entry.
pub fn active_plugin_line_mapper(line: &str) -> (r: Option<(String, bool)>)
    ensures
        r is Some <==> crate::codec::is_plugin_line(line@),
        r matches Some(t) ==> t.0@ == line@ && t.1,
{
    match plugin_line_mapper(line) {
        Some(s) => Some((s, true)),
        None => None,
    }
}

/// The entries on the given lines of a load order file (inactive) or of an
/// active plugins file (active).
fn entries_of_lines(lines: &Vec<String>, active: bool) -> (r: Vec<(String, bool)>)
    ensures
        tuple_names(r@) == plugin_lines(string_views(lines@)),
        forall|i: int| 0 <= i < r@.len() ==> (#[trigger] r@[i]).1 == active,
{
    let ghost ls = string_views(lines@);
    let mut out: Vec<(String, bool)> = Vec::new();
    let mut i: usize = 0;
    while i < lines.len()
        invariant
            ls == string_views(lines@),
            i <= lines@.len(),
            tuple_names(out@) == plugin_lines(ls.take(i as int)),
            forall|q: int| 0 <= q < out@.len() ==> (#[trigger] out@[q]).1 == active,
        decreases lines@.len() - i,
    {
        assert(ls.take(i + 1).drop_last() =~= ls.take(i as int));
        assert(ls.take(i + 1).last() == lines@[i as int]@);
        let entry = if active {
            active_plugin_line_mapper(lines[i].as_str())
        } else {
            load_order_line_mapper(lines[i].as_str())
        };
        match entry {
            Some(t) => {
                let ghost old_out = out@;
                out.push(t);
                assert(tuple_names(out@) =~= tuple_names(old_out).push(lines@[i as int]@));
            },
            None => {},
        }
        i = i + 1;
    }
    assert(ls.take(i as int) =~= ls);
    out
}

/// Two names denote the same plugin.
pub fn plugin_names_match(name1: &str, name2: &str) -> (r: bool)
    ensures
        r == crate::identity::names_match(name1@, name2@),
{
    crate::identity::plugin_names_match(name1, name2)
}

/// The UTF-8 bytes of lines, each ended by `\n`.
pub open spec fn utf8_lines(names: Seq<Seq<char>>) -> Seq<u8>
    decreases names.len(),
{
    if names.len() == 0 {
        seq![]
    } else {
        utf8_lines(names.drop_last()) + vstd::utf8::encode_utf8(names.last()) + seq![10u8]
    }
}

/// The strictly Windows-1252 encoded lines, each ended by `\n`; `None` where
/// one cannot be encoded.
pub open spec fn strict_lines(names: Seq<Seq<char>>) -> Option<Seq<u8>>
    decreases names.len(),
{
    if names.len() == 0 {
        Some(seq![])
    } else {
        match (strict_lines(names.drop_last()), strict_encoding(names.last())) {
            (Some(a), Some(b)) => Some(a + b + seq![10u8]),
            _ => None,
        }
    }
}

pub open spec fn plugin_names_of(ps: Seq<Plugin>) -> Seq<Seq<char>> {
    ps.map_values(|p: Plugin| p.name@)
}

/// The names of the active plugins, in load order.
pub open spec fn active_names_of(ps: Seq<Plugin>) -> Seq<Seq<char>>
    decreases ps.len(),
{
    if ps.len() == 0 {
        seq![]
    } else if ps.last().active {
        active_names_of(ps.drop_last()).push(ps.last().name@)
    } else {
        active_names_of(ps.drop_last())
    }
}

/// How the two files of a textfile load order relate.
pub enum SelfConsistency {
    ConsistentNoLoadOrderFile,
    ConsistentOnlyLoadOrderFile,
    ConsistentWithNames(Vec<String>),
    Inconsistent,
}

/// The names of `lo` that `ap` also lists, in the order of `lo`.
pub open spec fn names_in(lo: Seq<Seq<char>>, ap: Seq<Seq<char>>) -> Seq<Seq<char>>
    decreases lo.len(),
{
    if lo.len() == 0 {
        seq![]
    } else if exists|j: int| 0 <= j < ap.len() && crate::identity::names_match(ap[j], lo.last()) {
        names_in(lo.drop_last(), ap).push(lo.last())
    } else {
        names_in(lo.drop_last(), ap)
    }
}

/// The active plugins file agrees with the load order file: the names of the
/// latter that the former lists are, one for one and in order, the names of
/// the former.
pub open spec fn files_agree(lo: Seq<Seq<char>>, ap: Seq<Seq<char>>) -> bool {
    names_in(lo, ap).len() == ap.len() && forall|i: int|
        0 <= i < names_in(lo, ap).len() && i < ap.len() ==> crate::identity::names_match(
            #[trigger] names_in(lo, ap)[i],
            ap[i],
        )
}

/// Whether one of `names` denotes the same plugin as `name`.
fn any_matches(names: &Vec<String>, name: &String) -> (r: bool)
    ensures
        r == exists|j: int|
            0 <= j < names@.len() && crate::identity::names_match((#[trigger] names@[j])@, name@),
{
    let mut j: usize = 0;
    while j < names.len()
        invariant
            j <= names@.len(),
            forall|q: int|
                0 <= q < j ==> !crate::identity::names_match((#[trigger] names@[q])@, name@),
        decreases names@.len() - j,
    {
        if crate::identity::plugin_names_match(names[j].as_str(), name.as_str()) {
            return true;
        }
        j = j + 1;
    }
    false
}

/// Compares the two files of a textfile load order.
pub fn check_self_consistency(load_order_file: Option<&[u8]>, active_plugins_file: Option<&[u8]>) -> (r:
    Result<SelfConsistency, Error>)
    ensures
        load_order_file is None ==> (r matches Ok(c) && c is ConsistentNoLoadOrderFile),
        load_order_file is Some && active_plugins_file is None ==> (r matches Ok(c)
            && c is ConsistentOnlyLoadOrderFile),
        match (load_order_file, active_plugins_file) {
            (Some(lo), Some(ap)) => match (load_order_file_names(lo@), active_file_names(ap@)) {
                (Some(l), Some(a)) => if files_agree(l, a) {
                    r matches Ok(SelfConsistency::ConsistentWithNames(v)) && string_views(v@) == l
                } else {
                    r matches Ok(c) && c is Inconsistent
                },
                _ => r matches Err(e) && e is DecodeError,
            },
            _ => true,
        },
{
    match load_order_file {
        None => Ok(SelfConsistency::ConsistentNoLoadOrderFile),
        Some(lo) => match active_plugins_file {
            None => Ok(SelfConsistency::ConsistentOnlyLoadOrderFile),
            Some(ap) => {
                let load_order_plugin_names = match read_load_order_names(lo) {
                    Ok(v) => v,
                    Err(e) => {
                        return Err(e);
                    },
                };
                let active_plugin_names = match read_plugin_names(Some(ap)) {
                    Ok(v) => v,
                    Err(e) => {
                        assert(active_file_names(ap@) is None);
                        return Err(e);
                    },
                };
                let ghost l = string_views(load_order_plugin_names@);
                let ghost a = string_views(active_plugin_names@);
                let mut filtered: Vec<String> = Vec::new();
                let mut i: usize = 0;
                while i < load_order_plugin_names.len()
                    invariant
                        i <= load_order_plugin_names@.len(),
                        load_order_file == Some(lo),
                        active_plugins_file == Some(ap),
                        load_order_file_names(lo@) == Some(l),
                        active_file_names(ap@) == Some(a),
                        l == string_views(load_order_plugin_names@),
                        a == string_views(active_plugin_names@),
                        string_views(filtered@) == names_in(l.take(i as int), a),
                    decreases load_order_plugin_names@.len() - i,
                {
                    assert(l.take(i + 1).drop_last() =~= l.take(i as int));
                    assert(l.take(i + 1).last() == load_order_plugin_names@[i as int]@);
                    let found = any_matches(&active_plugin_names, &load_order_plugin_names[i]);
                    proof {
                        if found {
                            let j = choose|j: int|
                                0 <= j < active_plugin_names@.len()
                                    && crate::identity::names_match(
                                    (#[trigger] active_plugin_names@[j])@,
                                    load_order_plugin_names@[i as int]@,
                                );
                            assert(a[j] == active_plugin_names@[j]@);
                        } else {
                            assert forall|j: int| 0 <= j < a.len() implies !crate::identity::names_match(
                                a[j],
                                l.take(i + 1).last(),
                            ) by {
                                assert(a[j] == active_plugin_names@[j]@);
                            }
                        }
                    }
                    if found {
                        let ghost old_f = filtered@;
                        filtered.push(load_order_plugin_names[i].clone());
                        assert(string_views(filtered@) =~= string_views(old_f).push(
                            load_order_plugin_names@[i as int]@,
                        ));
                    }
                    i = i + 1;
                }
                assert(l.take(i as int) =~= l);
                let mut k: usize = 0;
                while k < filtered.len() && k < active_plugin_names.len()
                    invariant
                        k <= filtered@.len(),
                        load_order_file == Some(lo),
                        active_plugins_file == Some(ap),
                        load_order_file_names(lo@) == Some(l),
                        active_file_names(ap@) == Some(a),
                        l == string_views(load_order_plugin_names@),
                        string_views(filtered@) == names_in(l, a),
                        a == string_views(active_plugin_names@),
                        forall|q: int|
                            0 <= q < k && q < a.len() ==> crate::identity::names_match(
                                #[trigger] names_in(l, a)[q],
                                a[q],
                            ),
                    decreases filtered@.len() - k,
                {
                    if !crate::identity::plugin_names_match(
                        filtered[k].as_str(),
                        active_plugin_names[k].as_str(),
                    ) {
                        assert(names_in(l, a)[k as int] == filtered@[k as int]@);
                        return Ok(SelfConsistency::Inconsistent);
                    }
                    assert(names_in(l, a)[k as int] == filtered@[k as int]@);
                    k = k + 1;
                }
                assert(names_in(l, a).len() == filtered@.len());
                assert(a.len() == active_plugin_names@.len());
                if filtered.len() != active_plugin_names.len() {
                    return Ok(SelfConsistency::Inconsistent);
                }
                assert(files_agree(l, a));
                Ok(SelfConsistency::ConsistentWithNames(load_order_plugin_names))
            },
        },
    }
}

/// A load order whose state lives in `loadorder.txt` and `plugins.txt`.
#[derive(Clone, Debug)]
pub struct TextfileBasedLoadOrder {
    pub load_order: MutableLoadOrder,
}

impl TextfileBasedLoadOrder {
    /// A well-formed load order of a game that pins its master file first.
    pub open spec fn wf(self) -> bool {
        self.load_order.wf() && self.load_order.pins_game_master()
    }

    pub open spec fn plugins_view(self) -> Seq<Plugin> {
        self.load_order.plugins@
    }

    pub fn new(game_settings: GameSettings) -> (r: TextfileBasedLoadOrder)
        requires
            crate::game_settings::method_of(game_settings.id) != crate::enums::LoadOrderMethod::Timestamp,
        ensures
            r.wf(),
            r.load_order.game_settings == game_settings,
            r.plugins_view().len() == 0,
    {
        TextfileBasedLoadOrder { load_order: MutableLoadOrder::new(game_settings) }
    }

    pub fn game_settings(&self) -> (r: &GameSettings)
        ensures
            *r == self.load_order.game_settings,
    {
        &self.load_order.game_settings
    }

    pub fn plugins(&self) -> (r: &Vec<Plugin>)
        ensures
            r@ == self.plugins_view(),
    {
        &self.load_order.plugins
    }

    /// The names of the plugins, in load order.
    pub fn plugin_names(&self) -> (r: Vec<String>)
        ensures
            string_views(r@) == plugin_names_of(self.plugins_view()),
    {
        let ps = &self.load_order.plugins;
        let mut out: Vec<String> = Vec::new();
        let mut i: usize = 0;
        while i < ps.len()
            invariant
                i <= ps@.len(),
                string_views(out@) =~= plugin_names_of(ps@).take(i as int),
            decreases ps@.len() - i,
        {
            let ghost old_out = out@;
            out.push(ps[i].name.clone());
            assert(string_views(out@) =~= string_views(old_out).push(ps@[i as int].name@));
            assert(string_views(out@) =~= plugin_names_of(ps@).take(i + 1));
            i = i + 1;
        }
        assert(plugin_names_of(ps@).take(i as int) =~= plugin_names_of(ps@));
        out
    }

    /// The names of the active plugins, in load order.
    pub fn active_plugin_names(&self) -> (r: Vec<String>)
        ensures
            string_views(r@) == active_names_of(self.plugins_view()),
    {
        let ps = &self.load_order.plugins;
        let mut out: Vec<String> = Vec::new();
        let mut i: usize = 0;
        while i < ps.len()
            invariant
                i <= ps@.len(),
                string_views(out@) == active_names_of(ps@.take(i as int)),
            decreases ps@.len() - i,
        {
            assert(ps@.take(i + 1).drop_last() =~= ps@.take(i as int));
            if ps[i].active {
                let ghost old_out = out@;
                out.push(ps[i].name.clone());
                assert(string_views(out@) =~= string_views(old_out).push(ps@[i as int].name@));
            }
            i = i + 1;
        }
        assert(ps@.take(i as int) =~= ps@);
        out
    }

    pub fn index_of(&self, name: &str) -> (r: Option<usize>)
        requires
            self.wf(),
        ensures
            key_position_ok(self.plugins_view(), plugin_key(name@), r),
    {
        self.load_order.index_of(name)
    }

    /// Whether the named plugin is in the load order and active.
    pub fn is_active(&self, name: &str) -> (r: bool)
        requires
            self.wf(),
        ensures
            r == is_active_key(self.plugins_view(), plugin_key(name@)),
    {
        match self.load_order.index_of(name) {
            Some(i) => {
                let a = self.load_order.plugins[i].active;
                proof {
                    if !a {
                        assert forall|j: int|
                            0 <= j < self.plugins_view().len() && (#[trigger] self.plugins_view()[j]).key@
                                == plugin_key(name@) implies !self.plugins_view()[j].active by {
                            if j != i {
                                assert(self.plugins_view()[j].key@ != self.plugins_view()[i as int].key@);
                            }
                        }
                    }
                }
                a
            },
            None => false,
        }
    }

    pub fn insert_position(&self, plugin: &Plugin) -> (r: Option<usize>)
        requires
            plugin.wf(),
        ensures
            self.load_order.insert_position_ok(*plugin, r),
    {
        self.load_order.insert_position(plugin)
    }

    /// Reloads the load order from the contents of `loadorder.txt` and
    /// `plugins.txt` and the parsed installed plugin files, given in the order
    /// of the directory scan. The load order file decides the order where it
    /// exists, else the active plugins file does; installed plugins that
    /// neither lists follow. Non-masters that masters need are hoisted, and
    /// the game's implicitly active plugins are activated.
    pub fn load(
        &mut self,
        load_order_file: Option<&[u8]>,
        active_plugins_file: Option<&[u8]>,
        installed: &[PluginMetadata],
    ) -> (r: Result<(), Error>)
        requires
            old(self).wf(),
        ensures
            final(self).wf(),
            final(self).load_order.game_settings == old(self).load_order.game_settings,
            r is Err ==> final(self).load_order.same_state(old(self).load_order),
            r is Ok <==> match (load_order_file, active_plugins_file) {
                (Some(lo), Some(ap)) => load_order_file_names(lo@) is Some && active_file_names(
                    ap@,
                ) is Some,
                (Some(lo), None) => load_order_file_names(lo@) is Some,
                (None, Some(ap)) => active_file_names(ap@) is Some,
                (None, None) => true,
            },
            r matches Err(e) ==> e is DecodeError,
            r is Ok ==> forall|k: Seq<char>|
                has_key(final(self).plugins_view(), k) <==> is_installed(installed@, k),
            r is Ok ==> forall|k: Seq<char>|
                old(self).load_order.implicitly_active_key(k) && is_installed(installed@, k)
                    ==> is_active_key(final(self).plugins_view(), k),
            r is Ok && old(self).load_order.pins_game_master() && installed_plain_master(
                installed@,
                old(self).load_order.game_master_key(),
            ) && is_installed(installed@, old(self).load_order.game_master_key())
                ==> final(self).plugins_view()[0].key@ == old(self).load_order.game_master_key(),
            r is Ok && (forall|j: int|
                0 <= j < installed@.len() ==> is_plugin_filename(
                    (#[trigger] installed@[j]).filename@,
                    old(self).load_order.game_settings.id,
                )) ==> forall|i: int, j: int|
                0 <= i < j < final(self).plugins_view().len() ==> !names_match(
                    (#[trigger] final(self).plugins_view()[i]).name@,
                    (#[trigger] final(self).plugins_view()[j]).name@,
                ),
    {
        let tuples = match load_order_file {
            Some(lo) => self.read_from_load_order_file(Some(lo)),
            None => self.read_from_active_plugins_file(active_plugins_file),
        };
        let tuples = match tuples {
            Ok(t) => t,
            Err(e) => {
                return Err(e);
            },
        };
        let active_names: Option<Vec<String>> = match load_order_file {
            Some(_) => match read_plugin_names(active_plugins_file) {
                Ok(names) => Some(names),
                Err(e) => {
                    return Err(e);
                },
            },
            None => None,
        };
        let mut filenames: Vec<String> = Vec::new();
        let mut i: usize = 0;
        while i < installed.len()
            invariant
                i <= installed@.len(),
                filenames@.len() == i,
                forall|q: int| 0 <= q < i ==> #[trigger] filenames@[q] == installed@[q].filename,
            decreases installed@.len() - i,
        {
            filenames.push(installed[i].filename.clone());
            i = i + 1;
        }
        proof {
            assert forall|k: Seq<char>| is_installed(installed@, k) implies exists|j: int|
                0 <= j < filenames@.len() && plugin_key((#[trigger] filenames@[j])@) == k by {
                let j = choose|j: int|
                    0 <= j < installed@.len() && plugin_key((#[trigger] installed@[j]).filename@) == k;
                assert(filenames@[j] == installed@[j].filename);
            }
        }
        self.load_order.plugins = Vec::new();
        proof {
            if forall|j: int|
                0 <= j < installed@.len() ==> is_plugin_filename(
                    (#[trigger] installed@[j]).filename@,
                    self.load_order.game_settings.id,
                ) {
                assert forall|j: int| 0 <= j < installed@.len() implies !ends_with_ci(
                    trim_ghost((#[trigger] installed@[j]).filename@),
                    ghost_suffix(),
                ) by {
                    lemma_plugin_filename_trimmed(installed@[j].filename@, self.load_order.game_settings.id);
                }
            }
        }
        assert(!has_key(self.load_order.plugins@, self.load_order.game_master_key()));
        self.load_order.load_unique_plugins(tuples, filenames, installed);
        match active_names {
            Some(names) => {
                let ghost before = self.load_order.plugins@;
                self.load_order.load_active_plugins(&names);
                proof {
                    let after = self.load_order.plugins@;
                    if clean_names(before) {
                        lemma_flags_keep_clean(before, after);
                    }
                    assert forall|k: Seq<char>| has_key(after, k) implies has_key(before, k) by {
                        let a = choose|a: int| 0 <= a < after.len() && (#[trigger] after[a]).key@ == k;
                        assert(before[a].key@ == k);
                    }
                    assert forall|k: Seq<char>| has_key(before, k) implies has_key(after, k) by {
                        let a = choose|a: int| 0 <= a < before.len() && (#[trigger] before[a]).key@ == k;
                        assert(after[a].key@ == k);
                    }
                    let gm = self.load_order.game_master_key();
                    if first_where_present(before, gm) && plain_master_in(before, gm) {
                        lemma_flags_keep_master_first(before, after, gm);
                    }
                }
            },
            None => {},
        }
        let ghost unhoisted = self.load_order.plugins@;
        hoist_masters(&mut self.load_order.plugins);
        proof {
            if clean_names(unhoisted) {
                lemma_contained_keep_clean(unhoisted, self.load_order.plugins@);
            }
            let gm = self.load_order.game_master_key();
            if first_where_present(unhoisted, gm) && plain_master_in(unhoisted, gm) {
                if unhoisted.len() > 0 && has_key(unhoisted, gm) {
                    assert(unhoisted[0].master_keys@.len() == 0);
                }
                lemma_hoist_keeps_master_first(unhoisted, self.load_order.plugins@, gm);
            }
        }
        self.load_order.add_implicitly_active_plugins(installed);
        proof {
            if clean_names(self.load_order.plugins@) {
                lemma_clean_names_distinct(self.load_order.plugins@);
            }
        }
        Ok(())
    }

    /// The contents of `loadorder.txt`: every plugin name, in order, as UTF-8
    /// lines.
    pub fn save_load_order(&self) -> (r: Vec<u8>)
        ensures
            r@ == utf8_lines(plugin_names_of(self.plugins_view())),
    {
        let ps = &self.load_order.plugins;
        let mut out: Vec<u8> = Vec::new();
        let mut i: usize = 0;
        while i < ps.len()
            invariant
                i <= ps@.len(),
                out@ == utf8_lines(plugin_names_of(ps@).take(i as int)),
            decreases ps@.len() - i,
        {
            let bytes = ps[i].name.as_str().as_bytes();
            let ghost before = out@;
            let mut j: usize = 0;
            while j < bytes.len()
                invariant
                    j <= bytes@.len(),
                    out@ == before + bytes@.take(j as int),
                decreases bytes@.len() - j,
            {
                out.push(bytes[j]);
                assert(out@ =~= before + bytes@.take(j + 1));
                j = j + 1;
            }
            out.push(10u8);
            proof {
                let names = plugin_names_of(ps@).take(i + 1);
                assert(names.drop_last() =~= plugin_names_of(ps@).take(i as int));
                assert(names.last() == ps@[i as int].name@);
                assert(bytes@.take(j as int) =~= bytes@);
                assert(out@ =~= utf8_lines(names.drop_last()) + vstd::utf8::encode_utf8(names.last())
                    + seq![10u8]);
            }
            i = i + 1;
        }
        assert(plugin_names_of(ps@).take(i as int) =~= plugin_names_of(ps@));
        out
    }

    /// The contents of `plugins.txt`: the active plugin names, in order, as
    /// strictly Windows-1252 encoded lines.
    pub fn save_active_plugins(&self) -> (r: Result<Vec<u8>, Error>)
        ensures
            match r {
                Ok(b) => strict_lines(active_names_of(self.plugins_view())) == Some(b@),
                Err(e) => strict_lines(active_names_of(self.plugins_view())) is None
                    && (e matches Error::EncodeError(m) && m@ == "unrepresentable character"@),
            },
    {
        active_plugins_file_bytes(&self.load_order.plugins)
    }

    /// The contents of both files, `loadorder.txt` first. Nothing is returned
    /// unless both could be produced.
    pub fn save(&self) -> (r: Result<(Vec<u8>, Vec<u8>), Error>)
        ensures
            match r {
                Ok((lo, ap)) => lo@ == utf8_lines(plugin_names_of(self.plugins_view()))
                    && strict_lines(active_names_of(self.plugins_view())) == Some(ap@),
                Err(e) => strict_lines(active_names_of(self.plugins_view())) is None
                    && (e matches Error::EncodeError(m) && m@ == "unrepresentable character"@),
            },
    {
        let active = match self.save_active_plugins() {
            Ok(b) => b,
            Err(e) => {
                return Err(e);
            },
        };
        let all = self.save_load_order();
        Ok((all, active))
    }

    /// Replaces the whole load order; the game's master file must come first.
    pub fn set_load_order(&mut self, plugin_names: &[&str], installed: &[PluginMetadata]) -> (r:
        Result<(), Error>)
        requires
            old(self).wf(),
        ensures
            final(self).wf(),
            final(self).load_order.game_settings == old(self).load_order.game_settings,
            r is Err ==> final(self).load_order.same_state(old(self).load_order),
            plugin_names@.len() == 0 || !old(self).load_order.is_game_master(
                plugin_key(plugin_names@[0]@),
            ) ==> (r matches Err(e) && e is GameMasterMustLoadFirst),
            plugin_names@.len() > 0 && old(self).load_order.is_game_master(
                plugin_key(plugin_names@[0]@),
            ) && !names_unique(plugin_names@) ==> (r matches Err(e) && e is DuplicatePlugin),
            r is Ok ==> {
                &&& valid_load_order(final(self).plugins_view())
                &&& final(self).plugins_view().len() == plugin_names@.len()
                &&& old(self).load_order.is_game_master(final(self).plugins_view()[0].key@)
                &&& forall|i: int|
                    0 <= i < plugin_names@.len() ==> (#[trigger] final(self).plugins_view()[i]).key@
                        == plugin_key(plugin_names@[i]@)
            },
            plugin_names@.len() > 0 && old(self).load_order.is_game_master(
                plugin_key(plugin_names@[0]@),
            ) && names_unique(plugin_names@) && (forall|i: int|
                0 <= i < plugin_names@.len() ==> has_key(
                    old(self).plugins_view(),
                    plugin_key((#[trigger] plugin_names@[i])@),
                ) || is_installed(installed@, plugin_key(plugin_names@[i]@))) && (forall|
                v: Seq<Plugin>,
            |
                #[trigger] old(self).load_order.records_for(plugin_names@, installed@, v)
                    ==> valid_load_order(v)) ==> r is Ok,
            r is Ok ==> old(self).load_order.records_for(
                plugin_names@,
                installed@,
                final(self).plugins_view(),
            ),
    {
        if plugin_names.len() == 0 || !self.load_order.is_game_master_name(plugin_names[0]) {
            return Err(
                Error::GameMasterMustLoadFirst(self.load_order.game_settings.master_file.clone()),
            );
        }
        self.load_order.replace_plugins(plugin_names, installed)
    }

    /// Whether the two files agree; an absent file never disagrees.
    pub fn is_self_consistent(
        &self,
        load_order_file: Option<&[u8]>,
        active_plugins_file: Option<&[u8]>,
    ) -> (r: Result<bool, Error>)
        ensures
            match (load_order_file, active_plugins_file) {
                (Some(lo), Some(ap)) => match (load_order_file_names(lo@), active_file_names(ap@)) {
                    (Some(l), Some(a)) => r == Ok::<bool, Error>(files_agree(l, a)),
                    _ => r matches Err(e) && e is DecodeError,
                },
                _ => r == Ok::<bool, Error>(true),
            },
    {
        match check_self_consistency(load_order_file, active_plugins_file) {
            Ok(SelfConsistency::Inconsistent) => Ok(false),
            Ok(_) => Ok(true),
            Err(e) => Err(e),
        }
    }

    /// Whether the files leave the load order open: they disagree, or the
    /// list that decides the order misses a plugin of the load order.
    pub fn is_ambiguous(&self, load_order_file: Option<&[u8]>, active_plugins_file: Option<&[u8]>) -> (r:
        Result<bool, Error>)
        ensures
            match (load_order_file, active_plugins_file) {
                (Some(lo), Some(ap)) => match (load_order_file_names(lo@), active_file_names(ap@)) {
                    (Some(l), Some(a)) => r == Ok::<bool, Error>(!files_agree(l, a) || !all_listed(
                        self.plugins_view(),
                        l,
                    )),
                    _ => r matches Err(e) && e is DecodeError,
                },
                (Some(lo), None) => match load_order_file_names(lo@) {
                    Some(l) => r == Ok::<bool, Error>(!all_listed(self.plugins_view(), l)),
                    None => r matches Err(e) && e is DecodeError,
                },
                (None, Some(ap)) => match active_file_names(ap@) {
                    Some(a) => r == Ok::<bool, Error>(!all_listed(self.plugins_view(), a)),
                    None => r matches Err(e) && e is DecodeError,
                },
                (None, None) => r == Ok::<bool, Error>(!all_listed(self.plugins_view(), seq![])),
            },
    {
        let plugin_names = match check_self_consistency(load_order_file, active_plugins_file) {
            Err(e) => {
                return Err(e);
            },
            Ok(SelfConsistency::Inconsistent) => {
                return Ok(true);
            },
            Ok(SelfConsistency::ConsistentWithNames(names)) => names,
            Ok(SelfConsistency::ConsistentNoLoadOrderFile) => match read_plugin_names(
                active_plugins_file,
            ) {
                Ok(names) => names,
                Err(e) => {
                    return Err(e);
                },
            },
            Ok(SelfConsistency::ConsistentOnlyLoadOrderFile) => match load_order_file {
                Some(lo) => match read_load_order_names(lo) {
                    Ok(names) => names,
                    Err(e) => {
                        return Err(e);
                    },
                },
                None => Vec::new(),
            },
        };
        Ok(any_unlisted(&self.load_order.plugins, &plugin_names))
    }

    /// Moves or inserts the named plugin at `position`; position 0 belongs to
    /// the game's master file and to no other plugin.
    pub fn set_plugin_index(
        &mut self,
        plugin_name: &str,
        position: usize,
        metadata: Option<&PluginMetadata>,
    ) -> (r: Result<usize, Error>)
        requires
            old(self).wf(),
        ensures
            final(self).wf(),
            final(self).load_order.game_settings == old(self).load_order.game_settings,
            r is Err ==> final(self).load_order.same_state(old(self).load_order),
            old(self).load_order.is_game_master(plugin_key(plugin_name@)) && position != 0
                && old(self).plugins_view().len() != 0 ==> (r matches Err(e)
                && e is GameMasterMustLoadFirst),
            !old(self).load_order.is_game_master(plugin_key(plugin_name@)) && position == 0 ==> (r matches Err(
                e,
            ) && e is GameMasterMustLoadFirst),
            old(self).load_order.master_position_allowed(plugin_key(plugin_name@), position)
                ==> move_or_insert_post(
                old(self).load_order,
                final(self).load_order,
                plugin_name@,
                position,
                match metadata {
                    Some(m) => Some(*m),
                    None => None,
                },
                r,
            ),
    {
        self.load_order.set_plugin_index(plugin_name, position, metadata)
    }

    /// Adds the named plugin, parsed as `metadata`, at its insert position.
    pub fn add(&mut self, plugin_name: &str, metadata: Option<&PluginMetadata>) -> (r: Result<
        usize,
        Error,
    >)
        requires
            old(self).wf(),
        ensures
            final(self).wf(),
            final(self).load_order.game_settings == old(self).load_order.game_settings,
            r is Err ==> final(self).load_order.same_state(old(self).load_order),
            has_key(old(self).plugins_view(), plugin_key(plugin_name@)) ==> (r matches Err(
                Error::InstalledPlugin(n),
            ) && n@ == plugin_name@),
            !has_key(old(self).plugins_view(), plugin_key(plugin_name@)) ==> match metadata {
                None => (r matches Err(e) && e is InvalidPlugin),
                Some(m) => plugin_key(m.filename@) == plugin_key(plugin_name@)
                    && old(self).load_order.metadata_insert_valid(*m) ==> r is Ok,
            },
            r matches Ok(i) ==> {
                let p = final(self).plugins_view()[i as int];
                &&& i <= old(self).plugins_view().len()
                &&& final(self).plugins_view() == old(self).plugins_view().insert(i as int, p)
                &&& p.key@ == plugin_key(plugin_name@)
                &&& index_valid(old(self).plugins_view(), p, i as int)
                &&& old(self).load_order.insert_position_ok(
                    p,
                    if i < old(self).plugins_view().len() {
                        Some(i)
                    } else {
                        None
                    },
                )
                &&& match metadata {
                    Some(m) => from_metadata(p, *m),
                    None => false,
                }
            },
    {
        self.load_order.add(plugin_name, metadata)
    }

    /// Removes a plugin that is no longer installed.
    pub fn remove(&mut self, plugin_name: &str, is_installed: bool) -> (r: Result<(), Error>)
        requires
            old(self).wf(),
        ensures
            final(self).wf(),
            final(self).load_order.game_settings == old(self).load_order.game_settings,
            r is Err ==> final(self).load_order.same_state(old(self).load_order),
            !has_key(old(self).plugins_view(), plugin_key(plugin_name@)) ==> (r matches Err(
                Error::PluginNotFound(n),
            ) && n@ == plugin_name@),
            has_key(old(self).plugins_view(), plugin_key(plugin_name@)) && is_installed ==> (r matches Err(
                Error::InstalledPlugin(n),
            ) && n@ == plugin_name@),
            has_key(old(self).plugins_view(), plugin_key(plugin_name@)) && !is_installed
                && old(self).load_order.implicitly_active_key(plugin_key(plugin_name@)) ==> (r matches Err(
                Error::ImplicitlyActivePlugin(n),
            ) && n@ == plugin_name@),
            has_key(old(self).plugins_view(), plugin_key(plugin_name@)) && !is_installed
                && !old(self).load_order.implicitly_active_key(plugin_key(plugin_name@)) ==> {
                let i = index_of_key_spec(old(self).plugins_view(), plugin_key(plugin_name@));
                r is Ok <==> (!old(self).plugins_view()[i].is_master() || valid_load_order(
                    old(self).plugins_view().remove(i),
                ))
            },
            r is Ok ==> final(self).plugins_view() == old(self).plugins_view().remove(
                index_of_key_spec(old(self).plugins_view(), plugin_key(plugin_name@)),
            ),
    {
        self.load_order.remove(plugin_name, is_installed)
    }

    /// Activates the named plugin, adding it from `metadata` if needed.
    pub fn activate(&mut self, plugin_name: &str, metadata: Option<&PluginMetadata>) -> (r: Result<
        (),
        Error,
    >)
        requires
            old(self).wf(),
        ensures
            final(self).wf(),
            final(self).load_order.game_settings == old(self).load_order.game_settings,
            r is Err ==> final(self).load_order.same_state(old(self).load_order),
            old(self).load_order.within_caps() && r is Ok ==> final(self).load_order.within_caps(),
            r is Ok ==> is_active_key(final(self).plugins_view(), plugin_key(plugin_name@)),
            has_key(old(self).plugins_view(), plugin_key(plugin_name@)) ==> {
                let i = index_of_key_spec(old(self).plugins_view(), plugin_key(plugin_name@));
                &&& r is Ok <==> old(self).load_order.can_activate(old(self).plugins_view()[i])
                &&& r is Ok ==> final(self).plugins_view() == old(self).plugins_view().update(
                    i,
                    Plugin { active: true, ..old(self).plugins_view()[i] },
                )
                &&& r is Err ==> (r matches Err(
                    Error::TooManyActivePlugins { light_count, normal_count },
                ) && light_count == old(self).load_order.active_light_count() as usize
                    && normal_count == old(self).load_order.active_normal_count() as usize)
            },
    {
        self.load_order.activate(plugin_name, metadata)
    }

    /// Deactivates the named plugin, unless the game loads it implicitly.
    pub fn deactivate(&mut self, plugin_name: &str) -> (r: Result<(), Error>)
        requires
            old(self).wf(),
        ensures
            final(self).wf(),
            final(self).load_order.game_settings == old(self).load_order.game_settings,
            r is Err ==> final(self).load_order.same_state(old(self).load_order),
            old(self).load_order.implicitly_active_key(plugin_key(plugin_name@)) ==> (r matches Err(
                Error::ImplicitlyActivePlugin(n),
            ) && n@ == plugin_name@),
            !old(self).load_order.implicitly_active_key(plugin_key(plugin_name@)) && !has_key(
                old(self).plugins_view(),
                plugin_key(plugin_name@),
            ) ==> (r matches Err(Error::PluginNotFound(n)) && n@ == plugin_name@),
            !old(self).load_order.implicitly_active_key(plugin_key(plugin_name@)) && has_key(
                old(self).plugins_view(),
                plugin_key(plugin_name@),
            ) ==> {
                let i = index_of_key_spec(old(self).plugins_view(), plugin_key(plugin_name@));
                &&& r is Ok
                &&& final(self).plugins_view() == old(self).plugins_view().update(
                    i,
                    Plugin { active: false, ..old(self).plugins_view()[i] },
                )
            },
            r is Ok ==> !is_active_key(final(self).plugins_view(), plugin_key(plugin_name@)),
    {
        let r = self.load_order.deactivate(plugin_name);
        proof {
            if r is Ok {
                let ps = old(self).plugins_view();
                let i = index_of_key_spec(ps, plugin_key(plugin_name@));
                let qs = self.plugins_view();
                assert forall|j: int|
                    0 <= j < qs.len() && (#[trigger] qs[j]).key@ == plugin_key(plugin_name@)
                        implies !qs[j].active by {
                    if j != i {
                        assert(ps[j].key@ != ps[i].key@);
                    }
                }
            }
        }
        r
    }

    /// Makes exactly the named plugins and the implicitly active ones active.
    pub fn set_active_plugins(&mut self, active_plugin_names: &[&str]) -> (r: Result<(), Error>)
        requires
            old(self).wf(),
        ensures
            final(self).wf(),
            final(self).load_order.game_settings == old(self).load_order.game_settings,
            r is Err ==> final(self).load_order.same_state(old(self).load_order),
            !(forall|j: int|
                0 <= j < active_plugin_names@.len() ==> has_key(
                    old(self).plugins_view(),
                    plugin_key((#[trigger] active_plugin_names@[j])@),
                )) ==> (r matches Err(Error::PluginNotFound(n)) && exists|j: int|
                0 <= j < active_plugin_names@.len() && n@ == (#[trigger] active_plugin_names@[j])@
                    && !has_key(old(self).plugins_view(), plugin_key(active_plugin_names@[j]@))),
            (forall|j: int|
                0 <= j < active_plugin_names@.len() ==> has_key(
                    old(self).plugins_view(),
                    plugin_key((#[trigger] active_plugin_names@[j])@),
                )) ==> {
                let new_ps = old(self).load_order.with_requested(active_plugin_names@);
                let light = active_count(new_ps, old(self).load_order.light_games(), true);
                let normal = active_count(new_ps, old(self).load_order.light_games(), false);
                &&& r is Ok <==> (light <= MAX_ACTIVE_LIGHT_PLUGINS && normal
                    <= MAX_ACTIVE_NORMAL_PLUGINS)
                &&& r is Ok ==> final(self).plugins_view() == new_ps
                &&& r is Err ==> (r matches Err(
                    Error::TooManyActivePlugins { light_count, normal_count },
                ) && light_count == light && normal_count == normal)
            },
            r is Ok ==> final(self).load_order.within_caps(),
    {
        let r = self.load_order.set_active_plugins(active_plugin_names);
        proof {
            if r is Ok {
                assert(self.plugins_view() =~= old(self).load_order.with_requested(
                    active_plugin_names@,
                ));
            }
        }
        r
    }

    /// The entries of the load order file, all inactive; an absent file has none.
    pub fn read_from_load_order_file(&self, content: Option<&[u8]>) -> (r: Result<
        Vec<(String, bool)>,
        Error,
    >)
        ensures
            match content {
                None => r matches Ok(v) && v@.len() == 0,
                Some(c) => {
                    &&& r is Ok <==> load_order_file_names(c@) is Some
                    &&& r matches Ok(v) ==> Some(tuple_names(v@)) == load_order_file_names(c@)
                        && forall|i: int| 0 <= i < v@.len() ==> !(#[trigger] v@[i]).1
                },
            },
            r matches Err(e) ==> e is DecodeError,
    {
        match content {
            None => Ok(Vec::new()),
            Some(c) => {
                let lines = match read_lines_utf8(c) {
                    Ok(l) => l,
                    Err(_) => read_lines_windows_1252(c)?,
                };
                Ok(entries_of_lines(&lines, false))
            },
        }
    }

    /// The entries of the active plugins file, all active; an absent file has none.
    pub fn read_from_active_plugins_file(&self, content: Option<&[u8]>) -> (r: Result<
        Vec<(String, bool)>,
        Error,
    >)
        ensures
            match content {
                None => r matches Ok(v) && v@.len() == 0,
                Some(c) => {
                    &&& r is Ok <==> active_file_names(c@) is Some
                    &&& r matches Ok(v) ==> Some(tuple_names(v@)) == active_file_names(c@)
                        && forall|i: int| 0 <= i < v@.len() ==> (#[trigger] v@[i]).1
                },
            },
            r matches Err(e) ==> e is DecodeError,
    {
        match content {
            None => Ok(Vec::new()),
            Some(c) => {
                let lines = read_lines_windows_1252(c)?;
                Ok(entries_of_lines(&lines, true))
            },
        }
    }
}

/// Every plugin of `ps` is one of `names`.
pub open spec fn all_listed(ps: Seq<Plugin>, names: Seq<Seq<char>>) -> bool {
    forall|i: int| 0 <= i < ps.len() ==> name_listed(names, (#[trigger] ps[i]).key@)
}

/// One of `names` denotes the plugin with identity `key`.
pub open spec fn name_listed(names: Seq<Seq<char>>, key: Seq<char>) -> bool {
    exists|j: int| 0 <= j < names.len() && plugin_key(#[trigger] names[j]) == key
}

/// Where an active plugin's name cannot be encoded, no prefix that holds it can be.
proof fn lemma_strict_lines_prefix(ps: Seq<Plugin>, i: int, n: int)
    requires
        0 <= i < n <= ps.len(),
        ps[i].active,
        strict_encoding(ps[i].name@) is None,
    ensures
        strict_lines(active_names_of(ps.take(n))) is None,
    decreases n,
{
    let pre = ps.take(n);
    assert(pre.drop_last() =~= ps.take(n - 1));
    assert(pre.last() == ps[n - 1]);
    if n - 1 > i {
        lemma_strict_lines_prefix(ps, i, n - 1);
    }
    if pre.last().active {
        let names = active_names_of(pre);
        assert(names.drop_last() =~= active_names_of(pre.drop_last()));
        assert(names.last() == ps[n - 1].name@);
    }
}

/// Whether some plugin of `ps` is not one of `plugin_names`.
fn any_unlisted(ps: &Vec<Plugin>, plugin_names: &Vec<String>) -> (r: bool)
    ensures
        r == !all_listed(ps@, string_views(plugin_names@)),
{
        let mut keys: Vec<String> = Vec::new();
        let mut j: usize = 0;
        while j < plugin_names.len()
            invariant
                j <= plugin_names@.len(),
                keys@.len() == j,
                forall|q: int|
                    0 <= q < j ==> (#[trigger] keys@[q])@ == plugin_key(plugin_names@[q]@),
            decreases plugin_names@.len() - j,
        {
            keys.push(plugin_name_key(plugin_names[j].as_str()));
            j = j + 1;
        }
        let ghost names = string_views(plugin_names@);
        let mut i: usize = 0;
        while i < ps.len()
            invariant
                i <= ps@.len(),
                names == string_views(plugin_names@),
                keys@.len() == plugin_names@.len(),
                forall|q: int|
                    0 <= q < keys@.len() ==> (#[trigger] keys@[q])@ == plugin_key(plugin_names@[q]@),
                forall|q: int| 0 <= q < i ==> name_listed(names, (#[trigger] ps@[q]).key@),
            decreases ps@.len() - i,
        {
            let mut found = false;
            let mut q: usize = 0;
            while q < keys.len() && !found
                invariant
                    q <= keys@.len(),
                    i < ps@.len(),
                    keys@.len() == plugin_names@.len(),
                    names == string_views(plugin_names@),
                    forall|t: int|
                        0 <= t < keys@.len() ==> (#[trigger] keys@[t])@ == plugin_key(
                            plugin_names@[t]@,
                        ),
                    found ==> name_listed(names, ps@[i as int].key@),
                    !found ==> forall|t: int|
                        0 <= t < q ==> plugin_key(#[trigger] names[t]) != ps@[i as int].key@,
                decreases keys@.len() - q, if found {
                    0int
                } else {
                    1int
                },
            {
                if keys[q] == ps[i].key {
                    found = true;
                    assert(plugin_key(names[q as int]) == ps@[i as int].key@);
                } else {
                    q = q + 1;
                }
            }
            if !found {
                assert(!name_listed(names, ps@[i as int].key@));
                return true;
            }
            i = i + 1;
        }
    false
}

/// The contents of an active plugins file: the active plugin names, in
/// order, as strictly Windows-1252 encoded lines.
pub fn active_plugins_file_bytes(ps: &Vec<Plugin>) -> (r: Result<Vec<u8>, Error>)
    ensures
        match r {
            Ok(b) => strict_lines(active_names_of(ps@)) == Some(b@),
            Err(e) => strict_lines(active_names_of(ps@)) is None && (e matches Error::EncodeError(m) && m@ == "unrepresentable character"@),
        },
{
    let mut out: Vec<u8> = Vec::new();
    let mut i: usize = 0;
    while i < ps.len()
        invariant
            i <= ps@.len(),
            strict_lines(active_names_of(ps@.take(i as int))) == Some(out@),
        decreases ps@.len() - i,
    {
        let ghost prefix = ps@.take(i + 1);
        assert(prefix.drop_last() =~= ps@.take(i as int));
        assert(prefix.last() == ps@[i as int]);
        if ps[i].active {
            let bytes = match strict_encode(ps[i].name.as_str()) {
                Ok(b) => b,
                Err(e) => {
                    proof {
                        lemma_strict_lines_prefix(ps@, i as int, ps@.len() as int);
                        assert(ps@.take(ps@.len() as int) =~= ps@);
                    }
                    return Err(e);
                },
            };
            let ghost before = out@;
            let mut j: usize = 0;
            while j < bytes.len()
                invariant
                    j <= bytes@.len(),
                    out@ == before + bytes@.take(j as int),
                decreases bytes@.len() - j,
            {
                out.push(bytes[j]);
                assert(out@ =~= before + bytes@.take(j + 1));
                j = j + 1;
            }
            out.push(10u8);
            assert(bytes@.take(j as int) =~= bytes@);
            assert(out@ =~= before + bytes@ + seq![10u8]);
            proof {
                let names = active_names_of(prefix);
                assert(names.drop_last() =~= active_names_of(ps@.take(i as int)));
                assert(names.last() == ps@[i as int].name@);
            }
        }
        i = i + 1;
    }
    assert(ps@.take(i as int) =~= ps@);
    Ok(out)
}


} // verus!
