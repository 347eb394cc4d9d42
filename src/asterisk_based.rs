//! The asterisk load-order method: one `plugins.txt` lists the plugins in
//! order, active ones marked by a leading `*`. The game's master file and its
//! other implicitly active plugins are never written; loading adds them.

use crate::codec::{
    all_decode_1252, decoded_1252_lines, plugin_lines, read_lines_windows_1252, strict_encode,
    strict_encoding, string_views, text_lines,
};
use crate::enums::Error;
use crate::game_settings::GameSettings;
use crate::identity::{plugin_key, plugin_name_key};
use crate::invariants::valid_load_order;
use crate::identity::{
    ends_with_ci, ghost_suffix, is_plugin_filename, lemma_plugin_filename_trimmed, names_match,
    trim_ghost,
};
use crate::mutable::{
    clean_names, lemma_clean_names_distinct, lemma_contained_keep_clean, lemma_flags_keep_clean,
    first_where_present, has_key, hoist_masters, installed_plain_master, is_active_key,
    is_installed, lemma_flags_keep_master_first, lemma_hoist_keeps_master_first, names_unique,
    plain_master_in, MutableLoadOrder,
};
use crate::plugin::{Plugin, PluginMetadata};
use crate::textfile_based::{name_listed, tuple_names};
use vstd::prelude::*;

verus! {

/// The entry a plugin line stands for: without its `*` and active, or as it
/// is and inactive.
pub open spec fn asterisk_entry(line: Seq<char>) -> (Seq<char>, bool) {
    if line[0] == '*' {
        (line.subrange(1, line.len() as int), true)
    } else {
        (line, false)
    }
}

/// The entries of an asterisk plugins file, where it decodes.
pub open spec fn asterisk_file_entries(c: Seq<u8>) -> Option<Seq<(Seq<char>, bool)>> {
    if all_decode_1252(text_lines(c)) {
        Some(plugin_lines(decoded_1252_lines(text_lines(c))).map_values(|l: Seq<char>| asterisk_entry(l)))
    } else {
        None
    }
}

pub open spec fn entry_views(v: Seq<(String, bool)>) -> Seq<(Seq<char>, bool)> {
    v.map_values(|t: (String, bool)| (t.0@, t.1))
}

/// The entry on a line of an asterisk plugins file, if the line holds one.
pub fn asterisk_line_mapper(line: &str) -> (r: Option<(String, bool)>)
    ensures
        r is Some <==> crate::codec::is_plugin_line(line@),
        r matches Some(t) ==> (t.0@, t.1) == asterisk_entry(line@),
{
    match crate::codec::plugin_line_mapper(line) {
        None => None,
        Some(s) => {
            if line.get_char(0) == '*' {
                let n = line.unicode_len();
                Some((line.substring_char(1, n).to_owned(), true))
            } else {
                Some((s, false))
            }
        },
    }
}

/// The entries of an asterisk plugins file; an absent file has none.
pub fn read_asterisk_entries(content: Option<&[u8]>) -> (r: Result<Vec<(String, bool)>, Error>)
    ensures
        match content {
            None => r matches Ok(v) && v@.len() == 0,
            Some(c) => {
                &&& r is Ok <==> asterisk_file_entries(c@) is Some
                &&& r matches Ok(v) ==> Some(entry_views(v@)) == asterisk_file_entries(c@)
            },
        },
        r matches Err(e) ==> e is DecodeError,
{
    let c = match content {
        None => {
            return Ok(Vec::new());
        },
        Some(c) => c,
    };
    let lines = match read_lines_windows_1252(c) {
        Ok(l) => l,
        Err(e) => {
            return Err(e);
        },
    };
    let ghost ls = string_views(lines@);
    let mut out: Vec<(String, bool)> = Vec::new();
    let mut i: usize = 0;
    while i < lines.len()
        invariant
            i <= lines@.len(),
            ls == string_views(lines@),
            entry_views(out@) == plugin_lines(ls.take(i as int)).map_values(
                |l: Seq<char>| asterisk_entry(l),
            ),
        decreases lines@.len() - i,
    {
        assert(ls.take(i + 1).drop_last() =~= ls.take(i as int));
        assert(ls.take(i + 1).last() == lines@[i as int]@);
        let ghost old_out = out@;
        match asterisk_line_mapper(lines[i].as_str()) {
            Some(t) => {
                out.push(t);
                assert(entry_views(out@) =~= entry_views(old_out).push(
                    asterisk_entry(lines@[i as int]@),
                ));
                assert(plugin_lines(ls.take(i + 1)).map_values(|l: Seq<char>| asterisk_entry(l))
                    =~= plugin_lines(ls.take(i as int)).map_values(|l: Seq<char>| asterisk_entry(l)).push(
                    asterisk_entry(lines@[i as int]@),
                ));
            },
            None => {},
        }
        i = i + 1;
    }
    assert(ls.take(i as int) =~= ls);
    Ok(out)
}

/// The bytes of an asterisk plugins file for `ps`: every plugin that does not
/// load early, `*` before the active ones, strictly Windows-1252 encoded, one
/// per line; `None` where a name cannot be encoded.
pub open spec fn asterisk_lines(ps: Seq<Plugin>, lo: MutableLoadOrder) -> Option<Seq<u8>>
    decreases ps.len(),
{
    if ps.len() == 0 {
        Some(seq![])
    } else {
        let p = ps.last();
        match asterisk_lines(ps.drop_last(), lo) {
            None => None,
            Some(a) => if lo.loads_early(p.key@) {
                Some(a)
            } else {
                match strict_encoding(p.name@) {
                    None => None,
                    Some(b) => Some(
                        a + (if p.active {
                            seq![42u8]
                        } else {
                            seq![]
                        }) + b + seq![10u8],
                    ),
                }
            },
        }
    }
}

/// A load order whose state lives in one `plugins.txt` with `*` markers.
#[derive(Clone, Debug)]
pub struct AsteriskBasedLoadOrder {
    pub load_order: MutableLoadOrder,
}

impl AsteriskBasedLoadOrder {
    /// A well-formed load order of a game that pins its master file first.
    pub open spec fn wf(self) -> bool {
        self.load_order.wf() && self.load_order.pins_game_master()
    }

    pub open spec fn plugins_view(self) -> Seq<Plugin> {
        self.load_order.plugins@
    }

    pub fn new(game_settings: GameSettings) -> (r: AsteriskBasedLoadOrder)
        requires
            crate::game_settings::method_of(game_settings.id) != crate::enums::LoadOrderMethod::Timestamp,
        ensures
            r.wf(),
            r.load_order.game_settings == game_settings,
            r.plugins_view().len() == 0,
    {
        AsteriskBasedLoadOrder { load_order: MutableLoadOrder::new(game_settings) }
    }

    /// Reloads the load order from the contents of `plugins.txt` and the
    /// parsed installed plugin files, in the order of the directory scan.
    pub fn load(&mut self, active_plugins_file: Option<&[u8]>, installed: &[PluginMetadata]) -> (r:
        Result<(), Error>)
        requires
            old(self).wf(),
        ensures
            final(self).wf(),
            final(self).load_order.game_settings == old(self).load_order.game_settings,
            r is Err ==> final(self).load_order.same_state(old(self).load_order),
            r is Ok <==> match active_plugins_file {
                Some(c) => asterisk_file_entries(c@) is Some,
                None => true,
            },
            r matches Err(e) ==> e is DecodeError,
            r is Ok ==> forall|k: Seq<char>|
                has_key(final(self).plugins_view(), k) <==> is_installed(installed@, k),
            r is Ok ==> forall|k: Seq<char>|
                old(self).load_order.implicitly_active_key(k) && is_installed(installed@, k)
                    ==> is_active_key(final(self).plugins_view(), k),
            r is Ok && old(self).load_order.pins_game_master() && installed_plain_master(
                installed@,
                old(self).load_order.game_master_key(),
            ) && is_installed(installed@, old(self).load_order.game_master_key())
                ==> final(self).plugins_view()[0].key@ == old(self).load_order.game_master_key(),
            r is Ok && (forall|j: int|
                0 <= j < installed@.len() ==> is_plugin_filename(
                    (#[trigger] installed@[j]).filename@,
                    old(self).load_order.game_settings.id,
                )) ==> forall|i: int, j: int|
                0 <= i < j < final(self).plugins_view().len() ==> !names_match(
                    (#[trigger] final(self).plugins_view()[i]).name@,
                    (#[trigger] final(self).plugins_view()[j]).name@,
                ),
    {
        let tuples = match read_asterisk_entries(active_plugins_file) {
            Ok(t) => t,
            Err(e) => {
                return Err(e);
            },
        };
        let mut filenames: Vec<String> = Vec::new();
        let mut i: usize = 0;
        while i < installed.len()
            invariant
                i <= installed@.len(),
                filenames@.len() == i,
                forall|q: int| 0 <= q < i ==> #[trigger] filenames@[q] == installed@[q].filename,
            decreases installed@.len() - i,
        {
            filenames.push(installed[i].filename.clone());
            i = i + 1;
        }
        proof {
            assert forall|k: Seq<char>| is_installed(installed@, k) implies exists|j: int|
                0 <= j < filenames@.len() && plugin_key((#[trigger] filenames@[j])@) == k by {
                let j = choose|j: int|
                    0 <= j < installed@.len() && plugin_key((#[trigger] installed@[j]).filename@) == k;
                assert(filenames@[j] == installed@[j].filename);
            }
        }
        self.load_order.plugins = Vec::new();
        proof {
            if forall|j: int|
                0 <= j < installed@.len() ==> is_plugin_filename(
                    (#[trigger] installed@[j]).filename@,
                    self.load_order.game_settings.id,
                ) {
                assert forall|j: int| 0 <= j < installed@.len() implies !ends_with_ci(
                    trim_ghost((#[trigger] installed@[j]).filename@),
                    ghost_suffix(),
                ) by {
                    lemma_plugin_filename_trimmed(installed@[j].filename@, self.load_order.game_settings.id);
                }
            }
        }
        assert(!has_key(self.load_order.plugins@, self.load_order.game_master_key()));
        self.load_order.load_unique_plugins(tuples, filenames, installed);
        self.load_order.add_implicitly_active_plugins(installed);
        let ghost unhoisted = self.load_order.plugins@;
        hoist_masters(&mut self.load_order.plugins);
        proof {
            if clean_names(unhoisted) {
                lemma_contained_keep_clean(unhoisted, self.load_order.plugins@);
            }
            let gm = self.load_order.game_master_key();
            if first_where_present(unhoisted, gm) && plain_master_in(unhoisted, gm) {
                if unhoisted.len() > 0 && has_key(unhoisted, gm) {
                    assert(unhoisted[0].master_keys@.len() == 0);
                }
                lemma_hoist_keeps_master_first(unhoisted, self.load_order.plugins@, gm);
            }
        }
        proof {
            if clean_names(self.load_order.plugins@) {
                lemma_clean_names_distinct(self.load_order.plugins@);
            }
        }
        Ok(())
    }

    /// The contents of `plugins.txt`. Nothing is returned unless every written
    /// name can be encoded.
    pub fn save(&self) -> (r: Result<Vec<u8>, Error>)
        requires
            self.wf(),
        ensures
            match r {
                Ok(b) => asterisk_lines(self.plugins_view(), self.load_order) == Some(b@),
                Err(e) => asterisk_lines(self.plugins_view(), self.load_order) is None
                    && (e matches Error::EncodeError(m) && m@ == "unrepresentable character"@),
            },
    {
        let ps = &self.load_order.plugins;
        let mut out: Vec<u8> = Vec::new();
        let mut i: usize = 0;
        while i < ps.len()
            invariant
                i <= ps@.len(),
                ps@ == self.plugins_view(),
                asterisk_lines(ps@.take(i as int), self.load_order) == Some(out@),
            decreases ps@.len() - i,
        {
            let ghost prefix = ps@.take(i + 1);
            assert(prefix.drop_last() =~= ps@.take(i as int));
            assert(prefix.last() == ps@[i as int]);
            if !self.load_order.loads_early_key(&ps[i].key) {
                let bytes = match strict_encode(ps[i].name.as_str()) {
                    Ok(b) => b,
                    Err(e) => {
                        proof {
                            lemma_asterisk_lines_prefix(ps@, self.load_order, i as int, ps@.len() as int);
                            assert(ps@.take(ps@.len() as int) =~= ps@);
                        }
                        return Err(e);
                    },
                };
                let ghost before = out@;
                if ps[i].active {
                    out.push(42u8);
                }
                let ghost marked = out@;
                let mut j: usize = 0;
                while j < bytes.len()
                    invariant
                        j <= bytes@.len(),
                        out@ == marked + bytes@.take(j as int),
                    decreases bytes@.len() - j,
                {
                    out.push(bytes[j]);
                    assert(out@ =~= marked + bytes@.take(j + 1));
                    j = j + 1;
                }
                out.push(10u8);
                assert(bytes@.take(j as int) =~= bytes@);
                assert(out@ =~= before + (if ps@[i as int].active {
                    seq![42u8]
                } else {
                    seq![]
                }) + bytes@ + seq![10u8]);
            }
            i = i + 1;
        }
        assert(ps@.take(i as int) =~= ps@);
        Ok(out)
    }

    /// Replaces the whole load order; the game's master file must come first.
    pub fn set_load_order(&mut self, plugin_names: &[&str], installed: &[PluginMetadata]) -> (r:
        Result<(), Error>)
        requires
            old(self).wf(),
        ensures
            final(self).wf(),
            final(self).load_order.game_settings == old(self).load_order.game_settings,
            r is Err ==> final(self).load_order.same_state(old(self).load_order),
            plugin_names@.len() == 0 || !old(self).load_order.is_game_master(
                plugin_key(plugin_names@[0]@),
            ) ==> (r matches Err(e) && e is GameMasterMustLoadFirst),
            r is Ok ==> {
                &&& valid_load_order(final(self).plugins_view())
                &&& final(self).plugins_view().len() == plugin_names@.len()
                &&& old(self).load_order.is_game_master(final(self).plugins_view()[0].key@)
                &&& forall|i: int|
                    0 <= i < plugin_names@.len() ==> (#[trigger] final(self).plugins_view()[i]).key@
                        == plugin_key(plugin_names@[i]@)
            },
            plugin_names@.len() > 0 && old(self).load_order.is_game_master(
                plugin_key(plugin_names@[0]@),
            ) && names_unique(plugin_names@) && (forall|i: int|
                0 <= i < plugin_names@.len() ==> has_key(
                    old(self).plugins_view(),
                    plugin_key((#[trigger] plugin_names@[i])@),
                ) || is_installed(installed@, plugin_key(plugin_names@[i]@))) && (forall|
                v: Seq<Plugin>,
            |
                #[trigger] old(self).load_order.records_for(plugin_names@, installed@, v)
                    ==> valid_load_order(v)) ==> r is Ok,
            r is Ok ==> old(self).load_order.records_for(
                plugin_names@,
                installed@,
                final(self).plugins_view(),
            ),
    {
        if plugin_names.len() == 0 || !self.load_order.is_game_master_name(plugin_names[0]) {
            return Err(
                Error::GameMasterMustLoadFirst(self.load_order.game_settings.master_file.clone()),
            );
        }
        self.load_order.replace_plugins(plugin_names, installed)
    }

    /// The asterisk method keeps order and activity in one file, which cannot
    /// disagree with itself.
    pub fn is_self_consistent(&self) -> (r: bool)
        ensures
            r,
    {
        true
    }

    /// Whether `plugins.txt` misses a plugin of the load order that does not
    /// load early.
    pub fn is_ambiguous(&self, active_plugins_file: Option<&[u8]>) -> (r: Result<bool, Error>)
        requires
            self.wf(),
        ensures
            match active_plugins_file {
                Some(c) => match asterisk_file_entries(c@) {
                    Some(es) => r == Ok::<bool, Error>(
                        !self.all_late_listed(es.map_values(|e: (Seq<char>, bool)| e.0)),
                    ),
                    None => r matches Err(e) && e is DecodeError,
                },
                None => r == Ok::<bool, Error>(!self.all_late_listed(seq![])),
            },
    {
        let entries = match read_asterisk_entries(active_plugins_file) {
            Ok(t) => t,
            Err(e) => {
                return Err(e);
            },
        };
        let ghost names = entry_views(entries@).map_values(|e: (Seq<char>, bool)| e.0);
        let mut keys: Vec<String> = Vec::new();
        let mut j: usize = 0;
        while j < entries.len()
            invariant
                j <= entries@.len(),
                keys@.len() == j,
                names == entry_views(entries@).map_values(|e: (Seq<char>, bool)| e.0),
                forall|q: int| 0 <= q < j ==> (#[trigger] keys@[q])@ == plugin_key(names[q]),
            decreases entries@.len() - j,
        {
            keys.push(plugin_name_key(entries[j].0.as_str()));
            j = j + 1;
        }
        let ps = &self.load_order.plugins;
        let mut unlisted = false;
        let mut i: usize = 0;
        while i < ps.len() && !unlisted
            invariant
                i <= ps@.len(),
                ps@ == self.plugins_view(),
                keys@.len() == names.len(),
                forall|q: int| 0 <= q < keys@.len() ==> (#[trigger] keys@[q])@ == plugin_key(names[q]),
                forall|q: int|
                    0 <= q < i && !self.load_order.loads_early((#[trigger] ps@[q]).key@)
                        ==> name_listed(names, ps@[q].key@),
                unlisted ==> !self.all_late_listed(names),
            decreases ps@.len() - i, if unlisted {
                0int
            } else {
                1int
            },
        {
            if !self.load_order.loads_early_key(&ps[i].key) {
                let mut found = false;
                let mut q: usize = 0;
                while q < keys.len()
                    invariant
                        q <= keys@.len(),
                        i < ps@.len(),
                        keys@.len() == names.len(),
                        forall|t: int|
                            0 <= t < keys@.len() ==> (#[trigger] keys@[t])@ == plugin_key(names[t]),
                        found == exists|t: int|
                            0 <= t < q && plugin_key(#[trigger] names[t]) == ps@[i as int].key@,
                    decreases keys@.len() - q,
                {
                    if keys[q] == ps[i].key {
                        found = true;
                        assert(plugin_key(names[q as int]) == ps@[i as int].key@);
                    }
                    q = q + 1;
                }
                if !found {
                    unlisted = true;
                } else {
                    i = i + 1;
                }
            } else {
                i = i + 1;
            }
        }
        Ok(unlisted)
    }

    /// Every plugin that does not load early is one of `names`.
    pub open spec fn all_late_listed(self, names: Seq<Seq<char>>) -> bool {
        forall|i: int|
            0 <= i < self.plugins_view().len() && !self.load_order.loads_early(
                (#[trigger] self.plugins_view()[i]).key@,
            ) ==> name_listed(names, self.plugins_view()[i].key@)
    }
}

/// Where a name that is written cannot be encoded, no prefix that holds it can be.
proof fn lemma_asterisk_lines_prefix(ps: Seq<Plugin>, lo: MutableLoadOrder, i: int, n: int)
    requires
        0 <= i < n <= ps.len(),
        !lo.loads_early(ps[i].key@),
        strict_encoding(ps[i].name@) is None,
    ensures
        asterisk_lines(ps.take(n), lo) is None,
    decreases n,
{
    let pre = ps.take(n);
    assert(pre.drop_last() =~= ps.take(n - 1));
    assert(pre.last() == ps[n - 1]);
    if n - 1 > i {
        lemma_asterisk_lines_prefix(ps, lo, i, n - 1);
    }
}

} // verus!
