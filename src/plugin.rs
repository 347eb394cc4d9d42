//! The in-memory record of one plugin in a load order.

use crate::identity::{folded_case, plugin_key, plugin_name_key, trim_dot_ghost};
use vstd::prelude::*;

verus! {

/// What parsing a plugin file found: its file name on disk (possibly ending in
/// `.ghost`), its flags and the masters it declares.
#[derive(Clone, Debug)]
pub struct PluginMetadata {
    pub filename: String,
    pub is_master_flag: bool,
    pub is_light_flag: bool,
    pub masters: Vec<String>,
}

/// A plugin in a load order. `name` has no `.ghost` suffix and `key`, its
/// case-folded form, is the plugin's identity; `master_keys` are the
/// identities of `masters`, one for one.
#[derive(Clone, Debug)]
pub struct Plugin {
    pub name: String,
    pub key: String,
    pub active: bool,
    pub master_flag: bool,
    pub light_flag: bool,
    pub masters: Vec<String>,
    pub master_keys: Vec<String>,
}

/// A copy of a list of names.
pub fn copy_strings(v: &Vec<String>) -> (r: Vec<String>)
    ensures
        r@ == v@,
{
    let mut out: Vec<String> = Vec::new();
    let mut i: usize = 0;
    while i < v.len()
        invariant
            i <= v@.len(),
            out@ == v@.take(i as int),
        decreases v@.len() - i,
    {
        out.push(v[i].clone());
        assert(out@ =~= v@.take(i + 1));
        i = i + 1;
    }
    assert(v@.take(i as int) =~= v@);
    out
}

impl Plugin {
    /// `other` holds the same values as this record.
    pub open spec fn same_as(self, other: Plugin) -> bool {
        &&& self.name == other.name
        &&& self.key == other.key
        &&& self.active == other.active
        &&& self.master_flag == other.master_flag
        &&& self.light_flag == other.light_flag
        &&& self.masters@ == other.masters@
        &&& self.master_keys@ == other.master_keys@
    }

    /// A copy of this record.
    pub fn duplicate(&self) -> (r: Plugin)
        ensures
            r.same_as(*self),
    {
        Plugin {
            name: self.name.clone(),
            key: self.key.clone(),
            active: self.active,
            master_flag: self.master_flag,
            light_flag: self.light_flag,
            masters: copy_strings(&self.masters),
            master_keys: copy_strings(&self.master_keys),
        }
    }

    pub open spec fn wf(self) -> bool {
        &&& self.key@ == folded_case(self.name@)
        &&& self.master_keys@.len() == self.masters@.len()
        &&& forall|i: int|
            0 <= i < self.masters@.len() ==> (#[trigger] self.master_keys@[i])@ == plugin_key(
                self.masters@[i]@,
            )
    }

    /// Masters and light plugins both load in the master block.
    pub open spec fn is_master(self) -> bool {
        self.master_flag || self.light_flag
    }

    /// The plugin declares a master whose identity is `key`.
    pub open spec fn declares(self, key: Seq<char>) -> bool {
        exists|i: int| 0 <= i < self.master_keys@.len() && (#[trigger] self.master_keys@[i])@ == key
    }

    /// A plugin record for a parsed file, named without any `.ghost` suffix.
    pub fn with_active(metadata: &PluginMetadata, active: bool) -> (r: Plugin)
        ensures
            r.wf(),
            r.name@ == crate::identity::trim_ghost(metadata.filename@),
            r.key@ == plugin_key(metadata.filename@),
            r.active == active,
            r.master_flag == metadata.is_master_flag,
            r.light_flag == metadata.is_light_flag,
            r.masters@ == metadata.masters@,
    {
        let name = trim_dot_ghost(metadata.filename.as_str()).to_owned();
        let key = plugin_name_key(metadata.filename.as_str());
        let mut masters: Vec<String> = Vec::new();
        let mut master_keys: Vec<String> = Vec::new();
        let mut i: usize = 0;
        while i < metadata.masters.len()
            invariant
                i <= metadata.masters@.len(),
                masters@.len() == i,
                master_keys@.len() == i,
                forall|j: int| 0 <= j < i ==> masters@[j] == metadata.masters@[j],
                forall|j: int|
                    0 <= j < i ==> (#[trigger] master_keys@[j])@ == plugin_key(masters@[j]@),
            decreases metadata.masters@.len() - i,
        {
            let m = metadata.masters[i].clone();
            master_keys.push(plugin_name_key(m.as_str()));
            masters.push(m);
            i = i + 1;
        }
        assert(masters@ =~= metadata.masters@);
        Plugin {
            name,
            key,
            active,
            master_flag: metadata.is_master_flag,
            light_flag: metadata.is_light_flag,
            masters,
            master_keys,
        }
    }

    /// An inactive plugin record for a parsed file.
    pub fn new(metadata: &PluginMetadata) -> (r: Plugin)
        ensures
            r.wf(),
            r.name@ == crate::identity::trim_ghost(metadata.filename@),
            r.key@ == plugin_key(metadata.filename@),
            !r.active,
            r.master_flag == metadata.is_master_flag,
            r.light_flag == metadata.is_light_flag,
            r.masters@ == metadata.masters@,
    {
        Plugin::with_active(metadata, false)
    }

    pub fn name(&self) -> (r: &str)
        ensures
            r@ == self.name@,
    {
        self.name.as_str()
    }

    pub fn is_active(&self) -> (r: bool)
        ensures
            r == self.active,
    {
        self.active
    }

    pub fn is_master_file(&self) -> (r: bool)
        ensures
            r == self.is_master(),
    {
        self.master_flag || self.light_flag
    }

    pub fn is_light_plugin(&self) -> (r: bool)
        ensures
            r == self.light_flag,
    {
        self.light_flag
    }

    pub fn masters(&self) -> (r: &Vec<String>)
        ensures
            r@ == self.masters@,
    {
        &self.masters
    }

    /// Whether `name` denotes this plugin.
    pub fn name_matches(&self, name: &str) -> (r: bool)
        requires
            self.wf(),
        ensures
            r == (self.key@ == plugin_key(name@)),
    {
        let k = plugin_name_key(name);
        self.key == k
    }

    /// Whether this plugin declares a master with the identity `key`.
    pub fn has_master_key(&self, key: &String) -> (r: bool)
        ensures
            r == self.declares(key@),
    {
        let mut i: usize = 0;
        while i < self.master_keys.len()
            invariant
                i <= self.master_keys@.len(),
                forall|j: int| 0 <= j < i ==> (#[trigger] self.master_keys@[j])@ != key@,
            decreases self.master_keys@.len() - i,
        {
            if self.master_keys[i] == *key {
                return true;
            }
            i = i + 1;
        }
        false
    }

    pub fn activate(&mut self)
        ensures
            *final(self) == (Plugin { active: true, ..*old(self) }),
    {
        self.active = true;
    }

    pub fn deactivate(&mut self)
        ensures
            *final(self) == (Plugin { active: false, ..*old(self) }),
    {
        self.active = false;
    }
}

} // verus!
