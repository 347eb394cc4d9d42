//! The structural rules of a load order: masters load before non-masters,
//! except for non-masters hoisted directly before the masters that need them.

use crate::enums::Error;
use crate::plugin::Plugin;
use vstd::prelude::*;

verus! {

/// Every plugin record is well formed.
pub open spec fn all_wf(ps: Seq<Plugin>) -> bool {
    forall|i: int| 0 <= i < ps.len() ==> (#[trigger] ps[i]).wf()
}

/// `k` is the first master after position `j`.
pub open spec fn next_master_after(ps: Seq<Plugin>, j: int, k: int) -> bool {
    &&& j < k < ps.len()
    &&& ps[k].is_master()
    &&& forall|l: int| j < l < k ==> !(#[trigger] ps[l]).is_master()
}

/// Every non-master that loads before a master is a declared master of the
/// first master after it: it was hoisted there for a reason.
pub open spec fn hoists_justified(ps: Seq<Plugin>) -> bool {
    forall|j: int, k: int|
        0 <= j && !ps[j].is_master() && #[trigger] next_master_after(ps, j, k) ==> ps[k].declares(
            ps[j].key@,
        )
}

/// No master declares as its master a non-master that loads after it.
pub open spec fn hoists_represented(ps: Seq<Plugin>) -> bool {
    forall|m: int, j: int|
        0 <= m < j < ps.len() && (#[trigger] ps[m]).is_master() && !(#[trigger] ps[j]).is_master()
            ==> !ps[m].declares(ps[j].key@)
}

/// The non-master at `j` loads before the first master after it, `k`, which
/// does not declare it.
pub open spec fn unjustified_pair(ps: Seq<Plugin>, j: int, k: int) -> bool {
    0 <= j && !ps[j].is_master() && next_master_after(ps, j, k) && !ps[k].declares(ps[j].key@)
}

/// The master at `m` declares the non-master at `j`, which loads after it.
pub open spec fn unrepresented_pair(ps: Seq<Plugin>, m: int, j: int) -> bool {
    0 <= m < j < ps.len() && ps[m].is_master() && !ps[j].is_master() && ps[m].declares(ps[j].key@)
}

/// The master partitioning rules of a whole load order.
pub open spec fn valid_load_order(ps: Seq<Plugin>) -> bool {
    hoists_justified(ps) && hoists_represented(ps)
}

/// Position of the first non-master, if any.
pub fn find_first_non_master_position(plugins: &[Plugin]) -> (r: Option<usize>)
    ensures
        match r {
            Some(i) => i < plugins@.len() && !plugins@[i as int].is_master() && forall|l: int|
                0 <= l < i ==> (#[trigger] plugins@[l]).is_master(),
            None => forall|l: int| 0 <= l < plugins@.len() ==> (#[trigger] plugins@[l]).is_master(),
        },
{
    let mut i: usize = 0;
    while i < plugins.len()
        invariant
            i <= plugins@.len(),
            forall|l: int| 0 <= l < i ==> (#[trigger] plugins@[l]).is_master(),
        decreases plugins@.len() - i,
    {
        if !plugins[i].is_master_file() {
            return Some(i);
        }
        i = i + 1;
    }
    None
}

/// Checks that every hoisted non-master is a master of the first master after it.
fn check_hoists_justified(plugins: &[Plugin]) -> (r: Result<(), Error>)
    requires
        all_wf(plugins@),
    ensures
        r is Ok <==> hoists_justified(plugins@),
        r matches Err(e) ==> e is NonMasterBeforeMaster,
        r matches Err(Error::NonMasterBeforeMaster { master, non_master }) ==> exists|j: int, k: int|
            #[trigger] unjustified_pair(plugins@, j, k) && master == plugins@[k].name && non_master
                == plugins@[j].name,
{
    let ghost ps = plugins@;
    let n = plugins.len();
    let mut start: usize = 0;
    let mut i: usize = 0;
    while i < n
        invariant
            ps == plugins@,
            n == ps.len(),
            start <= i <= n,
            forall|l: int| start <= l < i ==> !(#[trigger] ps[l]).is_master(),
            start > 0 ==> ps[start - 1].is_master(),
            forall|j: int, k: int|
                0 <= j && !ps[j].is_master() && k < i && #[trigger] next_master_after(ps, j, k)
                    ==> ps[k].declares(ps[j].key@),
        decreases n - i,
    {
        if plugins[i].is_master_file() {
            let mut j: usize = start;
            while j < i
                invariant
                    ps == plugins@,
                    n == ps.len(),
                    start <= j <= i,
                    i < n,
                    ps[i as int].is_master(),
                    forall|l: int| start <= l < i ==> !(#[trigger] ps[l]).is_master(),
                    forall|l: int| start <= l < j ==> ps[i as int].declares((#[trigger] ps[l]).key@),
                decreases i - j,
            {
                if !plugins[i].has_master_key(&plugins[j].key) {
                    assert(next_master_after(ps, j as int, i as int));
                    assert(unjustified_pair(ps, j as int, i as int));
                    return Err(
                        Error::NonMasterBeforeMaster {
                            master: plugins[i].name.clone(),
                            non_master: plugins[j].name.clone(),
                        },
                    );
                }
                j = j + 1;
            }
            assert forall|jj: int, k: int|
                0 <= jj && !ps[jj].is_master() && k < i + 1 && #[trigger] next_master_after(
                    ps,
                    jj,
                    k,
                ) implies ps[k].declares(ps[jj].key@) by {
                if k == i {
                    if jj < start {
                        assert(ps[start - 1].is_master());
                        assert(jj < start - 1);
                    }
                    assert(start <= jj < i);
                    assert(ps[i as int].declares(ps[jj].key@));
                }
            }
            start = i + 1;
        }
        i = i + 1;
    }
    Ok(())
}

/// Checks that no master declares a non-master that loads after it.
fn check_hoists_represented(plugins: &[Plugin]) -> (r: Result<(), Error>)
    requires
        all_wf(plugins@),
    ensures
        r is Ok <==> hoists_represented(plugins@),
        r matches Err(e) ==> e is UnrepresentedHoist,
        r matches Err(Error::UnrepresentedHoist { plugin, master }) ==> exists|m: int, j: int|
            #[trigger] unrepresented_pair(plugins@, m, j) && master == plugins@[m].name && plugin
                == plugins@[j].name,
{
    let ghost ps = plugins@;
    let n = plugins.len();
    let mut m: usize = 0;
    while m < n
        invariant
            ps == plugins@,
            n == ps.len(),
            m <= n,
            forall|mm: int, j: int|
                0 <= mm < m && mm < j < n && (#[trigger] ps[mm]).is_master() && !(
                #[trigger] ps[j]).is_master() ==> !ps[mm].declares(ps[j].key@),
        decreases n - m,
    {
        if plugins[m].is_master_file() {
            let mut j: usize = m + 1;
            while j < n
                invariant
                    ps == plugins@,
                    n == ps.len(),
                    m < j <= n,
                    ps[m as int].is_master(),
                    forall|jj: int|
                        m < jj < j && !(#[trigger] ps[jj]).is_master() ==> !ps[m as int].declares(
                            ps[jj].key@,
                        ),
                decreases n - j,
            {
                if !plugins[j].is_master_file() && plugins[m].has_master_key(&plugins[j].key) {
                    assert(unrepresented_pair(ps, m as int, j as int));
                    return Err(
                        Error::UnrepresentedHoist {
                            plugin: plugins[j].name.clone(),
                            master: plugins[m].name.clone(),
                        },
                    );
                }
                j = j + 1;
            }
        }
        m = m + 1;
    }
    Ok(())
}

/// Checks the master partitioning rules of a whole load order. An unjustified
/// hoist is reported before an unrepresented one.
pub fn validate_load_order(plugins: &[Plugin]) -> (r: Result<(), Error>)
    requires
        all_wf(plugins@),
    ensures
        r is Ok <==> valid_load_order(plugins@),
        !hoists_justified(plugins@) ==> (r matches Err(e) && e is NonMasterBeforeMaster),
        hoists_justified(plugins@) && !hoists_represented(plugins@) ==> (r matches Err(e)
            && e is UnrepresentedHoist),
        r matches Err(Error::NonMasterBeforeMaster { master, non_master }) ==> exists|j: int, k: int|
            #[trigger] unjustified_pair(plugins@, j, k) && master == plugins@[k].name && non_master
                == plugins@[j].name,
        r matches Err(Error::UnrepresentedHoist { plugin, master }) ==> exists|m: int, j: int|
            #[trigger] unrepresented_pair(plugins@, m, j) && master == plugins@[m].name && plugin
                == plugins@[j].name,
{
    match check_hoists_justified(plugins) {
        Ok(()) => {},
        Err(e) => {
            return Err(e);
        },
    }
    check_hoists_represented(plugins)
}

/// No master loads in positions `a .. b`.
pub open spec fn no_master_in(ps: Seq<Plugin>, a: int, b: int) -> bool {
    forall|q: int| a <= q < b ==> !(#[trigger] ps[q]).is_master()
}

/// `index`, clamped to the length of the list.
pub open spec fn clamp(ps: Seq<Plugin>, index: int) -> int {
    if index < ps.len() {
        index
    } else {
        ps.len() as int
    }
}

/// For a master placed at `index`: every plugin between the previous master
/// (or position 1 where there is none) and `index` is a declared master of it.
pub open spec fn master_index_between_ok(ps: Seq<Plugin>, plugin: Plugin, index: int) -> bool {
    forall|l: int|
        1 <= l < clamp(ps, index) && #[trigger] no_master_in(ps, l, clamp(ps, index))
            ==> plugin.declares(ps[l].key@)
}

/// For a master placed at `index`: no non-master at or after `index` is a
/// declared master of it.
pub open spec fn master_index_after_ok(ps: Seq<Plugin>, plugin: Plugin, index: int) -> bool {
    forall|l: int|
        index <= l < ps.len() && !(#[trigger] ps[l]).is_master() ==> !plugin.declares(ps[l].key@)
}

/// For a non-master placed at `index`: no earlier master declares it.
pub open spec fn non_master_index_before_ok(ps: Seq<Plugin>, plugin: Plugin, index: int) -> bool {
    forall|m: int|
        0 <= m < clamp(ps, index) && (#[trigger] ps[m]).is_master() ==> !ps[m].declares(
            plugin.key@,
        )
}

/// `k` is the first master at or after `index`.
pub open spec fn next_master_from(ps: Seq<Plugin>, index: int, k: int) -> bool {
    index <= k < ps.len() && ps[k].is_master() && no_master_in(ps, index, k)
}

/// For a non-master placed at `index`: the next master, if any, declares it.
pub open spec fn non_master_index_next_ok(ps: Seq<Plugin>, plugin: Plugin, index: int) -> bool {
    forall|k: int| #[trigger] next_master_from(ps, index, k) ==> ps[k].declares(plugin.key@)
}

/// Placing `plugin` at `index` of `ps` keeps the partitioning rules.
pub open spec fn index_valid(ps: Seq<Plugin>, plugin: Plugin, index: int) -> bool {
    if plugin.is_master() {
        master_index_between_ok(ps, plugin, index) && master_index_after_ok(ps, plugin, index)
    } else {
        non_master_index_before_ok(ps, plugin, index) && non_master_index_next_ok(
            ps,
            plugin,
            index,
        )
    }
}

fn validate_master_file_index(plugins: &[Plugin], plugin: &Plugin, index: usize) -> (r: Result<
    (),
    Error,
>)
    requires
        all_wf(plugins@),
        plugin.wf(),
    ensures
        r is Ok <==> master_index_between_ok(plugins@, *plugin, index as int)
            && master_index_after_ok(plugins@, *plugin, index as int),
        !master_index_between_ok(plugins@, *plugin, index as int) ==> (r matches Err(e)
            && e is NonMasterBeforeMaster),
        master_index_between_ok(plugins@, *plugin, index as int) && !master_index_after_ok(
            plugins@,
            *plugin,
            index as int,
        ) ==> (r matches Err(e) && e is UnrepresentedHoist),
        r matches Err(Error::UnrepresentedHoist { plugin: a, master: b }) ==> b == plugin.name
            && exists|j: int|
            index <= j < plugins@.len() && !(#[trigger] plugins@[j]).is_master() && plugin.declares(
                plugins@[j].key@,
            ) && a == plugins@[j].name,
        r matches Err(Error::NonMasterBeforeMaster { master: b, non_master: a }) ==> b == plugin.name
            && exists|l: int|
            1 <= l < clamp(plugins@, index as int) && #[trigger] no_master_in(
                plugins@,
                l,
                clamp(plugins@, index as int),
            ) && !plugin.declares(plugins@[l].key@) && a == plugins@[l].name,
{
    let ghost ps = plugins@;
    let n = plugins.len();
    let pre = if index < n {
        index
    } else {
        n
    };
    assert(pre == clamp(ps, index as int));
    let mut l: usize = pre;
    let mut blocked = false;
    while l > 1 && !blocked
        invariant
            ps == plugins@,
            n == ps.len(),
            pre <= n,
            pre == clamp(ps, index as int),
            l <= pre,
            forall|q: int| l <= q < pre ==> !(#[trigger] ps[q]).is_master(),
            forall|q: int| l <= q < pre ==> plugin.declares((#[trigger] ps[q]).key@),
            blocked ==> l >= 1 && ps[l - 1].is_master(),
        decreases l, if blocked { 0int } else { 1int },
    {
        if plugins[l - 1].is_master_file() {
            blocked = true;
        } else {
            if !plugin.has_master_key(&plugins[l - 1].key) {
                assert(no_master_in(ps, l - 1, pre as int));
                return Err(
                    Error::NonMasterBeforeMaster {
                        master: plugin.name.clone(),
                        non_master: plugins[l - 1].name.clone(),
                    },
                );
            }
            l = l - 1;
        }
    }
    assert forall|ll: int|
        1 <= ll < pre && #[trigger] no_master_in(ps, ll, pre as int) implies plugin.declares(
        ps[ll].key@,
    ) by {
        if ll < l {
            assert(blocked);
            assert(!ps[l - 1].is_master());
        }
    }
    let mut j: usize = index;
    while j < n
        invariant
            ps == plugins@,
            n == ps.len(),
            index <= j,
            master_index_between_ok(ps, *plugin, index as int),
            forall|q: int|
                index <= q < j && q < n && !(#[trigger] ps[q]).is_master() ==> !plugin.declares(
                    ps[q].key@,
                ),
        decreases n - j,
    {
        if !plugins[j].is_master_file() && plugin.has_master_key(&plugins[j].key) {
            return Err(
                Error::UnrepresentedHoist {
                    plugin: plugins[j].name.clone(),
                    master: plugin.name.clone(),
                },
            );
        }
        j = j + 1;
    }
    Ok(())
}

fn validate_non_master_file_index(plugins: &[Plugin], plugin: &Plugin, index: usize) -> (r:
    Result<(), Error>)
    requires
        all_wf(plugins@),
        plugin.wf(),
    ensures
        r is Ok <==> non_master_index_before_ok(plugins@, *plugin, index as int)
            && non_master_index_next_ok(plugins@, *plugin, index as int),
        !non_master_index_before_ok(plugins@, *plugin, index as int) ==> (r matches Err(e)
            && e is UnrepresentedHoist),
        non_master_index_before_ok(plugins@, *plugin, index as int) && !non_master_index_next_ok(
            plugins@,
            *plugin,
            index as int,
        ) ==> (r matches Err(e) && e is NonMasterBeforeMaster),
        r matches Err(Error::UnrepresentedHoist { plugin: a, master: b }) ==> a == plugin.name
            && exists|m: int|
            0 <= m < clamp(plugins@, index as int) && (#[trigger] plugins@[m]).is_master()
                && plugins@[m].declares(plugin.key@) && b == plugins@[m].name,
        r matches Err(Error::NonMasterBeforeMaster { master: b, non_master: a }) ==> a == plugin.name
            && exists|k: int|
            #[trigger] next_master_from(plugins@, index as int, k) && !plugins@[k].declares(
                plugin.key@,
            ) && b == plugins@[k].name,
{
    let ghost ps = plugins@;
    let n = plugins.len();
    let pre = if index < n {
        index
    } else {
        n
    };
    assert(pre == clamp(ps, index as int));
    let mut m: usize = 0;
    while m < pre
        invariant
            ps == plugins@,
            n == ps.len(),
            pre <= n,
            pre == clamp(ps, index as int),
            m <= pre,
            forall|q: int|
                0 <= q < m && (#[trigger] ps[q]).is_master() ==> !ps[q].declares(plugin.key@),
        decreases pre - m,
    {
        if plugins[m].is_master_file() && plugins[m].has_master_key(&plugin.key) {
            return Err(
                Error::UnrepresentedHoist {
                    plugin: plugin.name.clone(),
                    master: plugins[m].name.clone(),
                },
            );
        }
        m = m + 1;
    }
    let mut k: usize = index;
    while k < n
        invariant
            ps == plugins@,
            n == ps.len(),
            index <= k,
            k <= n || k == index,
            no_master_in(ps, index as int, k as int),
            non_master_index_before_ok(ps, *plugin, index as int),
        decreases n - k,
    {
        if plugins[k].is_master_file() {
            assert(next_master_from(ps, index as int, k as int));
            assert forall|kk: int| #[trigger] next_master_from(ps, index as int, kk) implies kk
                == k by {
                if kk < k {
                    assert(!ps[kk].is_master());
                }
                if kk > k {
                    assert(!ps[k as int].is_master());
                }
            }
            if plugins[k].has_master_key(&plugin.key) {
                return Ok(());
            } else {
                return Err(
                    Error::NonMasterBeforeMaster {
                        master: plugins[k].name.clone(),
                        non_master: plugin.name.clone(),
                    },
                );
            }
        }
        k = k + 1;
    }
    Ok(())
}

/// Checks that placing `plugin` at `index` keeps the partitioning rules.
pub fn validate_index(plugins: &[Plugin], plugin: &Plugin, index: usize) -> (r: Result<
    (),
    Error,
>)
    requires
        all_wf(plugins@),
        plugin.wf(),
    ensures
        r is Ok <==> index_valid(plugins@, *plugin, index as int),
        r matches Err(e) ==> (e is NonMasterBeforeMaster || e is UnrepresentedHoist),
        r matches Err(Error::UnrepresentedHoist { plugin: a, master: b }) ==> if plugin.is_master() {
            b == plugin.name && exists|j: int|
                index <= j < plugins@.len() && !(#[trigger] plugins@[j]).is_master()
                    && plugin.declares(plugins@[j].key@) && a == plugins@[j].name
        } else {
            a == plugin.name && exists|m: int|
                0 <= m < clamp(plugins@, index as int) && (#[trigger] plugins@[m]).is_master()
                    && plugins@[m].declares(plugin.key@) && b == plugins@[m].name
        },
        r matches Err(Error::NonMasterBeforeMaster { master: b, non_master: a }) ==> if plugin.is_master() {
            b == plugin.name && exists|l: int|
                1 <= l < clamp(plugins@, index as int) && #[trigger] no_master_in(
                    plugins@,
                    l,
                    clamp(plugins@, index as int),
                ) && !plugin.declares(plugins@[l].key@) && a == plugins@[l].name
        } else {
            a == plugin.name && exists|k: int|
                #[trigger] next_master_from(plugins@, index as int, k) && !plugins@[k].declares(
                    plugin.key@,
                ) && b == plugins@[k].name
        },
{
    if plugin.is_master_file() {
        validate_master_file_index(plugins, plugin, index)
    } else {
        validate_non_master_file_index(plugins, plugin, index)
    }
}

/// `k` is the first master that declares a plugin with identity `key`.
pub open spec fn first_declaring_master(ps: Seq<Plugin>, key: Seq<char>, k: int) -> bool {
    &&& 0 <= k < ps.len()
    &&& ps[k].is_master()
    &&& ps[k].declares(key)
    &&& forall|l: int| 0 <= l < k ==> !((#[trigger] ps[l]).is_master() && ps[l].declares(key))
}

/// Where a plugin goes when it is added without a position: a master before
/// the first non-master; a non-master before the first master that declares
/// it. `None` means at the end.
pub open spec fn generic_insert_position_ok(ps: Seq<Plugin>, plugin: Plugin, r: Option<usize>) -> bool {
    if plugin.is_master() {
        match r {
            Some(i) => i < ps.len() && !ps[i as int].is_master() && forall|l: int|
                0 <= l < i ==> (#[trigger] ps[l]).is_master(),
            None => forall|l: int| 0 <= l < ps.len() ==> (#[trigger] ps[l]).is_master(),
        }
    } else {
        match r {
            Some(k) => first_declaring_master(ps, plugin.key@, k as int),
            None => forall|l: int|
                0 <= l < ps.len() ==> !((#[trigger] ps[l]).is_master() && ps[l].declares(
                    plugin.key@,
                )),
        }
    }
}

pub fn generic_insert_position(plugins: &[Plugin], plugin: &Plugin) -> (r: Option<usize>)
    ensures
        generic_insert_position_ok(plugins@, *plugin, r),
{
    if plugin.is_master_file() {
        find_first_non_master_position(plugins)
    } else {
        let mut k: usize = 0;
        while k < plugins.len()
            invariant
                k <= plugins@.len(),
                !plugin.is_master(),
                forall|l: int|
                    0 <= l < k ==> !((#[trigger] plugins@[l]).is_master() && plugins@[l].declares(
                        plugin.key@,
                    )),
            decreases plugins@.len() - k,
        {
            if plugins[k].is_master_file() && plugins[k].has_master_key(&plugin.key) {
                assert(first_declaring_master(plugins@, plugin.key@, k as int));
                return Some(k);
            }
            k = k + 1;
        }
        None
    }
}

} // verus!
