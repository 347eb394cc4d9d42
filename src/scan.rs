//! Ordering the plugin files found by a directory scan: by modification time,
//! ties broken by file name, one file per identity.

use crate::enums::GameId;
use crate::identity::{has_plugin_extension, is_plugin_filename, plugin_key, plugin_name_key};
use vstd::prelude::*;
use vstd::seq_lib::to_multiset_insert;

verus! {

/// A file found in a plugins directory. `modified` is its modification time in
/// nanoseconds since the Unix epoch, or `i128::MIN` where it could not be read.
#[derive(Clone, Debug)]
pub struct PluginFile {
    pub filename: String,
    pub modified: i128,
}

/// Lexicographic comparison of byte strings: negative, zero or positive.
pub open spec fn bytes_cmp(a: Seq<u8>, b: Seq<u8>) -> int
    decreases a.len(),
{
    if a.len() == 0 {
        if b.len() == 0 {
            0
        } else {
            -1
        }
    } else if b.len() == 0 {
        1
    } else if a[0] < b[0] {
        -1
    } else if a[0] > b[0] {
        1
    } else {
        bytes_cmp(a.drop_first(), b.drop_first())
    }
}

pub proof fn lemma_bytes_cmp_antisymmetric(a: Seq<u8>, b: Seq<u8>)
    ensures
        bytes_cmp(a, b) == -bytes_cmp(b, a),
        -1 <= bytes_cmp(a, b) <= 1,
    decreases a.len(),
{
    if a.len() > 0 && b.len() > 0 && a[0] == b[0] {
        lemma_bytes_cmp_antisymmetric(a.drop_first(), b.drop_first());
    }
}

pub proof fn lemma_bytes_cmp_transitive(a: Seq<u8>, b: Seq<u8>, c: Seq<u8>)
    requires
        bytes_cmp(a, b) <= 0,
        bytes_cmp(b, c) <= 0,
    ensures
        bytes_cmp(a, c) <= 0,
    decreases a.len(),
{
    if a.len() > 0 && b.len() > 0 && c.len() > 0 && a[0] == b[0] && b[0] == c[0] {
        lemma_bytes_cmp_transitive(a.drop_first(), b.drop_first(), c.drop_first());
    }
}

/// The UTF-8 bytes of a file name.
pub open spec fn name_bytes(f: PluginFile) -> Seq<u8> {
    vstd::utf8::encode_utf8(f.filename@)
}

/// `a` may come before `b`: older first; on equal times, names ascending for
/// Starfield and descending for the other games.
pub open spec fn file_le(a: PluginFile, b: PluginFile, game: GameId) -> bool {
    a.modified < b.modified || (a.modified == b.modified && if game == GameId::Starfield {
        bytes_cmp(name_bytes(a), name_bytes(b)) <= 0
    } else {
        bytes_cmp(name_bytes(b), name_bytes(a)) <= 0
    })
}

pub proof fn lemma_file_le_total(a: PluginFile, b: PluginFile, game: GameId)
    ensures
        file_le(a, b, game) || file_le(b, a, game),
{
    lemma_bytes_cmp_antisymmetric(name_bytes(a), name_bytes(b));
}

pub proof fn lemma_file_le_transitive(a: PluginFile, b: PluginFile, c: PluginFile, game: GameId)
    requires
        file_le(a, b, game),
        file_le(b, c, game),
    ensures
        file_le(a, c, game),
{
    if a.modified == b.modified && b.modified == c.modified {
        if game == GameId::Starfield {
            lemma_bytes_cmp_transitive(name_bytes(a), name_bytes(b), name_bytes(c));
        } else {
            lemma_bytes_cmp_transitive(name_bytes(c), name_bytes(b), name_bytes(a));
        }
    }
}

/// `s` is ordered by `file_le`.
pub open spec fn files_sorted(s: Seq<PluginFile>, game: GameId) -> bool {
    forall|a: int, b: int| 0 <= a < b < s.len() ==> file_le(#[trigger] s[a], #[trigger] s[b], game)
}

/// The files of `s` whose names are plugin names of `game`.
pub open spec fn plugin_files(s: Seq<PluginFile>, game: GameId) -> Seq<PluginFile> {
    s.filter(|f: PluginFile| is_plugin_filename(f.filename@, game))
}

/// The files of `s` in order, keeping the first file of each identity.
pub open spec fn first_files(s: Seq<PluginFile>) -> Seq<PluginFile>
    decreases s.len(),
{
    if s.len() == 0 {
        seq![]
    } else if exists|j: int|
        0 <= j < s.len() - 1 && plugin_key((#[trigger] s[j]).filename@) == plugin_key(
            s.last().filename@,
        ) {
        first_files(s.drop_last())
    } else {
        first_files(s.drop_last()).push(s.last())
    }
}

/// The names of files.
pub open spec fn file_names(s: Seq<PluginFile>) -> Seq<Seq<char>> {
    s.map_values(|f: PluginFile| f.filename@)
}

/// Byte-wise comparison of two names.
fn compare_names(a: &str, b: &str) -> (r: i8)
    ensures
        r as int == bytes_cmp(vstd::utf8::encode_utf8(a@), vstd::utf8::encode_utf8(b@)),
{
    let x = a.as_bytes();
    let y = b.as_bytes();
    let mut i: usize = 0;
    proof {
        assert(x@.skip(0) =~= x@);
        assert(y@.skip(0) =~= y@);
    }
    while i < x.len() && i < y.len()
        invariant
            x@ == vstd::utf8::encode_utf8(a@),
            y@ == vstd::utf8::encode_utf8(b@),
            i <= x@.len(),
            i <= y@.len(),
            bytes_cmp(x@, y@) == bytes_cmp(x@.skip(i as int), y@.skip(i as int)),
        decreases x@.len() - i,
    {
        let ghost xs = x@.skip(i as int);
        let ghost ys = y@.skip(i as int);
        assert(xs[0] == x@[i as int]);
        assert(ys[0] == y@[i as int]);
        if x[i] < y[i] {
            return -1;
        }
        if x[i] > y[i] {
            return 1;
        }
        assert(xs.drop_first() =~= x@.skip(i + 1));
        assert(ys.drop_first() =~= y@.skip(i + 1));
        i = i + 1;
    }
    if i < x.len() {
        1
    } else if i < y.len() {
        -1
    } else {
        0
    }
}

fn file_le_exec(a: &PluginFile, b: &PluginFile, game: GameId) -> (r: bool)
    ensures
        r == file_le(*a, *b, game),
{
    if a.modified < b.modified {
        return true;
    }
    if a.modified > b.modified {
        return false;
    }
    if game == GameId::Starfield {
        compare_names(a.filename.as_str(), b.filename.as_str()) <= 0
    } else {
        compare_names(b.filename.as_str(), a.filename.as_str()) <= 0
    }
}

/// Sorts files by `file_le`, keeping every file.
pub fn sort_plugin_files(files: Vec<PluginFile>, game: GameId) -> (r: Vec<PluginFile>)
    ensures
        files_sorted(r@, game),
        r@.to_multiset() == files@.to_multiset(),
{
    let mut v = files;
    let mut i: usize = 1;
    if v.len() == 0 {
        return v;
    }
    while i < v.len()
        invariant
            1 <= i <= v@.len(),
            v@.to_multiset() == files@.to_multiset(),
            files_sorted(v@.take(i as int), game),
        decreases v@.len() - i,
    {
        let ghost before = v@;
        let x = v.remove(i);
        let mut p: usize = i;
        while p > 0 && !file_le_exec(&v[p - 1], &x, game)
            invariant
                p <= i,
                i <= v@.len(),
                v@ == before.remove(i as int),
                files_sorted(v@.take(i as int), game),
                forall|q: int| p <= q < i ==> file_le(x, #[trigger] v@[q], game),
            decreases p,
        {
            proof {
                lemma_file_le_total(v@[p - 1], x, game);
            }
            p = p - 1;
        }
        let ghost mid = v@;
        v.insert(p, x);
        proof {
            to_multiset_insert(mid, p as int, x);
            assert(v@.to_multiset() == files@.to_multiset()) by {
                assert(mid.insert(i as int, x) =~= before);
                to_multiset_insert(mid, i as int, x);
            }
            let s = v@.take(i + 1);
            assert forall|a: int, b: int| 0 <= a < b < s.len() implies file_le(
                #[trigger] s[a],
                #[trigger] s[b],
                game,
            ) by {
                let m = mid.take(i as int);
                if b < p {
                    assert(s[a] == m[a] && s[b] == m[b]);
                } else if b == p {
                    assert(s[b] == x);
                    if a < p - 1 {
                        assert(s[a] == m[a]);
                        assert(file_le(m[a], m[p - 1], game));
                        lemma_file_le_transitive(m[a], m[p - 1], x, game);
                    } else {
                        assert(s[a] == m[p - 1]);
                    }
                } else if a == p {
                    assert(s[a] == x);
                    assert(s[b] == m[b - 1]);
                } else if a < p {
                    assert(s[a] == m[a]);
                    assert(s[b] == m[b - 1]);
                    assert(file_le(m[a], m[b - 1], game));
                } else {
                    assert(s[a] == m[a - 1]);
                    assert(s[b] == m[b - 1]);
                }
            }
        }
        i = i + 1;
    }
    assert(v@.take(i as int) =~= v@);
    v
}

/// The files whose names are plugin names of `game`, in their given order.
pub fn filter_plugin_files(files: &Vec<PluginFile>, game: GameId) -> (r: Vec<PluginFile>)
    ensures
        r@ == plugin_files(files@, game),
{
    let mut out: Vec<PluginFile> = Vec::new();
    let mut i: usize = 0;
    while i < files.len()
        invariant
            i <= files@.len(),
            out@ == plugin_files(files@.take(i as int), game),
        decreases files@.len() - i,
    {
        let ghost pre = files@.take(i + 1);
        assert(pre.drop_last() =~= files@.take(i as int));
        assert(pre.last() == files@[i as int]);
        proof {
            reveal(Seq::filter);
        }
        if has_plugin_extension(files[i].filename.as_str(), game) {
            let f = PluginFile { filename: files[i].filename.clone(), modified: files[i].modified };
            out.push(f);
        }
        i = i + 1;
    }
    assert(files@.take(i as int) =~= files@);
    out
}

/// The names of the files, the first of each identity kept.
pub fn first_files_of(files: &Vec<PluginFile>) -> (r: Vec<PluginFile>)
    ensures
        r@ == first_files(files@),
{
    let mut out: Vec<PluginFile> = Vec::new();
    let mut keys: Vec<String> = Vec::new();
    let mut i: usize = 0;
    while i < files.len()
        invariant
            i <= files@.len(),
            out@ == first_files(files@.take(i as int)),
            forall|j: int|
                0 <= j < i ==> exists|q: int|
                    0 <= q < keys@.len() && (#[trigger] keys@[q])@ == plugin_key(
                        (#[trigger] files@[j]).filename@,
                    ),
            forall|q: int|
                0 <= q < keys@.len() ==> exists|j: int|
                    0 <= j < i && (#[trigger] keys@[q])@ == plugin_key(
                        (#[trigger] files@[j]).filename@,
                    ),
        decreases files@.len() - i,
    {
        let ghost pre = files@.take(i + 1);
        assert(pre.drop_last() =~= files@.take(i as int));
        assert(pre.last() == files@[i as int]);
        let k = plugin_name_key(files[i].filename.as_str());
        let mut found = false;
        let mut q: usize = 0;
        while q < keys.len()
            invariant
                q <= keys@.len(),
                found == exists|t: int| 0 <= t < q && (#[trigger] keys@[t])@ == k@,
            decreases keys@.len() - q,
        {
            if keys[q] == k {
                found = true;
            }
            q = q + 1;
        }
        proof {
            if found {
                let t = choose|t: int| 0 <= t < keys@.len() && (#[trigger] keys@[t])@ == k@;
                let j = choose|j: int|
                    0 <= j < i && (#[trigger] keys@[t])@ == plugin_key((#[trigger] files@[j]).filename@);
                assert(pre[j] == files@[j]);
            } else {
                assert forall|j: int| 0 <= j < pre.len() - 1 implies plugin_key(
                    (#[trigger] pre[j]).filename@,
                ) != plugin_key(pre.last().filename@) by {
                    assert(pre[j] == files@[j]);
                    let t = choose|t: int|
                        0 <= t < keys@.len() && (#[trigger] keys@[t])@ == plugin_key(
                            files@[j].filename@,
                        );
                }
            }
        }
        if !found {
            let ghost old_out = out@;
            let ghost old_keys = keys@;
            out.push(PluginFile { filename: files[i].filename.clone(), modified: files[i].modified });
            keys.push(k);
            proof {
                assert(out@ =~= old_out.push(files@[i as int]));
                assert forall|j: int| 0 <= j < i + 1 implies exists|q: int|
                    0 <= q < keys@.len() && (#[trigger] keys@[q])@ == plugin_key(
                        (#[trigger] files@[j]).filename@,
                    ) by {
                    if j == i {
                        assert(keys@[old_keys.len() as int]@ == k@);
                    } else {
                        let q = choose|q: int|
                            0 <= q < old_keys.len() && (#[trigger] old_keys[q])@ == plugin_key(
                                files@[j].filename@,
                            );
                        assert(keys@[q] == old_keys[q]);
                    }
                }
                assert forall|q: int| 0 <= q < keys@.len() implies exists|j: int|
                    0 <= j < i + 1 && (#[trigger] keys@[q])@ == plugin_key(
                        (#[trigger] files@[j]).filename@,
                    ) by {
                    if q == old_keys.len() {
                        assert(keys@[q]@ == plugin_key(files@[i as int].filename@));
                    } else {
                        assert(keys@[q] == old_keys[q]);
                        let j = choose|j: int|
                            0 <= j < i && (#[trigger] old_keys[q])@ == plugin_key(
                                (#[trigger] files@[j]).filename@,
                            );
                    }
                }
            }
        }
        i = i + 1;
    }
    assert(files@.take(i as int) =~= files@);
    out
}

/// The names of the files, in order.
pub fn names_of_files(files: &Vec<PluginFile>) -> (r: Vec<String>)
    ensures
        r@.map_values(|n: String| n@) == file_names(files@),
{
    let mut out: Vec<String> = Vec::new();
    let mut i: usize = 0;
    while i < files.len()
        invariant
            i <= files@.len(),
            out@.map_values(|n: String| n@) =~= file_names(files@.take(i as int)),
        decreases files@.len() - i,
    {
        let ghost old_out = out@;
        out.push(files[i].filename.clone());
        assert(out@.map_values(|n: String| n@) =~= old_out.map_values(|n: String| n@).push(
            files@[i as int].filename@,
        ));
        assert(file_names(files@.take(i + 1)) =~= file_names(files@.take(i as int)).push(
            files@[i as int].filename@,
        ));
        i = i + 1;
    }
    assert(files@.take(i as int) =~= files@);
    out
}

/// The plugin file names of a directory scan: files that are not plugins of
/// `game` dropped, one file kept per identity, the first as listed, and those
/// ordered by modification time (ties by name, ascending for Starfield and
/// descending otherwise). Where a game reads several directories, the caller
/// lists the files of the directories that take precedence first.
pub fn find_plugins_in_dirs(files: Vec<PluginFile>, game: GameId) -> (r: Vec<String>)
    ensures
        exists|s: Seq<PluginFile>|
            files_sorted(s, game) && s.to_multiset() == first_files(
                plugin_files(files@, game),
            ).to_multiset() && r@.map_values(|n: String| n@) == file_names(s),
{
    let filtered = filter_plugin_files(&files, game);
    let unique = first_files_of(&filtered);
    let sorted = sort_plugin_files(unique, game);
    let names = names_of_files(&sorted);
    assert(files_sorted(sorted@, game) && sorted@.to_multiset() == first_files(
        plugin_files(files@, game),
    ).to_multiset() && names@.map_values(|n: String| n@) == file_names(sorted@));
    names
}

} // verus!
