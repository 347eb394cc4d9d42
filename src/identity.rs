//! Plugin identity: names compare case-insensitively, with a trailing
//! `.ghost` suffix ignored.

use crate::enums::{game_supports_light_plugins, GameId};
use vstd::prelude::*;

verus! {

/// What Unicode case folding makes of a text.
pub uninterp spec fn folded_case(s: Seq<char>) -> Seq<char>;

/// Relies on `unicase::UniCase::to_folded_case`: every character mapped to its
/// case-folded form (ASCII lowercasing for ASCII text), a result that depends on
/// the text alone.
#[verifier::external_body]
fn fold_case(s: &str) -> (r: String)
    ensures
        r@ == folded_case(s@),
{
    unicase::UniCase::new(s).to_folded_case()
}

/// `c` is `lower` or, where `lower` is an ASCII lowercase letter, its uppercase form.
pub open spec fn ascii_ci_char_eq(c: char, lower: char) -> bool {
    c == lower || ('a' <= lower && lower <= 'z' && c as u32 + 32 == lower as u32)
}

/// `s` ends with `suffix` (given in lowercase), ignoring ASCII case.
pub open spec fn ends_with_ci(s: Seq<char>, suffix: Seq<char>) -> bool {
    s.len() >= suffix.len() && forall|i: int|
        0 <= i < suffix.len() ==> ascii_ci_char_eq(
            #[trigger] s[s.len() - suffix.len() + i],
            suffix[i],
        )
}

pub open spec fn ghost_suffix() -> Seq<char> {
    seq!['.', 'g', 'h', 'o', 's', 't']
}

/// A name with one trailing `.ghost` (in any ASCII case) removed.
pub open spec fn trim_ghost(s: Seq<char>) -> Seq<char> {
    if ends_with_ci(s, ghost_suffix()) {
        s.subrange(0, s.len() - 6)
    } else {
        s
    }
}

/// The identity of a plugin name: its case-folded form without `.ghost`.
pub open spec fn plugin_key(name: Seq<char>) -> Seq<char> {
    folded_case(trim_ghost(name))
}

/// A plugin file name keeps no `.ghost` suffix once one is removed.
pub proof fn lemma_plugin_filename_trimmed(name: Seq<char>, game: GameId)
    requires
        is_plugin_filename(name, game),
    ensures
        !ends_with_ci(trim_ghost(name), ghost_suffix()),
{
    let t = trim_ghost(name);
    if ends_with_ci(t, ghost_suffix()) {
        assert(ascii_ci_char_eq(t[t.len() - 6 + 5], 't'));
        assert(t.len() - 6 + 5 == t.len() - 4 + 3);
    }
}

/// A name without a `.ghost` suffix is its own identity once folded.
pub proof fn lemma_clean_name_key(name: Seq<char>)
    requires
        !ends_with_ci(name, ghost_suffix()),
    ensures
        plugin_key(name) == folded_case(name),
{
}

/// Two names denote the same plugin.
pub open spec fn names_match(a: Seq<char>, b: Seq<char>) -> bool {
    plugin_key(a) == plugin_key(b)
}

/// The extensions that make a file a plugin of `game`; `.ghost` is transparent.
pub open spec fn is_plugin_filename(name: Seq<char>, game: GameId) -> bool {
    let t = trim_ghost(name);
    ends_with_ci(t, seq!['.', 'e', 's', 'p']) || ends_with_ci(t, seq!['.', 'e', 's', 'm'])
        || (game_supports_light_plugins(game) && ends_with_ci(t, seq!['.', 'e', 's', 'l']))
}

fn ascii_ci_eq_char(c: char, lower: char) -> (r: bool)
    ensures
        r == ascii_ci_char_eq(c, lower),
{
    c == lower || ('a' <= lower && lower <= 'z' && (c as u32) + 32 == (lower as u32))
}

/// Whether the last characters of `s` are `suffix`, ignoring ASCII case.
fn ends_with_ascii_ci(s: &str, len: usize, suffix: &[char]) -> (r: bool)
    requires
        len == s@.len(),
    ensures
        r == ends_with_ci(s@, suffix@),
{
    let n = suffix.len();
    if len < n {
        return false;
    }
    let mut i: usize = 0;
    while i < n
        invariant
            n == suffix@.len(),
            len == s@.len(),
            n <= len,
            i <= n,
            forall|j: int| 0 <= j < i ==> ascii_ci_char_eq(#[trigger] s@[len - n + j], suffix@[j]),
        decreases n - i,
    {
        if !ascii_ci_eq_char(s.get_char(len - n + i), suffix[i]) {
            return false;
        }
        i = i + 1;
    }
    true
}

/// Removes one trailing `.ghost` suffix, in any ASCII case.
pub fn trim_dot_ghost(name: &str) -> (r: &str)
    ensures
        r@ == trim_ghost(name@),
{
    let len = name.unicode_len();
    let suffix = ['.', 'g', 'h', 'o', 's', 't'];
    let found = ends_with_ascii_ci(name, len, suffix.as_slice());
    proof {
        assert(suffix@ == ghost_suffix());
    }
    if found {
        name.substring_char(0, len - 6)
    } else {
        name
    }
}

/// The identity key of a plugin name.
pub fn plugin_name_key(name: &str) -> (r: String)
    ensures
        r@ == plugin_key(name@),
{
    fold_case(trim_dot_ghost(name))
}

/// Whether two names denote the same plugin.
pub fn plugin_names_match(name1: &str, name2: &str) -> (r: bool)
    ensures
        r == names_match(name1@, name2@),
{
    let k1 = plugin_name_key(name1);
    let k2 = plugin_name_key(name2);
    k1 == k2
}

/// Whether a file name has an extension that `game` loads as a plugin.
pub fn has_plugin_extension(filename: &str, game: GameId) -> (r: bool)
    ensures
        r == is_plugin_filename(filename@, game),
{
    let t = trim_dot_ghost(filename);
    let len = t.unicode_len();
    let esp = ['.', 'e', 's', 'p'];
    let esm = ['.', 'e', 's', 'm'];
    let esl = ['.', 'e', 's', 'l'];
    proof {
        assert(esp@ == seq!['.', 'e', 's', 'p']);
        assert(esm@ == seq!['.', 'e', 's', 'm']);
        assert(esl@ == seq!['.', 'e', 's', 'l']);
    }
    ends_with_ascii_ci(t, len, esp.as_slice()) || ends_with_ascii_ci(t, len, esm.as_slice()) || (
    game.supports_light_plugins() && ends_with_ascii_ci(t, len, esl.as_slice()))
}

} // verus!
