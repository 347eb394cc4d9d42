//! Properties that relate several operations or hold of every load order.

use crate::codec::{
    all_valid_utf8, decoded_utf8_lines, is_plugin_line, lines_from, plugin_lines, strip_cr,
    text_lines,
};
use crate::identity::{names_match, plugin_key};
use crate::mutable::{key_position_ok, MutableLoadOrder};
use crate::textfile_based::{load_order_file_names, plugin_names_of, utf8_lines, TextfileBasedLoadOrder};
use vstd::prelude::*;
use vstd::utf8::{
    char_u32_cast, encode_scalar, encode_utf8, encode_utf8_decode_utf8, encode_utf8_valid_utf8,
    has_width_1_encoding, has_width_2_encoding, has_width_3_encoding,
};

verus! {

/// Looking a plugin up ignores case and a `.ghost` suffix: two names that
/// denote the same plugin give the same answer, and in a well-formed load
/// order a name denotes at most one position.
pub proof fn index_of_is_identity_lookup(
    load_order: MutableLoadOrder,
    name1: Seq<char>,
    name2: Seq<char>,
    r1: Option<usize>,
    r2: Option<usize>,
)
    requires
        load_order.wf(),
        names_match(name1, name2),
        key_position_ok(load_order.plugins@, plugin_key(name1), r1),
        key_position_ok(load_order.plugins@, plugin_key(name2), r2),
    ensures
        r1 == r2,
        forall|i: int, j: int|
            0 <= i < load_order.plugins@.len() && 0 <= j < load_order.plugins@.len()
                && (#[trigger] load_order.plugins@[i]).key@ == plugin_key(name1)
                && (#[trigger] load_order.plugins@[j]).key@ == plugin_key(name1) ==> i == j,
{
    let ps = load_order.plugins@;
    match (r1, r2) {
        (Some(a), Some(b)) => {
            if a < b {
                assert(ps[a as int].key@ != plugin_key(name2));
            } else if b < a {
                assert(ps[b as int].key@ != plugin_key(name1));
            }
        },
        (Some(a), None) => {
            assert(ps[a as int].key@ == plugin_key(name2));
        },
        (None, Some(b)) => {
            assert(ps[b as int].key@ == plugin_key(name1));
        },
        (None, None) => {},
    }
}

/// A name that a text file can hold on a line of its own and give back: not
/// empty, not a `#` comment, with no line feed and not ending in a carriage
/// return.
pub open spec fn plain_name(n: Seq<char>) -> bool {
    &&& is_plugin_line(n)
    &&& forall|j: int| 0 <= j < n.len() ==> #[trigger] n[j] != '\n'
    &&& n.last() != '\r'
}

/// No byte of a character's UTF-8 encoding is the ASCII byte `b`, unless the
/// character is `b`.
proof fn lemma_scalar_avoids(c: char, b: u8)
    requires
        b < 0x80,
        c as u32 != b as u32,
    ensures
        forall|j: int|
            0 <= j < encode_scalar(c as u32).len() ==> #[trigger] encode_scalar(c as u32)[j] != b,
{
    let v = c as u32;
    let e = encode_scalar(v);
    if has_width_1_encoding(v) {
        assert((v & 0x7F) == v) by (bit_vector)
            requires
                v <= 0x7F,
        ;
        assert(e[0] == (v & 0x7F) as u8);
    } else {
        let y2 = ((v >> 6) & 0x1F) as u8;
        let y3 = ((v >> 12) & 0x0F) as u8;
        let y4 = ((v >> 18) & 0x7) as u8;
        let c1 = (v & 0x3F) as u8;
        let c2 = ((v >> 6) & 0x3F) as u8;
        let c3 = ((v >> 12) & 0x3F) as u8;
        assert((0xC0u8 | y2) >= 0x80u8) by (bit_vector);
        assert((0xE0u8 | y3) >= 0x80u8) by (bit_vector);
        assert((0xF0u8 | y4) >= 0x80u8) by (bit_vector);
        assert((0x80u8 | c1) >= 0x80u8) by (bit_vector);
        assert((0x80u8 | c2) >= 0x80u8) by (bit_vector);
        assert((0x80u8 | c3) >= 0x80u8) by (bit_vector);
        assert forall|j: int| 0 <= j < e.len() implies #[trigger] e[j] >= 0x80u8 by {
            if has_width_2_encoding(v) {
            } else if has_width_3_encoding(v) {
            } else {
            }
        }
    }
}

/// The UTF-8 encoding of characters that are not the ASCII byte `b` holds no `b`.
proof fn lemma_encoding_avoids(n: Seq<char>, b: u8)
    requires
        b < 0x80,
        forall|j: int| 0 <= j < n.len() ==> (#[trigger] n[j]) as u32 != b as u32,
    ensures
        forall|j: int| 0 <= j < encode_utf8(n).len() ==> #[trigger] encode_utf8(n)[j] != b,
    decreases n.len(),
{
    if n.len() > 0 {
        lemma_scalar_avoids(n[0], b);
        let rest = n.drop_first();
        assert forall|j: int| 0 <= j < rest.len() implies (#[trigger] rest[j]) as u32 != b as u32 by {
            assert(rest[j] == n[j + 1]);
        }
        lemma_encoding_avoids(rest, b);
        let es = encode_scalar(n[0] as u32);
        assert forall|j: int| 0 <= j < encode_utf8(n).len() implies #[trigger] encode_utf8(n)[j]
            != b by {
            if j >= es.len() {
                assert(encode_utf8(n)[j] == encode_utf8(rest)[j - es.len()]);
            }
        }
    }
}

/// UTF-8 encoding distributes over concatenation.
proof fn lemma_encode_concat(a: Seq<char>, b: Seq<char>)
    ensures
        encode_utf8(a + b) == encode_utf8(a) + encode_utf8(b),
    decreases a.len(),
{
    if a.len() == 0 {
        assert(a + b =~= b);
    } else {
        assert((a + b)[0] == a[0]);
        assert((a + b).drop_first() =~= a.drop_first() + b);
        lemma_encode_concat(a.drop_first(), b);
        assert(encode_utf8(a + b) =~= encode_utf8(a) + encode_utf8(b));
    }
}

/// A character other than `d`, whose code is the byte `b`, does not have
/// the code `b`.
proof fn lemma_char_not_byte(c: char, d: char, b: u8)
    requires
        c != d,
        d as u32 == b as u32,
    ensures
        c as u32 != b as u32,
{
    if c as u32 == b as u32 {
        char_u32_cast(c, c as u32);
        char_u32_cast(d, d as u32);
    }
}

/// The encoding of a plain name has no line feed and does not end in a
/// carriage return.
proof fn lemma_plain_encoding(n: Seq<char>)
    requires
        plain_name(n),
    ensures
        forall|j: int| 0 <= j < encode_utf8(n).len() ==> #[trigger] encode_utf8(n)[j] != 10u8,
        encode_utf8(n).len() > 0,
        encode_utf8(n).last() != 13u8,
        strip_cr(encode_utf8(n)) == encode_utf8(n),
{
    assert forall|j: int| 0 <= j < n.len() implies (#[trigger] n[j]) as u32 != 10u8 as u32 by {
        lemma_char_not_byte(n[j], '\n', 10u8);
    }
    lemma_encoding_avoids(n, 10u8);
    let init = n.drop_last();
    let last = n.last();
    assert(n =~= init + seq![last]);
    lemma_encode_concat(init, seq![last]);
    assert(seq![last].drop_first() =~= Seq::<char>::empty());
    assert(seq![last][0] == last);
    assert(encode_utf8(Seq::<char>::empty()) =~= Seq::<u8>::empty());
    assert(encode_utf8(seq![last]) == encode_scalar(last as u32) + encode_utf8(
        seq![last].drop_first(),
    ));
    assert(encode_utf8(seq![last]) =~= encode_scalar(last as u32));
    lemma_char_not_byte(last, '\r', 13u8);
    lemma_scalar_avoids(last, 13u8);
    let es = encode_scalar(last as u32);
    assert(es.len() > 0);
    assert(encode_utf8(n).last() == es.last());
}

/// A line of bytes without a line feed, ended by one, is one line.
proof fn lemma_lines_from_line(b: Seq<u8>, rest: Seq<u8>, cur: Seq<u8>)
    requires
        forall|j: int| 0 <= j < b.len() ==> #[trigger] b[j] != 10u8,
    ensures
        lines_from(b + seq![10u8] + rest, cur) == seq![strip_cr(cur + b)] + lines_from(
            rest,
            seq![],
        ),
    decreases b.len(),
{
    let s = b + seq![10u8] + rest;
    if b.len() == 0 {
        assert(s[0] == 10u8);
        assert(s.drop_first() =~= rest);
        assert(cur + b =~= cur);
    } else {
        assert(s[0] == b[0]);
        assert(s.drop_first() =~= b.drop_first() + seq![10u8] + rest);
        assert forall|j: int| 0 <= j < b.drop_first().len() implies #[trigger] b.drop_first()[j]
            != 10u8 by {
            assert(b.drop_first()[j] == b[j + 1]);
        }
        lemma_lines_from_line(b.drop_first(), rest, cur.push(b[0]));
        assert(cur.push(b[0]) + b.drop_first() =~= cur + b);
    }
}

/// The lines written for `names` split off the first name's line.
proof fn lemma_utf8_lines_front(names: Seq<Seq<char>>)
    requires
        names.len() > 0,
    ensures
        utf8_lines(names) == encode_utf8(names[0]) + seq![10u8] + utf8_lines(names.drop_first()),
    decreases names.len(),
{
    if names.len() == 1 {
        assert(names.drop_last() =~= Seq::<Seq<char>>::empty());
        assert(names.drop_first() =~= Seq::<Seq<char>>::empty());
        assert(utf8_lines(names.drop_last()) =~= Seq::<u8>::empty());
        assert(names.last() == names[0]);
        assert(utf8_lines(names) == utf8_lines(names.drop_last()) + encode_utf8(names.last())
            + seq![10u8]);
        assert(utf8_lines(names) =~= encode_utf8(names[0]) + seq![10u8]);
        assert(utf8_lines(names.drop_first()) =~= Seq::<u8>::empty());
        assert(encode_utf8(names[0]) + seq![10u8] + Seq::<u8>::empty() =~= encode_utf8(names[0])
            + seq![10u8]);
    } else {
        lemma_utf8_lines_front(names.drop_last());
        assert(names.drop_last()[0] == names[0]);
        assert(names.drop_last().drop_first() =~= names.drop_first().drop_last());
        assert(names.drop_first().last() == names.last());
        assert(utf8_lines(names) =~= encode_utf8(names[0]) + seq![10u8] + utf8_lines(
            names.drop_first(),
        ));
    }
}

/// Splitting what was written for plain names gives back their encodings.
proof fn lemma_text_lines_of_written(names: Seq<Seq<char>>)
    requires
        forall|i: int| 0 <= i < names.len() ==> plain_name(#[trigger] names[i]),
    ensures
        text_lines(utf8_lines(names)) == names.map_values(|n: Seq<char>| encode_utf8(n)),
    decreases names.len(),
{
    if names.len() == 0 {
        assert(utf8_lines(names) =~= Seq::<u8>::empty());
        assert(names.map_values(|n: Seq<char>| encode_utf8(n)) =~= Seq::<Seq<u8>>::empty());
    } else {
        let rest = names.drop_first();
        assert forall|i: int| 0 <= i < rest.len() implies plain_name(#[trigger] rest[i]) by {
            assert(rest[i] == names[i + 1]);
        }
        lemma_text_lines_of_written(rest);
        lemma_utf8_lines_front(names);
        assert(plain_name(names[0]));
        lemma_plain_encoding(names[0]);
        lemma_lines_from_line(encode_utf8(names[0]), utf8_lines(rest), seq![]);
        assert(Seq::<u8>::empty() + encode_utf8(names[0]) =~= encode_utf8(names[0]));
        assert(names.map_values(|n: Seq<char>| encode_utf8(n)) =~= seq![encode_utf8(names[0])]
            + rest.map_values(|n: Seq<char>| encode_utf8(n)));
    }
}

/// Plain names all survive the filter of comment and empty lines.
proof fn lemma_plugin_lines_of_plain(names: Seq<Seq<char>>)
    requires
        forall|i: int| 0 <= i < names.len() ==> plain_name(#[trigger] names[i]),
    ensures
        plugin_lines(names) == names,
    decreases names.len(),
{
    if names.len() > 0 {
        let init = names.drop_last();
        assert forall|i: int| 0 <= i < init.len() implies plain_name(#[trigger] init[i]) by {
            assert(init[i] == names[i]);
        }
        lemma_plugin_lines_of_plain(init);
        assert(plain_name(names[names.len() - 1]));
        assert(init.push(names.last()) =~= names);
    }
}

/// The load order file that `save_load_order` writes reads back as the same
/// plugin names, in the same order, where every name is plain.
pub proof fn load_order_file_round_trip(load_order: TextfileBasedLoadOrder)
    requires
        forall|i: int|
            0 <= i < load_order.plugins_view().len() ==> plain_name(
                (#[trigger] load_order.plugins_view()[i]).name@,
            ),
    ensures
        load_order_file_names(utf8_lines(plugin_names_of(load_order.plugins_view()))) == Some(
            plugin_names_of(load_order.plugins_view()),
        ),
{
    let names = plugin_names_of(load_order.plugins_view());
    assert forall|i: int| 0 <= i < names.len() implies plain_name(#[trigger] names[i]) by {
        assert(names[i] == load_order.plugins_view()[i].name@);
    }
    lemma_text_lines_of_written(names);
    let lines = names.map_values(|n: Seq<char>| encode_utf8(n));
    assert(all_valid_utf8(lines)) by {
        assert forall|i: int| 0 <= i < lines.len() implies #[trigger] vstd::utf8::valid_utf8(
            lines[i],
        ) by {
            encode_utf8_valid_utf8(names[i]);
        }
    }
    assert(decoded_utf8_lines(lines) =~= names) by {
        assert forall|i: int| 0 <= i < names.len() implies #[trigger] decoded_utf8_lines(lines)[i]
            == names[i] by {
            encode_utf8_decode_utf8(names[i]);
        }
    }
    lemma_plugin_lines_of_plain(names);
}

} // verus!
