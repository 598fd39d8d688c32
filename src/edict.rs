//! The dictionary index.
//!
//! A dictionary file starts with a header line; each other line is a record
//! `<headwords> [<readings>] /<glosses>/.../` or `<headwords> /<glosses>/.../`,
//! where the headwords and the readings are separated by `;` and may end
//! with a marker such as `(P)`. A record is indexed under each of its
//! headwords and readings, without the marker.
use vstd::prelude::*;
use vstd::hash_map::StringHashMap;

use crate::error::Error;
use crate::text::{
    chars_of, copy_range, find, find_in, lines, lines_of, split, split_chars, split_once,
    starts_with, string_of, appended, views,
};

verus! {

/// The type of a record whose glosses name no grammatical class.
pub const GENERIC_TYPE: u32 = 0x80;

/// The separator between the keys and the glosses of a record.
pub const EXPECTED_GLOSSES: &'static str = " /";

/// The end of the tag list that opens the glosses.
pub const EXPECTED_TAGS_END: &'static str = ")";

/// The end of the readings of a record.
pub const EXPECTED_READINGS_END: &'static str = "] /";

/// The end of the headwords of a record without readings.
pub const EXPECTED_SPACE: &'static str = " ";

/// One record of the dictionary with the grammatical classes of its glosses.
pub struct EdictEntry {
    pub line: String,
    pub type_: u32,
}

impl View for EdictEntry {
    type V = (Seq<char>, u32);

    open spec fn view(&self) -> (Seq<char>, u32) {
        (self.line@, self.type_)
    }
}

/// The class bit that one tag of a record's leading tag list gives.
pub open spec fn tag_bit(g: Seq<char>) -> u32 {
    if g == seq!['v', '1'] {
        1
    } else if starts_with(g, seq!['v', '5']) {
        2
    } else if g == seq!['a', 'd', 'j', '-', 'i'] {
        4
    } else if g == seq!['v', 'k'] {
        8
    } else if g == seq!['v', 's'] || starts_with(g, seq!['v', 's', '-']) {
        16
    } else {
        0
    }
}

/// The type that a list of tags gives: bit 7, and the bit of each tag.
pub open spec fn tags_type(gs: Seq<Seq<char>>) -> u32
    decreases gs.len(),
{
    if gs.len() == 0 {
        GENERIC_TYPE
    } else {
        tags_type(gs.drop_last()) | tag_bit(gs.last())
    }
}

/// A key without the marker that may end it: the text before the first `(`.
pub open spec fn strip_marker(k: Seq<char>) -> Seq<char> {
    match find(k, seq!['(']) {
        Some(i) => k.take(i as int),
        None => k,
    }
}

/// The type of a record from its glosses, `None` where the tag list that
/// opens them is not closed.
pub open spec fn record_type(meanings: Seq<char>) -> Option<u32> {
    if meanings.len() > 0 && meanings[0] == '(' {
        match split_once(meanings.drop_first(), seq![')']) {
            Some((tags, _)) => Some(tags_type(split(tags, ','))),
            None => None,
        }
    } else {
        Some(GENERIC_TYPE)
    }
}

/// The keys of a record, before their markers are removed, and its type; or
/// why line `lineno` is not a record.
pub open spec fn record(line: Seq<char>, lineno: nat) -> Result<(Seq<Seq<char>>, u32), Error> {
    let bad = |expected: &'static str| Error::ParseError { lineno: lineno as usize, expected };
    match split_once(line, seq![' ', '/']) {
        None => Err(bad(EXPECTED_GLOSSES)),
        Some((_, meanings)) => match record_type(meanings) {
            None => Err(bad(EXPECTED_TAGS_END)),
            Some(t) => match split_once(line, seq![' ', '[']) {
                Some((writings, rest)) => match split_once(rest, seq![']', ' ', '/']) {
                    Some((readings, _)) => Ok((split(writings, ';') + split(readings, ';'), t)),
                    None => Err(bad(EXPECTED_READINGS_END)),
                },
                None => match split_once(line, seq![' ']) {
                    Some((writings, _)) => Ok((split(writings, ';'), t)),
                    None => Err(bad(EXPECTED_SPACE)),
                },
            },
        },
    }
}

/// `m` with entry `e` added under each of `keys`, without their markers.
pub open spec fn insert_keys(
    m: Map<Seq<char>, Seq<(Seq<char>, u32)>>,
    keys: Seq<Seq<char>>,
    e: (Seq<char>, u32),
) -> Map<Seq<char>, Seq<(Seq<char>, u32)>>
    decreases keys.len(),
{
    if keys.len() == 0 {
        m
    } else {
        let before = insert_keys(m, keys.drop_last(), e);
        let k = strip_marker(keys.last());
        if before.contains_key(k) {
            before.insert(k, before[k].push(e))
        } else {
            before.insert(k, seq![e])
        }
    }
}

/// The index of a dictionary file's first `n` lines; the first line is a
/// header.
pub open spec fn dictionary_upto(lines: Seq<Seq<char>>, n: nat) -> Result<
    Map<Seq<char>, Seq<(Seq<char>, u32)>>,
    Error,
>
    decreases n,
{
    if n <= 1 || n > lines.len() {
        Ok(Map::empty())
    } else {
        match dictionary_upto(lines, (n - 1) as nat) {
            Ok(m) => match record(lines[n - 1], n) {
                Ok((keys, t)) => Ok(insert_keys(m, keys, (lines[n - 1], t))),
                Err(e) => Err(e),
            },
            Err(e) => Err(e),
        }
    }
}

/// The index of a dictionary file: each key with the records under it, in
/// the order of the file; or the first error in it.
pub open spec fn dictionary(data: Seq<char>) -> Result<Map<Seq<char>, Seq<(Seq<char>, u32)>>, Error> {
    dictionary_upto(lines_of(data), lines_of(data).len())
}

/// Once a line of a dictionary file is wrong, the file is.
pub proof fn lemma_dictionary_error_persists(lines: Seq<Seq<char>>, m: nat, n: nat)
    requires
        1 <= m <= n <= lines.len(),
        dictionary_upto(lines, m) is Err,
    ensures
        dictionary_upto(lines, n) == dictionary_upto(lines, m),
    decreases n,
{
    if n > m {
        lemma_dictionary_error_persists(lines, m, (n - 1) as nat);
    }
}

/// Adding an entry under keys keeps every entry that was there.
proof fn lemma_insert_keys_keeps(
    m: Map<Seq<char>, Seq<(Seq<char>, u32)>>,
    keys: Seq<Seq<char>>,
    e: (Seq<char>, u32),
    k: Seq<char>,
    x: (Seq<char>, u32),
)
    requires
        m.contains_key(k),
        m[k].contains(x),
    ensures
        insert_keys(m, keys, e).contains_key(k),
        insert_keys(m, keys, e)[k].contains(x),
    decreases keys.len(),
{
    if keys.len() > 0 {
        lemma_insert_keys_keeps(m, keys.drop_last(), e, k, x);
        let before = insert_keys(m, keys.drop_last(), e);
        let i = choose|i: int| 0 <= i < before[k].len() && before[k][i] == x;
        assert(before[k].push(e)[i] == x);
    }
}

/// An entry added under keys is found under each of them, without its
/// marker.
proof fn lemma_insert_keys_adds(
    m: Map<Seq<char>, Seq<(Seq<char>, u32)>>,
    keys: Seq<Seq<char>>,
    e: (Seq<char>, u32),
    j: int,
)
    requires
        0 <= j < keys.len(),
    ensures
        insert_keys(m, keys, e).contains_key(strip_marker(keys[j])),
        insert_keys(m, keys, e)[strip_marker(keys[j])].contains(e),
    decreases keys.len(),
{
    let before = insert_keys(m, keys.drop_last(), e);
    let k = strip_marker(keys.last());
    if j < keys.len() - 1 {
        lemma_insert_keys_adds(m, keys.drop_last(), e, j);
        assert(keys.drop_last()[j] == keys[j]);
        let kj = strip_marker(keys[j]);
        if kj == k {
            assert(before[k].push(e)[before[k].len() as int] == e);
        } else {
            lemma_insert_keys_keeps(before, seq![keys.last()], e, kj, e);
            assert(seq![keys.last()].drop_last() =~= seq![]);
        }
    } else {
        if before.contains_key(k) {
            assert(before[k].push(e)[before[k].len() as int] == e);
        } else {
            assert(seq![e][0] == e);
        }
    }
}

/// What the index of a file's first lines holds, the index of more lines
/// holds too.
proof fn lemma_dictionary_keeps(
    lines: Seq<Seq<char>>,
    a: nat,
    b: nat,
    k: Seq<char>,
    x: (Seq<char>, u32),
)
    requires
        1 <= a <= b <= lines.len(),
        dictionary_upto(lines, b) is Ok,
        dictionary_upto(lines, a) is Ok,
        dictionary_upto(lines, a)->Ok_0.contains_key(k),
        dictionary_upto(lines, a)->Ok_0[k].contains(x),
    ensures
        dictionary_upto(lines, b)->Ok_0.contains_key(k),
        dictionary_upto(lines, b)->Ok_0[k].contains(x),
    decreases b,
{
    if b > a {
        if dictionary_upto(lines, (b - 1) as nat) is Err {
            lemma_dictionary_error_persists(lines, (b - 1) as nat, b);
        }
        lemma_dictionary_keeps(lines, a, (b - 1) as nat, k, x);
        let m = dictionary_upto(lines, (b - 1) as nat)->Ok_0;
        let (keys, t) = record(lines[b - 1], b)->Ok_0;
        lemma_insert_keys_keeps(m, keys, (lines[b - 1], t), k, x);
    }
}

/// Each headword and each reading of a record in a dictionary file, without
/// its marker, leads to the record, with the type of its tags.
pub proof fn lemma_record_keys_indexed(data: Seq<char>, n: int, key: Seq<char>)
    requires
        dictionary(data) is Ok,
        1 <= n < lines_of(data).len(),
        record(lines_of(data)[n], (n + 1) as nat) is Ok,
        record(lines_of(data)[n], (n + 1) as nat)->Ok_0.0.contains(key),
    ensures
        dictionary(data)->Ok_0.contains_key(strip_marker(key)),
        dictionary(data)->Ok_0[strip_marker(key)].contains(
            (lines_of(data)[n], record(lines_of(data)[n], (n + 1) as nat)->Ok_0.1),
        ),
{
    let lines = lines_of(data);
    let (keys, t) = record(lines[n], (n + 1) as nat)->Ok_0;
    if dictionary_upto(lines, n as nat) is Err {
        lemma_dictionary_error_persists(lines, n as nat, lines.len());
    }
    let m = dictionary_upto(lines, n as nat)->Ok_0;
    let j = choose|j: int| 0 <= j < keys.len() && keys[j] == key;
    lemma_insert_keys_adds(m, keys, (lines[n], t), j);
    lemma_dictionary_keeps(lines, (n + 1) as nat, lines.len(), strip_marker(key), (lines[n], t));
}

/// Line `line` (numbered `lineno`) is a record with a key that is `k`
/// without its marker.
pub open spec fn keyed_by(line: Seq<char>, lineno: nat, k: Seq<char>) -> bool {
    &&& record(line, lineno) is Ok
    &&& exists|j: int|
        0 <= j < record(line, lineno)->Ok_0.0.len() && #[trigger] strip_marker(
            record(line, lineno)->Ok_0.0[j],
        ) == k
}

/// An entry under a key after adding `e` under `keys` was there before, or
/// is `e` under one of `keys`.
proof fn lemma_insert_keys_only(
    m: Map<Seq<char>, Seq<(Seq<char>, u32)>>,
    keys: Seq<Seq<char>>,
    e: (Seq<char>, u32),
    k: Seq<char>,
    x: (Seq<char>, u32),
)
    requires
        insert_keys(m, keys, e).contains_key(k),
        insert_keys(m, keys, e)[k].contains(x),
    ensures
        (m.contains_key(k) && m[k].contains(x)) || (x == e && exists|j: int|
            0 <= j < keys.len() && #[trigger] strip_marker(keys[j]) == k),
    decreases keys.len(),
{
    if keys.len() > 0 {
        let before = insert_keys(m, keys.drop_last(), e);
        let last = strip_marker(keys.last());
        let after = insert_keys(m, keys, e);
        if k == last {
            let i = choose|i: int| 0 <= i < after[k].len() && after[k][i] == x;
            if before.contains_key(k) && i < before[k].len() {
                assert(before[k][i] == x);
                lemma_insert_keys_only(m, keys.drop_last(), e, k, x);
                if !(m.contains_key(k) && m[k].contains(x)) {
                    let j = choose|j: int|
                        0 <= j < keys.drop_last().len() && #[trigger] strip_marker(
                            keys.drop_last()[j],
                        ) == k;
                    assert(strip_marker(keys[j]) == k);
                }
            } else {
                assert(x == e);
                assert(strip_marker(keys[keys.len() - 1]) == k);
            }
        } else {
            lemma_insert_keys_only(m, keys.drop_last(), e, k, x);
            if !(m.contains_key(k) && m[k].contains(x)) {
                let j = choose|j: int|
                    0 <= j < keys.drop_last().len() && #[trigger] strip_marker(keys.drop_last()[j])
                        == k;
                assert(strip_marker(keys[j]) == k);
            }
        }
    }
}

proof fn lemma_dictionary_only(lines: Seq<Seq<char>>, n: nat, k: Seq<char>, x: (Seq<char>, u32))
    requires
        n <= lines.len(),
        dictionary_upto(lines, n) is Ok,
        dictionary_upto(lines, n)->Ok_0.contains_key(k),
        dictionary_upto(lines, n)->Ok_0[k].contains(x),
    ensures
        exists|i: int| 1 <= i < n && #[trigger] lines[i] == x.0 && keyed_by(lines[i], (i + 1) as nat, k),
    decreases n,
{
    if n > 1 {
        let m = dictionary_upto(lines, (n - 1) as nat)->Ok_0;
        let (keys, t) = record(lines[n - 1], n)->Ok_0;
        lemma_insert_keys_only(m, keys, (lines[n - 1], t), k, x);
        if m.contains_key(k) && m[k].contains(x) {
            lemma_dictionary_only(lines, (n - 1) as nat, k, x);
            let i = choose|i: int|
                1 <= i < n - 1 && #[trigger] lines[i] == x.0 && keyed_by(lines[i], (i + 1) as nat, k);
            assert(1 <= i < n && lines[i] == x.0 && keyed_by(lines[i], (i + 1) as nat, k));
        } else {
            let j = choose|j: int| 0 <= j < keys.len() && #[trigger] strip_marker(keys[j]) == k;
            assert(keyed_by(lines[n - 1], n, k));
            assert(lines[n - 1] == x.0);
        }
    } else {
        assert(dictionary_upto(lines, n)->Ok_0 =~= Map::empty());
    }
}

/// A record is found only under its headwords and readings, without their
/// markers: under a key `k`, every entry is a line of the file that is a
/// record with a key that is `k` once its marker is removed.
pub proof fn lemma_indexed_only_under_keys(data: Seq<char>, k: Seq<char>, x: (Seq<char>, u32))
    requires
        dictionary(data) is Ok,
        dictionary(data)->Ok_0.contains_key(k),
        dictionary(data)->Ok_0[k].contains(x),
    ensures
        exists|i: int|
            1 <= i < lines_of(data).len() && #[trigger] lines_of(data)[i] == x.0 && keyed_by(
                lines_of(data)[i],
                (i + 1) as nat,
                k,
            ),
{
    lemma_dictionary_only(lines_of(data), lines_of(data).len(), k, x);
}

/// The type of a tag list has bit 7 and the bit of each of its tags: bit 0
/// for `v1`, bit 1 for a tag that starts with `v5`, bit 2 for `adj-i`, bit 3
/// for `vk`, bit 4 for `vs` or a tag that starts with `vs-`.
pub proof fn lemma_tags_type_bits(gs: Seq<Seq<char>>)
    ensures
        tags_type(gs) & 0x80 == 0x80,
        forall|i: int| 0 <= i < gs.len() ==> tags_type(gs) & #[trigger] tag_bit(gs[i]) == tag_bit(gs[i]),
        forall|i: int| 0 <= i < gs.len() && #[trigger] gs[i] == seq!['v', '1'] ==> tags_type(gs) & 1 == 1,
        forall|i: int| 0 <= i < gs.len() && starts_with(#[trigger] gs[i], seq!['v', '5']) ==> tags_type(gs) & 2 == 2,
        forall|i: int| 0 <= i < gs.len() && #[trigger] gs[i] == seq!['a', 'd', 'j', '-', 'i'] ==> tags_type(gs) & 4 == 4,
        forall|i: int| 0 <= i < gs.len() && #[trigger] gs[i] == seq!['v', 'k'] ==> tags_type(gs) & 8 == 8,
        forall|i: int|
            0 <= i < gs.len() && (#[trigger] gs[i] == seq!['v', 's'] || starts_with(gs[i], seq!['v', 's', '-']))
                ==> tags_type(gs) & 16 == 16,
    decreases gs.len(),
{
    if gs.len() > 0 {
        lemma_tags_type_bits(gs.drop_last());
        let a = tags_type(gs.drop_last());
        let b = tag_bit(gs.last());
        assert(a & 0x80 == 0x80 ==> (a | b) & 0x80 == 0x80) by (bit_vector);
        assert((a | b) & b == b) by (bit_vector);
        assert forall|i: int| 0 <= i < gs.len() implies tags_type(gs) & #[trigger] tag_bit(gs[i])
            == tag_bit(gs[i]) by {
            if i < gs.len() - 1 {
                let x = tag_bit(gs[i]);
                assert(gs.drop_last()[i] == gs[i]);
                assert(a & x == x ==> (a | b) & x == x) by (bit_vector);
            }
        }
    } else {
        assert(0x80u32 & 0x80u32 == 0x80u32) by (bit_vector);
    }
    let t = tags_type(gs);
    assert forall|i: int| 0 <= i < gs.len() && #[trigger] gs[i] == seq!['v', '1'] implies t & 1 == 1 by {
        assert(tag_bit(gs[i]) == 1);
    }
    assert forall|i: int| 0 <= i < gs.len() && starts_with(#[trigger] gs[i], seq!['v', '5']) implies t & 2
        == 2 by {
        assert(gs[i] != seq!['v', '1']);
        assert(tag_bit(gs[i]) == 2);
    }
    assert forall|i: int| 0 <= i < gs.len() && #[trigger] gs[i] == seq!['a', 'd', 'j', '-', 'i'] implies t
        & 4 == 4 by {
        assert(gs[i][0] == 'a');
        assert(!starts_with(gs[i], seq!['v', '5']));
        assert(tag_bit(gs[i]) == 4);
    }
    assert forall|i: int| 0 <= i < gs.len() && #[trigger] gs[i] == seq!['v', 'k'] implies t & 8 == 8 by {
        assert(gs[i][1] == 'k');
        assert(gs[i].take(2)[1] == 'k');
        assert(!starts_with(gs[i], seq!['v', '5']));
        assert(tag_bit(gs[i]) == 8);
    }
    assert forall|i: int|
        0 <= i < gs.len() && (#[trigger] gs[i] == seq!['v', 's'] || starts_with(gs[i], seq!['v', 's', '-']))
            implies t & 16 == 16 by {
        let g = gs[i];
        assert(g[0] == 'v' && g[1] == 's') by {
            if starts_with(g, seq!['v', 's', '-']) {
                assert(g.take(3)[0] == 'v' && g.take(3)[1] == 's');
            }
        }
        assert(g != seq!['v', '1']);
        assert(g.take(2)[1] == 's');
        assert(!starts_with(g, seq!['v', '5']));
        assert(g != seq!['a', 'd', 'j', '-', 'i']);
        assert(g != seq!['v', 'k']);
        assert(tag_bit(g) == 16);
    }
}

/// The class bit of one tag.
fn tag_bit_of(g: &Vec<char>) -> (r: u32)
    ensures
        r == tag_bit(g@),
{
    proof {
        assert(g@.skip(0) =~= g@);
    }
    let v1 = ['v', '1'];
    let v5 = ['v', '5'];
    let adj_i = ['a', 'd', 'j', '-', 'i'];
    let vk = ['v', 'k'];
    let vs = ['v', 's'];
    let vs_ = ['v', 's', '-'];
    assert(v1@ == seq!['v', '1']);
    assert(v5@ == seq!['v', '5']);
    assert(adj_i@ == seq!['a', 'd', 'j', '-', 'i']);
    assert(vk@ == seq!['v', 'k']);
    assert(vs@ == seq!['v', 's']);
    assert(vs_@ == seq!['v', 's', '-']);
    if g.len() == 2 && crate::text::matches_at(g, 0, v1.as_slice()) {
        assert(g@ =~= seq!['v', '1']);
        1
    } else if crate::text::matches_at(g, 0, v5.as_slice()) {
        assert(g@ != seq!['v', '1']);
        2
    } else if g.len() == 5 && crate::text::matches_at(g, 0, adj_i.as_slice()) {
        assert(g@ =~= seq!['a', 'd', 'j', '-', 'i']);
        4
    } else if g.len() == 2 && crate::text::matches_at(g, 0, vk.as_slice()) {
        assert(g@ =~= seq!['v', 'k']);
        8
    } else if (g.len() == 2 && crate::text::matches_at(g, 0, vs.as_slice()))
        || crate::text::matches_at(g, 0, vs_.as_slice()) {
        proof {
            if g.len() == 2 && starts_with(g@, vs@) {
                assert(g@ =~= seq!['v', 's']);
            }
        }
        16
    } else {
        proof {
            if g@ == seq!['v', '1'] {
                assert(g@.take(2) =~= g@);
            }
            if g@ == seq!['a', 'd', 'j', '-', 'i'] {
                assert(g@.take(5) =~= g@);
            }
            if g@ == seq!['v', 'k'] {
                assert(g@.take(2) =~= g@);
            }
            if g@ == seq!['v', 's'] {
                assert(g@.take(2) =~= g@);
            }
        }
        0
    }
}

/// The type that a record's tag list gives: bit 7, and the bit of each
/// comma-separated tag.
pub fn type_from_glosses(glosses: &Vec<char>) -> (r: u32)
    ensures
        r == tags_type(split(glosses@, ',')),
{
    let tags = split_chars(glosses, ',');
    let ghost all = views(tags@);
    let mut t: u32 = GENERIC_TYPE;
    let mut j: usize = 0;
    while j < tags.len()
        invariant
            all == views(tags@),
            all == split(glosses@, ','),
            j <= tags@.len(),
            t == tags_type(all.take(j as int)),
        decreases tags@.len() - j,
    {
        let bit = tag_bit_of(&tags[j]);
        assert(all.take(j + 1).drop_last() =~= all.take(j as int));
        assert(all.take(j + 1).last() == tags@[j as int]@);
        t = t | bit;
        j = j + 1;
    }
    assert(all.take(j as int) =~= all);
    t
}

/// The entries at the given positions.
pub open spec fn entries_at(entries: Seq<EdictEntry>, slots: Seq<usize>) -> Seq<(Seq<char>, u32)> {
    slots.map_values(|i: usize| entries[i as int]@)
}

/// The index that maps each key to the entries at its positions.
pub open spec fn index_view(entries: Seq<EdictEntry>, index: Map<Seq<char>, Vec<usize>>) -> Map<
    Seq<char>,
    Seq<(Seq<char>, u32)>,
> {
    Map::new(|k: Seq<char>| index.contains_key(k), |k: Seq<char>| entries_at(entries, index[k]@))
}

/// Every position in `index` is below `n`.
pub open spec fn slots_below(index: Map<Seq<char>, Vec<usize>>, n: nat) -> bool {
    forall|k: Seq<char>, j: int|
        index.contains_key(k) && 0 <= j < index[k]@.len() ==> #[trigger] index[k]@[j] < n
}

/// The records of a dictionary, looked up by headword or reading.
///
/// The index is vstd's `StringHashMap`, over std's default hasher: it is the
/// map with string keys whose contents Verus can follow. A faster hasher such
/// as gxhash's would change only the speed of lookups, but a map built with
/// it has no contract that the proofs here could rest on.
pub struct Edict {
    entries: Vec<EdictEntry>,
    index: StringHashMap<Vec<usize>>,
}

impl View for Edict {
    type V = Map<Seq<char>, Seq<(Seq<char>, u32)>>;

    closed spec fn view(&self) -> Map<Seq<char>, Seq<(Seq<char>, u32)>> {
        index_view(self.entries@, self.index@)
    }
}

/// The key without its marker.
fn strip_marker_of(key: &Vec<char>) -> (r: Vec<char>)
    ensures
        r@ == strip_marker(key@),
{
    let open = ['('];
    assert(open@ == seq!['(']);
    match find_in(key, open.as_slice()) {
        Some(i) => {
            proof {
                crate::text::lemma_find_bound(key@, seq!['(']);
            }
            copy_range(key, 0, i)
        },
        None => {
            assert(key@.subrange(0, key@.len() as int) =~= key@);
            copy_range(key, 0, key.len())
        },
    }
}

/// Adds the entry at `slot` under each of `keys`, without their markers.
fn insert_line_at_keys(
    index: &mut StringHashMap<Vec<usize>>,
    entries: &Vec<EdictEntry>,
    keys: &Vec<Vec<char>>,
    slot: usize,
)
    requires
        slot < entries@.len(),
        slots_below(old(index)@, entries@.len()),
    ensures
        slots_below(final(index)@, entries@.len()),
        index_view(entries@, final(index)@) == insert_keys(
            index_view(entries@, old(index)@),
            views(keys@),
            entries@[slot as int]@,
        ),
{
    let ghost m0 = index_view(entries@, index@);
    let ghost e = entries@[slot as int]@;
    let ghost ks = views(keys@);
    let mut j: usize = 0;
    while j < keys.len()
        invariant
            slot < entries@.len(),
            ks == views(keys@),
            e == entries@[slot as int]@,
            j <= keys@.len(),
            slots_below(index@, entries@.len()),
            index_view(entries@, index@) == insert_keys(m0, ks.take(j as int), e),
        decreases keys@.len() - j,
    {
        let key = strip_marker_of(&keys[j]);
        let name = string_of(key.as_slice());
        let ghost before = index@;
        let slots = match index.get(name.as_str()) {
            Some(v) => appended(v, slot),
            None => vec![slot],
        };
        index.insert(name, slots);
        proof {
            assert(ks.take(j + 1).drop_last() =~= ks.take(j as int));
            assert(ks.take(j + 1).last() == keys@[j as int]@);
            let bv = index_view(entries@, before);
            let k = key@;
            if before.contains_key(k) {
                assert(entries_at(entries@, slots@) =~= bv[k].push(e));
            } else {
                assert(entries_at(entries@, slots@) =~= seq![e]);
            }
            assert(index_view(entries@, index@) =~= insert_keys(m0, ks.take(j + 1), e));
        }
        j = j + 1;
    }
    assert(ks.take(j as int) =~= ks);
}

impl Edict {
    /// Every position in the index is that of an entry.
    pub closed spec fn wf(&self) -> bool {
        slots_below(self.index@, self.entries@.len())
    }

    /// The records under `word`, in the order of the dictionary file.
    pub fn lookup(&self, word: &str) -> (r: Option<Vec<&EdictEntry>>)
        requires
            self.wf(),
        ensures
            match r {
                None => !self@.contains_key(word@),
                Some(v) => {
                    &&& self@.contains_key(word@)
                    &&& v@.len() == self@[word@].len()
                    &&& forall|i: int| 0 <= i < v@.len() ==> v@[i]@ == self@[word@][i]
                },
            },
    {
        match self.index.get(word) {
            None => None,
            Some(slots) => {
                let mut r: Vec<&EdictEntry> = Vec::new();
                let mut j: usize = 0;
                while j < slots.len()
                    invariant
                        self.wf(),
                        self.index@.contains_key(word@),
                        slots@ == self.index@[word@]@,
                        j <= slots@.len(),
                        r@.len() == j,
                        forall|i: int| 0 <= i < j ==> r@[i]@ == self@[word@][i],
                    decreases slots@.len() - j,
                {
                    let at = slots[j];
                    assert(at < self.entries@.len());
                    r.push(&self.entries[at]);
                    j = j + 1;
                }
                Some(r)
            },
        }
    }

    /// Reads a dictionary file.
    pub fn parse(data: &str) -> (r: Result<Self, Error>)
        ensures
            match (r, dictionary(data@)) {
                (Ok(d), Ok(m)) => d.wf() && d@ == m,
                (Err(e), Err(e2)) => e == e2,
                _ => false,
            },
    {
        let chars = chars_of(data);
        let ls = lines(&chars);
        let ghost lv = lines_of(data@);
        let mut entries: Vec<EdictEntry> = Vec::new();
        let mut index: StringHashMap<Vec<usize>> = StringHashMap::new();
        let glosses_sep = [' ', '/'];
        let readings_sep = [' ', '['];
        let readings_end = [']', ' ', '/'];
        let tags_end = [')'];
        let space = [' '];
        assert(glosses_sep@ == seq![' ', '/']);
        assert(readings_sep@ == seq![' ', '[']);
        assert(readings_end@ == seq![']', ' ', '/']);
        assert(tags_end@ == seq![')']);
        assert(space@ == seq![' ']);
        assert(index_view(entries@, index@) =~= Map::empty());
        let mut i: usize = 1;
        while i < ls.len()
            invariant
                views(ls@) == lv,
                lv == lines_of(data@),
                glosses_sep@ == seq![' ', '/'],
                readings_sep@ == seq![' ', '['],
                readings_end@ == seq![']', ' ', '/'],
                tags_end@ == seq![')'],
                space@ == seq![' '],
                1 <= i,
                ls@.len() == 0 || i <= ls@.len(),
                slots_below(index@, entries@.len()),
                dictionary_upto(lv, i as nat) == Ok::<_, Error>(index_view(entries@, index@)),
            decreases ls@.len() - i,
        {
            let line = &ls[i];
            let lineno: usize = i + 1;
            assert(line@ == lv[i as int]);
            proof {
                crate::text::lemma_find_bound(line@, seq![' ', '/']);
                crate::text::lemma_find_bound(line@, seq![' ', '[']);
                crate::text::lemma_find_bound(line@, seq![' ']);
            }
            let meanings = match find_in(line, glosses_sep.as_slice()) {
                Some(at) => copy_range(line, at + 2, line.len()),
                None => {
                    proof {
                        lemma_dictionary_error_persists(lv, (i + 1) as nat, lv.len());
                    }
                    return Err(Error::ParseError { lineno, expected: EXPECTED_GLOSSES });
                },
            };
            assert(split_once(line@, seq![' ', '/']) is Some);
            let ghost parts = split_once(line@, seq![' ', '/'])->Some_0;
            assert(meanings@ =~= parts.1);
            let type_ = if meanings.len() > 0 && meanings[0] == '(' {
                let rest = copy_range(&meanings, 1, meanings.len());
                assert(rest@ =~= meanings@.drop_first());
                proof {
                    crate::text::lemma_find_bound(rest@, seq![')']);
                }
                match find_in(&rest, tags_end.as_slice()) {
                    Some(close) => {
                        let tags = copy_range(&rest, 0, close);
                        type_from_glosses(&tags)
                    },
                    None => {
                        proof {
                            lemma_dictionary_error_persists(lv, (i + 1) as nat, lv.len());
                        }
                        return Err(Error::ParseError { lineno, expected: EXPECTED_TAGS_END });
                    },
                }
            } else {
                GENERIC_TYPE
            };
            assert(record_type(meanings@) == Some(type_));
            let keys = match find_in(line, readings_sep.as_slice()) {
                Some(at) => {
                    let writings = copy_range(line, 0, at);
                    let rest = copy_range(line, at + 2, line.len());
                    proof {
                        crate::text::lemma_find_bound(rest@, seq![']', ' ', '/']);
                    }
                    match find_in(&rest, readings_end.as_slice()) {
                        Some(end) => {
                            let readings = copy_range(&rest, 0, end);
                            let mut keys = split_chars(&writings, ';');
                            let mut more = split_chars(&readings, ';');
                            let ghost a = keys@;
                            let ghost b = more@;
                            keys.append(&mut more);
                            assert(views(keys@) =~= views(a) + views(b));
                            keys
                        },
                        None => {
                            proof {
                                lemma_dictionary_error_persists(lv, (i + 1) as nat, lv.len());
                            }
                            return Err(
                                Error::ParseError { lineno, expected: EXPECTED_READINGS_END },
                            );
                        },
                    }
                },
                None => match find_in(line, space.as_slice()) {
                    Some(at) => {
                        let writings = copy_range(line, 0, at);
                        split_chars(&writings, ';')
                    },
                    None => {
                        proof {
                            lemma_dictionary_error_persists(lv, (i + 1) as nat, lv.len());
                        }
                        return Err(Error::ParseError { lineno, expected: EXPECTED_SPACE });
                    },
                },
            };
            assert(record(line@, (i + 1) as nat) == Ok::<_, Error>((views(keys@), type_)));
            let ghost before = index_view(entries@, index@);
            let ghost old_entries = entries@;
            let slot = entries.len();
            entries.push(EdictEntry { line: string_of(line.as_slice()), type_ });
            proof {
                assert forall|k: Seq<char>| #[trigger] index@.contains_key(k) implies entries_at(
                    entries@,
                    index@[k]@,
                ) =~= entries_at(old_entries, index@[k]@) by {
                    assert forall|j: int| 0 <= j < index@[k]@.len() implies #[trigger] index@[k]@[j]
                        < old_entries.len() by {}
                }
                assert(index_view(entries@, index@) =~= before);
            }
            insert_line_at_keys(&mut index, &entries, &keys, slot);
            i = i + 1;
        }
        assert(ls@.len() == lv.len());
        Ok(Edict { entries, index })
    }
}

} // verus!
