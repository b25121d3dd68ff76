//! Bencode values: byte strings, numbers, lists and dictionaries, with the
//! mathematical model they stand for and their indented text form.
use std::rc::Rc;
use vstd::prelude::*;
use vstd::utf8::encode_utf8;

use crate::text::{
    bytes_text, dec_text, int_text, push_char, push_decimal, push_int, push_str, push_tabs, tabs,
    text_of,
};

verus! {

// ---------------------------------------------------------------------------
// The model
// ---------------------------------------------------------------------------

/// Where the encoded form of a dictionary lies: the whole input and the
/// inclusive positions of its opening 'd' and closing 'e'.
pub struct Span {
    pub bytes: Seq<u8>,
    pub start: int,
    pub end: int,
}

impl Span {
    /// The span lies inside its input.
    pub open spec fn valid(self) -> bool {
        0 <= self.start <= self.end < self.bytes.len()
    }

    /// The bytes of the span, both ends included.
    pub open spec fn slice(self) -> Seq<u8> {
        self.bytes.subrange(self.start, self.end + 1)
    }
}

/// A bencode value as a mathematical object. A dictionary is its entries in
/// ascending key order together with the span it was read from.
pub enum Bencode {
    Int(i64),
    Str(Seq<u8>),
    List(Seq<Bencode>),
    Dict(Seq<(Seq<u8>, Bencode)>, Span),
}

/// Byte-wise lexicographic order (the order of `Vec<u8>`): a proper prefix
/// comes first.
pub open spec fn lex_lt(a: Seq<u8>, b: Seq<u8>) -> bool
    decreases a.len(),
{
    if a.len() == 0 {
        b.len() > 0
    } else if b.len() == 0 {
        false
    } else if a[0] != b[0] {
        a[0] < b[0]
    } else {
        lex_lt(a.drop_first(), b.drop_first())
    }
}

/// Keys strictly ascending; in particular no key occurs twice.
pub open spec fn keys_sorted(s: Seq<(Seq<u8>, Bencode)>) -> bool {
    forall|i: int, j: int| 0 <= i < j < s.len() ==> lex_lt(#[trigger] s[i].0, #[trigger] s[j].0)
}

/// Index of the first entry with key `k`.
pub open spec fn find_key(s: Seq<(Seq<u8>, Bencode)>, k: Seq<u8>) -> Option<int>
    decreases s.len(),
{
    if s.len() == 0 {
        None
    } else if s[0].0 == k {
        Some(0)
    } else {
        match find_key(s.drop_first(), k) {
            Some(i) => Some(i + 1),
            None => None,
        }
    }
}

/// The value stored under key `k`.
pub open spec fn lookup(s: Seq<(Seq<u8>, Bencode)>, k: Seq<u8>) -> Option<Bencode> {
    match find_key(s, k) {
        Some(i) => Some(s[i].1),
        None => None,
    }
}

/// Where key `k` goes: before the first entry whose key is greater.
pub open spec fn insert_index(s: Seq<(Seq<u8>, Bencode)>, k: Seq<u8>) -> int
    decreases s.len(),
{
    if s.len() == 0 {
        0
    } else if lex_lt(k, s[0].0) {
        0
    } else {
        1 + insert_index(s.drop_first(), k)
    }
}

/// Stores `v` under `k`: replaces the value when the key is present,
/// otherwise adds the entry at its place in key order.
pub open spec fn map_insert(s: Seq<(Seq<u8>, Bencode)>, k: Seq<u8>, v: Bencode) -> Seq<
    (Seq<u8>, Bencode),
> {
    match find_key(s, k) {
        Some(i) => s.update(i, (k, v)),
        None => s.insert(insert_index(s, k), (k, v)),
    }
}

/// Every dictionary inside the value (itself included) has a span that lies
/// inside its input.
pub open spec fn spans_valid(v: Bencode) -> bool
    decreases v,
{
    match v {
        Bencode::Int(_) => true,
        Bencode::Str(_) => true,
        Bencode::List(items) => items_spans_valid(items),
        Bencode::Dict(entries, span) => span.valid() && entries_spans_valid(entries),
    }
}

/// `spans_valid` holds of every item.
pub open spec fn items_spans_valid(items: Seq<Bencode>) -> bool
    decreases items,
{
    if items.len() == 0 {
        true
    } else {
        items_spans_valid(items.drop_last()) && spans_valid(items.last())
    }
}

/// `spans_valid` holds of every value.
pub open spec fn entries_spans_valid(entries: Seq<(Seq<u8>, Bencode)>) -> bool
    decreases entries,
{
    if entries.len() == 0 {
        true
    } else {
        entries_spans_valid(entries.drop_last()) && spans_valid(entries.last().1)
    }
}

/// Every dictionary inside the value (itself included) has its keys in
/// strictly ascending order.
pub open spec fn well_sorted(v: Bencode) -> bool
    decreases v,
{
    match v {
        Bencode::Int(_) => true,
        Bencode::Str(_) => true,
        Bencode::List(items) => items_well_sorted(items),
        Bencode::Dict(entries, span) => keys_sorted(entries) && entries_well_sorted(entries),
    }
}

/// `well_sorted` holds of every item.
pub open spec fn items_well_sorted(items: Seq<Bencode>) -> bool
    decreases items,
{
    if items.len() == 0 {
        true
    } else {
        items_well_sorted(items.drop_last()) && well_sorted(items.last())
    }
}

/// `well_sorted` holds of every value.
pub open spec fn entries_well_sorted(entries: Seq<(Seq<u8>, Bencode)>) -> bool
    decreases entries,
{
    if entries.len() == 0 {
        true
    } else {
        entries_well_sorted(entries.drop_last()) && well_sorted(entries.last().1)
    }
}

/// The item-wise predicates hold when they hold of each item.
pub proof fn lemma_items_wf(items: Seq<Bencode>)
    ensures
        items_spans_valid(items) <==> forall|i: int|
            0 <= i < items.len() ==> #[trigger] spans_valid(items[i]),
        items_well_sorted(items) <==> forall|i: int|
            0 <= i < items.len() ==> #[trigger] well_sorted(items[i]),
    decreases items.len(),
{
    if items.len() > 0 {
        let t = items.drop_last();
        let n = items.len() - 1;
        lemma_items_wf(t);
        assert(items.last() == items[n]);
        if forall|i: int| 0 <= i < items.len() ==> #[trigger] spans_valid(items[i]) {
            assert forall|i: int| 0 <= i < t.len() implies #[trigger] spans_valid(t[i]) by {
                assert(t[i] == items[i]);
            }
            assert(spans_valid(items[n]));
        }
        if items_spans_valid(items) {
            assert forall|i: int| 0 <= i < items.len() implies #[trigger] spans_valid(items[i]) by {
                if i < n {
                    assert(t[i] == items[i]);
                }
            }
        }
        if forall|i: int| 0 <= i < items.len() ==> #[trigger] well_sorted(items[i]) {
            assert forall|i: int| 0 <= i < t.len() implies #[trigger] well_sorted(t[i]) by {
                assert(t[i] == items[i]);
            }
            assert(well_sorted(items[n]));
        }
        if items_well_sorted(items) {
            assert forall|i: int| 0 <= i < items.len() implies #[trigger] well_sorted(items[i]) by {
                if i < n {
                    assert(t[i] == items[i]);
                }
            }
        }
    }
}

/// The entry-wise predicates hold when they hold of each value.
pub proof fn lemma_entries_wf(entries: Seq<(Seq<u8>, Bencode)>)
    ensures
        entries_spans_valid(entries) <==> forall|i: int|
            0 <= i < entries.len() ==> #[trigger] spans_valid(entries[i].1),
        entries_well_sorted(entries) <==> forall|i: int|
            0 <= i < entries.len() ==> #[trigger] well_sorted(entries[i].1),
    decreases entries.len(),
{
    if entries.len() > 0 {
        let t = entries.drop_last();
        let n = entries.len() - 1;
        lemma_entries_wf(t);
        assert(entries.last() == entries[n]);
        if forall|i: int| 0 <= i < entries.len() ==> #[trigger] spans_valid(entries[i].1) {
            assert forall|i: int| 0 <= i < t.len() implies #[trigger] spans_valid(t[i].1) by {
                assert(t[i] == entries[i]);
            }
            assert(spans_valid(entries[n].1));
        }
        if entries_spans_valid(entries) {
            assert forall|i: int| 0 <= i < entries.len() implies #[trigger] spans_valid(
                entries[i].1,
            ) by {
                if i < n {
                    assert(t[i] == entries[i]);
                }
            }
        }
        if forall|i: int| 0 <= i < entries.len() ==> #[trigger] well_sorted(entries[i].1) {
            assert forall|i: int| 0 <= i < t.len() implies #[trigger] well_sorted(t[i].1) by {
                assert(t[i] == entries[i]);
            }
            assert(well_sorted(entries[n].1));
        }
        if entries_well_sorted(entries) {
            assert forall|i: int| 0 <= i < entries.len() implies #[trigger] well_sorted(
                entries[i].1,
            ) by {
                if i < n {
                    assert(t[i] == entries[i]);
                }
            }
        }
    }
}

/// The level of the children of a list or dictionary rendered at `level`.
pub open spec fn next_level(level: nat) -> nat {
    if level < usize::MAX {
        level + 1
    } else {
        level
    }
}

/// The indented text form of a value rendered at nesting `level`.
pub open spec fn render(v: Bencode, level: nat) -> Seq<char>
    decreases v,
{
    match v {
        Bencode::Int(n) => seq!['i'] + int_text(n as int) + seq!['e'],
        Bencode::Str(s) => dec_text(s.len()) + seq![':'] + text_of(s),
        Bencode::List(items) => seq!['l', '\n'] + render_items(items, next_level(level)) + tabs(
            level,
        ) + seq!['e'],
        Bencode::Dict(entries, span) => seq!['d', '\n'] + render_entries(
            entries,
            next_level(level),
        ) + tabs(level) + seq!['e'],
    }
}

/// List items, each on a line of its own indented to `level`.
pub open spec fn render_items(items: Seq<Bencode>, level: nat) -> Seq<char>
    decreases items,
{
    if items.len() == 0 {
        Seq::empty()
    } else {
        render_items(items.drop_last(), level) + tabs(level) + render(items.last(), level) + seq![
            '\n',
        ]
    }
}

/// Dictionary entries: the key on a line indented to `level`, the value on
/// the next line indented one tab further.
pub open spec fn render_entries(entries: Seq<(Seq<u8>, Bencode)>, level: nat) -> Seq<char>
    decreases entries,
{
    if entries.len() == 0 {
        Seq::empty()
    } else {
        let k = entries.last().0;
        render_entries(entries.drop_last(), level) + tabs(level) + dec_text(k.len()) + seq![':']
            + text_of(k) + seq!['\n', '\t'] + tabs(level) + render(entries.last().1, level)
            + seq!['\n']
    }
}

/// The layout of the text form. A list or dictionary rendered at `level`
/// opens with its letter on its own line, puts its contents one level
/// deeper and closes with `level` tabs and 'e'; a run of `n` tabs is `n`
/// tab characters.
pub proof fn lemma_render_nesting(
    items: Seq<Bencode>,
    entries: Seq<(Seq<u8>, Bencode)>,
    span: Span,
    level: nat,
)
    requires
        level < usize::MAX,
    ensures
        tabs(level).len() == level,
        forall|i: int| 0 <= i < level ==> #[trigger] tabs(level)[i] == '\t',
        render(Bencode::List(items), level) == seq!['l', '\n'] + render_items(items, level + 1)
            + tabs(level) + seq!['e'],
        render(Bencode::Dict(entries, span), level) == seq!['d', '\n'] + render_entries(
            entries,
            level + 1,
        ) + tabs(level) + seq!['e'],
{
}

/// Dictionary entries are rendered one after the other, each as its key
/// (length, ':', text) on a line indented to `level`, then its value on
/// the next line indented one tab further.
pub proof fn lemma_render_entries_layout(
    a: Seq<(Seq<u8>, Bencode)>,
    b: Seq<(Seq<u8>, Bencode)>,
    k: Seq<u8>,
    v: Bencode,
    level: nat,
)
    ensures
        render_entries(a + b, level) == render_entries(a, level) + render_entries(b, level),
        render_entries(seq![(k, v)], level) == tabs(level) + dec_text(k.len()) + seq![':']
            + text_of(k) + seq!['\n', '\t'] + tabs(level) + render(v, level) + seq!['\n'],
    decreases b.len(),
{
    let one = seq![(k, v)];
    assert(one.drop_last() =~= Seq::<(Seq<u8>, Bencode)>::empty());
    assert(render_entries(one.drop_last(), level) =~= Seq::<char>::empty());
    if b.len() == 0 {
        assert(a + b =~= a);
        assert(render_entries(a, level) + render_entries(b, level) =~= render_entries(a, level));
    } else {
        lemma_render_entries_layout(a, b.drop_last(), k, v, level);
        assert((a + b).drop_last() =~= a + b.drop_last());
        assert((a + b).last() == b.last());
        let ra = render_entries(a, level);
        let rb = render_entries(b.drop_last(), level);
        let key = b.last().0;
        let tail = tabs(level) + dec_text(key.len()) + seq![':'] + text_of(key) + seq!['\n', '\t']
            + tabs(level) + render(b.last().1, level) + seq!['\n'];
        assert(ra + rb + tail =~= ra + (rb + tail));
    }
    assert(Seq::<char>::empty() + tabs(level) =~= tabs(level));
}

/// List items are rendered one after the other, each on a line indented
/// to `level`.
pub proof fn lemma_render_items_layout(a: Seq<Bencode>, b: Seq<Bencode>, v: Bencode, level: nat)
    ensures
        render_items(a + b, level) == render_items(a, level) + render_items(b, level),
        render_items(seq![v], level) == tabs(level) + render(v, level) + seq!['\n'],
    decreases b.len(),
{
    let one = seq![v];
    assert(one.drop_last() =~= Seq::<Bencode>::empty());
    assert(render_items(one.drop_last(), level) =~= Seq::<char>::empty());
    if b.len() == 0 {
        assert(a + b =~= a);
        assert(render_items(a, level) + render_items(b, level) =~= render_items(a, level));
    } else {
        lemma_render_items_layout(a, b.drop_last(), v, level);
        assert((a + b).drop_last() =~= a + b.drop_last());
        assert((a + b).last() == b.last());
        let ra = render_items(a, level);
        let rb = render_items(b.drop_last(), level);
        let tail = tabs(level) + render(b.last(), level) + seq!['\n'];
        assert(ra + rb + tail =~= ra + (rb + tail));
    }
    assert(Seq::<char>::empty() + tabs(level) =~= tabs(level));
}

// ---------------------------------------------------------------------------
// Lemmas on the key order
// ---------------------------------------------------------------------------

pub proof fn lemma_lex_irreflexive(a: Seq<u8>)
    ensures
        !lex_lt(a, a),
    decreases a.len(),
{
    if a.len() > 0 {
        lemma_lex_irreflexive(a.drop_first());
    }
}

pub proof fn lemma_lex_asymmetric(a: Seq<u8>, b: Seq<u8>)
    requires
        lex_lt(a, b),
    ensures
        !lex_lt(b, a),
    decreases a.len(),
{
    if a.len() > 0 && b.len() > 0 && a[0] == b[0] {
        lemma_lex_asymmetric(a.drop_first(), b.drop_first());
    }
}

pub proof fn lemma_lex_transitive(a: Seq<u8>, b: Seq<u8>, c: Seq<u8>)
    requires
        lex_lt(a, b),
        lex_lt(b, c),
    ensures
        lex_lt(a, c),
    decreases a.len(),
{
    if a.len() > 0 && b.len() > 0 && c.len() > 0 && a[0] == b[0] && b[0] == c[0] {
        lemma_lex_transitive(a.drop_first(), b.drop_first(), c.drop_first());
    }
}

pub proof fn lemma_lex_total(a: Seq<u8>, b: Seq<u8>)
    requires
        a != b,
    ensures
        lex_lt(a, b) || lex_lt(b, a),
    decreases a.len(),
{
    if a.len() == 0 {
        if b.len() == 0 {
            assert(a =~= b);
        }
    } else if b.len() > 0 && a[0] == b[0] {
        if a.drop_first() == b.drop_first() {
            assert(a =~= seq![a[0]] + a.drop_first());
            assert(b =~= seq![b[0]] + b.drop_first());
        }
        lemma_lex_total(a.drop_first(), b.drop_first());
    }
}

proof fn lemma_find_key_spec(s: Seq<(Seq<u8>, Bencode)>, k: Seq<u8>)
    ensures
        find_key(s, k) matches Some(i) ==> 0 <= i < s.len() && s[i].0 == k && forall|j: int|
            0 <= j < i ==> s[j].0 != k,
        find_key(s, k) is None ==> forall|j: int| 0 <= j < s.len() ==> s[j].0 != k,
    decreases s.len(),
{
    if s.len() > 0 {
        lemma_find_key_spec(s.drop_first(), k);
        if s[0].0 != k {
            assert forall|j: int| 1 <= j < s.len() implies s[j].0 == s.drop_first()[j - 1].0 by {}
        }
    }
}

/// A found key lies inside the sequence.
pub proof fn lemma_find_key_bounds(s: Seq<(Seq<u8>, Bencode)>, k: Seq<u8>)
    ensures
        find_key(s, k) matches Some(i) ==> 0 <= i < s.len() && s[i].0 == k,
{
    lemma_find_key_spec(s, k);
}

/// The insertion index lies between 0 and the length.
pub proof fn lemma_insert_index_bounds(s: Seq<(Seq<u8>, Bencode)>, k: Seq<u8>)
    ensures
        0 <= insert_index(s, k) <= s.len(),
    decreases s.len(),
{
    if s.len() > 0 {
        lemma_insert_index_bounds(s.drop_first(), k);
    }
}

/// The index of a key found by a scan that stopped at the first match.
proof fn lemma_find_key_at(s: Seq<(Seq<u8>, Bencode)>, k: Seq<u8>, i: int)
    requires
        0 <= i < s.len(),
        s[i].0 == k,
        forall|j: int| 0 <= j < i ==> s[j].0 != k,
    ensures
        find_key(s, k) == Some(i),
{
    lemma_find_key_spec(s, k);
    if let Some(m) = find_key(s, k) {
        assert(m == i);
    }
}

proof fn lemma_find_key_absent(s: Seq<(Seq<u8>, Bencode)>, k: Seq<u8>)
    requires
        forall|j: int| 0 <= j < s.len() ==> s[j].0 != k,
    ensures
        find_key(s, k) is None,
{
    lemma_find_key_spec(s, k);
}

/// In a sorted sequence the insertion index is the number of smaller keys.
proof fn lemma_insert_index(s: Seq<(Seq<u8>, Bencode)>, k: Seq<u8>, p: int)
    requires
        keys_sorted(s),
        0 <= p <= s.len(),
        forall|j: int| 0 <= j < p ==> lex_lt(#[trigger] s[j].0, k),
        p < s.len() ==> lex_lt(k, s[p].0),
    ensures
        insert_index(s, k) == p,
    decreases s.len(),
{
    if s.len() > 0 {
        if p == 0 {
        } else {
            lemma_lex_asymmetric(s[0].0, k);
            let t = s.drop_first();
            assert forall|i: int, j: int| 0 <= i < j < t.len() implies lex_lt(
                #[trigger] t[i].0,
                #[trigger] t[j].0,
            ) by {
                assert(t[i] == s[i + 1] && t[j] == s[j + 1]);
            }
            assert forall|j: int| 0 <= j < p - 1 implies lex_lt(#[trigger] t[j].0, k) by {
                assert(t[j] == s[j + 1]);
            }
            lemma_insert_index(t, k, p - 1);
        }
    }
}

/// Inserting a new key at its place keeps the keys sorted.
proof fn lemma_insert_sorted(s: Seq<(Seq<u8>, Bencode)>, k: Seq<u8>, v: Bencode, p: int)
    requires
        keys_sorted(s),
        0 <= p <= s.len(),
        forall|j: int| 0 <= j < p ==> lex_lt(#[trigger] s[j].0, k),
        forall|j: int| p <= j < s.len() ==> lex_lt(k, #[trigger] s[j].0),
    ensures
        keys_sorted(s.insert(p, (k, v))),
{
    let r = s.insert(p, (k, v));
    assert forall|i: int, j: int| 0 <= i < j < r.len() implies lex_lt(
        #[trigger] r[i].0,
        #[trigger] r[j].0,
    ) by {
        if j < p {
            assert(r[i] == s[i] && r[j] == s[j]);
        } else if j == p {
            assert(r[i] == s[i]);
        } else if i < p {
            assert(r[i] == s[i] && r[j] == s[j - 1]);
            lemma_lex_transitive(s[i].0, k, s[j - 1].0);
        } else if i == p {
            assert(r[j] == s[j - 1]);
        } else {
            assert(r[i] == s[i - 1] && r[j] == s[j - 1]);
        }
    }
}

/// `map_insert` keeps the keys sorted, and afterwards the key holds the value.
pub proof fn lemma_map_insert(s: Seq<(Seq<u8>, Bencode)>, k: Seq<u8>, v: Bencode)
    requires
        keys_sorted(s),
    ensures
        keys_sorted(map_insert(s, k, v)),
        lookup(map_insert(s, k, v), k) == Some(v),
        forall|k2: Seq<u8>| k2 != k ==> lookup(map_insert(s, k, v), k2) == lookup(s, k2),
        forall|m: int|
            0 <= m < map_insert(s, k, v).len() ==> #[trigger] map_insert(s, k, v)[m].1 == v
                || exists|n: int| 0 <= n < s.len() && map_insert(s, k, v)[m].1 == s[n].1,
{
    lemma_find_key_spec(s, k);
    let r = map_insert(s, k, v);
    match find_key(s, k) {
        Some(i) => {
            assert forall|a: int, b: int| 0 <= a < b < r.len() implies lex_lt(
                #[trigger] r[a].0,
                #[trigger] r[b].0,
            ) by {
                assert(r[a].0 == s[a].0 && r[b].0 == s[b].0);
            }
            lemma_find_key_at(r, k, i);
            assert forall|m: int| 0 <= m < r.len() implies #[trigger] r[m].1 == v || exists|n: int|
                0 <= n < s.len() && r[m].1 == s[n].1 by {
                if m != i {
                    assert(r[m].1 == s[m].1);
                }
            }
            assert forall|k2: Seq<u8>| k2 != k implies lookup(r, k2) == lookup(s, k2) by {
                lemma_find_key_spec(s, k2);
                match find_key(s, k2) {
                    Some(m) => {
                        lemma_find_key_at(r, k2, m);
                    },
                    None => {
                        lemma_find_key_absent(r, k2);
                    },
                }
            }
        },
        None => {
            let p = choose_insert_point(s, k);
            lemma_insert_index(s, k, p);
            lemma_insert_sorted(s, k, v, p);
            assert(r[p] == (k, v));
            assert forall|j: int| 0 <= j < p implies r[j].0 != k by {
                lemma_lex_irreflexive(k);
            }
            lemma_find_key_at(r, k, p);
            assert forall|m: int| 0 <= m < r.len() implies #[trigger] r[m].1 == v || exists|n: int|
                0 <= n < s.len() && r[m].1 == s[n].1 by {
                if m < p {
                    assert(r[m].1 == s[m].1);
                } else if m > p {
                    assert(r[m].1 == s[m - 1].1);
                }
            }
            assert forall|k2: Seq<u8>| k2 != k implies lookup(r, k2) == lookup(s, k2) by {
                lemma_find_key_spec(s, k2);
                match find_key(s, k2) {
                    Some(m) => {
                        if m < p {
                            lemma_find_key_at(r, k2, m);
                        } else {
                            assert(r[m + 1] == s[m]);
                            lemma_find_key_at(r, k2, m + 1);
                        }
                    },
                    None => {
                        assert forall|j: int| 0 <= j < r.len() implies r[j].0 != k2 by {
                            if j < p {
                                assert(r[j] == s[j]);
                            } else if j > p {
                                assert(r[j] == s[j - 1]);
                            }
                        }
                        lemma_find_key_absent(r, k2);
                    },
                }
            }
        },
    }
}

/// The number of keys smaller than an absent key `k`, with its defining
/// property.
proof fn choose_insert_point(s: Seq<(Seq<u8>, Bencode)>, k: Seq<u8>) -> (p: int)
    requires
        keys_sorted(s),
        forall|j: int| 0 <= j < s.len() ==> s[j].0 != k,
    ensures
        0 <= p <= s.len(),
        forall|j: int| 0 <= j < p ==> lex_lt(#[trigger] s[j].0, k),
        forall|j: int| p <= j < s.len() ==> lex_lt(k, #[trigger] s[j].0),
    decreases s.len(),
{
    if s.len() == 0 {
        0
    } else {
        let t = s.drop_last();
        assert forall|i: int, j: int| 0 <= i < j < t.len() implies lex_lt(
            #[trigger] t[i].0,
            #[trigger] t[j].0,
        ) by {
            assert(t[i] == s[i] && t[j] == s[j]);
        }
        let q = choose_insert_point(t, k);
        let last = s.len() - 1;
        lemma_lex_total(s[last].0, k);
        if lex_lt(s[last].0, k) {
            if q < last {
                assert(lex_lt(k, t[q].0));
                assert(lex_lt(s[q].0, s[last].0));
                lemma_lex_transitive(k, s[q].0, s[last].0);
                lemma_lex_asymmetric(s[last].0, k);
                assert(false);
            }
            assert forall|j: int| 0 <= j < s.len() implies lex_lt(#[trigger] s[j].0, k) by {
                if j < last {
                    assert(s[j] == t[j]);
                }
            }
            s.len() as int
        } else {
            assert forall|j: int| q <= j < s.len() implies lex_lt(k, #[trigger] s[j].0) by {
                if j < last {
                    assert(s[j] == t[j]);
                }
            }
            assert forall|j: int| 0 <= j < q implies lex_lt(#[trigger] s[j].0, k) by {
                assert(s[j] == t[j]);
            }
            q
        }
    }
}

/// In sorted entries no key stands below the first key.
proof fn lemma_lookup_below_first(s: Seq<(Seq<u8>, Bencode)>, k: Seq<u8>)
    requires
        keys_sorted(s),
        s.len() > 0,
        lex_lt(k, s[0].0),
    ensures
        lookup(s, k) is None,
{
    assert forall|j: int| 0 <= j < s.len() implies s[j].0 != k by {
        if j > 0 {
            lemma_lex_transitive(k, s[0].0, s[j].0);
            lemma_lex_irreflexive(k);
        } else {
            lemma_lex_irreflexive(k);
        }
    }
    lemma_find_key_absent(s, k);
}

/// Dropping the first entry of sorted entries removes its key and keeps
/// every other key.
proof fn lemma_lookup_drop_first(s: Seq<(Seq<u8>, Bencode)>, k: Seq<u8>)
    requires
        keys_sorted(s),
        s.len() > 0,
    ensures
        lookup(s.drop_first(), k) == (if k == s[0].0 {
            None::<Bencode>
        } else {
            lookup(s, k)
        }),
        keys_sorted(s.drop_first()),
{
    let t = s.drop_first();
    assert forall|i: int, j: int| 0 <= i < j < t.len() implies lex_lt(
        #[trigger] t[i].0,
        #[trigger] t[j].0,
    ) by {
        assert(t[i] == s[i + 1] && t[j] == s[j + 1]);
    }
    if k == s[0].0 {
        assert forall|j: int| 0 <= j < t.len() implies t[j].0 != k by {
            assert(t[j] == s[j + 1]);
            lemma_lex_irreflexive(k);
        }
        lemma_find_key_absent(t, k);
    } else {
        lemma_find_key_spec(t, k);
        if let Some(i) = find_key(t, k) {
            assert(t[i] == s[i + 1]);
        }
    }
}

/// Sorted entries are fixed by what they hold: two sorted entry sequences
/// that give the same value for every key are equal, so two dictionaries
/// with the same pairs print alike, whatever order the pairs were inserted
/// in and wherever their encoded forms lie.
pub proof fn lemma_sorted_entries_unique(
    a: Seq<(Seq<u8>, Bencode)>,
    b: Seq<(Seq<u8>, Bencode)>,
    sa: Span,
    sb: Span,
    level: nat,
)
    requires
        keys_sorted(a),
        keys_sorted(b),
        forall|k: Seq<u8>| #[trigger] lookup(a, k) == lookup(b, k),
    ensures
        a == b,
        render(Bencode::Dict(a, sa), level) == render(Bencode::Dict(b, sb), level),
    decreases a.len(),
{
    if a.len() == 0 || b.len() == 0 {
        if a.len() > 0 {
            lemma_find_key_at(a, a[0].0, 0);
            assert(lookup(b, a[0].0) is None);
        }
        if b.len() > 0 {
            lemma_find_key_at(b, b[0].0, 0);
            assert(lookup(a, b[0].0) is None);
        }
        assert(a =~= b);
    } else {
        let ka = a[0].0;
        let kb = b[0].0;
        lemma_find_key_at(a, ka, 0);
        lemma_find_key_at(b, kb, 0);
        if ka != kb {
            lemma_lex_total(ka, kb);
            if lex_lt(ka, kb) {
                lemma_lookup_below_first(b, ka);
                assert(lookup(a, ka) == lookup(b, ka));
            } else {
                lemma_lookup_below_first(a, kb);
                assert(lookup(a, kb) == lookup(b, kb));
            }
        }
        assert(lookup(a, ka) == lookup(b, ka));
        assert(a[0] == b[0]);
        let ta = a.drop_first();
        let tb = b.drop_first();
        assert forall|k: Seq<u8>| #[trigger] lookup(ta, k) == lookup(tb, k) by {
            lemma_lookup_drop_first(a, k);
            lemma_lookup_drop_first(b, k);
            assert(lookup(a, k) == lookup(b, k));
        }
        lemma_lookup_drop_first(a, ka);
        lemma_lookup_drop_first(b, kb);
        lemma_sorted_entries_unique(ta, tb, sa, sb, level);
        assert(a =~= seq![a[0]] + ta);
        assert(b =~= seq![b[0]] + tb);
    }
}

// ---------------------------------------------------------------------------
// Byte strings
// ---------------------------------------------------------------------------

/// A bencode byte string.
#[derive(PartialEq, Eq, PartialOrd, Ord, Clone, Debug, Default)]
pub struct ByteString {
    inner: Vec<u8>,
}

impl View for ByteString {
    type V = Seq<u8>;

    closed spec fn view(&self) -> Seq<u8> {
        self.inner@
    }
}

/// How two byte strings compare in the key order.
pub enum KeyOrder {
    Less,
    Equal,
    Greater,
}

/// Compares two byte strings in byte-wise lexicographic order.
pub fn compare_bytes(a: &[u8], b: &[u8]) -> (r: KeyOrder)
    ensures
        r is Less <==> lex_lt(a@, b@),
        r is Equal <==> a@ == b@,
        r is Greater <==> lex_lt(b@, a@),
{
    let mut i: usize = 0;
    assert(a@.skip(0) =~= a@ && b@.skip(0) =~= b@);
    while i < a.len() && i < b.len()
        invariant
            0 <= i <= a@.len(),
            i <= b@.len(),
            a@.subrange(0, i as int) == b@.subrange(0, i as int),
            lex_lt(a@, b@) == lex_lt(a@.skip(i as int), b@.skip(i as int)),
            lex_lt(b@, a@) == lex_lt(b@.skip(i as int), a@.skip(i as int)),
        decreases a@.len() - i,
    {
        if a[i] != b[i] {
            proof {
                assert(a@.skip(i as int)[0] == a@[i as int]);
                assert(b@.skip(i as int)[0] == b@[i as int]);
                if a@ == b@ {
                    assert(a@[i as int] == b@[i as int]);
                }
            }
            if a[i] < b[i] {
                return KeyOrder::Less;
            } else {
                return KeyOrder::Greater;
            }
        }
        proof {
            assert(a@.skip(i as int).drop_first() =~= a@.skip(i + 1));
            assert(b@.skip(i as int).drop_first() =~= b@.skip(i + 1));
            assert(a@.subrange(0, i + 1) =~= a@.subrange(0, i as int).push(a@[i as int]));
            assert(b@.subrange(0, i + 1) =~= b@.subrange(0, i as int).push(b@[i as int]));
        }
        i = i + 1;
    }
    proof {
        let sa = a@.skip(i as int);
        let sb = b@.skip(i as int);
        if a@.len() == b@.len() {
            assert(a@ =~= a@.subrange(0, i as int));
            assert(b@ =~= b@.subrange(0, i as int));
        } else if i == a@.len() {
            assert(sa.len() == 0 && sb.len() > 0);
            assert(a@ != b@);
        } else {
            assert(sb.len() == 0 && sa.len() > 0);
            assert(a@ != b@);
        }
    }
    if a.len() == b.len() {
        KeyOrder::Equal
    } else if i == a.len() {
        KeyOrder::Less
    } else {
        KeyOrder::Greater
    }
}

/// `String::into_bytes`: the UTF-8 encoding of the text.
#[verifier::external_body]
fn string_into_bytes(s: String) -> (res: Vec<u8>)
    ensures
        res@ == encode_utf8(s@),
{
    s.into_bytes()
}

impl ByteString {
    /// The number of bytes.
    pub fn len(&self) -> (r: usize)
        ensures
            r == self@.len(),
    {
        self.inner.len()
    }

    /// The bytes themselves.
    pub fn bytes(&self) -> (r: &Vec<u8>)
        ensures
            r@ == self@,
    {
        &self.inner
    }

    /// The text form: UTF-8 when valid, lowercase hex otherwise.
    pub fn to_string(&self) -> (r: String)
        ensures
            r@ == text_of(self@),
    {
        bytes_text(&self.inner)
    }

    /// The bencode-like form `<length>:<text>`.
    pub fn display(&self) -> (r: String)
        ensures
            r@ == render(Bencode::Str(self@), 0),
    {
        let mut s = String::new();
        push_decimal(&mut s, self.inner.len() as u64);
        push_char(&mut s, ':');
        let t = self.to_string();
        push_str(&mut s, &t);
        assert(s@ =~= render(Bencode::Str(self@), 0));
        s
    }
}

impl From<String> for ByteString {
    fn from(value: String) -> (r: Self)
        ensures
            r@ == encode_utf8(value@),
    {
        ByteString { inner: string_into_bytes(value) }
    }
}

impl vstd::std_specs::convert::FromSpecImpl<String> for ByteString {
    open spec fn obeys_from_spec() -> bool {
        false
    }

    open spec fn from_spec(v: String) -> ByteString {
        choose|r: ByteString| r@ == encode_utf8(v@)
    }
}

impl From<&str> for ByteString {
    fn from(value: &str) -> (r: Self)
        ensures
            r@ == encode_utf8(value@),
    {
        ByteString { inner: vstd::slice::slice_to_vec(value.as_bytes()) }
    }
}

impl vstd::std_specs::convert::FromSpecImpl<&str> for ByteString {
    open spec fn obeys_from_spec() -> bool {
        false
    }

    open spec fn from_spec(v: &str) -> ByteString {
        choose|r: ByteString| r@ == encode_utf8(v@)
    }
}

impl From<Vec<u8>> for ByteString {
    fn from(value: Vec<u8>) -> (r: Self)
        ensures
            r@ == value@,
    {
        ByteString { inner: value }
    }
}

impl vstd::std_specs::convert::FromSpecImpl<Vec<u8>> for ByteString {
    open spec fn obeys_from_spec() -> bool {
        false
    }

    open spec fn from_spec(v: Vec<u8>) -> ByteString {
        choose|r: ByteString| r@ == v@
    }
}

// ---------------------------------------------------------------------------
// Numbers
// ---------------------------------------------------------------------------

/// A bencode integer.
#[derive(PartialEq, Eq, PartialOrd, Ord, Clone, Debug)]
pub struct BencodeNumber {
    inner: i64,
}

impl View for BencodeNumber {
    type V = i64;

    closed spec fn view(&self) -> i64 {
        self.inner
    }
}

impl BencodeNumber {
    /// The value.
    pub fn value(&self) -> (r: i64)
        ensures
            r == self@,
    {
        self.inner
    }

    /// The bencode form `i<decimal>e`.
    pub fn display(&self) -> (r: String)
        ensures
            r@ == render(Bencode::Int(self@), 0),
    {
        let mut s = String::new();
        push_char(&mut s, 'i');
        push_int(&mut s, self.inner);
        push_char(&mut s, 'e');
        assert(s@ =~= render(Bencode::Int(self@), 0));
        s
    }

    /// The decimal text of the value.
    pub fn to_string(&self) -> (r: String)
        ensures
            r@ == int_text(self@ as int),
    {
        let mut s = String::new();
        push_int(&mut s, self.inner);
        assert(s@ =~= int_text(self@ as int));
        s
    }
}

impl From<i64> for BencodeNumber {
    fn from(value: i64) -> (r: Self)
        ensures
            r@ == value,
    {
        BencodeNumber { inner: value }
    }
}

impl vstd::std_specs::convert::FromSpecImpl<i64> for BencodeNumber {
    open spec fn obeys_from_spec() -> bool {
        false
    }

    open spec fn from_spec(v: i64) -> BencodeNumber {
        choose|r: BencodeNumber| r@ == v
    }
}

impl core::ops::Deref for BencodeNumber {
    type Target = i64;

    fn deref(&self) -> (r: &i64)
        ensures
            *r == self@,
    {
        &self.inner
    }
}

// ---------------------------------------------------------------------------
// Lists
// ---------------------------------------------------------------------------

/// A bencode list.
#[derive(PartialEq, Eq, PartialOrd, Ord, Debug, Default)]
pub struct BencodeList {
    inner: Vec<BencodeElement>,
}

/// The models of the elements of a vector.
pub open spec fn elements_view(v: Seq<BencodeElement>) -> Seq<Bencode> {
    Seq::new(v.len(), |i: int| v[i]@)
}

impl View for BencodeList {
    type V = Seq<Bencode>;

    closed spec fn view(&self) -> Seq<Bencode>
        decreases self,
    {
        Seq::new(
            self.inner@.len(),
            |i: int|
                if 0 <= i < self.inner@.len() {
                    self.inner@[i]@
                } else {
                    Bencode::Int(0)
                },
        )
    }
}

impl BencodeList {
    /// An empty list.
    pub fn new() -> (r: Self)
        ensures
            r@ == Seq::<Bencode>::empty(),
    {
        let r = BencodeList { inner: Vec::new() };
        assert(r@ =~= Seq::<Bencode>::empty());
        r
    }

    /// The number of items.
    pub fn len(&self) -> (r: usize)
        ensures
            r == self@.len(),
    {
        self.inner.len()
    }

    /// The item at position `i`.
    pub fn get(&self, i: usize) -> (r: &BencodeElement)
        requires
            i < self@.len(),
        ensures
            r@ == self@[i as int],
    {
        &self.inner[i]
    }

    /// Appends an item.
    pub fn push(&mut self, e: BencodeElement)
        ensures
            final(self)@ == old(self)@.push(e@),
    {
        self.inner.push(e);
        assert(self@ =~= old(self)@.push(e@));
    }

    /// The items as a vector.
    pub fn deref_vec(&self) -> (r: &Vec<BencodeElement>)
        ensures
            elements_view(r@) == self@,
    {
        assert(elements_view(self.inner@) =~= self@);
        &self.inner
    }

    /// Appends the indented text of the list at nesting `level`.
    pub fn fmt_indent(&self, out: &mut String, level: usize)
        ensures
            final(out)@ == old(out)@ + render(Bencode::List(self@), level as nat),
        decreases self, 0int,
    {
        push_char(out, 'l');
        push_char(out, '\n');
        let inner_level = if level < usize::MAX {
            level + 1
        } else {
            level
        };
        let ghost base = out@;
        let mut i: usize = 0;
        while i < self.inner.len()
            invariant
                i <= self.inner@.len(),
                inner_level == next_level(level as nat),
                out@ == base + render_items(self@.take(i as int), inner_level as nat),
            decreases self.inner@.len() - i,
        {
            push_tabs(out, inner_level);
            let e = &self.inner[i];
            proof {
                assert(decreases_to!(self => self.inner));
                assert(decreases_to!(self.inner => self.inner@[i as int]));
            }
            e.fmt_indent(out, inner_level);
            push_char(out, '\n');
            proof {
                let t = self@.take(i + 1);
                assert(t.drop_last() =~= self@.take(i as int));
                assert(t.last() == self.inner@[i as int]@);
            }
            i = i + 1;
        }
        push_tabs(out, level);
        push_char(out, 'e');
        assert(self@.take(self.inner@.len() as int) =~= self@);
        assert(out@ =~= old(out)@ + render(Bencode::List(self@), level as nat));
    }

    /// The indented text of the list.
    pub fn to_string(&self) -> (r: String)
        ensures
            r@ == render(Bencode::List(self@), 0),
    {
        let mut s = String::new();
        self.fmt_indent(&mut s, 0);
        assert(s@ =~= render(Bencode::List(self@), 0));
        s
    }
}

impl From<Vec<BencodeElement>> for BencodeList {
    fn from(value: Vec<BencodeElement>) -> (r: Self)
        ensures
            r@ == elements_view(value@),
    {
        let r = BencodeList { inner: value };
        assert(r@ =~= elements_view(value@));
        r
    }
}

impl vstd::std_specs::convert::FromSpecImpl<Vec<BencodeElement>> for BencodeList {
    open spec fn obeys_from_spec() -> bool {
        false
    }

    open spec fn from_spec(v: Vec<BencodeElement>) -> BencodeList {
        choose|r: BencodeList| r@ == elements_view(v@)
    }
}

impl core::ops::Deref for BencodeList {
    type Target = Vec<BencodeElement>;

    fn deref(&self) -> (r: &Vec<BencodeElement>)
        ensures
            elements_view(r@) == self@,
    {
        assert(elements_view(self.inner@) =~= self@);
        &self.inner
    }
}

// ---------------------------------------------------------------------------
// Dictionary maps
// ---------------------------------------------------------------------------

/// The entries of a bencode dictionary, kept in ascending key order with
/// each key at most once.
#[derive(PartialEq, Eq, PartialOrd, Ord, Debug)]
pub struct BencodeElementMap {
    entries: Vec<(ByteString, BencodeElement)>,
}

impl View for BencodeElementMap {
    type V = Seq<(Seq<u8>, Bencode)>;

    closed spec fn view(&self) -> Seq<(Seq<u8>, Bencode)>
        decreases self,
    {
        Seq::new(
            self.entries@.len(),
            |i: int|
                if 0 <= i < self.entries@.len() {
                    (self.entries@[i].0@, self.entries@[i].1@)
                } else {
                    (Seq::empty(), Bencode::Int(0))
                },
        )
    }
}

/// The models of a vector of entries.
spec fn entries_view(e: Seq<(ByteString, BencodeElement)>) -> Seq<(Seq<u8>, Bencode)> {
    Seq::new(e.len(), |i: int| (e[i].0@, e[i].1@))
}

impl Default for BencodeElementMap {
    /// An empty map.
    fn default() -> (r: Self)
        ensures
            r@ == Seq::<(Seq<u8>, Bencode)>::empty(),
    {
        Self::new()
    }
}

impl BencodeElementMap {
    #[verifier::type_invariant]
    closed spec fn sorted(self) -> bool {
        keys_sorted(entries_view(self.entries@))
    }

    /// An empty map.
    pub fn new() -> (r: Self)
        ensures
            r@ == Seq::<(Seq<u8>, Bencode)>::empty(),
    {
        let r = BencodeElementMap { entries: Vec::new() };
        assert(r@ =~= Seq::<(Seq<u8>, Bencode)>::empty());
        r
    }

    /// The number of entries.
    pub fn len(&self) -> (r: usize)
        ensures
            r == self@.len(),
            keys_sorted(self@),
    {
        proof {
            use_type_invariant(self);
        }
        assert(entries_view(self.entries@) =~= self@);
        self.entries.len()
    }

    /// The entry at position `i` in key order.
    pub fn entry(&self, i: usize) -> (r: (&ByteString, &BencodeElement))
        requires
            i < self@.len(),
        ensures
            r.0@ == self@[i as int].0,
            r.1@ == self@[i as int].1,
    {
        let e = &self.entries[i];
        (&e.0, &e.1)
    }

    /// The position of key `key`, scanning in order.
    fn position(&self, key: &ByteString) -> (r: Option<usize>)
        ensures
            self@.len() == self.entries@.len(),
            r matches Some(i) ==> i < self.entries@.len(),
            match r {
                Some(i) => find_key(self@, key@) == Some(i as int),
                None => find_key(self@, key@) is None,
            },
    {
        let mut i: usize = 0;
        while i < self.entries.len()
            invariant
                i <= self@.len(),
                self@.len() == self.entries@.len(),
                forall|j: int| 0 <= j < i ==> self@[j].0 != key@,
            decreases self.entries@.len() - i,
        {
            let ord = compare_bytes(self.entries[i].0.inner.as_slice(), key.inner.as_slice());
            if let KeyOrder::Equal = ord {
                proof {
                    lemma_find_key_at(self@, key@, i as int);
                }
                return Some(i);
            }
            i = i + 1;
        }
        proof {
            lemma_find_key_absent(self@, key@);
        }
        None
    }

    /// The entries as a vector (their order is the key order).
    fn entries_model(&self) -> (r: &Vec<(ByteString, BencodeElement)>)
        ensures
            entries_view(r@) == self@,
            keys_sorted(self@),
    {
        proof {
            use_type_invariant(self);
        }
        assert(entries_view(self.entries@) =~= self@);
        &self.entries
    }

    /// The value stored under `key`.
    pub fn get(&self, key: &ByteString) -> (r: Option<&BencodeElement>)
        ensures
            match r {
                Some(e) => lookup(self@, key@) == Some(e@),
                None => lookup(self@, key@) is None,
            },
    {
        match self.position(key) {
            Some(i) => Some(&self.entries[i].1),
            None => None,
        }
    }

    /// Whether `key` is present.
    pub fn contains_key(&self, key: &ByteString) -> (r: bool)
        ensures
            r == lookup(self@, key@) is Some,
    {
        self.position(key).is_some()
    }

    /// Stores `value` under `key`, keeping key order; returns the value that
    /// was stored under `key` before, if any.
    pub fn insert(&mut self, key: ByteString, value: BencodeElement) -> (r: Option<BencodeElement>)
        ensures
            final(self)@ == map_insert(old(self)@, key@, value@),
            keys_sorted(final(self)@),
            match r {
                Some(o) => lookup(old(self)@, key@) == Some(o@),
                None => lookup(old(self)@, key@) is None,
            },
    {
        proof {
            use_type_invariant(&*self);
        }
        assert(entries_view(self.entries@) =~= self@);
        let ghost s = self@;
        let ghost kv = (key@, value@);
        let pos = self.position(&key);
        let mut entries: Vec<(ByteString, BencodeElement)> = Vec::new();
        std::mem::swap(&mut entries, &mut self.entries);
        assert(entries@.len() == s.len());
        assert forall|j: int| 0 <= j < s.len() implies s[j] == (
            entries@[j].0@,
            entries@[j].1@,
        ) by {}
        proof {
            lemma_find_key_spec(s, key@);
        }
        match pos {
            Some(i) => {
                let old_entry = entries.remove(i);
                entries.insert(i, (key, value));
                proof {
                    lemma_map_insert(s, key@, value@);
                    let r = map_insert(s, key@, value@);
                    assert forall|j: int| 0 <= j < r.len() implies r[j] == (
                        entries@[j].0@,
                        entries@[j].1@,
                    ) by {
                        if j < i {
                        } else if j > i {
                        }
                    }
                    assert(entries_view(entries@) =~= r);
                }
                self.entries = entries;
                assert(self@ =~= map_insert(s, key@, value@));
                Some(old_entry.1)
            },
            None => {
                let mut p: usize = 0;
                while p < entries.len()
                    invariant
                        p <= entries@.len(),
                        entries@.len() == s.len(),
                        keys_sorted(s),
                        find_key(s, key@) is None,
                        forall|j: int| 0 <= j < s.len() ==> s[j] == (
                            entries@[j].0@,
                            entries@[j].1@,
                        ),
                        forall|j: int| 0 <= j < p ==> lex_lt(#[trigger] s[j].0, key@),
                    ensures
                        p <= entries@.len(),
                        p < entries@.len() ==> lex_lt(key@, s[p as int].0),
                    decreases entries@.len() - p,
                {
                    let ord = compare_bytes(entries[p].0.inner.as_slice(), key.inner.as_slice());
                    match ord {
                        KeyOrder::Less => {},
                        _ => {
                            proof {
                                lemma_find_key_spec(s, key@);
                                assert(s[p as int].0 != key@);
                            }
                            break ;
                        },
                    }
                    p = p + 1;
                }
                proof {
                    lemma_find_key_spec(s, key@);
                    lemma_insert_index(s, key@, p as int);
                    lemma_map_insert(s, key@, value@);
                }
                entries.insert(p, (key, value));
                proof {
                    let r = map_insert(s, kv.0, kv.1);
                    assert(r == s.insert(p as int, kv));
                    assert forall|j: int| 0 <= j < r.len() implies r[j] == (
                        entries@[j].0@,
                        entries@[j].1@,
                    ) by {
                        if j < p {
                        } else if j > p {
                        }
                    }
                    assert(entries_view(entries@) =~= r);
                }
                self.entries = entries;
                assert(self@ =~= map_insert(s, kv.0, kv.1));
                None
            },
        }
    }
}

// ---------------------------------------------------------------------------
// Original bytes and dictionaries
// ---------------------------------------------------------------------------

/// A shared input buffer and the inclusive positions `start` and `end` of
/// the bytes of one value in it.
#[derive(PartialEq, Eq, PartialOrd, Ord, Clone, Debug, Default)]
pub struct OriginalBytes {
    bytes: Rc<[u8]>,
    start: usize,
    end: usize,
}

impl View for OriginalBytes {
    type V = Span;

    closed spec fn view(&self) -> Span {
        Span { bytes: self.bytes@, start: self.start as int, end: self.end as int }
    }
}

impl OriginalBytes {
    pub fn new(bytes: Rc<[u8]>, start: usize, end: usize) -> (r: Self)
        ensures
            r@ == (Span { bytes: bytes@, start: start as int, end: end as int }),
    {
        OriginalBytes { bytes, start, end }
    }

    /// The bytes from `start` to `end`, both included.
    pub fn get(&self) -> (r: &[u8])
        requires
            self@.valid(),
        ensures
            r@ == self@.slice(),
    {
        let len = self.bytes.len();
        assert(self.end < len);
        vstd::slice::slice_subrange(&self.bytes, self.start, self.end + 1)
    }
}

/// A bencode dictionary: its entries and where its encoded form lies.
#[derive(PartialEq, Eq, PartialOrd, Ord, Debug, Default)]
pub struct BencodeDict {
    inner: BencodeElementMap,
    original_bytes: OriginalBytes,
}

impl View for BencodeDict {
    type V = (Seq<(Seq<u8>, Bencode)>, Span);

    closed spec fn view(&self) -> (Seq<(Seq<u8>, Bencode)>, Span)
        decreases self,
    {
        (self.inner@, self.original_bytes@)
    }
}

impl BencodeDict {
    pub fn new(inner: BencodeElementMap, original_bytes: OriginalBytes) -> (r: Self)
        ensures
            r@ == (inner@, original_bytes@),
    {
        BencodeDict { inner, original_bytes }
    }

    /// The encoded form of the dictionary, from its 'd' to its 'e'.
    pub fn original_bytes(&self) -> (r: &[u8])
        requires
            self@.1.valid(),
        ensures
            r@ == self@.1.slice(),
    {
        self.original_bytes.get()
    }

    /// The entries.
    pub fn map(&self) -> (r: &BencodeElementMap)
        ensures
            r@ == self@.0,
    {
        &self.inner
    }

    /// The value stored under `key`.
    pub fn get(&self, key: &ByteString) -> (r: Option<&BencodeElement>)
        ensures
            match r {
                Some(e) => lookup(self@.0, key@) == Some(e@),
                None => lookup(self@.0, key@) is None,
            },
    {
        self.inner.get(key)
    }

    /// Whether `key` is present.
    pub fn contains_key(&self, key: &ByteString) -> (r: bool)
        ensures
            r == lookup(self@.0, key@) is Some,
    {
        self.inner.contains_key(key)
    }

    /// The number of entries.
    pub fn len(&self) -> (r: usize)
        ensures
            r == self@.0.len(),
    {
        self.inner.len()
    }

    /// Appends the indented text of the dictionary at nesting `level`.
    pub fn fmt_indent(&self, out: &mut String, level: usize)
        ensures
            final(out)@ == old(out)@ + render(Bencode::Dict(self@.0, self@.1), level as nat),
        decreases self, 0int,
    {
        push_char(out, 'd');
        push_char(out, '\n');
        let inner_level = if level < usize::MAX {
            level + 1
        } else {
            level
        };
        let ghost base = out@;
        let mut i: usize = 0;
        while i < self.inner.entries.len()
            invariant
                i <= self.inner.entries@.len(),
                self.inner@.len() == self.inner.entries@.len(),
                inner_level == next_level(level as nat),
                out@ == base + render_entries(self@.0.take(i as int), inner_level as nat),
            decreases self.inner.entries@.len() - i,
        {
            let entry = &self.inner.entries[i];
            push_tabs(out, inner_level);
            let key_text = entry.0.display();
            push_str(out, &key_text);
            push_char(out, '\n');
            push_char(out, '\t');
            push_tabs(out, inner_level);
            proof {
                assert(decreases_to!(self => self.inner));
                assert(decreases_to!(self.inner => self.inner.entries));
                assert(decreases_to!(self.inner.entries => self.inner.entries@[i as int]));
            }
            entry.1.fmt_indent(out, inner_level);
            push_char(out, '\n');
            proof {
                let t = self@.0.take(i + 1);
                assert(t.drop_last() =~= self@.0.take(i as int));
                assert(t.last() == (entry.0@, entry.1@));
                let k = entry.0@;
                assert(render(Bencode::Str(k), 0) =~= dec_text(k.len()) + seq![':'] + text_of(k));
                assert(out@ =~= base + render_entries(t, inner_level as nat));
            }
            i = i + 1;
        }
        push_tabs(out, level);
        push_char(out, 'e');
        assert(self@.0.take(self.inner.entries@.len() as int) =~= self@.0);
        assert(out@ =~= old(out)@ + render(Bencode::Dict(self@.0, self@.1), level as nat));
    }

    /// The indented text of the dictionary.
    pub fn to_string(&self) -> (r: String)
        ensures
            r@ == render(Bencode::Dict(self@.0, self@.1), 0),
    {
        let mut s = String::new();
        self.fmt_indent(&mut s, 0);
        assert(s@ =~= render(Bencode::Dict(self@.0, self@.1), 0));
        s
    }
}

impl core::ops::Deref for BencodeDict {
    type Target = BencodeElementMap;

    fn deref(&self) -> (r: &BencodeElementMap)
        ensures
            r@ == self@.0,
    {
        &self.inner
    }
}

// ---------------------------------------------------------------------------
// Elements
// ---------------------------------------------------------------------------

/// A bencode value.
#[derive(PartialEq, Eq, PartialOrd, Ord, Debug)]
pub enum BencodeElement {
    Int(BencodeNumber),
    String(ByteString),
    List(BencodeList),
    Dict(BencodeDict),
}

impl View for BencodeElement {
    type V = Bencode;

    open spec fn view(&self) -> Bencode
        decreases self,
    {
        match self {
            BencodeElement::Int(n) => Bencode::Int(n@),
            BencodeElement::String(s) => Bencode::Str(s@),
            BencodeElement::List(l) => Bencode::List(l@),
            BencodeElement::Dict(d) => Bencode::Dict(d@.0, d@.1),
        }
    }
}

impl BencodeElement {
    /// Appends the indented text of the value at nesting `level`.
    pub fn fmt_indent(&self, out: &mut String, level: usize)
        ensures
            final(out)@ == old(out)@ + render(self@, level as nat),
        decreases self, 1int,
    {
        match self {
            BencodeElement::Int(val) => {
                let t = val.display();
                push_str(out, &t);
            },
            BencodeElement::String(val) => {
                let t = val.display();
                push_str(out, &t);
            },
            BencodeElement::List(val) => val.fmt_indent(out, level),
            BencodeElement::Dict(val) => val.fmt_indent(out, level),
        }
    }

    /// The indented text of the value.
    pub fn to_string(&self) -> (r: String)
        ensures
            r@ == render(self@, 0),
    {
        let mut s = String::new();
        self.fmt_indent(&mut s, 0);
        assert(s@ =~= render(self@, 0));
        s
    }
}

} // verus!
