//! The bencode parser: a cursor over a shared byte buffer that reads a
//! dictionary and everything nested in it.
use std::rc::Rc;
use vstd::prelude::*;

use crate::text::{dec_text, int_text, latin1, latin1_text, text_of};
use crate::types::{
    Bencode, BencodeDict, BencodeElement, BencodeElementMap, BencodeList, BencodeNumber,
    ByteString, OriginalBytes, Span, find_key, keys_sorted, lemma_entries_wf, lemma_items_wf,
    lemma_map_insert, map_insert, render, spans_valid, well_sorted,
};

verus! {

// ---------------------------------------------------------------------------
// Errors
// ---------------------------------------------------------------------------

/// Why reading failed.
#[derive(Debug)]
pub enum Error {
    UnexpectedEOF,
    UnexpectedCharacter,
    InvalidInteger(String),
    DuplicateKey(String),
    EmptyStringLength,
    NegativeStringLength,
}

/// The model of an `Error`.
pub enum ParseFailure {
    UnexpectedEOF,
    UnexpectedCharacter,
    InvalidInteger(Seq<char>),
    DuplicateKey(Seq<char>),
    EmptyStringLength,
    NegativeStringLength,
}

impl View for Error {
    type V = ParseFailure;

    open spec fn view(&self) -> ParseFailure {
        match self {
            Error::UnexpectedEOF => ParseFailure::UnexpectedEOF,
            Error::UnexpectedCharacter => ParseFailure::UnexpectedCharacter,
            Error::InvalidInteger(s) => ParseFailure::InvalidInteger(s@),
            Error::DuplicateKey(s) => ParseFailure::DuplicateKey(s@),
            Error::EmptyStringLength => ParseFailure::EmptyStringLength,
            Error::NegativeStringLength => ParseFailure::NegativeStringLength,
        }
    }
}

/// The model of an outcome.
pub open spec fn outcome<T: View>(r: Result<T, Error>) -> Result<T::V, ParseFailure> {
    match r {
        Ok(v) => Ok(v@),
        Err(e) => Err(e@),
    }
}

// ---------------------------------------------------------------------------
// The reading, as mathematics. Each function takes the input and the
// position of the cursor, and gives the outcome and the new position.
// ---------------------------------------------------------------------------

/// The cursor moved forward by `n`, stopping at `usize::MAX`.
pub open spec fn bump(i: int, n: int) -> int {
    if i + n > usize::MAX {
        usize::MAX as int
    } else {
        i + n
    }
}

/// Position of the first byte `c` at or after `i`.
pub open spec fn find_byte(b: Seq<u8>, i: int, c: u8) -> Option<int>
    decreases b.len() - i,
{
    if i < 0 || i >= b.len() {
        None
    } else if b[i] == c {
        Some(i)
    } else {
        find_byte(b, i + 1, c)
    }
}

/// Where a scan from `i` that meets the end of input leaves the cursor.
pub open spec fn scan_end(b: Seq<u8>, i: int) -> int {
    if i < b.len() {
        b.len() as int
    } else {
        i
    }
}

pub open spec fn is_digit(c: u8) -> bool {
    48 <= c <= 57
}

/// One or more decimal digits.
pub open spec fn decimal_digits(s: Seq<u8>) -> bool {
    s.len() > 0 && forall|k: int| 0 <= k < s.len() ==> is_digit(#[trigger] s[k])
}

/// The value of a run of decimal digits.
pub open spec fn digits_value(s: Seq<u8>) -> nat
    decreases s.len(),
{
    if s.len() == 0 {
        0
    } else {
        digits_value(s.drop_last()) * 10 + (s.last() - 48) as nat
    }
}

/// The digits after an optional leading '+'.
pub open spec fn after_plus(s: Seq<u8>) -> Seq<u8> {
    if s.len() > 0 && s[0] == 43 {
        s.drop_first()
    } else {
        s
    }
}

/// `usize::from_str_radix(s, 10)`: an optional '+' and then one or more
/// decimal digits whose value fits in a `usize`.
pub open spec fn parse_unsigned(s: Seq<u8>) -> Option<nat> {
    let d = after_plus(s);
    if decimal_digits(d) && digits_value(d) <= usize::MAX {
        Some(digits_value(d))
    } else {
        None
    }
}

/// `i64::from_str_radix(s, 10)`: an optional sign and then one or more
/// decimal digits whose signed value fits in an `i64`.
pub open spec fn parse_signed(s: Seq<u8>) -> Option<int> {
    if s.len() > 0 && s[0] == 45 {
        let d = s.drop_first();
        if decimal_digits(d) && digits_value(d) <= 9223372036854775808 {
            Some(-(digits_value(d) as int))
        } else {
            None
        }
    } else {
        let d = after_plus(s);
        if decimal_digits(d) && digits_value(d) <= i64::MAX {
            Some(digits_value(d) as int)
        } else {
            None
        }
    }
}

/// Reading a byte string `<length>:<bytes>` at `i`.
pub open spec fn spec_string(b: Seq<u8>, i: int) -> (Result<Seq<u8>, ParseFailure>, int) {
    match find_byte(b, i, 58) {
        None => (Err(ParseFailure::UnexpectedEOF), scan_end(b, i)),
        Some(j) => {
            let digits = b.subrange(i, j);
            if digits.len() == 0 {
                (Err(ParseFailure::EmptyStringLength), j)
            } else if digits[0] == 45 {
                (Err(ParseFailure::NegativeStringLength), j)
            } else {
                match parse_unsigned(digits) {
                    Some(n) => {
                        if j + n + 1 > b.len() {
                            (Err(ParseFailure::UnexpectedEOF), bump(j, n + 1int))
                        } else {
                            (Ok(b.subrange(j + 1, j + n + 1)), j + n + 1)
                        }
                    },
                    None => (Err(ParseFailure::InvalidInteger(latin1(digits))), j),
                }
            }
        },
    }
}

/// Reading an integer `i<digits>e` at `i` (the 'i' is not checked).
pub open spec fn spec_number(b: Seq<u8>, i: int) -> (Result<i64, ParseFailure>, int) {
    if i + 1 > b.len() {
        (Err(ParseFailure::UnexpectedEOF), bump(i, 1))
    } else {
        match find_byte(b, i + 1, 101) {
            None => (Err(ParseFailure::UnexpectedEOF), scan_end(b, i + 1)),
            Some(j) => {
                let digits = b.subrange(i + 1, j);
                match parse_signed(digits) {
                    Some(v) => (Ok(v as i64), j + 1),
                    None => (Err(ParseFailure::InvalidInteger(latin1(digits))), j + 1),
                }
            },
        }
    }
}

/// Reading any value at `i`, chosen by its first byte.
pub open spec fn spec_elem(b: Seq<u8>, i: int) -> (Result<Bencode, ParseFailure>, int)
    decreases b.len() - i, 1int,
{
    if i < 0 || i >= b.len() {
        (Err(ParseFailure::UnexpectedEOF), i)
    } else if b[i] == 100 {
        match spec_dict(b, i) {
            (Ok((entries, span)), k) => (Ok(Bencode::Dict(entries, span)), k),
            (Err(f), k) => (Err(f), k),
        }
    } else if b[i] == 108 {
        match spec_list(b, i) {
            (Ok(items), k) => (Ok(Bencode::List(items)), k),
            (Err(f), k) => (Err(f), k),
        }
    } else if b[i] == 105 {
        match spec_number(b, i) {
            (Ok(v), k) => (Ok(Bencode::Int(v)), k),
            (Err(f), k) => (Err(f), k),
        }
    } else if is_digit(b[i]) {
        match spec_string(b, i) {
            (Ok(s), k) => (Ok(Bencode::Str(s)), k),
            (Err(f), k) => (Err(f), k),
        }
    } else {
        (Err(ParseFailure::UnexpectedCharacter), i)
    }
}

/// Reading a dictionary at `i` (the 'd' is not checked): its entries in key
/// order and its span, from `i` to the closing 'e'.
pub open spec fn spec_dict(b: Seq<u8>, i: int) -> (
    Result<(Seq<(Seq<u8>, Bencode)>, Span), ParseFailure>,
    int,
)
    decreases b.len() - i, 0int,
{
    if i + 1 >= b.len() {
        (Err(ParseFailure::UnexpectedEOF), bump(i, 1))
    } else {
        match spec_entries(b, i + 1, Seq::empty()) {
            (Err(f), k) => (Err(f), k),
            (Ok(entries), k) => {
                if k + 1 > b.len() {
                    (Err(ParseFailure::UnexpectedEOF), bump(k, 1))
                } else {
                    (Ok((entries, Span { bytes: b, start: i, end: k })), k + 1)
                }
            },
        }
    }
}

/// Reading dictionary entries from `k` up to the closing 'e', adding them to
/// `acc`; a key already present is refused.
pub open spec fn spec_entries(b: Seq<u8>, k: int, acc: Seq<(Seq<u8>, Bencode)>) -> (
    Result<Seq<(Seq<u8>, Bencode)>, ParseFailure>,
    int,
)
    decreases b.len() - k, 2int,
{
    if k < 0 || k >= b.len() {
        (Err(ParseFailure::UnexpectedEOF), k)
    } else if b[k] == 101 {
        (Ok(acc), k)
    } else {
        match spec_string(b, k) {
            (Err(f), k2) => (Err(f), k2),
            (Ok(key), k2) => {
                if find_key(acc, key) is Some {
                    (Err(ParseFailure::DuplicateKey(text_of(key))), k2)
                } else {
                    proof {
                        lemma_string_progress(b, k);
                    }
                    match spec_elem(b, k2) {
                        (Err(f), k3) => (Err(f), k3),
                        (Ok(v), k3) => {
                            if k < k3 <= b.len() {
                                spec_entries(b, k3, map_insert(acc, key, v))
                            } else {
                                (Err(ParseFailure::UnexpectedEOF), k3)
                            }
                        },
                    }
                }
            },
        }
    }
}

/// Reading a list at `i` (the 'l' is not checked).
pub open spec fn spec_list(b: Seq<u8>, i: int) -> (Result<Seq<Bencode>, ParseFailure>, int)
    decreases b.len() - i, 0int,
{
    if i + 1 >= b.len() {
        (Err(ParseFailure::UnexpectedEOF), bump(i, 1))
    } else {
        match spec_items(b, i + 1, Seq::empty()) {
            (Err(f), k) => (Err(f), k),
            (Ok(items), k) => {
                if k + 1 > b.len() {
                    (Err(ParseFailure::UnexpectedEOF), bump(k, 1))
                } else {
                    (Ok(items), k + 1)
                }
            },
        }
    }
}

/// Reading list items from `k` up to the closing 'e', after `acc`.
pub open spec fn spec_items(b: Seq<u8>, k: int, acc: Seq<Bencode>) -> (
    Result<Seq<Bencode>, ParseFailure>,
    int,
)
    decreases b.len() - k, 2int,
{
    if k < 0 || k >= b.len() {
        (Err(ParseFailure::UnexpectedEOF), k)
    } else if b[k] == 101 {
        (Ok(acc), k)
    } else {
        match spec_elem(b, k) {
            (Err(f), k2) => (Err(f), k2),
            (Ok(v), k2) => {
                if k < k2 <= b.len() {
                    spec_items(b, k2, acc.push(v))
                } else {
                    (Err(ParseFailure::UnexpectedEOF), k2)
                }
            },
        }
    }
}

/// What `BencodeParser::parse` gives: the dictionary read at `i`.
pub open spec fn spec_parse(b: Seq<u8>, i: int) -> (Result<Bencode, ParseFailure>, int) {
    match spec_dict(b, i) {
        (Ok((entries, span)), k) => (Ok(Bencode::Dict(entries, span)), k),
        (Err(f), k) => (Err(f), k),
    }
}

// ---------------------------------------------------------------------------
// Lemmas
// ---------------------------------------------------------------------------

pub proof fn lemma_find_byte(b: Seq<u8>, i: int, c: u8)
    requires
        0 <= i,
    ensures
        find_byte(b, i, c) matches Some(j) ==> i <= j < b.len() && b[j] == c && forall|m: int|
            i <= m < j ==> b[m] != c,
        find_byte(b, i, c) is None ==> forall|m: int| i <= m < b.len() ==> b[m] != c,
    decreases b.len() - i,
{
    if i < b.len() && b[i] != c {
        lemma_find_byte(b, i + 1, c);
    }
}

/// A byte string read at `k` ends after `k` and inside the input.
pub proof fn lemma_string_progress(b: Seq<u8>, k: int)
    requires
        0 <= k,
    ensures
        spec_string(b, k).0 is Ok ==> k < spec_string(b, k).1 <= b.len(),
{
    lemma_find_byte(b, k, 58);
}

/// What a successful read gives: the cursor moved forward and stays inside
/// the input; dictionaries keep their keys sorted and their spans valid.
pub proof fn lemma_elem_progress(b: Seq<u8>, i: int)
    requires
        0 <= i,
    ensures
        spec_elem(b, i).0 matches Ok(v) ==> i < spec_elem(b, i).1 <= b.len() && spans_valid(v)
            && well_sorted(v),
    decreases b.len() - i, 1int,
{
    if 0 <= i < b.len() {
        if b[i] == 100 {
            lemma_dict_progress(b, i);
        } else if b[i] == 108 {
            lemma_list_progress(b, i);
        } else if b[i] == 105 {
            lemma_find_byte(b, i + 1, 101);
        } else if is_digit(b[i]) {
            lemma_string_progress(b, i);
        }
    }
}

/// A dictionary read at `i` lies exactly from `i` to its closing 'e', and the
/// cursor stops right after that 'e'; its keys ascend and everything nested
/// in it is well formed.
pub proof fn lemma_dict_progress(b: Seq<u8>, i: int)
    requires
        0 <= i,
    ensures
        spec_dict(b, i).0 matches Ok((entries, span)) ==> i < spec_dict(b, i).1 <= b.len()
            && span.bytes == b && span.start == i && span.end + 1 == spec_dict(b, i).1
            && b[span.end] == 101 && spans_valid(Bencode::Dict(entries, span)) && well_sorted(
            Bencode::Dict(entries, span),
        ),
    decreases b.len() - i, 0int,
{
    if i + 1 < b.len() {
        lemma_entries_progress(b, i + 1, Seq::empty());
        if let (Ok(entries), k) = spec_entries(b, i + 1, Seq::empty()) {
            lemma_entries_wf(entries);
            if k + 1 <= b.len() {
                let span = Span { bytes: b, start: i, end: k };
                assert(span.valid());
                assert(spans_valid(Bencode::Dict(entries, span)));
                assert(well_sorted(Bencode::Dict(entries, span)));
            }
        }
    }
}

/// Entries read from `k` end at a closing 'e' inside the input; the entries
/// added to a sorted `acc` keep it sorted, and their values are well formed.
proof fn lemma_entries_progress(b: Seq<u8>, k: int, acc: Seq<(Seq<u8>, Bencode)>)
    requires
        0 <= k,
        keys_sorted(acc),
        forall|m: int| 0 <= m < acc.len() ==> #[trigger] spans_valid(acc[m].1),
        forall|m: int| 0 <= m < acc.len() ==> #[trigger] well_sorted(acc[m].1),
    ensures
        spec_entries(b, k, acc).0 matches Ok(entries) ==> k <= spec_entries(b, k, acc).1 < b.len()
            && b[spec_entries(b, k, acc).1] == 101 && keys_sorted(entries) && (forall|m: int|
            0 <= m < entries.len() ==> #[trigger] spans_valid(entries[m].1)) && (forall|m: int|
            0 <= m < entries.len() ==> #[trigger] well_sorted(entries[m].1)),
    decreases b.len() - k, 2int,
{
    if 0 <= k < b.len() && b[k] != 101 {
        lemma_string_progress(b, k);
        if let (Ok(key), k2) = spec_string(b, k) {
            if find_key(acc, key) is None {
                lemma_elem_progress(b, k2);
                if let (Ok(v), k3) = spec_elem(b, k2) {
                    let acc2 = map_insert(acc, key, v);
                    lemma_map_insert(acc, key, v);
                    lemma_entries_progress(b, k3, acc2);
                }
            }
        }
    }
}

proof fn lemma_list_progress(b: Seq<u8>, i: int)
    requires
        0 <= i,
    ensures
        spec_list(b, i).0 matches Ok(items) ==> i < spec_list(b, i).1 <= b.len() && spans_valid(
            Bencode::List(items),
        ) && well_sorted(Bencode::List(items)),
    decreases b.len() - i, 0int,
{
    if i + 1 < b.len() {
        lemma_items_progress(b, i + 1, Seq::empty());
        if let (Ok(items), k) = spec_items(b, i + 1, Seq::empty()) {
            lemma_items_wf(items);
            assert(spans_valid(Bencode::List(items)));
            assert(well_sorted(Bencode::List(items)));
        }
    }
}

proof fn lemma_items_progress(b: Seq<u8>, k: int, acc: Seq<Bencode>)
    requires
        0 <= k,
        forall|m: int| 0 <= m < acc.len() ==> #[trigger] spans_valid(acc[m]),
        forall|m: int| 0 <= m < acc.len() ==> #[trigger] well_sorted(acc[m]),
    ensures
        spec_items(b, k, acc).0 matches Ok(items) ==> k <= spec_items(b, k, acc).1 < b.len()
            && (forall|m: int| 0 <= m < items.len() ==> #[trigger] spans_valid(items[m])) && (
        forall|m: int| 0 <= m < items.len() ==> #[trigger] well_sorted(items[m])),
    decreases b.len() - k, 2int,
{
    if 0 <= k < b.len() && b[k] != 101 {
        lemma_elem_progress(b, k);
        if let (Ok(v), k2) = spec_elem(b, k) {
            let acc2 = acc.push(v);
            assert forall|m: int| 0 <= m < acc2.len() implies #[trigger] spans_valid(acc2[m])
                && well_sorted(acc2[m]) by {
                if m < acc.len() {
                    assert(acc2[m] == acc[m]);
                }
            }
            lemma_items_progress(b, k2, acc2);
        }
    }
}

/// The value of one more digit.
proof fn lemma_digits_push(s: Seq<u8>, c: u8)
    ensures
        digits_value(s.push(c)) == digits_value(s) * 10 + (c - 48) as nat,
{
    assert(s.push(c).drop_last() =~= s);
}

// ---------------------------------------------------------------------------
// Bytes after a value do not change how it is read
// ---------------------------------------------------------------------------

/// The value with the input of every dictionary span replaced by `c`.
pub open spec fn rebase(v: Bencode, c: Seq<u8>) -> Bencode
    decreases v,
{
    match v {
        Bencode::List(items) => Bencode::List(
            Seq::new(
                items.len(),
                |j: int|
                    if 0 <= j < items.len() {
                        rebase(items[j], c)
                    } else {
                        Bencode::Int(0)
                    },
            ),
        ),
        Bencode::Dict(e, sp) => Bencode::Dict(
            Seq::new(
                e.len(),
                |j: int|
                    if 0 <= j < e.len() {
                        (e[j].0, rebase(e[j].1, c))
                    } else {
                        (Seq::empty(), Bencode::Int(0))
                    },
            ),
            Span { bytes: c, start: sp.start, end: sp.end },
        ),
        _ => v,
    }
}

/// `rebase` applied to each item.
pub open spec fn rebase_items(s: Seq<Bencode>, c: Seq<u8>) -> Seq<Bencode> {
    Seq::new(s.len(), |j: int| rebase(s[j], c))
}

/// `rebase` applied to each value.
pub open spec fn rebase_entries(s: Seq<(Seq<u8>, Bencode)>, c: Seq<u8>) -> Seq<(Seq<u8>, Bencode)> {
    Seq::new(s.len(), |j: int| (s[j].0, rebase(s[j].1, c)))
}

/// `rebase` of a list or dictionary moves the spans of its items.
proof fn lemma_rebase_unfold(v: Bencode, c: Seq<u8>)
    ensures
        v matches Bencode::List(items) ==> rebase(v, c) == Bencode::List(rebase_items(items, c)),
        v matches Bencode::Dict(e, sp) ==> rebase(v, c) == Bencode::Dict(
            rebase_entries(e, c),
            Span { bytes: c, start: sp.start, end: sp.end },
        ),
{
    match v {
        Bencode::List(items) => {
            let l = rebase(v, c)->List_0;
            assert(l =~= rebase_items(items, c));
        },
        Bencode::Dict(e, sp) => {
            let l = rebase(v, c)->Dict_0;
            assert(l =~= rebase_entries(e, c));
        },
        _ => {},
    }
}

/// `b` is the beginning of `c`.
pub open spec fn is_prefix(b: Seq<u8>, c: Seq<u8>) -> bool {
    b.len() <= c.len() && forall|m: int| 0 <= m < b.len() ==> c[m] == b[m]
}

proof fn lemma_find_byte_prefix(b: Seq<u8>, c: Seq<u8>, i: int, x: u8)
    requires
        0 <= i,
        is_prefix(b, c),
        find_byte(b, i, x) is Some,
    ensures
        find_byte(c, i, x) == find_byte(b, i, x),
    decreases b.len() - i,
{
    if i < b.len() && b[i] != x {
        lemma_find_byte_prefix(b, c, i + 1, x);
    }
}

proof fn lemma_string_prefix(b: Seq<u8>, c: Seq<u8>, i: int)
    requires
        0 <= i,
        is_prefix(b, c),
        spec_string(b, i).0 is Ok,
    ensures
        spec_string(c, i) == spec_string(b, i),
{
    lemma_find_byte(b, i, 58);
    lemma_find_byte_prefix(b, c, i, 58);
    let j = find_byte(b, i, 58)->Some_0;
    assert(c.subrange(i, j) =~= b.subrange(i, j));
    if let Some(n) = parse_unsigned(b.subrange(i, j)) {
        assert(c.subrange(j + 1, j + n + 1) =~= b.subrange(j + 1, j + n + 1));
    }
}

proof fn lemma_number_prefix(b: Seq<u8>, c: Seq<u8>, i: int)
    requires
        0 <= i,
        is_prefix(b, c),
        spec_number(b, i).0 is Ok,
    ensures
        spec_number(c, i) == spec_number(b, i),
{
    lemma_find_byte(b, i + 1, 101);
    lemma_find_byte_prefix(b, c, i + 1, 101);
    let j = find_byte(b, i + 1, 101)->Some_0;
    assert(c.subrange(i + 1, j) =~= b.subrange(i + 1, j));
}

/// Keys decide where an entry is found and where a new one goes.
proof fn lemma_same_keys(s1: Seq<(Seq<u8>, Bencode)>, s2: Seq<(Seq<u8>, Bencode)>, k: Seq<u8>)
    requires
        s1.len() == s2.len(),
        forall|j: int| 0 <= j < s1.len() ==> s1[j].0 == s2[j].0,
    ensures
        find_key(s1, k) == find_key(s2, k),
        crate::types::insert_index(s1, k) == crate::types::insert_index(s2, k),
    decreases s1.len(),
{
    if s1.len() > 0 {
        let t1 = s1.drop_first();
        let t2 = s2.drop_first();
        assert forall|j: int| 0 <= j < t1.len() implies t1[j].0 == t2[j].0 by {
            assert(t1[j] == s1[j + 1] && t2[j] == s2[j + 1]);
        }
        lemma_same_keys(t1, t2, k);
    }
}

/// Storing a value and then moving spans is moving spans and then storing
/// the moved value.
proof fn lemma_rebase_map_insert(s: Seq<(Seq<u8>, Bencode)>, k: Seq<u8>, v: Bencode, c: Seq<u8>)
    ensures
        map_insert(rebase_entries(s, c), k, rebase(v, c)) == rebase_entries(map_insert(s, k, v), c),
        find_key(rebase_entries(s, c), k) == find_key(s, k),
{
    let rs = rebase_entries(s, c);
    lemma_same_keys(rs, s, k);
    crate::types::lemma_find_key_bounds(s, k);
    let l = map_insert(rs, k, rebase(v, c));
    let r = rebase_entries(map_insert(s, k, v), c);
    match find_key(s, k) {
        Some(i) => {
            assert(l =~= r);
        },
        None => {
            let p = crate::types::insert_index(s, k);
            crate::types::lemma_insert_index_bounds(s, k);
            assert forall|j: int| 0 <= j < l.len() implies l[j] == r[j] by {
                if j < p {
                } else if j > p {
                }
            }
            assert(l =~= r);
        },
    }
}

proof fn lemma_elem_prefix(b: Seq<u8>, c: Seq<u8>, i: int)
    requires
        0 <= i,
        is_prefix(b, c),
        spec_elem(b, i).0 is Ok,
    ensures
        spec_elem(c, i) == (
            Ok::<Bencode, ParseFailure>(rebase(spec_elem(b, i).0->Ok_0, c)),
            spec_elem(b, i).1,
        ),
    decreases b.len() - i, 1int,
{
    lemma_rebase_unfold(spec_elem(b, i).0->Ok_0, c);
    if b[i] == 100 {
        lemma_dict_prefix(b, c, i);
    } else if b[i] == 108 {
        lemma_list_prefix(b, c, i);
    } else if b[i] == 105 {
        lemma_number_prefix(b, c, i);
    } else {
        lemma_string_prefix(b, c, i);
    }
}

proof fn lemma_dict_prefix(b: Seq<u8>, c: Seq<u8>, i: int)
    requires
        0 <= i,
        is_prefix(b, c),
        spec_dict(b, i).0 is Ok,
    ensures
        spec_dict(b, i).0 matches Ok((e, sp)) ==> spec_dict(c, i) == (
            Ok::<_, ParseFailure>((rebase_entries(e, c), Span { bytes: c, start: sp.start, end: sp.end })),
            spec_dict(b, i).1,
        ),
    decreases b.len() - i, 0int,
{
    assert(rebase_entries(Seq::empty(), c) =~= Seq::<(Seq<u8>, Bencode)>::empty());
    lemma_entries_prefix(b, c, i + 1, Seq::empty());
    lemma_entries_progress(b, i + 1, Seq::empty());
}

proof fn lemma_list_prefix(b: Seq<u8>, c: Seq<u8>, i: int)
    requires
        0 <= i,
        is_prefix(b, c),
        spec_list(b, i).0 is Ok,
    ensures
        spec_list(b, i).0 matches Ok(items) ==> spec_list(c, i) == (
            Ok::<_, ParseFailure>(rebase_items(items, c)),
            spec_list(b, i).1,
        ),
    decreases b.len() - i, 0int,
{
    assert(rebase_items(Seq::empty(), c) =~= Seq::<Bencode>::empty());
    lemma_items_prefix(b, c, i + 1, Seq::empty());
    lemma_items_progress(b, i + 1, Seq::empty());
}

proof fn lemma_entries_prefix(b: Seq<u8>, c: Seq<u8>, k: int, acc: Seq<(Seq<u8>, Bencode)>)
    requires
        0 <= k,
        is_prefix(b, c),
        spec_entries(b, k, acc).0 is Ok,
    ensures
        spec_entries(b, k, acc).0 matches Ok(r) ==> spec_entries(c, k, rebase_entries(acc, c)) == (
            Ok::<_, ParseFailure>(rebase_entries(r, c)),
            spec_entries(b, k, acc).1,
        ),
    decreases b.len() - k, 2int,
{
    if b[k] != 101 {
        lemma_string_prefix(b, c, k);
        lemma_string_progress(b, k);
        let (ks, k2) = spec_string(b, k);
        let key = ks->Ok_0;
        lemma_rebase_map_insert(acc, key, Bencode::Int(0), c);
        lemma_elem_prefix(b, c, k2);
        let (ev, k3) = spec_elem(b, k2);
        let v = ev->Ok_0;
        lemma_rebase_map_insert(acc, key, v, c);
        lemma_entries_prefix(b, c, k3, map_insert(acc, key, v));
    }
}

proof fn lemma_items_prefix(b: Seq<u8>, c: Seq<u8>, k: int, acc: Seq<Bencode>)
    requires
        0 <= k,
        is_prefix(b, c),
        spec_items(b, k, acc).0 is Ok,
    ensures
        spec_items(b, k, acc).0 matches Ok(r) ==> spec_items(c, k, rebase_items(acc, c)) == (
            Ok::<_, ParseFailure>(rebase_items(r, c)),
            spec_items(b, k, acc).1,
        ),
    decreases b.len() - k, 2int,
{
    if b[k] != 101 {
        lemma_elem_prefix(b, c, k);
        let (ev, k2) = spec_elem(b, k);
        let v = ev->Ok_0;
        assert(rebase_items(acc.push(v), c) =~= rebase_items(acc, c).push(rebase(v, c)));
        lemma_items_prefix(b, c, k2, acc.push(v));
    }
}

/// Bytes after the dictionary do not change what is read: in any input that
/// begins with `b`, reading at `i` gives the same dictionary (its spans now
/// in the longer input) and stops at the same place.
pub proof fn lemma_parse_ignores_trailing(b: Seq<u8>, extra: Seq<u8>, i: int)
    requires
        0 <= i,
        spec_parse(b, i).0 is Ok,
    ensures
        spec_parse(b + extra, i) == (
            Ok::<Bencode, ParseFailure>(rebase(spec_parse(b, i).0->Ok_0, b + extra)),
            spec_parse(b, i).1,
        ),
{
    let c = b + extra;
    lemma_dict_prefix(b, c, i);
    if let (Ok((e, sp)), k) = spec_dict(b, i) {
        lemma_rebase_unfold(Bencode::Dict(e, sp), c);
    }
}

// ---------------------------------------------------------------------------
// The bencode forms of numbers and byte strings read back
// ---------------------------------------------------------------------------

/// The bytes of ASCII text.
pub open spec fn ascii_bytes(s: Seq<char>) -> Seq<u8> {
    s.map_values(|c: char| c as u8)
}

/// Decimal text, as bytes, is a run of digits worth the number.
proof fn lemma_dec_digits(n: nat)
    ensures
        decimal_digits(ascii_bytes(dec_text(n))),
        digits_value(ascii_bytes(dec_text(n))) == n,
    decreases n,
{
    let d = ascii_bytes(dec_text(n));
    if n < 10 {
        assert(d =~= seq![(n + 48) as u8]);
        assert(d.drop_last() =~= Seq::<u8>::empty());
        assert(digits_value(Seq::<u8>::empty()) == 0);
    } else {
        lemma_dec_digits(n / 10);
        let p = ascii_bytes(dec_text(n / 10));
        assert(d =~= p.push((n % 10 + 48) as u8));
        lemma_digits_push(p, (n % 10 + 48) as u8);
        assert((n / 10) * 10 + n % 10 == n) by (nonlinear_arith);
        assert forall|k: int| 0 <= k < d.len() implies is_digit(#[trigger] d[k]) by {
            if k < p.len() {
                assert(d[k] == p[k]);
            }
        }
    }
}

/// The first `x` at or after `i` is at `j` when none lies between.
proof fn lemma_find_byte_at(b: Seq<u8>, i: int, j: int, x: u8)
    requires
        0 <= i <= j < b.len(),
        b[j] == x,
        forall|m: int| i <= m < j ==> b[m] != x,
    ensures
        find_byte(b, i, x) == Some(j),
    decreases j - i,
{
    if i < j {
        lemma_find_byte_at(b, i + 1, j, x);
    }
}

/// The bencode form of a number, as its `display` writes it, reads back as
/// that number, whatever follows it.
pub proof fn lemma_number_display_reads_back(n: i64, rest: Seq<u8>)
    ensures
        spec_number(ascii_bytes(render(Bencode::Int(n), 0)) + rest, 0) == (
            Ok::<i64, ParseFailure>(n),
            render(Bencode::Int(n), 0).len() as int,
        ),
{
    let t = int_text(n as int);
    let digits = ascii_bytes(t);
    let b = ascii_bytes(render(Bencode::Int(n), 0)) + rest;
    assert(ascii_bytes(render(Bencode::Int(n), 0)) =~= seq![105u8] + digits + seq![101u8]);
    let m: nat = if n < 0 {
        (-(n as int)) as nat
    } else {
        n as nat
    };
    lemma_dec_digits(m);
    let dd = ascii_bytes(dec_text(m));
    if n < 0 {
        assert(digits =~= seq![45u8] + dd);
    } else {
        assert(digits =~= dd);
    }
    let j = digits.len() + 1int;
    assert(b[j] == 101);
    assert forall|k: int| 1 <= k < j implies b[k] != 101 by {
        assert(b[k] == digits[k - 1]);
        if n >= 0 || k >= 2 {
            let q = if n < 0 { k - 2 } else { k - 1 };
            assert(digits[k - 1] == dd[q]);
            assert(is_digit(dd[q]));
        }
    }
    lemma_find_byte_at(b, 1, j, 101);
    assert(b.subrange(1, j) =~= digits);
    if n < 0 {
        assert(digits.drop_first() =~= dd);
    } else {
        assert(is_digit(dd[0]));
        assert(after_plus(digits) =~= dd);
    }
}

/// The bencode form `<length>:<bytes>` of a byte string reads back as those
/// bytes, whatever follows it.
pub proof fn lemma_string_form_reads_back(s: Seq<u8>, rest: Seq<u8>)
    requires
        s.len() <= usize::MAX,
    ensures
        spec_string(ascii_bytes(dec_text(s.len())) + seq![58u8] + s + rest, 0) == (
            Ok::<Seq<u8>, ParseFailure>(s),
            (dec_text(s.len()).len() + 1 + s.len()) as int,
        ),
{
    let dd = ascii_bytes(dec_text(s.len()));
    lemma_dec_digits(s.len());
    let b = dd + seq![58u8] + s + rest;
    let j = dd.len() as int;
    assert(b[j] == 58);
    assert forall|k: int| 0 <= k < j implies b[k] != 58 by {
        assert(b[k] == dd[k]);
        assert(is_digit(dd[k]));
    }
    lemma_find_byte_at(b, 0, j, 58);
    assert(b.subrange(0, j) =~= dd);
    assert(is_digit(dd[0]));
    assert(after_plus(dd) =~= dd);
    assert(b.subrange(j + 1, j + s.len() + 1) =~= s);
}

// ---------------------------------------------------------------------------
// The parser
// ---------------------------------------------------------------------------

/// `Rc::from` for a vector: a shared buffer holding the same bytes.
#[verifier::external_body]
pub(crate) fn rc_from_vec(v: Vec<u8>) -> (r: Rc<[u8]>)
    ensures
        r@ == v@,
{
    Rc::from(v)
}

/// `Rc::clone`: another handle on the same bytes.
#[verifier::external_body]
fn rc_clone(r: &Rc<[u8]>) -> (res: Rc<[u8]>)
    ensures
        res@ == r@,
{
    Rc::clone(r)
}

/// The value of the decimal digits `b[start..end]` when they are one or more
/// digits worth at most `limit`.
fn digits_at_most(b: &[u8], start: usize, end: usize, limit: u64) -> (r: Option<u64>)
    requires
        start <= end <= b@.len(),
    ensures
        match r {
            Some(v) => decimal_digits(b@.subrange(start as int, end as int)) && v == digits_value(
                b@.subrange(start as int, end as int),
            ) && v <= limit,
            None => !(decimal_digits(b@.subrange(start as int, end as int)) && digits_value(
                b@.subrange(start as int, end as int),
            ) <= limit),
        },
{
    if start == end {
        return None;
    }
    let mut acc: u128 = 0;
    let mut k = start;
    while k < end
        invariant
            start <= k <= end <= b@.len(),
            start < end,
            acc <= limit,
            acc == digits_value(b@.subrange(start as int, k as int)),
            forall|m: int| start <= m < k ==> is_digit(#[trigger] b@[m]),
        decreases end - k,
    {
        let c = b[k];
        let ghost prefix = b@.subrange(start as int, k as int);
        if c < 48 || c > 57 {
            assert(b@.subrange(start as int, end as int)[k - start] == c);
            return None;
        }
        proof {
            lemma_digits_push(prefix, c);
            assert(b@.subrange(start as int, k + 1) =~= prefix.push(c));
        }
        acc = acc * 10 + (c - 48) as u128;
        k = k + 1;
        if acc > limit as u128 {
            proof {
                lemma_digits_grow(b@.subrange(start as int, end as int), k - start);
                assert(b@.subrange(start as int, end as int).take(k - start) =~= b@.subrange(
                    start as int,
                    k as int,
                ));
            }
            return None;
        }
    }
    proof {
        let d = b@.subrange(start as int, end as int);
        assert(d =~= b@.subrange(start as int, k as int));
        assert forall|m: int| 0 <= m < d.len() implies is_digit(#[trigger] d[m]) by {
            assert(d[m] == b@[start + m]);
        }
    }
    Some(acc as u64)
}

/// The value of a digit run is at least the value of each prefix.
proof fn lemma_digits_grow(s: Seq<u8>, n: int)
    requires
        0 <= n <= s.len(),
    ensures
        digits_value(s.take(n)) <= digits_value(s) || !decimal_digits(s),
    decreases s.len() - n,
{
    if n < s.len() {
        lemma_digits_grow(s, n + 1);
        assert(s.take(n + 1).drop_last() =~= s.take(n));
    } else {
        assert(s.take(n) =~= s);
    }
}

/// A cursor over a shared input buffer.
pub struct BencodeParser {
    bytes: Rc<[u8]>,
    idx: usize,
}

impl BencodeParser {
    /// The input.
    pub closed spec fn input(&self) -> Seq<u8> {
        self.bytes@
    }

    /// The position of the cursor.
    pub closed spec fn pos(&self) -> int {
        self.idx as int
    }

    /// The cursor never stands before the start of the input.
    pub proof fn lemma_pos_nonneg(&self)
        ensures
            0 <= self.pos(),
    {
    }

    /// A parser at the start of `bytes`.
    pub fn new(bytes: Rc<[u8]>) -> (r: Self)
        ensures
            r.input() == bytes@,
            r.pos() == 0,
    {
        BencodeParser { bytes, idx: 0 }
    }

    /// Reads the dictionary at the cursor.
    pub fn parse(&mut self) -> (r: Result<BencodeElement, Error>)
        ensures
            final(self).input() == old(self).input(),
            (outcome(r), final(self).pos()) == spec_parse(old(self).input(), old(self).pos()),
            r matches Ok(v) ==> v is Dict && spans_valid(v@) && well_sorted(v@),
    {
        proof {
            lemma_dict_progress(self.input(), self.pos());
        }
        let dict = self.parse_dict()?;
        Ok(BencodeElement::Dict(dict))
    }

    /// The byte at the cursor.
    pub fn peek(&self) -> (r: Result<u8, Error>)
        ensures
            match r {
                Ok(c) => self.pos() < self.input().len() && c == self.input()[self.pos()],
                Err(e) => self.pos() >= self.input().len() && e is UnexpectedEOF,
            },
    {
        if self.idx >= self.bytes.len() {
            return Err(Error::UnexpectedEOF);
        }
        Ok(self.bytes[self.idx])
    }

    /// Moves the cursor forward by one byte; fails when it leaves the input.
    pub fn advance(&mut self) -> (r: Result<(), Error>)
        ensures
            final(self).input() == old(self).input(),
            final(self).pos() == bump(old(self).pos(), 1),
            r is Ok <==> final(self).pos() <= final(self).input().len(),
            r matches Err(e) ==> e is UnexpectedEOF,
    {
        self.advance_by(1)
    }

    /// Moves the cursor forward by `amt` bytes; fails when it leaves the input.
    pub fn advance_by(&mut self, amt: usize) -> (r: Result<(), Error>)
        ensures
            final(self).input() == old(self).input(),
            final(self).pos() == bump(old(self).pos(), amt as int),
            r is Ok <==> final(self).pos() <= final(self).input().len(),
            r matches Err(e) ==> e is UnexpectedEOF,
    {
        if amt > usize::MAX - self.idx {
            self.idx = usize::MAX;
        } else {
            self.idx = self.idx + amt;
        }
        if self.idx > self.bytes.len() {
            return Err(Error::UnexpectedEOF);
        }
        Ok(())
    }

    /// Reads any value at the cursor, chosen by its first byte.
    pub fn parse_elem(&mut self) -> (r: Result<BencodeElement, Error>)
        ensures
            final(self).input() == old(self).input(),
            (outcome(r), final(self).pos()) == spec_elem(old(self).input(), old(self).pos()),
        decreases old(self).input().len() - old(self).pos(), 1int,
    {
        let c = self.peek()?;
        if c == 100 {
            Ok(BencodeElement::Dict(self.parse_dict()?))
        } else if c == 108 {
            Ok(BencodeElement::List(self.parse_list()?))
        } else if c == 105 {
            Ok(BencodeElement::Int(self.parse_number()?))
        } else if 48 <= c && c <= 57 {
            Ok(BencodeElement::String(self.parse_string()?))
        } else {
            Err(Error::UnexpectedCharacter)
        }
    }

    /// Reads a dictionary at the cursor (whose byte is not checked) up to
    /// its closing 'e'.
    pub fn parse_dict(&mut self) -> (r: Result<BencodeDict, Error>)
        ensures
            final(self).input() == old(self).input(),
            (outcome(r), final(self).pos()) == spec_dict(old(self).input(), old(self).pos()),
        decreases old(self).input().len() - old(self).pos(), 0int,
    {
        let ghost b = self.input();
        let ghost i = self.pos();
        let mut map = BencodeElementMap::new();
        let start = self.idx;
        self.advance()?;
        if self.idx == self.bytes.len() {
            return Err(Error::UnexpectedEOF);
        }
        let ghost i1 = self.pos();
        assert(i1 == i + 1);
        while self.peek()? != 101
            invariant
                self.input() == b,
                b == old(self).input(),
                i == old(self).pos(),
                b.len() == self.bytes@.len(),
                i == start,
                i1 == i + 1,
                i1 < b.len(),
                i < i1 <= self.pos() <= b.len(),
                keys_sorted(map@),
                spec_entries(b, i1, Seq::empty()) == spec_entries(b, self.pos(), map@),
            decreases b.len() - self.pos(),
        {
            let ghost k = self.pos();
            let key = self.parse_string()?;
            proof {
                lemma_string_progress(b, k);
            }
            if map.contains_key(&key) {
                return Err(Error::DuplicateKey(key.to_string()));
            }
            let v = self.parse_elem()?;
            proof {
                lemma_elem_progress(b, spec_string(b, k).1);
                lemma_map_insert(map@, key@, v@);
            }
            map.insert(key, v);
        }
        let end = self.idx;
        self.advance()?;
        let original_bytes = OriginalBytes::new(rc_clone(&self.bytes), start, end);
        Ok(BencodeDict::new(map, original_bytes))
    }

    /// Reads a list at the cursor (whose byte is not checked) up to its
    /// closing 'e'.
    pub fn parse_list(&mut self) -> (r: Result<BencodeList, Error>)
        ensures
            final(self).input() == old(self).input(),
            (outcome(r), final(self).pos()) == spec_list(old(self).input(), old(self).pos()),
        decreases old(self).input().len() - old(self).pos(), 0int,
    {
        let ghost b = self.input();
        let ghost i = self.pos();
        self.advance()?;
        if self.idx == self.bytes.len() {
            return Err(Error::UnexpectedEOF);
        }
        let ghost i1 = self.pos();
        assert(i1 == i + 1);
        let mut list = BencodeList::new();
        while self.peek()? != 101
            invariant
                self.input() == b,
                b == old(self).input(),
                i == old(self).pos(),
                b.len() == self.bytes@.len(),
                i1 == i + 1,
                i1 < b.len(),
                i < i1 <= self.pos() <= b.len(),
                spec_items(b, i1, Seq::empty()) == spec_items(b, self.pos(), list@),
            decreases b.len() - self.pos(),
        {
            let ghost k = self.pos();
            let v = self.parse_elem()?;
            proof {
                lemma_elem_progress(b, k);
            }
            list.push(v);
        }
        self.advance()?;
        Ok(list)
    }

    /// Reads a byte string `<length>:<bytes>` at the cursor.
    pub fn parse_string(&mut self) -> (r: Result<ByteString, Error>)
        ensures
            final(self).input() == old(self).input(),
            (outcome(r), final(self).pos()) == spec_string(old(self).input(), old(self).pos()),
    {
        let ghost b = self.input();
        let start = self.idx;
        let _len = self.bytes.len();  // the input length fits in a usize
        proof {
            lemma_find_byte(b, start as int, 58);
        }
        while self.peek()? != 58
            invariant
                self.input() == b,
                b == old(self).input(),
                start == old(self).pos(),
                b.len() == self.bytes@.len(),
                b.len() <= usize::MAX,
                start <= self.pos(),
                forall|m: int| start <= m < self.pos() ==> b[m] != 58,
                find_byte(b, start as int, 58) == find_byte(b, self.pos(), 58),
                self.pos() <= b.len() || self.pos() == start,
            decreases b.len() - self.pos(),
        {
            self.advance()?;
        }
        let j = self.idx;
        assert(b[j as int] == 58);
        assert(find_byte(b, j as int, 58) == Some(j as int));
        assert(find_byte(b, start as int, 58) == Some(j as int));
        if j == start {
            return Err(Error::EmptyStringLength);
        }
        if self.bytes[start] == 45 {
            return Err(Error::NegativeStringLength);
        }
        let bytes: &[u8] = &self.bytes;
        let parsed = if self.bytes[start] == 43 {
            digits_at_most(bytes, start + 1, j, usize::MAX as u64)
        } else {
            digits_at_most(bytes, start, j, usize::MAX as u64)
        };
        proof {
            let digits = b.subrange(start as int, j as int);
            if b[start as int] == 43 {
                assert(after_plus(digits) =~= b.subrange(start + 1, j as int));
            } else {
                assert(after_plus(digits) =~= digits);
            }
        }
        match parsed {
            Some(n) => {
                let strlen = n as usize;
                if strlen > self.bytes.len() - j - 1 {
                    // the string runs past the end of the input
                    self.idx = if strlen > usize::MAX - j - 1 {
                        usize::MAX
                    } else {
                        j + strlen + 1
                    };
                    return Err(Error::UnexpectedEOF);
                }
                self.advance_by(strlen + 1)?;
                let k = self.idx;
                let bytes: &[u8] = &self.bytes;
                let s = vstd::slice::slice_to_vec(vstd::slice::slice_subrange(bytes, k - strlen, k));
                assert(k == j + n + 1);
                assert(spec_string(b, start as int) == (Ok::<Seq<u8>, ParseFailure>(s@), k as int));
                Ok(ByteString::from(s))
            },
            None => {
                assert(parse_unsigned(b.subrange(start as int, j as int)) is None);
                Err(Error::InvalidInteger(latin1_text(&self.bytes, start, j)))
            },
        }
    }

    /// Reads an integer `i<digits>e` at the cursor (whose byte is not checked).
    pub fn parse_number(&mut self) -> (r: Result<BencodeNumber, Error>)
        ensures
            final(self).input() == old(self).input(),
            (outcome(r), final(self).pos()) == spec_number(old(self).input(), old(self).pos()),
    {
        let ghost b = self.input();
        self.advance()?;
        let start = self.idx;
        let _len = self.bytes.len();  // the input length fits in a usize
        proof {
            lemma_find_byte(b, start as int, 101);
        }
        while self.peek()? != 101
            invariant
                self.input() == b,
                b == old(self).input(),
                start == bump(old(self).pos(), 1),
                b.len() == self.bytes@.len(),
                b.len() <= usize::MAX,
                start <= self.pos(),
                start <= b.len(),
                forall|m: int| start <= m < self.pos() ==> b[m] != 101,
                find_byte(b, start as int, 101) == find_byte(b, self.pos(), 101),
                self.pos() <= b.len() || self.pos() == start,
            decreases b.len() - self.pos(),
        {
            self.advance()?;
        }
        let j = self.idx;
        self.advance()?;
        let bytes: &[u8] = &self.bytes;
        let ghost digits = b.subrange(start as int, j as int);
        let negative = j > start && bytes[start] == 45;
        let value: Option<i64> = if negative {
            match digits_at_most(bytes, start + 1, j, 9223372036854775808u64) {
                Some(m) => {
                    proof {
                        assert(digits.drop_first() =~= b.subrange(start + 1, j as int));
                    }
                    if m == 9223372036854775808u64 {
                        Some(i64::MIN)
                    } else {
                        Some(-(m as i64))
                    }
                },
                None => {
                    proof {
                        assert(digits.drop_first() =~= b.subrange(start + 1, j as int));
                    }
                    None
                },
            }
        } else {
            let from = if j > start && bytes[start] == 43 {
                start + 1
            } else {
                start
            };
            proof {
                assert(after_plus(digits) =~= b.subrange(from as int, j as int));
            }
            match digits_at_most(bytes, from, j, 9223372036854775807u64) {
                Some(m) => Some(m as i64),
                None => None,
            }
        };
        match value {
            Some(v) => Ok(BencodeNumber::from(v)),
            None => Err(Error::InvalidInteger(latin1_text(bytes, start, j))),
        }
    }
}

} // verus!
