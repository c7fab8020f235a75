//! The bencode value type and its decoder.
use crate::model::{
    all_digits, bytes_lt, decoded, digits_value, first_at_or_after, insert_entry, integer_of_text,
    is_digit, lemma_bytes_lt_asymmetric, lemma_bytes_lt_irreflexive, lemma_bytes_lt_total,
    integer_at, keys_ascending, lookup, parse_entries, parse_integer, parse_items, parse_string, parse_value,
    prepend_items, text_at, text_of, Value,
    COLON, DICT_START, DIGIT_NINE, DIGIT_ZERO, END, INT_START, LIST_START, MAX_DEPTH, MINUS,
};
use crate::laws::lemma_insert_entry;
use crate::torrent::Field;
use vstd::prelude::*;
use vstd::slice::slice_to_vec;
use vstd::utf8::{decode_utf8, valid_utf8};

verus! {

/// Why decoding failed.
#[derive(Debug, PartialEq, Eq, Structural, Clone, Copy)]
pub enum BencodeError {
    /// The value starts with a byte that begins no bencode value.
    InvalidInput,
    /// An integer, or the length of a byte string, is not a number in range.
    InvalidNumber,
    /// The text of a number is not valid UTF-8.
    InvalidSequence,
    /// An integer, list or dictionary is not closed by `e`.
    NoEndMarker,
    /// A byte string has no `:` after its length.
    NoStringDelimiter,
    /// A byte string claims more bytes than the input holds.
    LengthExceedsInput,
    /// Lists and dictionaries nest deeper than the decoder allows.
    TooDeep,
}

/// A bencode value.
#[derive(Debug, PartialEq)]
pub enum Bencode {
    Integer(i64),
    String(Vec<u8>),
    List(Vec<Bencode>),
    Dictionary(Dict),
}

/// The entries of a bencode dictionary, always held in strictly ascending
/// byte order of their keys, so each key once.
#[derive(Debug, PartialEq)]
pub struct Dict {
    entries: Vec<(Vec<u8>, Bencode)>,
}

impl Dict {
    #[verifier::type_invariant]
    spec fn keys_in_order(&self) -> bool {
        keys_ascending(entries_view(self.entries@))
    }
}

impl View for Dict {
    type V = Seq<(Seq<u8>, Value)>;

    closed spec fn view(&self) -> Seq<(Seq<u8>, Value)>
        decreases self,
    {
        entries_view(self.entries@)
    }
}

impl View for Bencode {
    type V = Value;

    open spec fn view(&self) -> Value
        decreases self,
    {
        match self {
            Bencode::Integer(i) => Value::Integer(*i as int),
            Bencode::String(s) => Value::Bytes(s@),
            Bencode::List(l) => Value::List(
                Seq::new(
                    l@.len(),
                    |i: int|
                        if 0 <= i < l@.len() {
                            l@[i].view()
                        } else {
                            Value::Integer(0)
                        },
                ),
            ),
            Bencode::Dictionary(d) => Value::Dict(d.view()),
        }
    }
}

/// The view of dictionary entries, key by key.
pub open spec fn entries_view(d: Seq<(Vec<u8>, Bencode)>) -> Seq<(Seq<u8>, Value)>
    decreases d,
{
    if d.len() == 0 {
        seq![]
    } else {
        seq![(d[0].0@, d[0].1.view())] + entries_view(d.subrange(1, d.len() as int))
    }
}

/// The views of list items.
pub open spec fn values_of(l: Seq<Bencode>) -> Seq<Value> {
    l.map_values(|b: Bencode| b@)
}

/// The views of dictionary entries.
pub open spec fn entries_of(d: Seq<(Vec<u8>, Bencode)>) -> Seq<(Seq<u8>, Value)> {
    d.map_values(|e: (Vec<u8>, Bencode)| (e.0@, e.1@))
}

/// A list's view holds the views of its items.
pub proof fn lemma_list_view(l: Vec<Bencode>)
    ensures
        Bencode::List(l)@ == Value::List(values_of(l@)),
{
    assert(Bencode::List(l)@->List_0 =~= values_of(l@));
}

proof fn lemma_entries_view(d: Seq<(Vec<u8>, Bencode)>)
    ensures
        entries_view(d) == entries_of(d),
    decreases d.len(),
{
    if d.len() > 0 {
        let rest = d.subrange(1, d.len() as int);
        lemma_entries_view(rest);
        assert(entries_of(d) =~= seq![(d[0].0@, d[0].1@)] + entries_of(rest));
    } else {
        assert(entries_of(d) =~= seq![]);
    }
}

/// A decoder step that ends at an index of the input agrees with the grammar's
/// step on the input's bytes.
pub open spec fn tracks(
    r: Result<(Bencode, usize), BencodeError>,
    p: Result<(Value, int), BencodeError>,
) -> bool {
    match p {
        Ok((v, end)) => r matches Ok((b, e)) && b@ == v && e == end,
        Err(x) => r matches Err(y) && y == x,
    }
}

/// Relies on `std::str::from_utf8`: it accepts exactly the valid UTF-8 byte
/// sequences, and the text it returns is what those bytes encode.
#[verifier::external_body]
pub(crate) fn str_from_utf8(bytes: &[u8]) -> (r: Option<&str>)
    ensures
        r is Some <==> valid_utf8(bytes@),
        r matches Some(s) ==> s@ == decode_utf8(bytes@),
{
    std::str::from_utf8(bytes).ok()
}

/// The first index at or after `from` that holds `c`.
fn find_byte(input: &[u8], from: usize, c: u8) -> (r: Option<usize>)
    requires
        from <= input@.len(),
    ensures
        r matches Some(j) ==> first_at_or_after(input@, from as int, c) == Some(j as int) && from
            <= j < input@.len() && input@[j as int] == c,
        r is None ==> first_at_or_after(input@, from as int, c) is None,
{
    let mut j = from;
    while j < input.len()
        invariant
            from <= j <= input@.len(),
            first_at_or_after(input@, from as int, c) == first_at_or_after(input@, j as int, c),
        decreases input@.len() - j,
    {
        if input[j] == c {
            return Some(j);
        }
        j = j + 1;
    }
    None
}

fn is_all_digits(t: &[u8]) -> (r: bool)
    ensures
        r == all_digits(t@),
{
    let mut i: usize = 0;
    while i < t.len()
        invariant
            i <= t@.len(),
            forall|k: int| 0 <= k < i ==> is_digit(#[trigger] t@[k]),
        decreases t@.len() - i,
    {
        if t[i] < DIGIT_ZERO || t[i] > DIGIT_NINE {
            return false;
        }
        i = i + 1;
    }
    true
}

proof fn lemma_digits_prefix(s: Seq<u8>, k: int)
    requires
        all_digits(s),
        0 <= k <= s.len(),
    ensures
        digits_value(s.subrange(0, k)) <= digits_value(s),
    decreases s.len(),
{
    if k < s.len() {
        assert(all_digits(s.drop_last()));
        lemma_digits_prefix(s.drop_last(), k);
        assert(s.drop_last().subrange(0, k) =~= s.subrange(0, k));
    } else {
        assert(s.subrange(0, k) =~= s);
    }
}

/// The number that the digits `t` spell, when it is at most `limit`.
fn digits_value_upto(t: &[u8], limit: u64) -> (r: Option<u64>)
    requires
        all_digits(t@),
    ensures
        r matches Some(n) ==> n == digits_value(t@) && n <= limit,
        r is None ==> digits_value(t@) > limit,
{
    let mut acc: u64 = 0;
    let mut i: usize = 0;
    while i < t.len()
        invariant
            i <= t@.len(),
            all_digits(t@),
            acc == digits_value(t@.subrange(0, i as int)),
            acc <= limit,
        decreases t@.len() - i,
    {
        assert(is_digit(t@[i as int]));
        let d = (t[i] - DIGIT_ZERO) as u64;
        assert(t@.subrange(0, i + 1).drop_last() =~= t@.subrange(0, i as int));
        assert(digits_value(t@.subrange(0, i + 1)) == acc * 10 + d);
        if d > limit || acc > (limit - d) / 10 {
            proof {
                if d <= limit {
                    let q = (limit - d) / 10;
                    assert(acc * 10 + d > limit) by (nonlinear_arith)
                        requires
                            acc > q,
                            q == (limit - d) / 10,
                            d <= limit,
                    ;
                }
                lemma_digits_prefix(t@, i + 1);
            }
            return None;
        }
        proof {
            let q = (limit - d) / 10;
            assert(acc * 10 + d <= limit) by (nonlinear_arith)
                requires
                    acc <= q,
                    q == (limit - d) / 10,
                    d <= limit,
            ;
        }
        acc = acc * 10 + d;
        i = i + 1;
    }
    assert(t@.subrange(0, i as int) =~= t@);
    Some(acc)
}

/// The integer that the body of `i...e` spells.
fn parse_i64(t: &[u8]) -> (r: Option<i64>)
    ensures
        r matches Some(n) ==> integer_of_text(t@) == Some(n as int),
        r is None ==> integer_of_text(t@) is None,
{
    let negative = t.len() > 0 && t[0] == MINUS;
    let digits = if negative {
        &t[1..t.len()]
    } else {
        t
    };
    assert(negative ==> digits@ =~= t@.drop_first());
    if digits.len() == 0 || !is_all_digits(digits) {
        return None;
    }
    let limit: u64 = if negative {
        0x8000_0000_0000_0000
    } else {
        0x7fff_ffff_ffff_ffff
    };
    match digits_value_upto(digits, limit) {
        None => None,
        Some(m) => {
            if !negative {
                Some(m as i64)
            } else if m == 0x8000_0000_0000_0000 {
                Some(i64::MIN)
            } else {
                Some(-(m as i64))
            }
        },
    }
}

/// The integer `i<body>e` that starts at `pos`.
fn decode_integer(input: &[u8], pos: usize) -> (r: Result<(Bencode, usize), BencodeError>)
    requires
        pos < input@.len(),
        input@[pos as int] == INT_START,
    ensures
        tracks(r, parse_integer(input@, pos as int)),
        r matches Ok((_, e)) ==> pos < e <= input@.len(),
{
    let end = match find_byte(input, pos, END) {
        None => return Err(BencodeError::NoEndMarker),
        Some(e) => e,
    };
    assert(end < input.len());
    let body = &input[pos + 1..end];
    if str_from_utf8(body).is_none() {
        return Err(BencodeError::InvalidSequence);
    }
    match parse_i64(body) {
        None => Err(BencodeError::InvalidNumber),
        Some(n) => Ok((Bencode::Integer(n), end + 1)),
    }
}

/// The byte string `<length>:<bytes>` that starts at `pos`.
fn decode_string(input: &[u8], pos: usize) -> (r: Result<(Vec<u8>, usize), BencodeError>)
    requires
        pos < input@.len(),
    ensures
        match parse_string(input@, pos as int) {
            Ok((b, end)) => r matches Ok((v, e)) && v@ == b && e == end,
            Err(x) => r matches Err(y) && y == x,
        },
        r matches Ok((_, e)) ==> pos < e <= input@.len(),
{
    let colon = match find_byte(input, pos, COLON) {
        None => return Err(BencodeError::NoStringDelimiter),
        Some(c) => c,
    };
    let text = &input[pos..colon];
    if str_from_utf8(text).is_none() {
        return Err(BencodeError::InvalidSequence);
    }
    if text.len() == 0 || !is_all_digits(text) {
        return Err(BencodeError::InvalidNumber);
    }
    let available = input.len() - colon - 1;
    match digits_value_upto(text, available as u64) {
        None => Err(BencodeError::LengthExceedsInput),
        Some(n) => {
            let end = colon + 1 + n as usize;
            Ok((slice_to_vec(&input[colon + 1..end]), end))
        },
    }
}

/// Whether `a` comes before `b` in byte-lexicographic order.
fn bytes_less(a: &[u8], b: &[u8]) -> (r: bool)
    ensures
        r == bytes_lt(a@, b@),
{
    let mut i: usize = 0;
    assert(a@.subrange(0, a@.len() as int) =~= a@);
    assert(b@.subrange(0, b@.len() as int) =~= b@);
    while i < a.len() && i < b.len() && a[i] == b[i]
        invariant
            i <= a@.len(),
            i <= b@.len(),
            bytes_lt(a@, b@) == bytes_lt(
                a@.subrange(i as int, a@.len() as int),
                b@.subrange(i as int, b@.len() as int),
            ),
        decreases a@.len() - i,
    {
        let ghost sa = a@.subrange(i as int, a@.len() as int);
        let ghost sb = b@.subrange(i as int, b@.len() as int);
        assert(sa.drop_first() =~= a@.subrange(i + 1, a@.len() as int));
        assert(sb.drop_first() =~= b@.subrange(i + 1, b@.len() as int));
        i = i + 1;
    }
    if i == a.len() {
        i < b.len()
    } else if i == b.len() {
        false
    } else {
        a[i] < b[i]
    }
}

fn bytes_equal(a: &[u8], b: &[u8]) -> (r: bool)
    ensures
        r == (a@ == b@),
{
    if a.len() != b.len() {
        return false;
    }
    let mut i: usize = 0;
    while i < a.len()
        invariant
            i <= a@.len(),
            a@.len() == b@.len(),
            forall|k: int| 0 <= k < i ==> a@[k] == b@[k],
        decreases a@.len() - i,
    {
        if a[i] != b[i] {
            return false;
        }
        i = i + 1;
    }
    assert(a@ =~= b@);
    true
}

/// Inserts `(key, value)` into entries kept in ascending key order; an equal
/// key has its value replaced.
fn insert_sorted(entries: &mut Vec<(Vec<u8>, Bencode)>, key: Vec<u8>, value: Bencode)
    ensures
        entries_of(final(entries)@) == insert_entry(entries_of(old(entries)@), key@, value@),
{
    let ghost e = entries_of(entries@);
    let ghost k = key@;
    let ghost v = value@;
    let mut i: usize = 0;
    assert(e.subrange(0, e.len() as int) =~= e);
    assert(e.subrange(0, 0) + insert_entry(e, k, v) =~= insert_entry(e, k, v));
    while i < entries.len() && bytes_less(entries[i].0.as_slice(), key.as_slice())
        invariant
            i <= entries@.len(),
            e == entries_of(entries@),
            k == key@,
            v == value@,
            insert_entry(e, k, v) == e.subrange(0, i as int) + insert_entry(
                e.subrange(i as int, e.len() as int),
                k,
                v,
            ),
        decreases entries@.len() - i,
    {
        let ghost rest = e.subrange(i as int, e.len() as int);
        proof {
            assert(rest[0] == e[i as int]);
            assert(e[i as int].0 == entries@[i as int].0@);
            assert(bytes_lt(rest[0].0, k));
            lemma_bytes_lt_irreflexive(k);
            lemma_bytes_lt_asymmetric(rest[0].0, k);
            assert(rest.drop_first() =~= e.subrange(i + 1, e.len() as int));
            assert(e.subrange(0, i + 1) =~= e.subrange(0, i as int) + seq![rest[0]]);
            assert(insert_entry(rest, k, v) == seq![rest[0]] + insert_entry(rest.drop_first(), k, v));
            assert(e.subrange(0, i as int) + (seq![rest[0]] + insert_entry(rest.drop_first(), k, v))
                =~= e.subrange(0, i + 1) + insert_entry(rest.drop_first(), k, v));
        }
        i = i + 1;
    }
    let ghost rest = e.subrange(i as int, e.len() as int);
    if i < entries.len() && bytes_equal(entries[i].0.as_slice(), key.as_slice()) {
        proof {
            assert(rest[0] == e[i as int]);
            assert(e[i as int].0 == entries@[i as int].0@);
        }
        entries.remove(i);
        entries.insert(i, (key, value));
        proof {
            assert(rest.drop_first() =~= e.subrange(i + 1, e.len() as int));
            assert(entries_of(entries@) =~= e.subrange(0, i as int) + (seq![(k, v)]
                + rest.drop_first()));
        }
    } else {
        proof {
            if i < e.len() {
                assert(rest[0] == e[i as int]);
                assert(e[i as int].0 == entries@[i as int].0@);
                lemma_bytes_lt_total(k, rest[0].0);
            }
        }
        entries.insert(i, (key, value));
        proof {
            assert(entries_of(entries@) =~= e.subrange(0, i as int) + (seq![(k, v)] + rest));
        }
    }
}

/// The list that opens at `pos`; `depth` bounds the nesting still allowed.
fn decode_list(input: &[u8], pos: usize, depth: usize) -> (r: Result<(Bencode, usize), BencodeError>)
    requires
        pos < input@.len(),
        input@[pos as int] == LIST_START,
    ensures
        tracks(r, parse_value(input@, pos as int, depth as nat)),
        r matches Ok((_, e)) ==> pos < e <= input@.len(),
    decreases input@.len() - pos, 0int,
{
    if depth == 0 {
        return Err(BencodeError::TooDeep);
    }
    let inner = depth - 1;
    let ghost s = input@;
    let mut list: Vec<Bencode> = Vec::new();
    assert(pos < input.len());
    let mut cur = pos + 1;
    assert(values_of(list@) =~= seq![]);
    loop
        invariant
            pos < cur <= s.len(),
            s[pos as int] == LIST_START,
            depth >= 1,
            s == input@,
            inner == depth - 1,
            parse_items(s, pos + 1, inner as nat) == prepend_items(
                values_of(list@),
                parse_items(s, cur as int, inner as nat),
            ),
        decreases s.len() - cur,
    {
        if cur >= input.len() {
            return Err(BencodeError::NoEndMarker);
        }
        if input[cur] == END {
            proof {
                lemma_list_view(list);
                assert(values_of(list@) + seq![] =~= values_of(list@));
            }
            return Ok((Bencode::List(list), cur + 1));
        }
        match decode_at(input, cur, inner) {
            Err(e) => return Err(e),
            Ok((item, next)) => {
                proof {
                    let rest = parse_items(s, next as int, inner as nat);
                    assert(values_of(list@.push(item)) =~= values_of(list@) + seq![item@]);
                    match rest {
                        Ok((items, end)) => {
                            assert(values_of(list@) + (seq![item@] + items) =~= (values_of(list@)
                                + seq![item@]) + items);
                        },
                        Err(_) => {},
                    }
                }
                list.push(item);
                cur = next;
            },
        }
    }
}

/// The dictionary that opens at `pos`; `depth` bounds the nesting still
/// allowed. A repeated key keeps the last value written for it.
fn decode_dictionary(input: &[u8], pos: usize, depth: usize) -> (r: Result<
    (Bencode, usize),
    BencodeError,
>)
    requires
        pos < input@.len(),
        input@[pos as int] == DICT_START,
    ensures
        tracks(r, parse_value(input@, pos as int, depth as nat)),
        r matches Ok((_, e)) ==> pos < e <= input@.len(),
    decreases input@.len() - pos, 0int,
{
    if depth == 0 {
        return Err(BencodeError::TooDeep);
    }
    let inner = depth - 1;
    let ghost s = input@;
    let mut dict = Dict::new();
    assert(pos < input.len());
    let mut cur = pos + 1;
    loop
        invariant
            pos < cur <= s.len(),
            s[pos as int] == DICT_START,
            depth >= 1,
            s == input@,
            inner == depth - 1,
            parse_entries(s, pos + 1, inner as nat, seq![]) == parse_entries(
                s,
                cur as int,
                inner as nat,
                dict@,
            ),
        decreases s.len() - cur,
    {
        if cur >= input.len() {
            return Err(BencodeError::NoEndMarker);
        }
        if input[cur] == END {
            return Ok((Bencode::Dictionary(dict), cur + 1));
        }
        let (key, after_key) = match decode_string(input, cur) {
            Err(e) => return Err(e),
            Ok(x) => x,
        };
        let (value, next) = match decode_at(input, after_key, inner) {
            Err(e) => return Err(e),
            Ok(x) => x,
        };
        dict.insert(key, value);
        cur = next;
    }
}

/// The value that starts at `pos`; `depth` bounds how many lists and
/// dictionaries may still open.
fn decode_at(input: &[u8], pos: usize, depth: usize) -> (r: Result<(Bencode, usize), BencodeError>)
    requires
        pos <= input@.len(),
    ensures
        tracks(r, parse_value(input@, pos as int, depth as nat)),
        r matches Ok((_, e)) ==> pos < e <= input@.len(),
    decreases input@.len() - pos, 1int,
{
    if pos >= input.len() {
        return Err(BencodeError::InvalidInput);
    }
    let first = input[pos];
    if first == INT_START {
        decode_integer(input, pos)
    } else if DIGIT_ZERO <= first && first <= DIGIT_NINE {
        match decode_string(input, pos) {
            Ok((bytes, end)) => Ok((Bencode::String(bytes), end)),
            Err(e) => Err(e),
        }
    } else if first == LIST_START {
        decode_list(input, pos, depth)
    } else if first == DICT_START {
        decode_dictionary(input, pos, depth)
    } else {
        Err(BencodeError::InvalidInput)
    }
}

/// What decoding gives, seen through the views of its parts.
pub open spec fn decode_view(r: Result<(Bencode, &[u8]), BencodeError>) -> Result<
    (Value, Seq<u8>),
    BencodeError,
> {
    match r {
        Ok((b, rest)) => Ok((b@, rest@)),
        Err(e) => Err(e),
    }
}

/// Decodes the bencode value at the start of `input`, and returns it with the
/// bytes that follow it.
pub fn decode(input: &[u8]) -> (r: Result<(Bencode, &[u8]), BencodeError>)
    ensures
        decode_view(r) == decoded(input@),
{
    match decode_at(input, 0, MAX_DEPTH) {
        Ok((value, end)) => Ok((value, &input[end..input.len()])),
        Err(e) => Err(e),
    }
}

impl Dict {
    /// A dictionary with no entries.
    pub fn new() -> (r: Dict)
        ensures
            r@ == Seq::<(Seq<u8>, Value)>::empty(),
    {
        let r = Dict { entries: Vec::new() };
        assert(entries_view(r.entries@) =~= Seq::<(Seq<u8>, Value)>::empty());
        r
    }

    /// Inserts `(key, value)` at its place in key order; an equal key has its
    /// value replaced.
    pub fn insert(&mut self, key: Vec<u8>, value: Bencode)
        ensures
            final(self)@ == insert_entry(old(self)@, key@, value@),
    {
        proof {
            use_type_invariant(&*self);
            lemma_entries_view(self.entries@);
            lemma_insert_entry(self@, key@, value@);
        }
        let ghost before = self@;
        let ghost (k, v) = (key@, value@);
        let mut entries: Vec<(Vec<u8>, Bencode)> = Vec::new();
        proof {
            assert(entries_view(entries@) =~= Seq::<(Seq<u8>, Value)>::empty());
        }
        std::mem::swap(&mut entries, &mut self.entries);
        insert_sorted(&mut entries, key, value);
        proof {
            lemma_entries_view(entries@);
        }
        self.entries = entries;
        assert(self@ == insert_entry(before, k, v));
    }

    /// The value held under `key`.
    pub fn get(&self, key: &[u8]) -> (r: Option<&Bencode>)
        ensures
            match lookup(self@, key@) {
                Some(v) => r matches Some(b) && b@ == v,
                None => r is None,
            },
    {
        proof {
            lemma_entries_view(self.entries@);
        }
        let entries = &self.entries;
        let ghost e = entries_of(entries@);
        let mut i: usize = 0;
        assert(e.subrange(0, e.len() as int) =~= e);
        while i < entries.len()
            invariant
                i <= entries@.len(),
                e == entries_of(entries@),
                self@ == e,
                lookup(e, key@) == lookup(e.subrange(i as int, e.len() as int), key@),
            decreases entries@.len() - i,
        {
            let ghost rest = e.subrange(i as int, e.len() as int);
            assert(rest[0] == e[i as int]);
            assert(e[i as int] == (entries@[i as int].0@, entries@[i as int].1@));
            if bytes_equal(entries[i].0.as_slice(), key) {
                return Some(&entries[i].1);
            }
            assert(rest.drop_first() =~= e.subrange(i + 1, e.len() as int));
            i = i + 1;
        }
        None
    }

    /// The entries, in ascending key order.
    pub fn entries(&self) -> (r: &Vec<(Vec<u8>, Bencode)>)
        ensures
            entries_of(r@) == self@,
            keys_ascending(self@),
    {
        proof {
            use_type_invariant(self);
            lemma_entries_view(self.entries@);
        }
        &self.entries
    }
}

impl Bencode {
    pub fn as_integer(&self) -> (r: Option<i64>)
        ensures
            r is Some <==> self@ is Integer,
            r matches Some(n) ==> self@ == Value::Integer(n as int),
    {
        if let Bencode::Integer(i) = self {
            Some(*i)
        } else {
            None
        }
    }

    /// The text of a byte string whose bytes are valid UTF-8.
    pub fn as_string(&self) -> (r: Option<&str>)
        ensures
            match text_of(self@) {
                Some(t) => r matches Some(s) && s@ == t,
                None => r is None,
            },
    {
        if let Bencode::String(s) = self {
            str_from_utf8(s.as_slice())
        } else {
            None
        }
    }

    pub fn as_dict(&self) -> (r: Option<&Dict>)
        ensures
            r is Some <==> self@ is Dict,
            r matches Some(d) ==> self@ == Value::Dict(d@),
    {
        if let Bencode::Dictionary(d) = self {
            Some(d)
        } else {
            None
        }
    }

    /// The announce URL, author and creation date of a torrent's root
    /// dictionary; `None` when the value is not a dictionary or one of the
    /// three is absent or of another kind.
    pub fn to_torrent(&self) -> (r: Option<Torrent>)
        ensures
            match self@ {
                Value::Dict(d) => match (
                    text_at(d, Field::Announce.spec_key()),
                    text_at(d, Field::CreatedBy.spec_key()),
                    integer_at(d, Field::CreationDate.spec_key()),
                ) {
                    (Some(a), Some(c), Some(n)) => r matches Some(t) && t.announce@ == a
                        && t.created_by@ == c && t.creation_date == n,
                    _ => r is None,
                },
                _ => r is None,
            },
    {
        let root = match self.as_dict() {
            Some(d) => d,
            None => return None,
        };
        let announce = match get_string(root, Field::Announce.key()) {
            Some(s) => s,
            None => return None,
        };
        let created_by = match get_string(root, Field::CreatedBy.key()) {
            Some(s) => s,
            None => return None,
        };
        let creation_date = match get_integer(root, Field::CreationDate.key()) {
            Some(n) => n,
            None => return None,
        };
        Some(Torrent { announce, created_by, creation_date })
    }
}

/// The announce URL, author and creation date of a torrent.
#[derive(Debug)]
pub struct Torrent {
    pub announce: String,
    pub created_by: String,
    pub creation_date: i64,
}

/// The integer held under `key`.
pub fn get_integer(dictionary: &Dict, key: &[u8]) -> (r: Option<i64>)
    ensures
        match integer_at(dictionary@, key@) {
            Some(n) => r matches Some(x) && x == n,
            None => r is None,
        },
{
    match dictionary.get(key) {
        Some(value) => value.as_integer(),
        None => None,
    }
}

/// The text held under `key`.
pub fn get_string(dictionary: &Dict, key: &[u8]) -> (r: Option<String>)
    ensures
        match text_at(dictionary@, key@) {
            Some(t) => r matches Some(s) && s@ == t,
            None => r is None,
        },
{
    match dictionary.get(key) {
        Some(value) => match value.as_string() {
            Some(text) => Some(text.to_owned()),
            None => None,
        },
        None => None,
    }
}

} // verus!
