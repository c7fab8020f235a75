//! The mathematical side of bencode: values, their canonical encoding, the
//! byte order of dictionary keys, and the grammar that the decoder follows.
use crate::bencode::BencodeError;
use vstd::prelude::*;
use vstd::utf8::{decode_utf8, valid_utf8};

verus! {

/// How many lists and dictionaries may nest inside one another in decoded input.
pub const MAX_DEPTH: usize = 512;

/// `i`, which opens an integer.
pub const INT_START: u8 = 105;
/// `l`, which opens a list.
pub const LIST_START: u8 = 108;
/// `d`, which opens a dictionary.
pub const DICT_START: u8 = 100;
/// `e`, which closes an integer, a list or a dictionary.
pub const END: u8 = 101;
/// `:`, between the length of a byte string and its bytes.
pub const COLON: u8 = 58;
/// `-`, the sign of a negative integer.
pub const MINUS: u8 = 45;
/// `0`.
pub const DIGIT_ZERO: u8 = 48;
/// `9`.
pub const DIGIT_NINE: u8 = 57;

/// The mathematical value of a bencode tree.
pub enum Value {
    Integer(int),
    Bytes(Seq<u8>),
    List(Seq<Value>),
    Dict(Seq<(Seq<u8>, Value)>),
}

pub open spec fn is_digit(b: u8) -> bool {
    DIGIT_ZERO <= b <= DIGIT_NINE
}

pub open spec fn all_digits(s: Seq<u8>) -> bool {
    forall|i: int| 0 <= i < s.len() ==> is_digit(#[trigger] s[i])
}

/// The number that a run of decimal digits spells.
pub open spec fn digits_value(s: Seq<u8>) -> nat
    decreases s.len(),
{
    if s.len() == 0 {
        0
    } else {
        digits_value(s.drop_last()) * 10 + (s.last() - DIGIT_ZERO) as nat
    }
}

/// The decimal spelling of `n`, without leading zeros.
pub open spec fn nat_text(n: nat) -> Seq<u8>
    decreases n,
{
    if n < 10 {
        seq![(DIGIT_ZERO + n) as u8]
    } else {
        nat_text(n / 10) + seq![(DIGIT_ZERO + n % 10) as u8]
    }
}

/// The decimal spelling of `i`, with a leading `-` when it is negative.
pub open spec fn int_text(i: int) -> Seq<u8> {
    if i < 0 {
        seq![MINUS] + nat_text((-i) as nat)
    } else {
        nat_text(i as nat)
    }
}

/// The integer that the body of `i...e` spells: an optional `-`, then one or
/// more digits, within the range of a signed 64-bit integer. Leading zeros
/// and `-0` are read as the number they spell.
pub open spec fn integer_of_text(t: Seq<u8>) -> Option<int> {
    let negative = t.len() > 0 && t[0] == MINUS;
    let digits = if negative { t.drop_first() } else { t };
    let magnitude = digits_value(digits) as int;
    let n = if negative { -magnitude } else { magnitude };
    if digits.len() > 0 && all_digits(digits) && i64::MIN <= n <= i64::MAX {
        Some(n)
    } else {
        None
    }
}

/// Byte-lexicographic order: the first differing byte decides, and a proper
/// prefix comes first.
pub open spec fn bytes_lt(a: Seq<u8>, b: Seq<u8>) -> bool
    decreases a.len(),
{
    if a.len() == 0 {
        b.len() > 0
    } else if b.len() == 0 {
        false
    } else if a[0] != b[0] {
        a[0] < b[0]
    } else {
        bytes_lt(a.drop_first(), b.drop_first())
    }
}

/// Inserts `(k, v)` into entries kept in ascending key order, replacing the
/// value of an equal key.
pub open spec fn insert_entry(d: Seq<(Seq<u8>, Value)>, k: Seq<u8>, v: Value) -> Seq<
    (Seq<u8>, Value),
>
    decreases d.len(),
{
    if d.len() == 0 {
        seq![(k, v)]
    } else if d[0].0 == k {
        seq![(k, v)] + d.drop_first()
    } else if bytes_lt(k, d[0].0) {
        seq![(k, v)] + d
    } else {
        seq![d[0]] + insert_entry(d.drop_first(), k, v)
    }
}

/// The value held under key `k`: the first entry with that key.
pub open spec fn lookup(d: Seq<(Seq<u8>, Value)>, k: Seq<u8>) -> Option<Value>
    decreases d.len(),
{
    if d.len() == 0 {
        None
    } else if d[0].0 == k {
        Some(d[0].1)
    } else {
        lookup(d.drop_first(), k)
    }
}

/// The text that a byte string holds, when its bytes are valid UTF-8.
pub open spec fn text_of(v: Value) -> Option<Seq<char>> {
    match v {
        Value::Bytes(b) => if valid_utf8(b) {
            Some(decode_utf8(b))
        } else {
            None
        },
        _ => None,
    }
}

/// The text held under key `k`.
pub open spec fn text_at(d: Seq<(Seq<u8>, Value)>, k: Seq<u8>) -> Option<Seq<char>> {
    match lookup(d, k) {
        Some(v) => text_of(v),
        None => None,
    }
}

/// The integer held under key `k`.
pub open spec fn integer_at(d: Seq<(Seq<u8>, Value)>, k: Seq<u8>) -> Option<int> {
    match lookup(d, k) {
        Some(Value::Integer(i)) => Some(i),
        _ => None,
    }
}

/// The bytes of ASCII text, one per character.
pub open spec fn ascii_bytes(text: Seq<char>) -> Seq<u8> {
    text.map_values(|c: char| c as u8)
}

/// Keys in strictly ascending byte order, hence unique.
pub open spec fn keys_ascending(d: Seq<(Seq<u8>, Value)>) -> bool {
    forall|i: int, j: int| 0 <= i < j < d.len() ==> bytes_lt(#[trigger] d[i].0, #[trigger] d[j].0)
}

/// The mapping that a dictionary's entries describe; where a key repeats,
/// its first entry counts, as in `lookup`.
pub open spec fn entry_map(d: Seq<(Seq<u8>, Value)>) -> Map<Seq<u8>, Value>
    decreases d.len(),
{
    if d.len() == 0 {
        Map::empty()
    } else {
        entry_map(d.drop_first()).insert(d[0].0, d[0].1)
    }
}

/// Integers fit in 64 bits and every dictionary has its keys in ascending order.
pub open spec fn well_formed(v: Value) -> bool
    decreases v,
{
    match v {
        Value::Integer(i) => i64::MIN <= i <= i64::MAX,
        Value::Bytes(_) => true,
        Value::List(items) => forall|i: int|
            0 <= i < items.len() ==> well_formed(#[trigger] items[i]),
        Value::Dict(d) => keys_ascending(d) && forall|i: int|
            0 <= i < d.len() ==> well_formed(#[trigger] d[i].1),
    }
}

/// At most `depth` lists and dictionaries nest inside one another in `v`.
pub open spec fn nests_within(v: Value, depth: nat) -> bool
    decreases v,
{
    match v {
        Value::Integer(_) => true,
        Value::Bytes(_) => true,
        Value::List(items) => depth > 0 && forall|i: int|
            0 <= i < items.len() ==> nests_within(#[trigger] items[i], (depth - 1) as nat),
        Value::Dict(d) => depth > 0 && forall|i: int|
            0 <= i < d.len() ==> nests_within(#[trigger] d[i].1, (depth - 1) as nat),
    }
}

/// The canonical encoding of a value. Dictionary entries go out in the order
/// the value holds them; a `Dict` always holds them in ascending key order.
pub open spec fn encoding(v: Value) -> Seq<u8>
    decreases v,
{
    match v {
        Value::Integer(i) => seq![INT_START] + int_text(i) + seq![END],
        Value::Bytes(b) => bytes_encoding(b),
        Value::List(items) => seq![LIST_START] + items_encoding(items) + seq![END],
        Value::Dict(d) => seq![DICT_START] + entries_encoding(d) + seq![END],
    }
}

/// A byte string: its length in decimal, `:`, then the bytes.
pub open spec fn bytes_encoding(b: Seq<u8>) -> Seq<u8> {
    nat_text(b.len()) + seq![COLON] + b
}

pub open spec fn items_encoding(items: Seq<Value>) -> Seq<u8>
    decreases items,
{
    if items.len() == 0 {
        seq![]
    } else {
        encoding(items[0]) + items_encoding(items.subrange(1, items.len() as int))
    }
}

pub open spec fn entries_encoding(d: Seq<(Seq<u8>, Value)>) -> Seq<u8>
    decreases d,
{
    if d.len() == 0 {
        seq![]
    } else {
        bytes_encoding(d[0].0) + encoding(d[0].1) + entries_encoding(
            d.subrange(1, d.len() as int),
        )
    }
}

/// The first index at or after `from` that holds byte `c`.
pub open spec fn first_at_or_after(s: Seq<u8>, from: int, c: u8) -> Option<int>
    decreases s.len() - from,
{
    if from < 0 || from >= s.len() {
        None
    } else if s[from] == c {
        Some(from)
    } else {
        first_at_or_after(s, from + 1, c)
    }
}

/// `i<body>e` at `pos`: the body runs to the first `e`.
pub open spec fn parse_integer(s: Seq<u8>, pos: int) -> Result<(Value, int), BencodeError> {
    match first_at_or_after(s, pos, END) {
        None => Err(BencodeError::NoEndMarker),
        Some(end) => {
            let body = s.subrange(pos + 1, end);
            if !valid_utf8(body) {
                Err(BencodeError::InvalidSequence)
            } else {
                match integer_of_text(body) {
                    None => Err(BencodeError::InvalidNumber),
                    Some(n) => Ok((Value::Integer(n), end + 1)),
                }
            }
        },
    }
}

/// `<length>:<bytes>` at `pos`: the length runs to the first `:`.
pub open spec fn parse_string(s: Seq<u8>, pos: int) -> Result<(Seq<u8>, int), BencodeError> {
    match first_at_or_after(s, pos, COLON) {
        None => Err(BencodeError::NoStringDelimiter),
        Some(colon) => {
            let text = s.subrange(pos, colon);
            let end = colon + 1 + digits_value(text);
            if !valid_utf8(text) {
                Err(BencodeError::InvalidSequence)
            } else if text.len() == 0 || !all_digits(text) {
                Err(BencodeError::InvalidNumber)
            } else if end > s.len() {
                Err(BencodeError::LengthExceedsInput)
            } else {
                Ok((s.subrange(colon + 1, end), end))
            }
        },
    }
}

/// The value that starts at `pos`, with the position just past it; `depth`
/// bounds how many lists and dictionaries may still open.
pub open spec fn parse_value(s: Seq<u8>, pos: int, depth: nat) -> Result<(Value, int), BencodeError>
    decreases s.len() - pos, 0int,
{
    if pos < 0 || pos >= s.len() {
        Err(BencodeError::InvalidInput)
    } else if s[pos] == INT_START {
        parse_integer(s, pos)
    } else if is_digit(s[pos]) {
        match parse_string(s, pos) {
            Ok((b, end)) => Ok((Value::Bytes(b), end)),
            Err(e) => Err(e),
        }
    } else if s[pos] == LIST_START {
        if depth == 0 {
            Err(BencodeError::TooDeep)
        } else {
            match parse_items(s, pos + 1, (depth - 1) as nat) {
                Ok((items, end)) => Ok((Value::List(items), end)),
                Err(e) => Err(e),
            }
        }
    } else if s[pos] == DICT_START {
        if depth == 0 {
            Err(BencodeError::TooDeep)
        } else {
            match parse_entries(s, pos + 1, (depth - 1) as nat, seq![]) {
                Ok((d, end)) => Ok((Value::Dict(d), end)),
                Err(e) => Err(e),
            }
        }
    } else {
        Err(BencodeError::InvalidInput)
    }
}

/// The items of a list from `pos` up to and including its closing `e`.
pub open spec fn parse_items(s: Seq<u8>, pos: int, depth: nat) -> Result<
    (Seq<Value>, int),
    BencodeError,
>
    decreases s.len() - pos, 1int,
{
    if pos < 0 || pos >= s.len() {
        Err(BencodeError::NoEndMarker)
    } else if s[pos] == END {
        Ok((seq![], pos + 1))
    } else {
        match parse_value(s, pos, depth) {
            Err(e) => Err(e),
            Ok((v, next)) => if pos < next <= s.len() {
                prepend_items(seq![v], parse_items(s, next, depth))
            } else {
                Err(BencodeError::InvalidInput)
            },
        }
    }
}

pub open spec fn prepend_items(
    front: Seq<Value>,
    r: Result<(Seq<Value>, int), BencodeError>,
) -> Result<(Seq<Value>, int), BencodeError> {
    match r {
        Ok((items, end)) => Ok((front + items, end)),
        Err(e) => Err(e),
    }
}

/// The entries of a dictionary from `pos` up to and including its closing
/// `e`, inserted one by one into `acc`: a repeated key keeps its last value.
pub open spec fn parse_entries(
    s: Seq<u8>,
    pos: int,
    depth: nat,
    acc: Seq<(Seq<u8>, Value)>,
) -> Result<(Seq<(Seq<u8>, Value)>, int), BencodeError>
    decreases s.len() - pos, 1int,
{
    if pos < 0 || pos >= s.len() {
        Err(BencodeError::NoEndMarker)
    } else if s[pos] == END {
        Ok((acc, pos + 1))
    } else {
        match parse_string(s, pos) {
            Err(e) => Err(e),
            Ok((k, after_key)) => if pos < after_key <= s.len() {
                match parse_value(s, after_key, depth) {
                    Err(e) => Err(e),
                    Ok((v, next)) => if after_key < next <= s.len() {
                        parse_entries(s, next, depth, insert_entry(acc, k, v))
                    } else {
                        Err(BencodeError::InvalidInput)
                    },
                }
            } else {
                Err(BencodeError::InvalidInput)
            },
        }
    }
}

/// What decoding `s` gives: the value at its start and the bytes after it.
pub open spec fn decoded(s: Seq<u8>) -> Result<(Value, Seq<u8>), BencodeError> {
    match parse_value(s, 0, MAX_DEPTH as nat) {
        Ok((v, end)) => Ok((v, s.subrange(end, s.len() as int))),
        Err(e) => Err(e),
    }
}

} // verus!

verus! {

pub proof fn lemma_bytes_lt_irreflexive(a: Seq<u8>)
    ensures
        !bytes_lt(a, a),
    decreases a.len(),
{
    if a.len() > 0 {
        lemma_bytes_lt_irreflexive(a.drop_first());
    }
}

pub proof fn lemma_bytes_lt_asymmetric(a: Seq<u8>, b: Seq<u8>)
    requires
        bytes_lt(a, b),
    ensures
        !bytes_lt(b, a),
    decreases a.len(),
{
    if a.len() > 0 && b.len() > 0 && a[0] == b[0] {
        lemma_bytes_lt_asymmetric(a.drop_first(), b.drop_first());
    }
}

pub proof fn lemma_bytes_lt_total(a: Seq<u8>, b: Seq<u8>)
    requires
        a != b,
    ensures
        bytes_lt(a, b) || bytes_lt(b, a),
    decreases a.len(),
{
    if a.len() > 0 && b.len() > 0 && a[0] == b[0] {
        if a.drop_first() == b.drop_first() {
            assert(a =~= seq![a[0]] + a.drop_first());
            assert(b =~= seq![b[0]] + b.drop_first());
        }
        lemma_bytes_lt_total(a.drop_first(), b.drop_first());
    } else if a.len() == 0 && b.len() == 0 {
        assert(a =~= b);
    }
}

pub proof fn lemma_bytes_lt_transitive(a: Seq<u8>, b: Seq<u8>, c: Seq<u8>)
    requires
        bytes_lt(a, b),
        bytes_lt(b, c),
    ensures
        bytes_lt(a, c),
    decreases a.len(),
{
    if a.len() > 0 && b.len() > 0 && c.len() > 0 && a[0] == b[0] && b[0] == c[0] {
        lemma_bytes_lt_transitive(a.drop_first(), b.drop_first(), c.drop_first());
    }
}

} // verus!
