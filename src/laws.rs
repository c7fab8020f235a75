//! What holds across decoding and encoding.
use crate::model::{
    all_digits, bytes_encoding, bytes_lt, decoded, digits_value, encoding, entries_encoding,
    entry_map, first_at_or_after, insert_entry, int_text, integer_of_text, is_digit,
    items_encoding, keys_ascending, lemma_bytes_lt_asymmetric, lemma_bytes_lt_irreflexive,
    lemma_bytes_lt_total, lemma_bytes_lt_transitive, nat_text, nests_within,
    parse_entries, parse_items, parse_string, parse_value, well_formed, Value, COLON, DICT_START,
    DIGIT_ZERO, END, INT_START, LIST_START, MAX_DEPTH,
};
use crate::torrent::sha1_digest;
use vstd::prelude::*;
use vstd::utf8::valid_utf8;

verus! {

/// `t` stands in `s` from index `p` on.
pub open spec fn holds_at(s: Seq<u8>, p: int, t: Seq<u8>) -> bool {
    0 <= p && p + t.len() <= s.len() && s.subrange(p, p + t.len()) == t
}

proof fn lemma_holds_at_split(s: Seq<u8>, p: int, a: Seq<u8>, b: Seq<u8>)
    requires
        holds_at(s, p, a + b),
    ensures
        holds_at(s, p, a),
        holds_at(s, p + a.len(), b),
{
    assert(s.subrange(p, p + a.len()) =~= (a + b).subrange(0, a.len() as int));
    assert(s.subrange(p + a.len(), p + a.len() + b.len()) =~= (a + b).subrange(
        a.len() as int,
        (a + b).len() as int,
    ));
    assert((a + b).subrange(0, a.len() as int) =~= a);
    assert((a + b).subrange(a.len() as int, (a + b).len() as int) =~= b);
}

proof fn lemma_holds_at_index(s: Seq<u8>, p: int, t: Seq<u8>, k: int)
    requires
        holds_at(s, p, t),
        0 <= k < t.len(),
    ensures
        s[p + k] == t[k],
{
    assert(s.subrange(p, p + t.len())[k] == s[p + k]);
}

proof fn lemma_ascii_valid_utf8(b: Seq<u8>)
    requires
        forall|i: int| 0 <= i < b.len() ==> #[trigger] b[i] <= 0x7f,
    ensures
        valid_utf8(b),
    decreases b.len(),
{
    if b.len() > 0 {
        let x = b[0];
        assert(x & 0x7f <= 0x7f) by (bit_vector);
        let rest = b.subrange(1, b.len() as int);
        assert forall|i: int| 0 <= i < rest.len() implies #[trigger] rest[i] <= 0x7f by {
            assert(rest[i] == b[i + 1]);
        }
        lemma_ascii_valid_utf8(rest);
    }
}

proof fn lemma_nat_text(n: nat)
    ensures
        nat_text(n).len() >= 1,
        all_digits(nat_text(n)),
        digits_value(nat_text(n)) == n,
    decreases n,
{
    let t = nat_text(n);
    if n < 10 {
        assert(t.drop_last() =~= Seq::<u8>::empty());
        assert(digits_value(Seq::<u8>::empty()) == 0);
        assert(t.last() == (DIGIT_ZERO + n) as u8);
    } else {
        lemma_nat_text(n / 10);
        assert(t.drop_last() =~= nat_text(n / 10));
        assert(t.last() == (DIGIT_ZERO + n % 10) as u8);
        assert(n == (n / 10) * 10 + n % 10);
    }
}

pub(crate) proof fn lemma_int_text(i: int)
    requires
        i64::MIN <= i <= i64::MAX,
    ensures
        integer_of_text(int_text(i)) == Some(i),
        valid_utf8(int_text(i)),
        int_text(i).len() >= 1,
        forall|k: int| 0 <= k < int_text(i).len() ==> #[trigger] int_text(i)[k] != END,
{
    let t = int_text(i);
    if i < 0 {
        lemma_nat_text((-i) as nat);
        assert(t.drop_first() =~= nat_text((-i) as nat));
    } else {
        lemma_nat_text(i as nat);
    }
    assert forall|k: int| 0 <= k < t.len() implies #[trigger] t[k] <= 0x7f && t[k] != END by {
        if i < 0 && k > 0 {
            assert(t[k] == nat_text((-i) as nat)[k - 1]);
        }
    }
    lemma_ascii_valid_utf8(t);
}

proof fn lemma_first_at(s: Seq<u8>, from: int, j: int, c: u8)
    requires
        0 <= from <= j < s.len(),
        s[j] == c,
        forall|k: int| from <= k < j ==> s[k] != c,
    ensures
        first_at_or_after(s, from, c) == Some(j),
    decreases j - from,
{
    if from < j {
        lemma_first_at(s, from + 1, j, c);
    }
}

/// A canonical encoding starts with a byte that opens a value, never `e`.
proof fn lemma_encoding_start(v: Value)
    ensures
        encoding(v).len() >= 1,
        encoding(v)[0] != END,
        v is Integer ==> encoding(v)[0] == INT_START,
        v is Bytes ==> is_digit(encoding(v)[0]),
        v is List ==> encoding(v)[0] == LIST_START,
        v is Dict ==> encoding(v)[0] == DICT_START,
{
    if let Value::Bytes(b) = v {
        lemma_nat_text(b.len());
        assert(encoding(v)[0] == nat_text(b.len())[0]);
    }
}

proof fn lemma_parse_string_at(s: Seq<u8>, p: int, b: Seq<u8>)
    requires
        holds_at(s, p, bytes_encoding(b)),
    ensures
        parse_string(s, p) == Ok::<(Seq<u8>, int), crate::bencode::BencodeError>(
            (b, p + bytes_encoding(b).len()),
        ),
{
    let t = nat_text(b.len());
    lemma_nat_text(b.len());
    lemma_holds_at_split(s, p, t + seq![COLON], b);
    lemma_holds_at_split(s, p, t, seq![COLON]);
    assert forall|k: int| p <= k < p + t.len() implies s[k] != COLON by {
        lemma_holds_at_index(s, p, t, k - p);
        assert(is_digit(t[k - p]));
    }
    lemma_holds_at_index(s, p + t.len(), seq![COLON], 0);
    lemma_first_at(s, p, p + t.len(), COLON);
    assert forall|k: int| 0 <= k < t.len() implies #[trigger] t[k] <= 0x7f by {
        assert(is_digit(t[k]));
    }
    lemma_ascii_valid_utf8(t);
}

/// The value whose canonical encoding stands at `pos` is read back whole.
proof fn lemma_parse_value_at(s: Seq<u8>, pos: int, v: Value, depth: nat)
    requires
        holds_at(s, pos, encoding(v)),
        well_formed(v),
        nests_within(v, depth),
    ensures
        parse_value(s, pos, depth) == Ok::<(Value, int), crate::bencode::BencodeError>(
            (v, pos + encoding(v).len()),
        ),
    decreases v,
{
    lemma_encoding_start(v);
    lemma_holds_at_index(s, pos, encoding(v), 0);
    match v {
        Value::Integer(i) => {
            let t = int_text(i);
            lemma_int_text(i);
            lemma_holds_at_split(s, pos, seq![INT_START] + t, seq![END]);
            lemma_holds_at_split(s, pos, seq![INT_START], t);
            lemma_holds_at_index(s, pos + 1 + t.len(), seq![END], 0);
            assert forall|k: int| pos <= k < pos + 1 + t.len() implies s[k] != END by {
                if k > pos {
                    lemma_holds_at_index(s, pos + 1, t, k - pos - 1);
                }
            }
            lemma_first_at(s, pos, pos + 1 + t.len(), END);
        },
        Value::Bytes(b) => {
            lemma_parse_string_at(s, pos, b);
        },
        Value::List(items) => {
            let body = items_encoding(items);
            lemma_holds_at_split(s, pos, seq![LIST_START] + body, seq![END]);
            lemma_holds_at_split(s, pos, seq![LIST_START], body);
            lemma_holds_at_index(s, pos + 1 + body.len(), seq![END], 0);
            lemma_parse_items_at(s, pos + 1, items, (depth - 1) as nat);
        },
        Value::Dict(d) => {
            let body = entries_encoding(d);
            lemma_holds_at_split(s, pos, seq![DICT_START] + body, seq![END]);
            lemma_holds_at_split(s, pos, seq![DICT_START], body);
            lemma_holds_at_index(s, pos + 1 + body.len(), seq![END], 0);
            assert(seq![] + d =~= d);
            lemma_parse_entries_at(s, pos + 1, (depth - 1) as nat, seq![], d);
        },
    }
}

proof fn lemma_parse_items_at(s: Seq<u8>, p: int, items: Seq<Value>, depth: nat)
    requires
        holds_at(s, p, items_encoding(items)),
        p + items_encoding(items).len() < s.len(),
        s[p + items_encoding(items).len()] == END,
        forall|i: int| 0 <= i < items.len() ==> well_formed(#[trigger] items[i]),
        forall|i: int| 0 <= i < items.len() ==> nests_within(#[trigger] items[i], depth),
    ensures
        parse_items(s, p, depth) == Ok::<(Seq<Value>, int), crate::bencode::BencodeError>(
            (items, p + items_encoding(items).len() + 1),
        ),
    decreases items,
{
    if items.len() > 0 {
        let first = items[0];
        let rest = items.subrange(1, items.len() as int);
        lemma_holds_at_split(s, p, encoding(first), items_encoding(rest));
        lemma_encoding_start(first);
        lemma_holds_at_index(s, p, encoding(first), 0);
        lemma_parse_value_at(s, p, first, depth);
        assert forall|i: int| 0 <= i < rest.len() implies well_formed(#[trigger] rest[i])
            && nests_within(rest[i], depth) by {
            assert(rest[i] == items[i + 1]);
        }
        lemma_parse_items_at(s, p + encoding(first).len(), rest, depth);
        assert(seq![first] + rest =~= items);
    } else {
        assert(items =~= Seq::<Value>::empty());
        assert(items_encoding(items) == Seq::<u8>::empty());
    }
}

/// Inserting a key greater than every key held appends it.
proof fn lemma_insert_greatest(acc: Seq<(Seq<u8>, Value)>, k: Seq<u8>, v: Value)
    requires
        forall|i: int| 0 <= i < acc.len() ==> bytes_lt(#[trigger] acc[i].0, k),
    ensures
        insert_entry(acc, k, v) == acc.push((k, v)),
    decreases acc.len(),
{
    if acc.len() > 0 {
        lemma_bytes_lt_irreflexive(k);
        lemma_bytes_lt_asymmetric(acc[0].0, k);
        let rest = acc.drop_first();
        assert forall|i: int| 0 <= i < rest.len() implies bytes_lt(#[trigger] rest[i].0, k) by {
            assert(rest[i] == acc[i + 1]);
        }
        lemma_insert_greatest(rest, k, v);
        assert(seq![acc[0]] + rest.push((k, v)) =~= acc.push((k, v)));
    }
}

proof fn lemma_parse_entries_at(
    s: Seq<u8>,
    p: int,
    depth: nat,
    acc: Seq<(Seq<u8>, Value)>,
    rest: Seq<(Seq<u8>, Value)>,
)
    requires
        holds_at(s, p, entries_encoding(rest)),
        p + entries_encoding(rest).len() < s.len(),
        s[p + entries_encoding(rest).len()] == END,
        keys_ascending(acc + rest),
        forall|i: int| 0 <= i < rest.len() ==> well_formed(#[trigger] rest[i].1),
        forall|i: int| 0 <= i < rest.len() ==> nests_within(#[trigger] rest[i].1, depth),
    ensures
        parse_entries(s, p, depth, acc) == Ok::<
            (Seq<(Seq<u8>, Value)>, int),
            crate::bencode::BencodeError,
        >((acc + rest, p + entries_encoding(rest).len() + 1)),
    decreases rest,
{
    if rest.len() == 0 {
        assert(acc + rest =~= acc);
    } else {
        let (k, v) = rest[0];
        let tail = rest.subrange(1, rest.len() as int);
        let kb = bytes_encoding(k);
        lemma_holds_at_split(s, p, kb + encoding(v), entries_encoding(tail));
        lemma_holds_at_split(s, p, kb, encoding(v));
        lemma_nat_text(k.len());
        lemma_holds_at_index(s, p, kb, 0);
        assert(kb[0] == nat_text(k.len())[0]);
        assert(is_digit(kb[0]));
        lemma_parse_string_at(s, p, k);
        lemma_parse_value_at(s, p + kb.len(), v, depth);
        let all = acc + rest;
        assert forall|i: int| 0 <= i < acc.len() implies bytes_lt(#[trigger] acc[i].0, k) by {
            assert(all[i] == acc[i]);
            assert(all[acc.len() as int] == rest[0]);
        }
        lemma_insert_greatest(acc, k, v);
        assert(acc.push((k, v)) + tail =~= all);
        assert forall|i: int| 0 <= i < tail.len() implies well_formed(#[trigger] tail[i].1)
            && nests_within(tail[i].1, depth) by {
            assert(tail[i] == rest[i + 1]);
        }
        lemma_parse_entries_at(s, p + kb.len() + encoding(v).len(), depth, acc.push((k, v)), tail);
    }
}

/// Decoding the canonical encoding of a well-formed value gives that value
/// back, with no bytes left over, provided its lists and dictionaries nest no
/// deeper than the decoder allows.
pub proof fn lemma_round_trip(v: Value)
    requires
        well_formed(v),
        nests_within(v, MAX_DEPTH as nat),
    ensures
        decoded(encoding(v)) == Ok::<(Value, Seq<u8>), crate::bencode::BencodeError>(
            (v, Seq::<u8>::empty()),
        ),
{
    let s = encoding(v);
    assert(s.subrange(0, s.len() as int) =~= s);
    lemma_parse_value_at(s, 0, v, MAX_DEPTH as nat);
    assert(s.subrange(s.len() as int, s.len() as int) =~= Seq::<u8>::empty());
}

/// The keys of a dictionary's mapping are the keys of its entries.
proof fn lemma_entry_map_keys(d: Seq<(Seq<u8>, Value)>, k: Seq<u8>)
    ensures
        entry_map(d).dom().contains(k) <==> exists|i: int| 0 <= i < d.len() && #[trigger] d[i].0 == k,
    decreases d.len(),
{
    if d.len() > 0 {
        let rest = d.drop_first();
        lemma_entry_map_keys(rest, k);
        if exists|i: int| 0 <= i < rest.len() && #[trigger] rest[i].0 == k {
            let i = choose|i: int| 0 <= i < rest.len() && #[trigger] rest[i].0 == k;
            assert(d[i + 1].0 == k);
        }
        if exists|i: int| 0 <= i < d.len() && #[trigger] d[i].0 == k {
            let i = choose|i: int| 0 <= i < d.len() && #[trigger] d[i].0 == k;
            if i > 0 {
                assert(rest[i - 1].0 == k);
            }
        }
    }
}

proof fn lemma_keys_ascending_tail(d: Seq<(Seq<u8>, Value)>)
    requires
        keys_ascending(d),
        d.len() > 0,
    ensures
        keys_ascending(d.drop_first()),
        forall|i: int| 0 <= i < d.drop_first().len() ==> bytes_lt(d[0].0, #[trigger] d.drop_first()[i].0),
{
    let rest = d.drop_first();
    assert forall|i: int, j: int| 0 <= i < j < rest.len() implies bytes_lt(
        #[trigger] rest[i].0,
        #[trigger] rest[j].0,
    ) by {
        assert(rest[i] == d[i + 1] && rest[j] == d[j + 1]);
    }
    assert forall|i: int| 0 <= i < rest.len() implies bytes_lt(d[0].0, #[trigger] rest[i].0) by {
        assert(rest[i] == d[i + 1]);
    }
}

proof fn lemma_keys_ascending_cons(x: (Seq<u8>, Value), d: Seq<(Seq<u8>, Value)>)
    requires
        keys_ascending(d),
        forall|i: int| 0 <= i < d.len() ==> bytes_lt(x.0, #[trigger] d[i].0),
    ensures
        keys_ascending(seq![x] + d),
{
    let s = seq![x] + d;
    assert forall|i: int, j: int| 0 <= i < j < s.len() implies bytes_lt(
        #[trigger] s[i].0,
        #[trigger] s[j].0,
    ) by {
        assert(s[j] == d[j - 1]);
        if i > 0 {
            assert(s[i] == d[i - 1]);
        }
    }
}

/// Every entry after inserting `(k, v)` is `(k, v)` or an entry that was
/// there before.
proof fn lemma_insert_entry_entries(d: Seq<(Seq<u8>, Value)>, k: Seq<u8>, v: Value)
    ensures
        forall|i: int|
            0 <= i < insert_entry(d, k, v).len() ==> #[trigger] insert_entry(d, k, v)[i] == (k, v)
                || exists|j: int| 0 <= j < d.len() && d[j] == insert_entry(d, k, v)[i],
    decreases d.len(),
{
    let r = insert_entry(d, k, v);
    if d.len() > 0 && d[0].0 != k && !bytes_lt(k, d[0].0) {
        let rest = d.drop_first();
        lemma_insert_entry_entries(rest, k, v);
        let t = insert_entry(rest, k, v);
        assert forall|i: int| 0 <= i < r.len() implies #[trigger] r[i] == (k, v) || exists|j: int|
            0 <= j < d.len() && d[j] == r[i] by {
            if i == 0 {
                assert(d[0] == r[0]);
            } else {
                assert(r[i] == t[i - 1]);
                if t[i - 1] != (k, v) {
                    let j = choose|j: int| 0 <= j < rest.len() && rest[j] == t[i - 1];
                    assert(d[j + 1] == r[i]);
                }
            }
        }
    } else if d.len() > 0 && d[0].0 == k {
        assert forall|i: int| 0 <= i < r.len() implies #[trigger] r[i] == (k, v) || exists|j: int|
            0 <= j < d.len() && d[j] == r[i] by {
            if i > 0 {
                assert(r[i] == d[i]);
            }
        }
    } else if d.len() > 0 {
        assert forall|i: int| 0 <= i < r.len() implies #[trigger] r[i] == (k, v) || exists|j: int|
            0 <= j < d.len() && d[j] == r[i] by {
            if i > 0 {
                assert(r[i] == d[i - 1]);
            }
        }
    }
}

/// Inserting into a dictionary whose keys ascend keeps them ascending, and
/// acts on its mapping as a map insert: a dictionary built by inserting
/// pairs under distinct keys has the same mapping whatever the order of the
/// inserts.
pub proof fn lemma_insert_entry(d: Seq<(Seq<u8>, Value)>, k: Seq<u8>, v: Value)
    requires
        keys_ascending(d),
    ensures
        keys_ascending(insert_entry(d, k, v)),
        entry_map(insert_entry(d, k, v)) == entry_map(d).insert(k, v),
    decreases d.len(),
{
    if d.len() == 0 {
        let one = seq![(k, v)];
        assert(insert_entry(d, k, v) == one);
        assert(one.drop_first() =~= Seq::<(Seq<u8>, Value)>::empty());
        assert(entry_map(one.drop_first()) == Map::<Seq<u8>, Value>::empty());
        assert(entry_map(one) == entry_map(one.drop_first()).insert(k, v));
        assert(entry_map(d) == Map::<Seq<u8>, Value>::empty());
    } else {
        let rest = d.drop_first();
        lemma_keys_ascending_tail(d);
        if d[0].0 == k {
            assert((seq![(k, v)] + rest).drop_first() =~= rest);
            assert(entry_map(insert_entry(d, k, v)) =~= entry_map(d).insert(k, v));
            assert forall|i: int| 0 <= i < rest.len() implies bytes_lt(k, #[trigger] rest[i].0) by {}
            lemma_keys_ascending_cons((k, v), rest);
        } else if bytes_lt(k, d[0].0) {
            assert((seq![(k, v)] + d).drop_first() =~= d);
            assert forall|i: int| 0 <= i < d.len() implies bytes_lt(k, #[trigger] d[i].0) by {
                if i > 0 {
                    lemma_bytes_lt_transitive(k, d[0].0, d[i].0);
                }
            }
            lemma_keys_ascending_cons((k, v), d);
        } else {
            lemma_bytes_lt_total(k, d[0].0);
            lemma_insert_entry(rest, k, v);
            let t = insert_entry(rest, k, v);
            assert((seq![d[0]] + t).drop_first() =~= t);
            assert(entry_map(insert_entry(d, k, v)) =~= entry_map(d).insert(k, v));
            lemma_insert_entry_entries(rest, k, v);
            assert forall|i: int| 0 <= i < t.len() implies bytes_lt(d[0].0, #[trigger] t[i].0) by {
                if t[i] != (k, v) {
                    let j = choose|j: int| 0 <= j < rest.len() && rest[j] == t[i];
                    assert(bytes_lt(d[0].0, rest[j].0));
                }
            }
            lemma_keys_ascending_cons(d[0], t);
        }
    }
}

/// Two dictionaries whose keys ascend and that map the same keys to the same
/// values hold the same entries.
proof fn lemma_same_mapping_same_entries(a: Seq<(Seq<u8>, Value)>, b: Seq<(Seq<u8>, Value)>)
    requires
        keys_ascending(a),
        keys_ascending(b),
        entry_map(a) == entry_map(b),
    ensures
        a == b,
    decreases a.len(),
{
    if a.len() == 0 {
        if b.len() > 0 {
            lemma_entry_map_keys(b, b[0].0);
            lemma_entry_map_keys(a, b[0].0);
        }
        assert(a =~= b);
    } else if b.len() == 0 {
        lemma_entry_map_keys(a, a[0].0);
        lemma_entry_map_keys(b, a[0].0);
    } else {
        let (ka, kb) = (a[0].0, b[0].0);
        lemma_entry_map_keys(a, kb);
        lemma_entry_map_keys(b, ka);
        lemma_entry_map_keys(a, ka);
        lemma_entry_map_keys(b, kb);
        if ka != kb {
            let i = choose|i: int| 0 <= i < a.len() && #[trigger] a[i].0 == kb;
            let j = choose|j: int| 0 <= j < b.len() && #[trigger] b[j].0 == ka;
            assert(bytes_lt(ka, kb) || i == 0);
            assert(bytes_lt(kb, ka) || j == 0);
            lemma_bytes_lt_asymmetric(ka, kb);
        }
        let (ra, rb) = (a.drop_first(), b.drop_first());
        lemma_keys_ascending_tail(a);
        lemma_keys_ascending_tail(b);
        lemma_bytes_lt_irreflexive(ka);
        lemma_entry_map_keys(ra, ka);
        lemma_entry_map_keys(rb, ka);
        assert(entry_map(ra) =~= entry_map(a).remove(ka));
        assert(entry_map(rb) =~= entry_map(b).remove(ka));
        lemma_same_mapping_same_entries(ra, rb);
        assert(entry_map(a)[ka] == a[0].1);
        assert(entry_map(b)[ka] == b[0].1);
        assert(a[0] == b[0]);
        assert(a =~= seq![a[0]] + ra);
        assert(b =~= seq![b[0]] + rb);
    }
}

/// Two `info` dictionaries with the same key/value pairs, inserted in any
/// order, have the same canonical encoding and so the same info-hash.
pub proof fn lemma_info_hash_order_independent(
    a: Seq<(Seq<u8>, Value)>,
    b: Seq<(Seq<u8>, Value)>,
)
    requires
        keys_ascending(a),
        keys_ascending(b),
        entry_map(a) == entry_map(b),
    ensures
        encoding(Value::Dict(a)) == encoding(Value::Dict(b)),
        sha1_digest(encoding(Value::Dict(a))) == sha1_digest(encoding(Value::Dict(b))),
{
    lemma_same_mapping_same_entries(a, b);
}

proof fn lemma_parse_value_well_formed(s: Seq<u8>, pos: int, depth: nat)
    ensures
        parse_value(s, pos, depth) matches Ok((v, _)) ==> well_formed(v) && nests_within(v, depth),
    decreases s.len() - pos, 0int,
{
    if 0 <= pos < s.len() && depth > 0 {
        if s[pos] == LIST_START {
            lemma_parse_items_well_formed(s, pos + 1, (depth - 1) as nat);
        } else if s[pos] == DICT_START {
            lemma_parse_entries_well_formed(s, pos + 1, (depth - 1) as nat, seq![]);
        }
    }
}

proof fn lemma_parse_items_well_formed(s: Seq<u8>, pos: int, depth: nat)
    ensures
        parse_items(s, pos, depth) matches Ok((items, _)) ==> forall|i: int|
            0 <= i < items.len() ==> well_formed(#[trigger] items[i]) && nests_within(
                items[i],
                depth,
            ),
    decreases s.len() - pos, 1int,
{
    if 0 <= pos < s.len() && s[pos] != END {
        lemma_parse_value_well_formed(s, pos, depth);
        if let Ok((v, next)) = parse_value(s, pos, depth) {
            if pos < next <= s.len() {
                lemma_parse_items_well_formed(s, next, depth);
                if let Ok((rest, _)) = parse_items(s, next, depth) {
                    let items = seq![v] + rest;
                    assert forall|i: int| 0 <= i < items.len() implies well_formed(
                        #[trigger] items[i],
                    ) && nests_within(items[i], depth) by {
                        if i > 0 {
                            assert(items[i] == rest[i - 1]);
                        }
                    }
                }
            }
        }
    }
}

proof fn lemma_parse_entries_well_formed(
    s: Seq<u8>,
    pos: int,
    depth: nat,
    acc: Seq<(Seq<u8>, Value)>,
)
    requires
        keys_ascending(acc),
        forall|i: int|
            0 <= i < acc.len() ==> well_formed(#[trigger] acc[i].1) && nests_within(acc[i].1, depth),
    ensures
        parse_entries(s, pos, depth, acc) matches Ok((d, _)) ==> keys_ascending(d) && forall|i: int|
            0 <= i < d.len() ==> well_formed(#[trigger] d[i].1) && nests_within(d[i].1, depth),
    decreases s.len() - pos, 1int,
{
    if 0 <= pos < s.len() && s[pos] != END {
        if let Ok((k, after_key)) = parse_string(s, pos) {
            if pos < after_key <= s.len() {
                lemma_parse_value_well_formed(s, after_key, depth);
                if let Ok((v, next)) = parse_value(s, after_key, depth) {
                    if after_key < next <= s.len() {
                        let grown = insert_entry(acc, k, v);
                        lemma_insert_entry(acc, k, v);
                        lemma_insert_entry_entries(acc, k, v);
                        assert forall|i: int| 0 <= i < grown.len() implies well_formed(
                            #[trigger] grown[i].1,
                        ) && nests_within(grown[i].1, depth) by {
                            if grown[i] != (k, v) {
                                let j = choose|j: int| 0 <= j < acc.len() && acc[j] == grown[i];
                                assert(well_formed(acc[j].1));
                            }
                        }
                        lemma_parse_entries_well_formed(s, next, depth, grown);
                    }
                }
            }
        }
    }
}

/// What the decoder produces is well-formed (integers fit in 64 bits, the
/// keys of every dictionary ascend) and nests no deeper than it allows, so
/// encoding it and decoding again gives it back.
pub proof fn lemma_decoded_well_formed(s: Seq<u8>)
    ensures
        decoded(s) matches Ok((v, _)) ==> well_formed(v) && nests_within(v, MAX_DEPTH as nat)
            && decoded(encoding(v)) == Ok::<(Value, Seq<u8>), crate::bencode::BencodeError>(
            (v, Seq::<u8>::empty()),
        ),
{
    lemma_parse_value_well_formed(s, 0, MAX_DEPTH as nat);
    if let Ok((v, _)) = decoded(s) {
        lemma_round_trip(v);
    }
}

/// A byte string whose length runs past the end of the input is refused
/// with `LengthExceedsInput`.
pub proof fn lemma_length_past_end(n: nat, tail: Seq<u8>)
    requires
        n > tail.len(),
    ensures
        decoded(nat_text(n) + seq![COLON] + tail) == Err::<
            (Value, Seq<u8>),
            crate::bencode::BencodeError,
        >(crate::bencode::BencodeError::LengthExceedsInput),
{
    let t = nat_text(n);
    let s = t + seq![COLON] + tail;
    lemma_nat_text(n);
    assert(s[0] == t[0]);
    assert(is_digit(t[0]));
    assert forall|k: int| 0 <= k < t.len() implies s[k] != COLON && #[trigger] t[k] <= 0x7f by {
        assert(s[k] == t[k]);
        assert(is_digit(t[k]));
    }
    lemma_first_at(s, 0, t.len() as int, COLON);
    assert(s.subrange(0, t.len() as int) =~= t);
    lemma_ascii_valid_utf8(t);
}

} // verus!
