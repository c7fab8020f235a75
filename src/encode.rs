//! The canonical encoder.
use crate::bencode::{entries_of, lemma_list_view, values_of, Bencode, BencodeError};
use crate::laws::lemma_round_trip;
use crate::model::{
    bytes_encoding, decoded, encoding, entries_encoding, int_text, items_encoding, nat_text,
    nests_within, well_formed, Value, COLON, DICT_START, DIGIT_ZERO, END, INT_START, LIST_START,
    MAX_DEPTH, MINUS,
};
use vstd::prelude::*;

verus! {

proof fn lemma_items_encoding_push(s: Seq<Value>, x: Value)
    ensures
        items_encoding(s.push(x)) == items_encoding(s) + encoding(x),
    decreases s.len(),
{
    let t = s.push(x);
    if s.len() == 0 {
        assert(t.subrange(1, t.len() as int) =~= Seq::<Value>::empty());
        assert(items_encoding(Seq::<Value>::empty()) == Seq::<u8>::empty());
        assert(t[0] == x);
        assert(items_encoding(t) =~= encoding(x));
    } else {
        let rest = s.subrange(1, s.len() as int);
        assert(t.subrange(1, t.len() as int) =~= rest.push(x));
        lemma_items_encoding_push(rest, x);
        assert(items_encoding(t) =~= items_encoding(s) + encoding(x));
    }
}

proof fn lemma_entries_encoding_push(s: Seq<(Seq<u8>, Value)>, x: (Seq<u8>, Value))
    ensures
        entries_encoding(s.push(x)) == entries_encoding(s) + bytes_encoding(x.0) + encoding(x.1),
    decreases s.len(),
{
    let t = s.push(x);
    if s.len() == 0 {
        assert(t.subrange(1, t.len() as int) =~= Seq::<(Seq<u8>, Value)>::empty());
        assert(entries_encoding(Seq::<(Seq<u8>, Value)>::empty()) == Seq::<u8>::empty());
        assert(t[0] == x);
        assert(entries_encoding(t) =~= bytes_encoding(x.0) + encoding(x.1));
    } else {
        let rest = s.subrange(1, s.len() as int);
        assert(t.subrange(1, t.len() as int) =~= rest.push(x));
        lemma_entries_encoding_push(rest, x);
        assert(entries_encoding(t) =~= entries_encoding(s) + bytes_encoding(x.0) + encoding(x.1));
    }
}

/// Appends the decimal spelling of `n`.
fn push_nat(out: &mut Vec<u8>, n: u64)
    ensures
        final(out)@ == old(out)@ + nat_text(n as nat),
    decreases n,
{
    if n >= 10 {
        push_nat(out, n / 10);
    }
    out.push(DIGIT_ZERO + (n % 10) as u8);
    assert(final(out)@ =~= old(out)@ + nat_text(n as nat));
}

/// Appends the decimal spelling of `i`, signed.
pub(crate) fn push_int(out: &mut Vec<u8>, i: i64)
    ensures
        final(out)@ == old(out)@ + int_text(i as int),
{
    if i < 0 {
        out.push(MINUS);
        let magnitude: u64 = if i == i64::MIN {
            0x8000_0000_0000_0000
        } else {
            (-i) as u64
        };
        push_nat(out, magnitude);
        assert(final(out)@ =~= old(out)@ + int_text(i as int));
    } else {
        push_nat(out, i as u64);
    }
}

/// Appends a byte string: its length, `:`, then the bytes.
fn push_bytes(out: &mut Vec<u8>, b: &[u8])
    ensures
        final(out)@ == old(out)@ + bytes_encoding(b@),
{
    push_nat(out, b.len() as u64);
    out.push(COLON);
    let ghost start = out@;
    let mut i: usize = 0;
    while i < b.len()
        invariant
            i <= b@.len(),
            out@ == start + b@.subrange(0, i as int),
        decreases b@.len() - i,
    {
        out.push(b[i]);
        assert(out@ =~= start + b@.subrange(0, i + 1));
        i = i + 1;
    }
    assert(b@.subrange(0, b@.len() as int) =~= b@);
    assert(final(out)@ =~= old(out)@ + bytes_encoding(b@));
}

/// Appends the canonical encoding of `value`, which is well-formed: the keys
/// of each of its dictionaries ascend.
fn encode_into(value: &Bencode, out: &mut Vec<u8>)
    ensures
        final(out)@ == old(out)@ + encoding(value@),
        well_formed(value@),
    decreases value@,
{
    match value {
        Bencode::Integer(i) => {
            out.push(INT_START);
            push_int(out, *i);
            out.push(END);
            assert(final(out)@ =~= old(out)@ + encoding(value@));
        },
        Bencode::String(s) => {
            push_bytes(out, s.as_slice());
        },
        Bencode::List(l) => {
            proof {
                lemma_list_view(*l);
            }
            let ghost items = values_of(l@);
            out.push(LIST_START);
            let ghost start = out@;
            let mut i: usize = 0;
            assert(items.subrange(0, 0) =~= seq![]);
            while i < l.len()
                invariant
                    i <= l@.len(),
                    items == values_of(l@),
                    value@ == Value::List(items),
                    out@ == start + items_encoding(items.subrange(0, i as int)),
                    forall|k: int| 0 <= k < i ==> well_formed(#[trigger] items[k]),
                decreases l@.len() - i,
            {
                proof {
                    assert(items[i as int] == l@[i as int]@);
                    assert(decreases_to!(value@ => value@->List_0));
                    assert(decreases_to!(items => items[i as int]));
                    assert(decreases_to!(value@ => l@[i as int]@));
                }
                encode_into(&l[i], out);
                proof {
                    assert(items.subrange(0, i + 1) =~= items.subrange(0, i as int).push(items[i as int]));
                    lemma_items_encoding_push(items.subrange(0, i as int), items[i as int]);
                }
                i = i + 1;
            }
            out.push(END);
            assert(items.subrange(0, i as int) =~= items);
            assert(final(out)@ =~= old(out)@ + encoding(value@));
        },
        Bencode::Dictionary(d) => {
            let entries = d.entries();
            let ghost view = d@;
            out.push(DICT_START);
            let ghost start = out@;
            let mut i: usize = 0;
            assert(view.subrange(0, 0) =~= seq![]);
            while i < entries.len()
                invariant
                    i <= entries@.len(),
                    view == entries_of(entries@),
                    value@ == Value::Dict(view),
                    out@ == start + entries_encoding(view.subrange(0, i as int)),
                    forall|k: int| 0 <= k < i ==> well_formed(#[trigger] view[k].1),
                decreases entries@.len() - i,
            {
                proof {
                    assert(view[i as int] == (entries@[i as int].0@, entries@[i as int].1@));
                    assert(decreases_to!(value@ => value@->Dict_0));
                    assert(decreases_to!(view => view[i as int]));
                    assert(decreases_to!(view[i as int] => view[i as int].1));
                    assert(decreases_to!(value@ => entries@[i as int].1@));
                }
                push_bytes(out, entries[i].0.as_slice());
                encode_into(&entries[i].1, out);
                proof {
                    assert(view.subrange(0, i + 1) =~= view.subrange(0, i as int).push(
                        view[i as int],
                    ));
                    lemma_entries_encoding_push(view.subrange(0, i as int), view[i as int]);
                }
                i = i + 1;
            }
            out.push(END);
            assert(view.subrange(0, i as int) =~= view);
            assert(final(out)@ =~= old(out)@ + encoding(value@));
        },
    }
}

/// The canonical encoding of `value`, dictionary keys in ascending order.
/// Decoding it gives `value` back with nothing left over, for every value
/// whose lists and dictionaries nest no deeper than the decoder allows.
pub fn encode(value: &Bencode) -> (r: Vec<u8>)
    ensures
        r@ == encoding(value@),
        well_formed(value@),
        nests_within(value@, MAX_DEPTH as nat) ==> decoded(r@) == Ok::<
            (Value, Seq<u8>),
            BencodeError,
        >((value@, Seq::<u8>::empty())),
{
    let mut out: Vec<u8> = Vec::new();
    encode_into(value, &mut out);
    assert(out@ =~= encoding(value@));
    proof {
        if nests_within(value@, MAX_DEPTH as nat) {
            lemma_round_trip(value@);
        }
    }
    out
}

} // verus!
