//! A readable rendering of bencode values.
use crate::bencode::{entries_of, lemma_list_view, str_from_utf8, values_of, Bencode};
use crate::encode::push_int;
use crate::laws::lemma_int_text;
use crate::model::{int_text, Value};
use vstd::prelude::*;
use vstd::string::StringExecFns;
use vstd::utf8::{decode_utf8, valid_utf8};

verus! {

/// The text that `String::from_utf8_lossy` makes of `b`.
pub uninterp spec fn lossy_text(b: Seq<u8>) -> Seq<char>;

/// Relies on `String::from_utf8_lossy`: the text depends on the bytes alone,
/// and valid UTF-8 is kept as it is.
#[verifier::external_body]
fn from_utf8_lossy(b: &[u8]) -> (r: String)
    ensures
        r@ == lossy_text(b@),
        valid_utf8(b@) ==> r@ == decode_utf8(b@),
{
    String::from_utf8_lossy(b).into_owned()
}

/// Bytes as quoted text: their UTF-8 text when they are valid UTF-8, else
/// what `String::from_utf8_lossy` makes of them.
pub open spec fn quoted_text(b: Seq<u8>) -> Seq<char> {
    "\""@ + (if valid_utf8(b) {
        decode_utf8(b)
    } else {
        lossy_text(b)
    }) + "\""@
}

/// Integers in decimal, byte strings quoted, lists as `[a, b]` and
/// dictionaries as `{"k": v}`.
pub open spec fn display_text(v: Value) -> Seq<char>
    decreases v,
{
    match v {
        Value::Integer(i) => decode_utf8(int_text(i)),
        Value::Bytes(b) => quoted_text(b),
        Value::List(items) => "["@ + items_text(items) + "]"@,
        Value::Dict(d) => "{"@ + entries_text(d) + "}"@,
    }
}

pub open spec fn items_text(items: Seq<Value>) -> Seq<char>
    decreases items,
{
    if items.len() == 0 {
        Seq::empty()
    } else if items.len() == 1 {
        display_text(items[0])
    } else {
        items_text(items.subrange(0, items.len() - 1)) + ", "@ + display_text(
            items[items.len() - 1],
        )
    }
}

pub open spec fn entries_text(d: Seq<(Seq<u8>, Value)>) -> Seq<char>
    decreases d,
{
    if d.len() == 0 {
        Seq::empty()
    } else if d.len() == 1 {
        quoted_text(d[0].0) + ": "@ + display_text(d[0].1)
    } else {
        entries_text(d.subrange(0, d.len() - 1)) + ", "@ + quoted_text(d[d.len() - 1].0) + ": "@
            + display_text(d[d.len() - 1].1)
    }
}

fn write_quoted(b: &[u8], out: &mut String)
    ensures
        final(out)@ == old(out)@ + quoted_text(b@),
{
    out.append("\"");
    let text = from_utf8_lossy(b);
    out.append(text.as_str());
    out.append("\"");
}

fn write_text(value: &Bencode, out: &mut String)
    ensures
        final(out)@ == old(out)@ + display_text(value@),
    decreases value@,
{
    match value {
        Bencode::Integer(i) => {
            let mut digits: Vec<u8> = Vec::new();
            push_int(&mut digits, *i);
            proof {
                lemma_int_text(*i as int);
                assert(digits@ =~= int_text(*i as int));
            }
            if let Some(s) = str_from_utf8(digits.as_slice()) {
                out.append(s);
            }
        },
        Bencode::String(s) => {
            write_quoted(s.as_slice(), out);
        },
        Bencode::List(l) => {
            proof {
                lemma_list_view(*l);
            }
            let ghost items = values_of(l@);
            out.append("[");
            let ghost start = out@;
            let mut i: usize = 0;
            while i < l.len()
                invariant
                    i <= l@.len(),
                    items == values_of(l@),
                    value@ == Value::List(items),
                    out@ == start + items_text(items.subrange(0, i as int)),
                decreases l@.len() - i,
            {
                let ghost before = out@;
                if i > 0 {
                    out.append(", ");
                }
                proof {
                    assert(items[i as int] == l@[i as int]@);
                    assert(decreases_to!(value@ => value@->List_0));
                    assert(decreases_to!(items => items[i as int]));
                    assert(decreases_to!(value@ => l@[i as int]@));
                }
                write_text(&l[i], out);
                proof {
                    let next = items.subrange(0, i + 1);
                    assert(next.subrange(0, i as int) =~= items.subrange(0, i as int));
                    assert(next[i as int] == items[i as int]);
                    if i == 0 {
                        assert(items.subrange(0, 0) =~= Seq::<Value>::empty());
                        assert(out@ =~= start + items_text(next));
                    } else {
                        assert(out@ =~= start + items_text(next));
                    }
                }
                i = i + 1;
            }
            out.append("]");
            assert(items.subrange(0, i as int) =~= items);
            assert(final(out)@ =~= old(out)@ + display_text(value@));
        },
        Bencode::Dictionary(d) => {
            let entries = d.entries();
            let ghost view = d@;
            out.append("{");
            let ghost start = out@;
            let mut i: usize = 0;
            while i < entries.len()
                invariant
                    i <= entries@.len(),
                    view == entries_of(entries@),
                    value@ == Value::Dict(view),
                    out@ == start + entries_text(view.subrange(0, i as int)),
                decreases entries@.len() - i,
            {
                if i > 0 {
                    out.append(", ");
                }
                write_quoted(entries[i].0.as_slice(), out);
                out.append(": ");
                proof {
                    assert(view[i as int] == (entries@[i as int].0@, entries@[i as int].1@));
                    assert(decreases_to!(value@ => value@->Dict_0));
                    assert(decreases_to!(view => view[i as int]));
                    assert(decreases_to!(view[i as int] => view[i as int].1));
                    assert(decreases_to!(value@ => entries@[i as int].1@));
                }
                write_text(&entries[i].1, out);
                proof {
                    let next = view.subrange(0, i + 1);
                    assert(next.subrange(0, i as int) =~= view.subrange(0, i as int));
                    assert(next[i as int] == view[i as int]);
                    if i == 0 {
                        assert(view.subrange(0, 0) =~= Seq::<(Seq<u8>, Value)>::empty());
                        assert(out@ =~= start + entries_text(next));
                    } else {
                        assert(out@ =~= start + entries_text(next));
                    }
                }
                i = i + 1;
            }
            out.append("}");
            assert(view.subrange(0, i as int) =~= view);
            assert(final(out)@ =~= old(out)@ + display_text(value@));
        },
    }
}

impl Bencode {
    /// The value as readable text: integers in decimal, byte strings quoted
    /// (bytes that are not UTF-8 shown as U+FFFD), lists as `[a, b]` and
    /// dictionaries as `{"k": v}` in ascending key order.
    pub fn to_string(&self) -> (r: String)
        ensures
            r@ == display_text(self@),
    {
        let mut out = String::new();
        write_text(self, &mut out);
        assert(out@ =~= display_text(self@));
        out
    }
}

} // verus!
