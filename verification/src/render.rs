//! Flat JSON objects written field by field, in a fixed field order, in
//! the compact form (`{"a":1,"b":"x"}`) or the spaced form
//! (`{"a": 1, "b": "x"}`). Text values are written between quotes as they
//! are, without escaping.
use vstd::prelude::*;
use vstd::string::StringExecFns;

use crate::numfmt::{decimal, push_number};

verus! {

/// What a field holds, as the contracts see it.
pub enum ValueView {
    Text(Seq<char>),
    Number(nat),
    Flag(bool),
    Numbers(Seq<u64>),
}

/// The value of a field.
pub enum FieldValue {
    /// A string, written between quotes.
    Text(String),
    /// A non-negative integer, written in decimal.
    Number(u64),
    /// `true` or `false`.
    Flag(bool),
    /// A list of integers, written `[a, b, c]`.
    Numbers(Vec<u64>),
}

impl FieldValue {
    pub open spec fn view(&self) -> ValueView {
        match self {
            FieldValue::Text(s) => ValueView::Text(s@),
            FieldValue::Number(n) => ValueView::Number(*n as nat),
            FieldValue::Flag(b) => ValueView::Flag(*b),
            FieldValue::Numbers(v) => ValueView::Numbers(v@),
        }
    }
}

/// One `"key": value` member of an object.
pub struct Field {
    pub key: &'static str,
    pub value: FieldValue,
}

impl Field {
    pub open spec fn view(&self) -> (Seq<char>, ValueView) {
        (self.key@, self.value.view())
    }
}

/// The fields of a vector, as the contracts see them.
pub open spec fn fields_view(fs: Seq<Field>) -> Seq<(Seq<char>, ValueView)> {
    fs.map_values(|f: Field| f.view())
}

/// The numbers of `ns`, in decimal, separated by `", "`.
pub open spec fn joined_numbers(ns: Seq<u64>) -> Seq<char>
    decreases ns.len(),
{
    if ns.len() == 0 {
        Seq::empty()
    } else if ns.len() == 1 {
        decimal(ns[0] as nat)
    } else {
        joined_numbers(ns.drop_last()) + ", "@ + decimal(ns.last() as nat)
    }
}

/// The text of a value.
pub open spec fn value_text(v: ValueView) -> Seq<char> {
    match v {
        ValueView::Text(s) => "\""@ + s + "\""@,
        ValueView::Number(n) => decimal(n),
        ValueView::Flag(b) => if b {
            "true"@
        } else {
            "false"@
        },
        ValueView::Numbers(ns) => "["@ + joined_numbers(ns) + "]"@,
    }
}

/// What stands between a key and its value.
pub open spec fn key_separator(spaced: bool) -> Seq<char> {
    if spaced {
        "\": "@
    } else {
        "\":"@
    }
}

/// What stands between two fields.
pub open spec fn field_separator(spaced: bool) -> Seq<char> {
    if spaced {
        ", "@
    } else {
        ","@
    }
}

/// The text of one field.
pub open spec fn field_text(f: (Seq<char>, ValueView), spaced: bool) -> Seq<char> {
    "\""@ + f.0 + key_separator(spaced) + value_text(f.1)
}

/// The fields, written in order and separated.
pub open spec fn fields_text(fs: Seq<(Seq<char>, ValueView)>, spaced: bool) -> Seq<char>
    decreases fs.len(),
{
    if fs.len() == 0 {
        Seq::empty()
    } else if fs.len() == 1 {
        field_text(fs[0], spaced)
    } else {
        fields_text(fs.drop_last(), spaced) + field_separator(spaced) + field_text(fs.last(), spaced)
    }
}

/// The object with the given fields, in that order.
pub open spec fn object_text(fs: Seq<(Seq<char>, ValueView)>, spaced: bool) -> Seq<char> {
    "{"@ + fields_text(fs, spaced) + "}"@
}

/// Appends `[a, b, c]`.
fn push_numbers(out: &mut String, ns: &Vec<u64>)
    ensures
        final(out)@ == old(out)@ + "["@ + joined_numbers(ns@) + "]"@,
{
    let ghost start = out@;
    out.append("[");
    let mut i: usize = 0;
    while i < ns.len()
        invariant
            i <= ns.len(),
            out@ == start + "["@ + joined_numbers(ns@.take(i as int)),
        decreases ns.len() - i,
    {
        let ghost before = out@;
        if i > 0 {
            out.append(", ");
        }
        push_number(out, ns[i], 10, 0);
        proof {
            let t = ns@.take(i + 1);
            assert(t.drop_last() =~= ns@.take(i as int));
            assert(t.last() == ns@[i as int]);
            if i == 0 {
                assert(ns@.take(0) =~= Seq::<u64>::empty());
                assert(joined_numbers(ns@.take(0)) =~= Seq::<char>::empty());
                assert(out@ =~= start + "["@ + joined_numbers(t));
            } else {
                assert(out@ =~= start + "["@ + joined_numbers(t));
            }
        }
        i += 1;
    }
    proof {
        assert(ns@.take(ns@.len() as int) =~= ns@);
    }
    out.append("]");
}

/// Appends the text of a value.
fn push_value(out: &mut String, v: &FieldValue)
    ensures
        final(out)@ == old(out)@ + value_text(v.view()),
{
    match v {
        FieldValue::Text(s) => {
            out.append("\"");
            out.append(s.as_str());
            out.append("\"");
        },
        FieldValue::Number(n) => {
            push_number(out, *n, 10, 0);
        },
        FieldValue::Flag(b) => {
            if *b {
                out.append("true");
            } else {
                out.append("false");
            }
        },
        FieldValue::Numbers(ns) => {
            push_numbers(out, ns);
        },
    }
}

/// The JSON object with `fields`, in order: compact (`"k":v`, joined by
/// `,`) or, with `spaced`, `"k": v` joined by `, `.
pub fn render_object(fields: &Vec<Field>, spaced: bool) -> (s: String)
    ensures
        s@ == object_text(fields_view(fields@), spaced),
{
    let ghost fv = fields_view(fields@);
    let mut out = String::new();
    out.append("{");
    let mut i: usize = 0;
    while i < fields.len()
        invariant
            i <= fields.len(),
            fv == fields_view(fields@),
            out@ == "{"@ + fields_text(fv.take(i as int), spaced),
        decreases fields.len() - i,
    {
        let ghost before = out@;
        if i > 0 {
            if spaced {
                out.append(", ");
            } else {
                out.append(",");
            }
        }
        out.append("\"");
        out.append(fields[i].key);
        if spaced {
            out.append("\": ");
        } else {
            out.append("\":");
        }
        push_value(&mut out, &fields[i].value);
        proof {
            let t = fv.take(i + 1);
            assert(t.drop_last() =~= fv.take(i as int));
            assert(t.last() == fields@[i as int].view());
            if i == 0 {
                assert(fv.take(0) =~= Seq::<(Seq<char>, ValueView)>::empty());
                assert(out@ =~= "{"@ + fields_text(t, spaced));
            } else {
                assert(out@ =~= "{"@ + fields_text(t, spaced));
            }
        }
        i += 1;
    }
    proof {
        assert(fv.take(fv.len() as int) =~= fv);
    }
    out.append("}");
    out
}

} // verus!
