//! Splitting the input into lines, as `str::lines` does.
use vstd::prelude::*;
use vstd::string::StringSliceAdditionalSpecFns;
use vstd::utf8::{
    encode_utf8_valid_utf8, is_char_boundary, is_char_boundary_iff_not_is_continuation_byte,
    length_of_first_scalar, valid_utf8,
};

verus! {

/// The position of the first line feed in `b`, or its length when there is none.
pub open spec fn newline_pos(b: Seq<u8>) -> nat
    decreases b.len(),
{
    if b.len() == 0 {
        0
    } else if b[0] == 10 {
        0
    } else {
        1 + newline_pos(b.drop_first())
    }
}

/// A line without the carriage return that ends it, if any.
pub open spec fn strip_cr(l: Seq<u8>) -> Seq<u8> {
    if l.len() > 0 && l.last() == 13 {
        l.drop_last()
    } else {
        l
    }
}

/// The lines of `b`: the pieces between line feeds, each without one
/// carriage return just before its line feed; a last piece that no line
/// feed ends is a line as it is, unless it is empty.
pub open spec fn lines_of(b: Seq<u8>) -> Seq<Seq<u8>>
    decreases b.len(),
{
    if b.len() == 0 {
        Seq::empty()
    } else {
        let p = newline_pos(b);
        if p >= b.len() {
            seq![b]
        } else {
            seq![strip_cr(b.take(p as int))] + lines_of(b.skip(p as int + 1))
        }
    }
}

proof fn lemma_newline_pos(b: Seq<u8>, p: int)
    requires
        0 <= p <= b.len(),
        forall|k: int| 0 <= k < p ==> #[trigger] b[k] != 10,
        p == b.len() || b[p] == 10,
    ensures
        newline_pos(b) == p,
    decreases p,
{
    if p > 0 {
        if p < b.len() {
            assert(b.drop_first()[p - 1] == b[p]);
        }
        assert forall|k: int| 0 <= k < p - 1 implies #[trigger] b.drop_first()[k] != 10 by {
            assert(b.drop_first()[k] == b[k + 1]);
        }
        lemma_newline_pos(b.drop_first(), p - 1);
    }
}

proof fn lemma_boundary_after_ascii(b: Seq<u8>)
    requires
        valid_utf8(b),
        b.len() > 0,
        b[0] < 128,
    ensures
        is_char_boundary(b, 1),
{
    assert(length_of_first_scalar(b) == 1);
    assert(is_char_boundary(b.subrange(1, b.len() as int), 0));
}

/// The lines of `input`, as `str::lines` yields them.
pub fn split_lines<'a>(input: &'a str) -> (lines: Vec<&'a str>)
    ensures
        lines@.map_values(|l: &str| l.spec_bytes()) == lines_of(input.spec_bytes()),
{
    let mut lines: Vec<&'a str> = Vec::new();
    let mut rest: &'a str = input;
    let ghost mut done: Seq<Seq<u8>> = Seq::empty();
    loop
        invariant
            lines_of(input.spec_bytes()) == done + lines_of(rest.spec_bytes()),
            lines@.map_values(|l: &str| l.spec_bytes()) == done,
        decreases rest.spec_bytes().len(),
    {
        let bytes = rest.as_bytes();
        let n = bytes.len();
        if n == 0 {
            proof {
                assert(done + lines_of(rest.spec_bytes()) =~= done);
            }
            return lines;
        }
        let mut p: usize = 0;
        while p < n && bytes[p] != 10
            invariant
                p <= n,
                n == bytes@.len(),
                forall|k: int| 0 <= k < p ==> #[trigger] bytes@[k] != 10,
            decreases n - p,
        {
            p += 1;
        }
        proof {
            lemma_newline_pos(bytes@, p as int);
            encode_utf8_valid_utf8(rest@);
        }
        if p == n {
            let ghost prev = lines@;
            lines.push(rest);
            proof {
                assert(lines@.map_values(|l: &str| l.spec_bytes()) =~= done.push(rest.spec_bytes()));
                assert(lines_of(rest.spec_bytes()) =~= seq![rest.spec_bytes()]);
                assert(done + seq![rest.spec_bytes()] =~= done.push(rest.spec_bytes()));
            }
            return lines;
        }
        proof {
            is_char_boundary_iff_not_is_continuation_byte(bytes@, p as int);
        }
        let (head, tail) = rest.split_at(p);
        let mut line = head;
        if p > 0 && bytes[p - 1] == 13 {
            proof {
                vstd::utf8::valid_utf8_split(bytes@, p as int);
                is_char_boundary_iff_not_is_continuation_byte(head.spec_bytes(), p - 1);
            }
            let (stripped, _) = head.split_at(p - 1);
            line = stripped;
        }
        proof {
            assert(head.spec_bytes() =~= bytes@.take(p as int));
            assert(line.spec_bytes() == strip_cr(bytes@.take(p as int)));
            vstd::utf8::valid_utf8_split(bytes@, p as int);
            assert(tail.spec_bytes()[0] == 10);
            lemma_boundary_after_ascii(tail.spec_bytes());
        }
        let (_, next) = tail.split_at(1);
        proof {
            assert(next.spec_bytes() =~= bytes@.skip(p + 1));
            assert(lines_of(rest.spec_bytes()) == seq![line.spec_bytes()] + lines_of(next.spec_bytes()));
        }
        let ghost prev = lines@;
        lines.push(line);
        proof {
            assert(lines@.map_values(|l: &str| l.spec_bytes()) =~= done.push(line.spec_bytes()));
            assert(done + (seq![line.spec_bytes()] + lines_of(next.spec_bytes())) =~= done.push(
                line.spec_bytes(),
            ) + lines_of(next.spec_bytes()));
            done = done.push(line.spec_bytes());
        }
        rest = next;
    }
}

} // verus!
