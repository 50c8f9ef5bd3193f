use vstd::prelude::*;
use vstd::string::StringSliceAdditionalSpecFns;
use vstd::utf8::{
    encode_utf8, encode_utf8_valid_utf8, is_char_boundary, is_char_boundary_iff_not_is_continuation_byte,
    is_char_boundary_start_end_of_seq, is_continuation_byte, valid_utf8, valid_utf8_split,
};

verus! {

/// The byte value of the newline character.
pub const NEWLINE: u8 = 10;

/// The end of the line that holds byte offset `p`: the first newline at or
/// after `p`, or the end of `b`.
pub open spec fn line_end(b: Seq<u8>, p: int) -> int
    decreases b.len() - p,
{
    if 0 <= p < b.len() && b[p] != NEWLINE {
        line_end(b, p + 1)
    } else {
        p
    }
}

/// The start of the line that holds byte offset `p`: just after the last
/// newline before `p`, or 0.
pub open spec fn line_start(b: Seq<u8>, p: int) -> int
    decreases p,
{
    if p <= 0 {
        0
    } else if b[p - 1] == NEWLINE {
        p
    } else {
        line_start(b, p - 1)
    }
}

/// The number of newlines before byte offset `p`.
pub open spec fn newlines_before(b: Seq<u8>, p: int) -> nat
    decreases p,
{
    if p <= 0 {
        0
    } else if b[p - 1] == NEWLINE {
        newlines_before(b, p - 1) + 1
    } else {
        newlines_before(b, p - 1)
    }
}

/// The lines of `b` from offset `p` on, split at each newline, without the
/// newlines. A text that ends with a newline ends with an empty line.
pub open spec fn split_from(b: Seq<u8>, p: int) -> Seq<Seq<u8>>
    decreases b.len() - p,
    when 0 <= p <= b.len()
    via split_from_decreases
{
    let e = line_end(b, p);
    if e >= b.len() {
        seq![b.subrange(p, b.len() as int)]
    } else {
        seq![b.subrange(p, e)] + split_from(b, e + 1)
    }
}

#[via_fn]
proof fn split_from_decreases(b: Seq<u8>, p: int) {
    lemma_line_end(b, p);
}

pub open spec fn split_lines(b: Seq<u8>) -> Seq<Seq<u8>> {
    split_from(b, 0)
}

/// A line ends inside the text, holds no newline, and stops at one (or at
/// the end).
pub proof fn lemma_line_end(b: Seq<u8>, p: int)
    requires
        0 <= p <= b.len(),
    ensures
        p <= line_end(b, p) <= b.len(),
        forall|q: int| p <= q < line_end(b, p) ==> #[trigger] b[q] != NEWLINE,
        line_end(b, p) < b.len() ==> b[line_end(b, p)] == NEWLINE,
    decreases b.len() - p,
{
    if p < b.len() && b[p] != NEWLINE {
        lemma_line_end(b, p + 1);
    }
}

/// Every offset from the start of a line up to its terminating newline (or
/// the end of the text) lies on that line: it has as many newlines before it
/// as the line's start, and the same line start and end.
pub proof fn lemma_offsets_in_line(b: Seq<u8>, a: int, q: int)
    requires
        0 <= a <= q <= line_end(b, a),
        a <= b.len(),
        a == 0 || b[a - 1] == NEWLINE,
    ensures
        newlines_before(b, q) == newlines_before(b, a),
        line_start(b, q) == a,
        line_end(b, q) == line_end(b, a),
    decreases q - a,
{
    lemma_line_end(b, a);
    if q > a {
        lemma_offsets_in_line(b, a, q - 1);
        assert(b[q - 1] != NEWLINE);
        assert(line_end(b, q - 1) == line_end(b, q));
    }
}

/// A character boundary of valid UTF-8 stays one in a prefix that ends on a
/// boundary.
proof fn lemma_prefix_boundary(b: Seq<u8>, a: int, e: int)
    requires
        valid_utf8(b),
        0 <= a <= e <= b.len(),
        is_char_boundary(b, a),
        is_char_boundary(b, e),
    ensures
        valid_utf8(b.subrange(0, e)),
        is_char_boundary(b.subrange(0, e), a),
{
    valid_utf8_split(b, e);
    let pre = b.subrange(0, e);
    is_char_boundary_start_end_of_seq(pre);
    if a < e {
        is_char_boundary_iff_not_is_continuation_byte(b, a);
        is_char_boundary_iff_not_is_continuation_byte(pre, a);
    }
}

/// In valid UTF-8 the offsets at and just after a newline byte are character
/// boundaries.
proof fn lemma_newline_boundaries(b: Seq<u8>, i: int)
    requires
        valid_utf8(b),
        0 <= i < b.len(),
        b[i] == NEWLINE,
    ensures
        is_char_boundary(b, i),
        is_char_boundary(b, i + 1),
{
    is_char_boundary_iff_not_is_continuation_byte(b, i);
    is_char_boundary_start_end_of_seq(b);
    if i + 1 < b.len() {
        valid_utf8_split(b, i);
        let rest = b.subrange(i, b.len() as int);
        assert(rest[0] == NEWLINE);
        let after = rest.subrange(1, rest.len() as int);
        assert(valid_utf8(after));
        assert(after[0] == b[i + 1]);
        assert(!is_continuation_byte(b[i + 1]));
        is_char_boundary_iff_not_is_continuation_byte(b, i + 1);
    }
}

/// The cut points of a line are character boundaries.
proof fn lemma_line_cut(b: Seq<u8>, a: int, e: int)
    requires
        valid_utf8(b),
        0 <= a <= e <= b.len(),
        a == 0 || b[a - 1] == NEWLINE,
        e == b.len() || b[e] == NEWLINE,
    ensures
        is_char_boundary(b, e),
        is_char_boundary(b.subrange(0, e), a),
{
    is_char_boundary_start_end_of_seq(b);
    if e < b.len() {
        lemma_newline_boundaries(b, e);
    }
    if a > 0 {
        lemma_newline_boundaries(b, a - 1);
    }
    lemma_prefix_boundary(b, a, e);
}

/// The lines of one source text, kept beside the text itself for
/// position-to-line queries and for slicing. Offsets are byte offsets into
/// the UTF-8 encoding of the text.
pub struct SourceText {
    lines: Vec<String>,
    source: String,
}

impl SourceText {
    /// The characters of the source.
    pub closed spec fn text(&self) -> Seq<char> {
        self.source@
    }

    /// The bytes of the source.
    pub open spec fn bytes(&self) -> Seq<u8> {
        encode_utf8(self.text())
    }

    /// The lines held, as byte sequences.
    pub closed spec fn line_bytes(&self) -> Seq<Seq<u8>> {
        self.lines@.map_values(|l: String| encode_utf8(l@))
    }

    pub closed spec fn wf(&self) -> bool {
        &&& self.bytes().len() < usize::MAX
        &&& self.line_bytes() == split_lines(self.bytes())
    }

    /// Builds the index. The length bound holds of every `str`, whose length
    /// is at most `isize::MAX`.
    pub fn new(input: &str) -> (r: SourceText)
        requires
            encode_utf8(input@).len() < usize::MAX,
        ensures
            r.wf(),
            r.text() == input@,
            r.line_bytes() == split_lines(encode_utf8(input@)),
    {
        let bytes = input.as_bytes();
        let ghost b = encode_utf8(input@);
        proof {
            encode_utf8_valid_utf8(input@);
        }
        let n = bytes.len();
        let mut lines: Vec<String> = Vec::new();
        let mut a: usize = 0;
        loop
            invariant_except_break
                split_lines(b) == lines@.map_values(|l: String| encode_utf8(l@)) + split_from(
                    b,
                    a as int,
                ),
            invariant
                b == encode_utf8(input@),
                valid_utf8(b),
                bytes@ == b,
                n == b.len(),
                a <= n,
                a == 0 || b[a - 1] == NEWLINE,
            ensures
                split_lines(b) == lines@.map_values(|l: String| encode_utf8(l@)),
            decreases n - a,
        {
            let mut e = a;
            while e < n && bytes[e] != NEWLINE
                invariant
                    bytes@ == b,
                    n == b.len(),
                    a <= e <= n,
                    line_end(b, e as int) == line_end(b, a as int),
                decreases n - e,
            {
                e = e + 1;
            }
            proof {
                lemma_line_end(b, a as int);
                lemma_line_cut(b, a as int, e as int);
            }
            let (upto, _) = input.split_at(e);
            let (_, piece) = upto.split_at(a);
            let line = String::from_str(piece);
            let ghost before = lines@;
            lines.push(line);
            proof {
                assert(piece.spec_bytes() =~= b.subrange(a as int, e as int));
                assert(lines@.map_values(|l: String| encode_utf8(l@)) =~= before.map_values(
                    |l: String| encode_utf8(l@),
                ).push(b.subrange(a as int, e as int)));
            }
            if e == n {
                proof {
                    assert(split_lines(b) =~= lines@.map_values(|l: String| encode_utf8(l@)));
                }
                break;
            }
            proof {
                assert(split_lines(b) =~= lines@.map_values(|l: String| encode_utf8(l@))
                    + split_from(b, e + 1 as int));
            }
            a = e + 1;
        }
        SourceText { lines, source: input.to_owned() }
    }

    /// The line that holds byte offset `pos`, as (line number, column, line
    /// text), both numbers counted from 1 and the column in bytes; nothing
    /// past the end of the text. An offset on a newline belongs to the line
    /// that the newline ends, and the offset just past the text to the last
    /// line.
    pub fn get_line_by_pos(&self, pos: usize) -> (r: Option<(usize, usize, String)>)
        requires
            self.wf(),
        ensures
            pos > self.bytes().len() ==> r is None,
            pos <= self.bytes().len() ==> {
                &&& r is Some
                &&& (r->0).0 == newlines_before(self.bytes(), pos as int) + 1
                &&& (r->0).1 == pos - line_start(self.bytes(), pos as int) + 1
                &&& encode_utf8((r->0).2@) == self.bytes().subrange(
                    line_start(self.bytes(), pos as int),
                    line_end(self.bytes(), pos as int),
                )
                &&& encode_utf8((r->0).2@) == split_lines(self.bytes())[newlines_before(
                    self.bytes(),
                    pos as int,
                ) as int]
            },
    {
        let ghost b = self.bytes();
        let ghost n = self.lines.len() as int;
        proof {
            lemma_line_end(b, 0);
            assert(split_lines(b).len() > 0);
            assert(self.line_bytes().subrange(0, n) =~= self.line_bytes());
        }
        let mut a: usize = 0;
        let mut i: usize = 0;
        while i < self.lines.len()
            invariant
                self.wf(),
                b == self.bytes(),
                n == self.lines.len(),
                i <= n,
                i < n ==> {
                    &&& a <= b.len()
                    &&& a <= pos
                    &&& (a == 0 || b[a - 1] == NEWLINE)
                    &&& newlines_before(b, a as int) == i
                    &&& split_from(b, a as int) == self.line_bytes().subrange(i as int, n)
                },
                i == n ==> pos > b.len(),
            decreases n - i,
        {
            let ghost e = line_end(b, a as int);
            proof {
                lemma_line_end(b, a as int);
                assert(self.line_bytes()[i as int] == encode_utf8(self.lines@[i as int]@));
                assert(split_from(b, a as int)[0] == self.line_bytes()[i as int]);
                assert(split_lines(b)[i as int] == self.line_bytes()[i as int]);
            }
            let l = self.lines[i].as_str().len();
            assert(l == e - a);
            if pos <= a + l {
                proof {
                    lemma_offsets_in_line(b, a as int, pos as int);
                }
                return Some((i + 1, pos - a + 1, self.lines[i].clone()));
            }
            proof {
                if e < b.len() {
                    lemma_offsets_in_line(b, a as int, e);
                    let here = split_from(b, a as int);
                    assert(here == seq![b.subrange(a as int, e)] + split_from(b, e + 1));
                    assert(split_from(b, e + 1) =~= here.subrange(1, here.len() as int));
                    assert(split_from(b, e + 1) =~= self.line_bytes().subrange(i + 1, n));
                } else {
                    assert(split_from(b, a as int).len() == 1);
                }
            }
            a = a + l + 1;
            i = i + 1;
        }
        None
    }

    /// The text of the bytes `[start, end)`; both ends lie on character
    /// boundaries.
    pub fn get_literal(&self, start: usize, end: usize) -> (r: &str)
        requires
            start <= end <= self.bytes().len(),
            is_char_boundary(self.bytes(), start as int),
            is_char_boundary(self.bytes(), end as int),
        ensures
            r.spec_bytes() == self.bytes().subrange(start as int, end as int),
    {
        proof {
            encode_utf8_valid_utf8(self.text());
            lemma_prefix_boundary(self.bytes(), start as int, end as int);
        }
        let (upto, _) = self.source.as_str().split_at(end);
        let (_, lit) = upto.split_at(start);
        proof {
            assert(lit.spec_bytes() =~= self.bytes().subrange(start as int, end as int));
        }
        lit
    }
}

} // verus!
