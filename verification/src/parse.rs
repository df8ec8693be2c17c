//! Classification of one raw input line.
//!
//! A line is one of three things: a comment (it begins with `#`), a record
//! candidate (it contains at least one `;`; the bytes before the first `;`
//! are the key verbatim, the bytes after it are the raw numeric text), or
//! malformed for want of a separator. Only the first separator counts:
//! later separators stay inside the numeric text and are the caller's
//! number parser to reject. Nothing is trimmed. Whether a candidate's
//! numeric text actually denotes a number is decided outside the library;
//! a candidate whose text fails that parse is skipped exactly like a
//! comment, and the stream never aborts over one bad line.

use vstd::prelude::*;

verus! {

/// The comment marker `#`.
pub const COMMENT_MARK: u8 = 35;

/// The field separator `;`.
pub const SEPARATOR: u8 = 59;

/// One parsed record: the key and the 32-bit encoding of its value, as the
/// caller's number parser produced it from the candidate's numeric text.
pub struct Reading {
    pub key: Vec<u8>,
    pub value_bits: u32,
}

/// What one line turned out to be.
pub enum LineShape {
    /// The line begins with the comment marker and is skipped.
    Comment,
    /// The line has no separator and is skipped as malformed.
    NoSeparator,
    /// The line split at its first separator: `key` is everything before
    /// it, `number` everything after it, both verbatim.
    Record { key: Vec<u8>, number: Vec<u8> },
}

/// A comment line: non-empty and starting with the comment marker.
pub open spec fn is_comment(line: Seq<u8>) -> bool {
    line.len() > 0 && line[0] == COMMENT_MARK
}

/// Position of the first separator at or after `i`, if any.
pub open spec fn first_sep_from(line: Seq<u8>, i: int) -> Option<int>
    recommends
        0 <= i <= line.len(),
    decreases line.len() - i,
{
    if i < 0 || i >= line.len() {
        None
    } else if line[i] == SEPARATOR {
        Some(i)
    } else {
        first_sep_from(line, i + 1)
    }
}

/// Position of the first separator of the line, if any.
pub open spec fn first_sep(line: Seq<u8>) -> Option<int> {
    first_sep_from(line, 0)
}

/// The key and numeric text a line contributes, or `None` for a comment or
/// a line without separator.
pub open spec fn line_candidate(line: Seq<u8>) -> Option<(Seq<u8>, Seq<u8>)> {
    if is_comment(line) {
        None
    } else {
        match first_sep(line) {
            Some(p) => Some((line.take(p), line.skip(p + 1))),
            None => None,
        }
    }
}

proof fn lemma_first_sep_from_found(line: Seq<u8>, i: int, p: int)
    requires
        0 <= i <= p < line.len(),
        line[p] == SEPARATOR,
        forall|q: int| i <= q < p ==> line[q] != SEPARATOR,
    ensures
        first_sep_from(line, i) == Some(p),
    decreases p - i,
{
    if i < p {
        lemma_first_sep_from_found(line, i + 1, p);
    }
}

proof fn lemma_first_sep_from_none(line: Seq<u8>, i: int)
    requires
        0 <= i <= line.len(),
        forall|q: int| i <= q < line.len() ==> line[q] != SEPARATOR,
    ensures
        first_sep_from(line, i) is None,
    decreases line.len() - i,
{
    if i < line.len() {
        lemma_first_sep_from_none(line, i + 1);
    }
}

/// A fresh copy of `v[from..to]`.
pub fn copy_range(v: &Vec<u8>, from: usize, to: usize) -> (r: Vec<u8>)
    requires
        from <= to <= v.len(),
    ensures
        r@ == v@.subrange(from as int, to as int),
{
    let mut r: Vec<u8> = Vec::new();
    let mut i: usize = from;
    while i < to
        invariant
            from <= i <= to <= v.len(),
            r@ == v@.subrange(from as int, i as int),
        decreases to - i,
    {
        r.push(v[i]);
        proof {
            assert(v@.subrange(from as int, i + 1) =~= v@.subrange(from as int, i as int).push(
                v@[i as int],
            ));
        }
        i = i + 1;
    }
    r
}

/// Classify one line, with the terminator already stripped.
pub fn split_line(line: &Vec<u8>) -> (r: LineShape)
    ensures
        (r matches LineShape::Comment) <==> is_comment(line@),
        (r matches LineShape::NoSeparator) <==> (!is_comment(line@) && first_sep(line@) is None),
        (r matches LineShape::Record { key, number } ==> line_candidate(line@) == Some((
            key@,
            number@,
        ))),
{
    if line.len() > 0 && line[0] == COMMENT_MARK {
        return LineShape::Comment;
    }
    let mut i: usize = 0;
    while i < line.len()
        invariant
            0 <= i <= line.len(),
            !is_comment(line@),
            forall|q: int| 0 <= q < i ==> line@[q] != SEPARATOR,
        decreases line.len() - i,
    {
        if line[i] == SEPARATOR {
            proof {
                lemma_first_sep_from_found(line@, 0, i as int);
            }
            let key = copy_range(line, 0, i);
            let number = copy_range(line, i + 1, line.len());
            proof {
                assert(line@.take(i as int) =~= line@.subrange(0, i as int));
                assert(line@.skip(i + 1) =~= line@.subrange(i + 1, line@.len() as int));
            }
            return LineShape::Record { key, number };
        }
        i = i + 1;
    }
    proof {
        lemma_first_sep_from_none(line@, 0);
    }
    LineShape::NoSeparator
}

/// The candidates a whole sequence of lines contributes, in line order.
pub open spec fn candidates_of(lines: Seq<Seq<u8>>) -> Seq<(Seq<u8>, Seq<u8>)>
    decreases lines.len(),
{
    if lines.len() == 0 {
        Seq::empty()
    } else {
        let rest = candidates_of(lines.drop_last());
        match line_candidate(lines.last()) {
            Some(c) => rest.push(c),
            None => rest,
        }
    }
}

/// Inserting a comment line, or one without a separator, anywhere in the
/// input leaves the sequence of record candidates — and with it everything
/// the rest of the pipeline computes from them — unchanged.
pub proof fn lemma_skipped_line_immune(pre: Seq<Seq<u8>>, line: Seq<u8>, post: Seq<Seq<u8>>)
    requires
        line_candidate(line) is None,
    ensures
        candidates_of(pre + seq![line] + post) == candidates_of(pre + post),
    decreases post.len(),
{
    if post.len() == 0 {
        assert(pre + seq![line] + post =~= (pre + seq![line]));
        assert((pre + seq![line]).drop_last() =~= pre);
        assert((pre + seq![line]).last() == line);
        assert(pre + post =~= pre);
    } else {
        lemma_skipped_line_immune(pre, line, post.drop_last());
        assert((pre + seq![line] + post).drop_last() =~= pre + seq![line] + post.drop_last());
        assert((pre + seq![line] + post).last() == post.last());
        assert((pre + post).drop_last() =~= pre + post.drop_last());
        assert((pre + post).last() == post.last());
    }
}

} // verus!
