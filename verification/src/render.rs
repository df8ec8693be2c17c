//! Rendering of the sorted summary.
//!
//! The summary is one line: an opening brace, every entry as
//! `key=min/mean/max` with `", "` between entries, and a closing brace.
//! The three numeric fields arrive as ready-made display text — producing
//! that text from a stored encoding is numeric work done outside the
//! library — and the library assembles the line exactly.

use vstd::prelude::*;

verus! {

/// One summary entry ready for display: the key and the display text of
/// its minimum, mean and maximum.
pub struct DisplayEntry {
    pub key: Vec<u8>,
    pub min_text: Vec<u8>,
    pub mean_text: Vec<u8>,
    pub max_text: Vec<u8>,
}

impl View for DisplayEntry {
    type V = (Seq<u8>, Seq<u8>, Seq<u8>, Seq<u8>);

    open spec fn view(&self) -> (Seq<u8>, Seq<u8>, Seq<u8>, Seq<u8>) {
        (self.key@, self.min_text@, self.mean_text@, self.max_text@)
    }
}

/// The text of one entry: `key=min/mean/max`.
pub open spec fn entry_text(e: (Seq<u8>, Seq<u8>, Seq<u8>, Seq<u8>)) -> Seq<u8> {
    e.0 + seq![61u8] + e.1 + seq![47u8] + e.2 + seq![47u8] + e.3
}

/// All entries joined with `", "`.
pub open spec fn joined_text(items: Seq<(Seq<u8>, Seq<u8>, Seq<u8>, Seq<u8>)>) -> Seq<u8>
    decreases items.len(),
{
    if items.len() == 0 {
        Seq::empty()
    } else if items.len() == 1 {
        entry_text(items[0])
    } else {
        joined_text(items.drop_last()) + seq![44u8, 32u8] + entry_text(items.last())
    }
}

/// The whole summary line: the joined entries in braces.
pub open spec fn summary_text(items: Seq<(Seq<u8>, Seq<u8>, Seq<u8>, Seq<u8>)>) -> Seq<u8> {
    seq![123u8] + joined_text(items) + seq![125u8]
}

/// Append a copy of `piece` to `out`.
fn push_all(out: &mut Vec<u8>, piece: &Vec<u8>)
    ensures
        final(out)@ == old(out)@ + piece@,
{
    let mut i: usize = 0;
    while i < piece.len()
        invariant
            0 <= i <= piece.len(),
            out@ == old(out)@ + piece@.take(i as int),
        decreases piece.len() - i,
    {
        out.push(piece[i]);
        proof {
            assert(old(out)@ + piece@.take(i + 1) =~= (old(out)@ + piece@.take(i as int)).push(
                piece@[i as int],
            ));
        }
        i = i + 1;
    }
    proof {
        assert(piece@.take(piece@.len() as int) =~= piece@);
    }
}

/// Render the summary line for the given entries, in the given order.
#[verifier::loop_isolation(false)]
pub fn render_summary(items: &Vec<DisplayEntry>) -> (out: Vec<u8>)
    ensures
        out@ == summary_text(items@.map_values(|e: DisplayEntry| e@)),
{
    let ghost views = items@.map_values(|e: DisplayEntry| e@);
    let mut out: Vec<u8> = Vec::new();
    out.push(123);
    proof {
        assert(out@ =~= seq![123u8] + joined_text(views.take(0)));
    }
    let mut idx: usize = 0;
    while idx < items.len()
        invariant
            0 <= idx <= items@.len(),
            out@ == seq![123u8] + joined_text(views.take(idx as int)),
        decreases items@.len() - idx,
    {
        if idx > 0 {
            out.push(44);
            out.push(32);
        }
        let e = &items[idx];
        push_all(&mut out, &e.key);
        out.push(61);
        push_all(&mut out, &e.min_text);
        out.push(47);
        push_all(&mut out, &e.mean_text);
        out.push(47);
        push_all(&mut out, &e.max_text);
        proof {
            let prev = views.take(idx as int);
            let cur = views.take(idx + 1);
            assert(cur.drop_last() =~= prev);
            assert(cur.last() == views[idx as int]);
            if idx == 0 {
                assert(joined_text(cur) == entry_text(views[0]));
            } else {
                assert(joined_text(cur) == joined_text(prev) + seq![44u8, 32u8] + entry_text(
                    views[idx as int],
                ));
            }
            assert(out@ =~= seq![123u8] + joined_text(cur));
        }
        idx = idx + 1;
    }
    out.push(125);
    proof {
        assert(views.take(views.len() as int) =~= views);
        assert(out@ =~= seq![123u8] + joined_text(views) + seq![125u8]);
    }
    out
}

} // verus!
