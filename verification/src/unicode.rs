//! The two text measures the editor cannot compute itself: how a
//! string splits into grapheme clusters, and how many terminal columns
//! a string occupies. Both are pure functions of the string, computed
//! by outside code and given names here.

use vstd::prelude::*;

use unicode_segmentation::UnicodeSegmentation;
use unicode_width::UnicodeWidthStr;

verus! {

/// The grapheme clusters of a string, in order.
pub uninterp spec fn graphemes_of(s: Seq<char>) -> Seq<Seq<char>>;

/// The displayed width of a string, in terminal columns.
pub uninterp spec fn display_width_of(s: Seq<char>) -> nat;

/// The concatenation of a sequence of texts.
pub open spec fn concat_views(gs: Seq<Seq<char>>) -> Seq<char>
    decreases gs.len(),
{
    if gs.len() == 0 {
        Seq::empty()
    } else {
        gs[0] + concat_views(gs.drop_first())
    }
}

/// The total displayed width of a sequence of texts.
pub open spec fn width_sum(gs: Seq<Seq<char>>) -> nat
    decreases gs.len(),
{
    if gs.len() == 0 {
        0
    } else {
        display_width_of(gs[0]) + width_sum(gs.drop_first())
    }
}

/// Relies on unicode_segmentation's `graphemes` in extended mode: the
/// clusters are non-empty and partition the string, so that their
/// concatenation gives the string back.
#[verifier::external_body]
pub fn grapheme_split(s: &str) -> (r: Vec<String>)
    ensures
        r@.map_values(|g: String| g@) == graphemes_of(s@),
        concat_views(r@.map_values(|g: String| g@)) == s@,
        forall|i: int| 0 <= i < r@.len() ==> (#[trigger] r@[i]@).len() > 0,
        s@.len() == 0 ==> r@.len() == 0,
{
    s.graphemes(true).map(|g| g.to_owned()).collect()
}

/// Relies on unicode_width's `width` for strings: a pure function of
/// the characters, zero for the empty string.
#[verifier::external_body]
pub fn str_width(s: &str) -> (r: usize)
    ensures
        r as nat == display_width_of(s@),
        s@.len() == 0 ==> r == 0,
{
    UnicodeWidthStr::width(s)
}

/// Concatenation splits at any cell boundary.
pub proof fn lemma_concat_split(gs: Seq<Seq<char>>, i: int)
    requires
        0 <= i <= gs.len(),
    ensures
        concat_views(gs) == concat_views(gs.take(i)) + concat_views(gs.skip(i)),
    decreases i,
{
    if i == 0 {
        assert(gs.take(0) =~= Seq::<Seq<char>>::empty());
        assert(gs.skip(0) =~= gs);
        assert(concat_views(gs.take(0)) + concat_views(gs) =~= concat_views(gs));
    } else {
        let g2 = gs.drop_first();
        assert(gs.len() > 0);
        lemma_concat_split(g2, i - 1);
        assert(gs.take(i).drop_first() =~= g2.take(i - 1));
        assert(gs.take(i)[0] == gs[0]);
        assert(gs.take(i).len() > 0);
        assert(concat_views(gs.take(i)) == gs[0] + concat_views(g2.take(i - 1)));
        assert(gs.skip(i) =~= g2.skip(i - 1));
        assert(concat_views(gs) == gs[0] + concat_views(g2));
        assert(gs[0] + (concat_views(g2.take(i - 1)) + concat_views(g2.skip(i - 1))) =~= (gs[0]
            + concat_views(g2.take(i - 1))) + concat_views(g2.skip(i - 1)));
    }
}

} // verus!
