//! The region transformer: segments produced by the escape-aware splitter
//! alternate between text outside and inside a math region (even index =
//! outside, odd index = inside); the inside segments receive the
//! substitutions and everything is concatenated back in order.

use vstd::prelude::*;

use crate::escape::escape_seg;
use crate::escape::escape_segment;
use crate::split::seg_views;
use crate::split::split_inclusive;
use crate::split::split_spec;

verus! {

/// The segments of `s` split at `d`, with the inside (odd-index) segments
/// substituted and the outside (even-index) segments left untouched.
pub open spec fn transformed_segments(s: Seq<char>, d: Seq<char>) -> Seq<Seq<char>> {
    split_spec(s, d).map(
        |k: int, seg: Seq<char>|
            if k % 2 == 0 {
                seg
            } else {
                escape_seg(seg)
            },
    )
}

/// One transformation pass over `s` with delimiter `d`.
pub open spec fn transform_spec(s: Seq<char>, d: Seq<char>) -> Seq<char> {
    transformed_segments(s, d).flatten()
}

/// Both passes composed: the double delimiter first, then the single one
/// applied to the first pass's output.
pub open spec fn full_transform(s: Seq<char>) -> Seq<char> {
    transform_spec(transform_spec(s, seq!['$', '$']), seq!['$'])
}

/// The preprocessor: rewrites MathJax-sensitive characters inside the math
/// regions of a content string.
pub struct Prep;

impl Prep {
    /// Makes a new preprocessor; it carries no state.
    pub fn new() -> (r: Self) {
        Prep
    }

    /// One pass: splits `content` at unescaped occurrences of `delimiter`
    /// and applies the inside-region substitutions to every odd-index
    /// segment, concatenating the results in order.
    pub fn escape_special_chars_for_mathjax_with_delimiter(content: &str, delimiter: &str) -> (r:
        String)
        requires
            1 <= delimiter@.len(),
        ensures
            r@ == transform_spec(content@, delimiter@),
    {
        let segs = split_inclusive(content, delimiter, true);
        let ghost tsegs = transformed_segments(content@, delimiter@);
        let mut out = String::new();
        let mut k: usize = 0;
        proof {
            assert(tsegs.take(0).flatten() =~= Seq::<char>::empty());
        }
        while k < segs.len()
            invariant
                k <= segs@.len(),
                seg_views(segs@) == split_spec(content@, delimiter@),
                tsegs == transformed_segments(content@, delimiter@),
                tsegs.len() == segs@.len(),
                out@ == tsegs.take(k as int).flatten(),
            decreases segs@.len() - k,
        {
            if k % 2 == 0 {
                out.append(segs[k].as_str());
                proof {
                    assert(tsegs[k as int] == segs@[k as int]@);
                }
            } else {
                let e = escape_segment(segs[k].as_str());
                out.append(e.as_str());
                proof {
                    assert(tsegs[k as int] == escape_seg(segs@[k as int]@));
                }
            }
            proof {
                assert(tsegs.take(k + 1) =~~= tsegs.take(k as int).push(tsegs[k as int]));
                tsegs.take(k as int).lemma_flatten_push(tsegs[k as int]);
            }
            k = k + 1;
        }
        proof {
            assert(tsegs.take(tsegs.len() as int) =~~= tsegs);
        }
        out
    }

    /// The whole transformation: the double-delimiter pass first, then the
    /// single-delimiter pass on its output. The order matters because the
    /// double delimiter is a prefix extension of the single one.
    pub fn escape_special_chars_for_mathjax(content: &str) -> (r: String)
        ensures
            r@ == full_transform(content@),
    {
        proof {
            reveal_strlit("$$");
            reveal_strlit("$");
            assert("$$"@ =~= seq!['$', '$']);
            assert("$"@ =~= seq!['$']);
        }
        let display = Self::escape_special_chars_for_mathjax_with_delimiter(content, "$$");
        Self::escape_special_chars_for_mathjax_with_delimiter(display.as_str(), "$")
    }

    /// The capability query: the only supported rendering target is `html`.
    pub fn supports_renderer(&self, renderer: &str) -> (r: bool)
        ensures
            r == (renderer@ == "html"@),
    {
        str_eq(renderer, "html")
    }
}

/// Text outside the regions is left exactly as it was: the even-index
/// (outside) segments of the transformed sequence equal the corresponding
/// input segments character for character, and the transform's output is
/// the concatenation of the transformed segments in order.
pub proof fn lemma_outside_segments_unchanged(s: Seq<char>, d: Seq<char>, k: int)
    requires
        0 <= k < split_spec(s, d).len(),
        k % 2 == 0,
    ensures
        transformed_segments(s, d).len() == split_spec(s, d).len(),
        transformed_segments(s, d)[k] == split_spec(s, d)[k],
        transform_spec(s, d) == transformed_segments(s, d).flatten(),
{
}

/// Inside segments receive exactly the substitutions of `escape_seg`: the
/// odd-index segments of the transformed sequence are the substituted
/// forms of the corresponding input segments.
pub proof fn lemma_inside_segments_substituted(s: Seq<char>, d: Seq<char>, k: int)
    requires
        0 <= k < split_spec(s, d).len(),
        k % 2 == 1,
    ensures
        transformed_segments(s, d).len() == split_spec(s, d).len(),
        transformed_segments(s, d)[k] == escape_seg(split_spec(s, d)[k]),
        transform_spec(s, d) == transformed_segments(s, d).flatten(),
{
}

/// Character-for-character equality of two strings.
fn str_eq(a: &str, b: &str) -> (r: bool)
    ensures
        r == (a@ == b@),
{
    let an = a.unicode_len();
    let bn = b.unicode_len();
    if an != bn {
        return false;
    }
    let mut i: usize = 0;
    while i < an
        invariant
            i <= an,
            an == a@.len(),
            an == b@.len(),
            forall|k: int| 0 <= k < i ==> a@[k] == b@[k],
        decreases an - i,
    {
        if a.get_char(i) != b.get_char(i) {
            return false;
        }
        i = i + 1;
    }
    proof {
        assert(a@ =~= b@);
    }
    true
}

} // verus!
