//! The substitution applied inside a math region: every backslash pair is
//! doubled and every underscore gains a leading backslash, in that fixed
//! order, so that the backslashes introduced for underscores are never
//! themselves doubled; all other characters are copied unchanged.

use vstd::prelude::*;

verus! {

/// The inside-region substitution on one segment: a left-to-right scan that
/// rewrites each backslash pair `\\` to `\\\\` and each underscore `_` to
/// `\_`, copying every other character verbatim.
pub open spec fn escape_seg(s: Seq<char>) -> Seq<char>
    decreases s.len(),
{
    if s.len() == 0 {
        seq![]
    } else if 2 <= s.len() && s[0] == '\\' && s[1] == '\\' {
        seq!['\\', '\\', '\\', '\\'].add(escape_seg(s.skip(2)))
    } else if s[0] == '_' {
        seq!['\\', '_'].add(escape_seg(s.skip(1)))
    } else {
        seq![s[0]].add(escape_seg(s.skip(1)))
    }
}

/// A run of `n` backslashes.
pub open spec fn backslash_run(n: nat) -> Seq<char> {
    Seq::new(n, |k: int| '\\')
}

/// Inside a region a maximal run of backslash pairs doubles in length:
/// `2 * n` backslashes followed by text that does not begin with another
/// backslash become `4 * n` backslashes followed by the substituted rest.
pub proof fn lemma_backslash_pairs_double(n: nat, rest: Seq<char>)
    requires
        rest.len() == 0 || rest[0] != '\\',
    ensures
        escape_seg(backslash_run(2 * n).add(rest)) == backslash_run(4 * n).add(escape_seg(rest)),
    decreases n,
{
    if n == 0 {
        assert(backslash_run(0).add(rest) =~= rest);
        assert(backslash_run(0).add(escape_seg(rest)) =~= escape_seg(rest));
    } else {
        let s = backslash_run(2 * n).add(rest);
        assert(s[0] == '\\' && s[1] == '\\');
        assert(s.skip(2) =~= backslash_run((2 * (n - 1)) as nat).add(rest));
        lemma_backslash_pairs_double((n - 1) as nat, rest);
        assert(seq!['\\', '\\', '\\', '\\'].add(
            backslash_run((4 * (n - 1)) as nat).add(escape_seg(rest)),
        ) =~= backslash_run(4 * n).add(escape_seg(rest)));
    }
}

/// An underscore becomes a backslash-underscore pair, whatever follows it.
pub proof fn lemma_underscore_escaped(rest: Seq<char>)
    ensures
        escape_seg(seq!['_'].add(rest)) == seq!['\\', '_'].add(escape_seg(rest)),
{
    let s = seq!['_'].add(rest);
    assert(s[0] == '_');
    assert(s.skip(1) =~= rest);
}

/// Every other character is copied unchanged: one that is no underscore
/// and does not begin a backslash pair.
pub proof fn lemma_other_char_unchanged(c: char, rest: Seq<char>)
    requires
        c != '_',
        c == '\\' ==> rest.len() == 0 || rest[0] != '\\',
    ensures
        escape_seg(seq![c].add(rest)) == seq![c].add(escape_seg(rest)),
{
    let s = seq![c].add(rest);
    assert(s[0] == c);
    assert(s.skip(1) =~= rest);
}

/// Applies the inside-region substitutions to one segment.
pub fn escape_segment(seg: &str) -> (r: String)
    ensures
        r@ == escape_seg(seg@),
{
    let n = seg.unicode_len();
    let mut out = String::new();
    let mut i: usize = 0;
    proof {
        reveal_strlit("\\\\\\\\");
        reveal_strlit("\\_");
        assert("\\\\\\\\"@ =~= seq!['\\', '\\', '\\', '\\']);
        assert("\\_"@ =~= seq!['\\', '_']);
        assert(seg@.skip(0) =~= seg@);
        assert(out@.add(escape_seg(seg@)) =~= escape_seg(seg@));
    }
    while i < n
        invariant
            i <= n,
            n == seg@.len(),
            "\\\\\\\\"@ == seq!['\\', '\\', '\\', '\\'],
            "\\_"@ == seq!['\\', '_'],
            escape_seg(seg@) == out@.add(escape_seg(seg@.skip(i as int))),
        decreases n - i,
    {
        let ghost rest = seg@.skip(i as int);
        let c = seg.get_char(i);
        if c == '\\' && i + 1 < n && seg.get_char(i + 1) == '\\' {
            out.append("\\\\\\\\");
            proof {
                assert(rest.skip(2) =~= seg@.skip(i + 2));
                assert(escape_seg(rest) == seq!['\\', '\\', '\\', '\\'].add(
                    escape_seg(seg@.skip(i + 2)),
                ));
                assert(out@.add(escape_seg(seg@.skip(i + 2))) =~= escape_seg(seg@));
            }
            i = i + 2;
        } else if c == '_' {
            out.append("\\_");
            proof {
                assert(rest.skip(1) =~= seg@.skip(i + 1));
                assert(escape_seg(rest) == seq!['\\', '_'].add(escape_seg(seg@.skip(i + 1))));
                assert(out@.add(escape_seg(seg@.skip(i + 1))) =~= escape_seg(seg@));
            }
            i = i + 1;
        } else {
            let cs = seg.substring_char(i, i + 1);
            out.append(cs);
            proof {
                assert(cs@ =~= seq![seg@[i as int]]);
                assert(rest.skip(1) =~= seg@.skip(i + 1));
                assert(escape_seg(rest) == seq![seg@[i as int]].add(escape_seg(seg@.skip(i + 1))));
                assert(out@.add(escape_seg(seg@.skip(i + 1))) =~= escape_seg(seg@));
            }
            i = i + 1;
        }
    }
    proof {
        assert(seg@.skip(n as int).len() == 0);
        assert(out@.add(escape_seg(seg@.skip(n as int))) =~= out@);
    }
    out
}

} // verus!
