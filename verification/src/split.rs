//! The escaped-delimiter splitter: cuts a string into consecutive segments,
//! each keeping its trailing delimiter, while a delimiter immediately
//! preceded by a backslash is treated as escaped and never ends a segment.

use vstd::prelude::*;

verus! {

/// True when `pre` is a prefix of `s`.
pub open spec fn starts_with(s: Seq<char>, pre: Seq<char>) -> bool {
    pre.len() <= s.len() && s.subrange(0, pre.len() as int) == pre
}

/// True when `suf` is a suffix of `s`.
pub open spec fn ends_with(s: Seq<char>, suf: Seq<char>) -> bool {
    suf.len() <= s.len() && s.subrange(s.len() - suf.len(), s.len() as int) == suf
}

/// An escaped delimiter: a backslash immediately followed by the delimiter.
pub open spec fn escape_suffix(d: Seq<char>) -> Seq<char> {
    seq!['\\'].add(d)
}

/// Prepends the character `c` to the first segment of `segs`, or makes a
/// new single-character segment when there is none.
pub open spec fn prepend_first(c: char, segs: Seq<Seq<char>>) -> Seq<Seq<char>> {
    if segs.len() == 0 {
        seq![seq![c]]
    } else {
        seq![seq![c].add(segs[0])].add(segs.skip(1))
    }
}

/// The delimiter-inclusive split: `s` is cut after every occurrence of `d`,
/// each segment keeping the delimiter as its trailing suffix; the final
/// segment may be an unterminated remainder. An empty input yields no
/// segments.
pub open spec fn raw_split(s: Seq<char>, d: Seq<char>) -> Seq<Seq<char>>
    decreases s.len(),
{
    if s.len() == 0 {
        seq![]
    } else if 1 <= d.len() && starts_with(s, d) {
        seq![d].add(raw_split(s.skip(d.len() as int), d))
    } else {
        prepend_first(s[0], raw_split(s.skip(1), d))
    }
}

/// Merging of escaped delimiters: while the accumulated first segment ends
/// with a backslash immediately followed by the delimiter, that delimiter
/// occurrence is no real boundary, so the next segment is appended to it.
pub open spec fn merge_escaped(segs: Seq<Seq<char>>, d: Seq<char>) -> Seq<Seq<char>>
    decreases segs.len(),
{
    if segs.len() == 0 {
        seq![]
    } else if segs.len() == 1 {
        seq![segs[0]]
    } else if ends_with(segs[0], escape_suffix(d)) {
        merge_escaped(seq![segs[0].add(segs[1])].add(segs.skip(2)), d)
    } else {
        seq![segs[0]].add(merge_escaped(segs.skip(1), d))
    }
}

/// The escape-aware splitter: the raw delimiter-inclusive split with
/// escaped delimiters merged away.
pub open spec fn split_spec(s: Seq<char>, d: Seq<char>) -> Seq<Seq<char>> {
    merge_escaped(raw_split(s, d), d)
}

/// The views of a sequence of owned strings.
pub open spec fn seg_views(v: Seq<String>) -> Seq<Seq<char>> {
    v.map_values(|t: String| t@)
}

/// Pending text `p` (not yet closed by a delimiter) prepended to the first
/// of the segments `segs`.
pub open spec fn prepend_seg(p: Seq<char>, segs: Seq<Seq<char>>) -> Seq<Seq<char>> {
    if segs.len() == 0 {
        if p.len() == 0 {
            seq![]
        } else {
            seq![p]
        }
    } else {
        seq![p.add(segs[0])].add(segs.skip(1))
    }
}

/// Reports whether `d` occurs in `s` at character position `i`.
fn delim_at(s: &str, d: &str, i: usize, n: usize, dl: usize) -> (r: bool)
    requires
        n == s@.len(),
        dl == d@.len(),
        1 <= dl,
        i <= n,
    ensures
        r == starts_with(s@.skip(i as int), d@),
{
    if dl > n - i {
        return false;
    }
    let mut j: usize = 0;
    while j < dl
        invariant
            j <= dl,
            dl <= n - i,
            i <= n,
            n == s@.len(),
            dl == d@.len(),
            forall|k: int| 0 <= k < j ==> s@[i + k] == d@[k],
        decreases dl - j,
    {
        if s.get_char(i + j) != d.get_char(j) {
            proof {
                assert(s@.skip(i as int).subrange(0, dl as int)[j as int] == s@[i + j]);
            }
            return false;
        }
        j = j + 1;
    }
    proof {
        assert(s@.skip(i as int).subrange(0, dl as int) =~= d@);
    }
    true
}

proof fn lemma_prepend_seg_push(p: Seq<char>, c: char, segs: Seq<Seq<char>>)
    ensures
        prepend_seg(p, prepend_first(c, segs)) == prepend_seg(p.push(c), segs),
{
    if segs.len() == 0 {
        assert(p.add(seq![c]) =~= p.push(c));
        assert(prepend_seg(p, prepend_first(c, segs)) =~~= prepend_seg(p.push(c), segs));
    } else {
        assert(p.add(seq![c].add(segs[0])) =~= p.push(c).add(segs[0]));
        assert(seq![seq![c].add(segs[0])].add(segs.skip(1)).skip(1) =~~= segs.skip(1));
        assert(prepend_seg(p, prepend_first(c, segs)) =~~= prepend_seg(p.push(c), segs));
    }
}

/// Splits `string` after every occurrence of `delimiter`, keeping the
/// delimiter at the end of each segment; no merging of escapes.
fn raw_split_exec(string: &str, delimiter: &str) -> (r: Vec<String>)
    requires
        1 <= delimiter@.len(),
    ensures
        seg_views(r@) == raw_split(string@, delimiter@),
{
    let n = string.unicode_len();
    let dl = delimiter.unicode_len();
    let mut result: Vec<String> = Vec::new();
    let mut start: usize = 0;
    let mut i: usize = 0;
    proof {
        assert(string@.skip(0) =~= string@);
        assert(string@.subrange(0, 0).len() == 0);
        assert(seg_views(result@) =~~= Seq::<Seq<char>>::empty());
        let whole = raw_split(string@, delimiter@);
        if whole.len() == 0 {
            assert(prepend_seg(string@.subrange(0, 0), whole) =~~= whole);
        } else {
            assert(string@.subrange(0, 0).add(whole[0]) =~= whole[0]);
            assert(prepend_seg(string@.subrange(0, 0), whole) =~~= whole);
        }
        assert(Seq::<Seq<char>>::empty().add(whole) =~~= whole);
    }
    while i < n
        invariant
            start <= i <= n,
            n == string@.len(),
            dl == delimiter@.len(),
            1 <= dl,
            raw_split(string@, delimiter@) == seg_views(result@).add(
                prepend_seg(
                    string@.subrange(start as int, i as int),
                    raw_split(string@.skip(i as int), delimiter@),
                ),
            ),
        decreases n - i,
    {
        let ghost pending = string@.subrange(start as int, i as int);
        let ghost rest = string@.skip(i as int);
        if delim_at(string, delimiter, i, n, dl) {
            let seg = string.substring_char(start, i + dl);
            result.push(String::from_str(seg));
            proof {
                // The delimiter occurrence closes the pending segment.
                assert(rest.subrange(0, dl as int) =~= string@.subrange(i as int, (i + dl) as int));
                assert(rest.skip(dl as int) =~= string@.skip((i + dl) as int));
                assert(raw_split(rest, delimiter@) == seq![delimiter@].add(
                    raw_split(string@.skip((i + dl) as int), delimiter@),
                ));
                let tail = raw_split(string@.skip((i + dl) as int), delimiter@);
                assert(pending.add(delimiter@) =~= string@.subrange(start as int, (i + dl) as int));
                assert(prepend_seg(pending, seq![delimiter@].add(tail)) =~~= seq![
                    string@.subrange(start as int, (i + dl) as int),
                ].add(tail));
                assert(string@.subrange((i + dl) as int, (i + dl) as int) =~= Seq::<char>::empty());
                if tail.len() == 0 {
                    assert(prepend_seg(Seq::<char>::empty(), tail) =~~= tail);
                } else {
                    assert(Seq::<char>::empty().add(tail[0]) =~= tail[0]);
                    assert(prepend_seg(Seq::<char>::empty(), tail) =~~= tail);
                }
                assert(seg_views(result@) =~~= seg_views(result@.drop_last()).push(
                    string@.subrange(start as int, (i + dl) as int),
                ));
                assert(raw_split(string@, delimiter@) =~~= seg_views(result@).add(
                    prepend_seg(
                        string@.subrange((i + dl) as int, (i + dl) as int),
                        raw_split(string@.skip((i + dl) as int), delimiter@),
                    ),
                ));
            }
            i = i + dl;
            start = i;
        } else {
            proof {
                assert(rest[0] == string@[i as int]);
                assert(rest.skip(1) =~= string@.skip(i + 1));
                assert(raw_split(rest, delimiter@) == prepend_first(
                    string@[i as int],
                    raw_split(string@.skip(i + 1), delimiter@),
                ));
                lemma_prepend_seg_push(
                    pending,
                    string@[i as int],
                    raw_split(string@.skip(i + 1), delimiter@),
                );
                assert(pending.push(string@[i as int]) =~= string@.subrange(
                    start as int,
                    i + 1,
                ));
            }
            i = i + 1;
        }
    }
    if start < n {
        let seg = string.substring_char(start, n);
        result.push(String::from_str(seg));
        proof {
            assert(string@.skip(n as int).len() == 0);
            assert(seg_views(result@) =~~= seg_views(result@.drop_last()).push(
                string@.subrange(start as int, n as int),
            ));
            assert(raw_split(string@, delimiter@) =~~= seg_views(result@));
        }
    } else {
        proof {
            assert(string@.skip(n as int).len() == 0);
            assert(string@.subrange(start as int, n as int).len() == 0);
            assert(raw_split(string@, delimiter@) =~~= seg_views(result@));
        }
    }
    result
}

/// Reports whether `s` ends with a backslash immediately followed by `d`.
fn ends_with_escape(s: &String, d: &str, dl: usize) -> (r: bool)
    requires
        dl == d@.len(),
        1 <= dl,
    ensures
        r == ends_with(s@, escape_suffix(d@)),
{
    let sl = s.as_str().unicode_len();
    if sl <= dl {
        return false;
    }
    if s.as_str().get_char(sl - dl - 1) != '\\' {
        proof {
            assert(s@.subrange(s@.len() - (dl + 1), s@.len() as int)[0] == s@[sl - dl - 1]);
        }
        return false;
    }
    let mut j: usize = 0;
    while j < dl
        invariant
            j <= dl,
            dl < sl,
            sl == s@.len(),
            dl == d@.len(),
            s@[sl - dl - 1] == '\\',
            forall|k: int| 0 <= k < j ==> s@[sl - dl + k] == d@[k],
        decreases dl - j,
    {
        if s.as_str().get_char(sl - dl + j) != d.get_char(j) {
            proof {
                assert(s@.subrange(s@.len() - (dl + 1), s@.len() as int)[j + 1] == s@[sl - dl + j]);
            }
            return false;
        }
        j = j + 1;
    }
    proof {
        assert(s@.subrange(s@.len() - (dl + 1), s@.len() as int) =~= escape_suffix(d@));
    }
    true
}

/// Merges raw segments across escaped delimiters, as `merge_escaped` does.
fn merge_exec(raw: Vec<String>, delimiter: &str) -> (r: Vec<String>)
    requires
        1 <= delimiter@.len(),
    ensures
        seg_views(r@) == merge_escaped(seg_views(raw@), delimiter@),
{
    let dl = delimiter.unicode_len();
    let m = raw.len();
    let mut result: Vec<String> = Vec::new();
    let mut j: usize = 0;
    proof {
        assert(seg_views(raw@).skip(0) =~~= seg_views(raw@));
        assert(seg_views(result@) =~~= Seq::<Seq<char>>::empty());
        assert(Seq::<Seq<char>>::empty().add(merge_escaped(seg_views(raw@), delimiter@)) =~~=
            merge_escaped(seg_views(raw@), delimiter@));
    }
    while j < m
        invariant
            j <= m,
            m == raw@.len(),
            dl == delimiter@.len(),
            1 <= dl,
            merge_escaped(seg_views(raw@), delimiter@) == seg_views(result@).add(
                merge_escaped(seg_views(raw@).skip(j as int), delimiter@),
            ),
        decreases m - j,
    {
        let mut acc: String = raw[j].clone();
        proof {
            assert(seq![acc@].add(seg_views(raw@).skip(j + 1)) =~~= seg_views(raw@).skip(j as int));
        }
        j = j + 1;
        let ghost j_entry = j;
        while j < m && ends_with_escape(&acc, delimiter, dl)
            invariant
                j_entry <= j <= m,
                m == raw@.len(),
                dl == delimiter@.len(),
                1 <= dl,
                merge_escaped(seg_views(raw@), delimiter@) == seg_views(result@).add(
                    merge_escaped(seq![acc@].add(seg_views(raw@).skip(j as int)), delimiter@),
                ),
            decreases m - j,
        {
            let ghost before = seq![acc@].add(seg_views(raw@).skip(j as int));
            acc.append(raw[j].as_str());
            proof {
                assert(before.len() >= 2);
                assert(before[1] == seg_views(raw@)[j as int]);
                assert(seq![acc@].add(seg_views(raw@).skip(j + 1)) =~~= seq![
                    before[0].add(before[1]),
                ].add(before.skip(2)));
            }
            j = j + 1;
        }
        let ghost segs = seq![acc@].add(seg_views(raw@).skip(j as int));
        proof {
            if j < m {
                assert(!ends_with(segs[0], escape_suffix(delimiter@)));
                assert(segs.len() >= 2);
                assert(segs.skip(1) =~~= seg_views(raw@).skip(j as int));
                assert(merge_escaped(segs, delimiter@) == seq![acc@].add(
                    merge_escaped(seg_views(raw@).skip(j as int), delimiter@),
                ));
            } else {
                assert(segs.len() == 1);
                assert(merge_escaped(segs, delimiter@) == seq![acc@]);
                assert(seg_views(raw@).skip(j as int).len() == 0);
                assert(merge_escaped(seg_views(raw@).skip(j as int), delimiter@) =~~= Seq::<
                    Seq<char>,
                >::empty());
            }
        }
        let ghost old_views = seg_views(result@);
        result.push(acc);
        proof {
            assert(seg_views(result@) =~~= old_views.push(acc@));
            assert(old_views.push(acc@) =~~= old_views.add(seq![acc@]));
        }
    }
    proof {
        assert(seg_views(raw@).skip(m as int).len() == 0);
        assert(merge_escaped(seg_views(raw@).skip(m as int), delimiter@) =~~= Seq::<
            Seq<char>,
        >::empty());
        assert(seg_views(result@).add(Seq::<Seq<char>>::empty()) =~~= seg_views(result@));
    }
    result
}

proof fn lemma_prepend_first_flatten(c: char, segs: Seq<Seq<char>>)
    ensures
        prepend_first(c, segs).flatten() == seq![c].add(segs.flatten()),
{
    if segs.len() == 0 {
        assert(seq![seq![c]].drop_first() =~~= Seq::<Seq<char>>::empty());
        assert(seq![seq![c]].flatten() == seq![c].add(Seq::<Seq<char>>::empty().flatten()));
        assert(seq![c].add(Seq::<char>::empty()) =~= seq![c]);
        assert(seq![c].add(segs.flatten()) =~= seq![c]);
    } else {
        let ps = seq![seq![c].add(segs[0])].add(segs.skip(1));
        assert(ps.drop_first() =~~= segs.skip(1));
        assert(ps.flatten() == seq![c].add(segs[0]).add(segs.skip(1).flatten()));
        assert(segs.drop_first() =~~= segs.skip(1));
        assert(segs.flatten() == segs[0].add(segs.skip(1).flatten()));
        assert(seq![c].add(segs[0]).add(segs.skip(1).flatten()) =~= seq![c].add(
            segs[0].add(segs.skip(1).flatten()),
        ));
    }
}

proof fn lemma_raw_split_flatten(s: Seq<char>, d: Seq<char>)
    requires
        1 <= d.len(),
    ensures
        raw_split(s, d).flatten() == s,
    decreases s.len(),
{
    if s.len() == 0 {
        assert(raw_split(s, d).flatten() =~= s);
    } else if starts_with(s, d) {
        lemma_raw_split_flatten(s.skip(d.len() as int), d);
        let tail = raw_split(s.skip(d.len() as int), d);
        let whole = seq![d].add(tail);
        assert(whole.drop_first() =~~= tail);
        assert(whole.flatten() == d.add(tail.flatten()));
        assert(d.add(s.skip(d.len() as int)) =~= s);
    } else {
        lemma_raw_split_flatten(s.skip(1), d);
        lemma_prepend_first_flatten(s[0], raw_split(s.skip(1), d));
        assert(seq![s[0]].add(s.skip(1)) =~= s);
    }
}

proof fn lemma_merge_flatten(segs: Seq<Seq<char>>, d: Seq<char>)
    ensures
        merge_escaped(segs, d).flatten() == segs.flatten(),
    decreases segs.len(),
{
    if segs.len() == 0 {
    } else if segs.len() == 1 {
        assert(seq![segs[0]] =~~= segs);
    } else if ends_with(segs[0], escape_suffix(d)) {
        let merged = seq![segs[0].add(segs[1])].add(segs.skip(2));
        lemma_merge_flatten(merged, d);
        assert(merged.drop_first() =~~= segs.skip(2));
        assert(merged.flatten() == segs[0].add(segs[1]).add(segs.skip(2).flatten()));
        assert(segs.drop_first() =~~= segs.skip(1));
        assert(segs.flatten() == segs[0].add(segs.skip(1).flatten()));
        assert(segs.skip(1).drop_first() =~~= segs.skip(2));
        assert(segs.skip(1).flatten() == segs[1].add(segs.skip(2).flatten()));
        assert(segs[0].add(segs[1]).add(segs.skip(2).flatten()) =~= segs[0].add(
            segs[1].add(segs.skip(2).flatten()),
        ));
    } else {
        lemma_merge_flatten(segs.skip(1), d);
        let rest = merge_escaped(segs.skip(1), d);
        assert(seq![segs[0]].add(rest).drop_first() =~~= rest);
        assert(seq![segs[0]].add(rest).flatten() == segs[0].add(rest.flatten()));
        assert(segs.drop_first() =~~= segs.skip(1));
        assert(segs.flatten() == segs[0].add(segs.skip(1).flatten()));
    }
}

/// Coverage: the splitter loses and invents nothing. Concatenating the
/// segments of `split_spec(s, d)` reproduces `s` exactly.
pub proof fn lemma_split_round_trip(s: Seq<char>, d: Seq<char>)
    requires
        1 <= d.len(),
    ensures
        split_spec(s, d).flatten() == s,
{
    lemma_raw_split_flatten(s, d);
    lemma_merge_flatten(raw_split(s, d), d);
}

proof fn lemma_ends_with_after_add(a: Seq<char>, b: Seq<char>, suf: Seq<char>)
    requires
        ends_with(b, suf),
    ensures
        ends_with(a.add(b), suf),
{
    assert(a.add(b).subrange(a.len() + b.len() - suf.len(), (a.len() + b.len()) as int) =~= b.subrange(
        b.len() - suf.len(),
        b.len() as int,
    ));
}

proof fn lemma_raw_split_segment_ends(s: Seq<char>, d: Seq<char>)
    requires
        1 <= d.len(),
    ensures
        forall|k: int|
            0 <= k < raw_split(s, d).len() - 1 ==> ends_with(#[trigger] raw_split(s, d)[k], d),
    decreases s.len(),
{
    if s.len() == 0 {
    } else if starts_with(s, d) {
        lemma_raw_split_segment_ends(s.skip(d.len() as int), d);
        let tail = raw_split(s.skip(d.len() as int), d);
        let whole = seq![d].add(tail);
        assert forall|k: int| 0 <= k < whole.len() - 1 implies ends_with(#[trigger] whole[k], d) by {
            if k == 0 {
                assert(d.subrange(d.len() - d.len(), d.len() as int) =~= d);
            } else {
                assert(whole[k] == tail[k - 1]);
            }
        }
    } else {
        lemma_raw_split_segment_ends(s.skip(1), d);
        let sub = raw_split(s.skip(1), d);
        if sub.len() > 0 {
            let whole = prepend_first(s[0], sub);
            assert forall|k: int| 0 <= k < whole.len() - 1 implies ends_with(
                #[trigger] whole[k],
                d,
            ) by {
                if k == 0 {
                    assert(ends_with(sub[0], d));
                    lemma_ends_with_after_add(seq![s[0]], sub[0], d);
                } else {
                    assert(whole[k] == sub[k]);
                }
            }
        }
    }
}

proof fn lemma_merge_segment_ends(segs: Seq<Seq<char>>, d: Seq<char>)
    requires
        1 <= d.len(),
        forall|k: int| 0 <= k < segs.len() - 1 ==> ends_with(#[trigger] segs[k], d),
    ensures
        forall|k: int|
            0 <= k < merge_escaped(segs, d).len() - 1 ==> ends_with(
                #[trigger] merge_escaped(segs, d)[k],
                d,
            ) && !ends_with(merge_escaped(segs, d)[k], escape_suffix(d)),
    decreases segs.len(),
{
    if segs.len() <= 1 {
    } else if ends_with(segs[0], escape_suffix(d)) {
        let merged = seq![segs[0].add(segs[1])].add(segs.skip(2));
        assert forall|k: int| 0 <= k < merged.len() - 1 implies ends_with(
            #[trigger] merged[k],
            d,
        ) by {
            if k == 0 {
                assert(ends_with(segs[1], d));
                lemma_ends_with_after_add(segs[0], segs[1], d);
            } else {
                assert(merged[k] == segs[k + 1]);
            }
        }
        lemma_merge_segment_ends(merged, d);
        assert forall|k: int| 0 <= k < merge_escaped(segs, d).len() - 1 implies ends_with(
            #[trigger] merge_escaped(segs, d)[k],
            d,
        ) && !ends_with(merge_escaped(segs, d)[k], escape_suffix(d)) by {
            assert(merge_escaped(segs, d)[k] == merge_escaped(merged, d)[k]);
        }
    } else {
        assert forall|k: int| 0 <= k < segs.skip(1).len() - 1 implies ends_with(
            #[trigger] segs.skip(1)[k],
            d,
        ) by {
            assert(segs.skip(1)[k] == segs[k + 1]);
        }
        lemma_merge_segment_ends(segs.skip(1), d);
        assert forall|k: int| 0 <= k < merge_escaped(segs, d).len() - 1 implies ends_with(
            #[trigger] merge_escaped(segs, d)[k],
            d,
        ) && !ends_with(merge_escaped(segs, d)[k], escape_suffix(d)) by {
            if k == 0 {
                assert(merge_escaped(segs, d)[0] == segs[0]);
                assert(ends_with(segs[0], d));
            } else {
                assert(merge_escaped(segs, d)[k] == merge_escaped(segs.skip(1), d)[k - 1]);
            }
        }
    }
}

/// Escape suppression: every segment other than the last ends with the
/// delimiter, and never with a backslash immediately before that trailing
/// delimiter. In particular a delimiter occurrence preceded by an odd run
/// of backslashes — so immediately preceded by a backslash — never ends a
/// segment.
pub proof fn lemma_escape_suppression(s: Seq<char>, d: Seq<char>, k: int)
    requires
        1 <= d.len(),
        0 <= k < split_spec(s, d).len() - 1,
    ensures
        ends_with(split_spec(s, d)[k], d),
        !ends_with(split_spec(s, d)[k], escape_suffix(d)),
{
    lemma_raw_split_segment_ends(s, d);
    lemma_merge_segment_ends(raw_split(s, d), d);
}

/// Splits `string` at every unescaped occurrence of `delimiter`, each
/// segment keeping its trailing delimiter. With `escape_backslash` set, a
/// delimiter immediately preceded by a backslash does not end a segment;
/// without it the raw delimiter-inclusive split is returned.
pub fn split_inclusive(string: &str, delimiter: &str, escape_backslash: bool) -> (r: Vec<String>)
    requires
        1 <= delimiter@.len(),
    ensures
        escape_backslash ==> seg_views(r@) == split_spec(string@, delimiter@),
        !escape_backslash ==> seg_views(r@) == raw_split(string@, delimiter@),
{
    let raw = raw_split_exec(string, delimiter);
    if escape_backslash {
        merge_exec(raw, delimiter)
    } else {
        raw
    }
}

} // verus!
