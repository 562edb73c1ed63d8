//! Splitting a file name into its dot-separated segments.
use vstd::prelude::*;
use vstd::string::*;

verus! {

/// The segments of `s` between the dots, read left to right: the empty text
/// has one empty segment, a dot closes the last segment and opens a new one,
/// any other character extends the last segment.
pub open spec fn split_spec(s: Seq<char>) -> Seq<Seq<char>>
    decreases s.len(),
{
    if s.len() == 0 {
        seq![Seq::<char>::empty()]
    } else {
        let prev = split_spec(s.drop_last());
        if s.last() == '.' {
            prev.push(Seq::<char>::empty())
        } else {
            prev.update(prev.len() - 1, prev.last().push(s.last()))
        }
    }
}

/// Every text has at least one segment.
pub proof fn lemma_split_nonempty(s: Seq<char>)
    ensures
        split_spec(s).len() >= 1,
    decreases s.len(),
{
    if s.len() > 0 {
        lemma_split_nonempty(s.drop_last());
    }
}

/// The views of a vector of strings.
pub open spec fn views(v: Seq<String>) -> Seq<Seq<char>> {
    v.map_values(|x: String| x@)
}

/// Splits `name` on every `.`, keeping empty segments.
pub fn split_segments(name: &str) -> (r: Vec<String>)
    ensures
        views(r@) == split_spec(name@),
{
    let n = name.unicode_len();
    let mut segs: Vec<String> = Vec::new();
    let mut start: usize = 0;
    let mut i: usize = 0;
    proof {
        assert(name@.subrange(0, 0) =~= Seq::<char>::empty());
        assert(views(segs@) =~= Seq::<Seq<char>>::empty());
        assert(views(segs@).push(name@.subrange(0, 0)) =~= split_spec(name@.subrange(0, 0)));
    }
    while i < n
        invariant
            n == name@.len(),
            start <= i <= n,
            views(segs@).push(name@.subrange(start as int, i as int)) == split_spec(
                name@.subrange(0, i as int),
            ),
        decreases n - i,
    {
        let c = name.get_char(i);
        proof {
            lemma_split_nonempty(name@.subrange(0, i as int));
            assert(name@.subrange(0, i as int + 1).drop_last() =~= name@.subrange(0, i as int));
        }
        if c == '.' {
            let piece = name.substring_char(start, i);
            let ghost old_segs = segs@;
            segs.push(piece.to_string());
            proof {
                assert(views(segs@) =~= views(old_segs).push(piece@));
                assert(name@.subrange(i as int + 1, i as int + 1) =~= Seq::<char>::empty());
            }
            start = i + 1;
        } else {
            proof {
                assert(name@.subrange(start as int, i as int + 1) =~= name@.subrange(
                    start as int,
                    i as int,
                ).push(c));
                let prev = split_spec(name@.subrange(0, i as int));
                assert(prev.update(prev.len() - 1, prev.last().push(c)) =~= views(segs@).push(
                    name@.subrange(start as int, i as int + 1),
                ));
            }
        }
        i = i + 1;
    }
    let last = name.substring_char(start, n);
    let ghost old_segs = segs@;
    segs.push(last.to_string());
    proof {
        assert(views(segs@) =~= views(old_segs).push(last@));
        assert(name@.subrange(0, n as int) =~= name@);
    }
    segs
}

} // verus!
