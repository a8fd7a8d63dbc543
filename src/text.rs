//! Splitting text at separator characters.
use vstd::prelude::*;

verus! {

/// The character views of a sequence of strings.
pub open spec fn views(v: Seq<String>) -> Seq<Seq<char>> {
    v.map_values(|s: String| s@)
}

/// The fragments of `s` between occurrences of any character of `seps`, in
/// order; `n` separators give `n + 1` fragments, some of which may be empty.
pub open spec fn fragments(s: Seq<char>, seps: Seq<char>) -> Seq<Seq<char>>
    decreases s.len(),
{
    if s.len() == 0 {
        seq![Seq::<char>::empty()]
    } else {
        let prev = fragments(s.drop_last(), seps);
        if seps.contains(s.last()) {
            prev.push(Seq::<char>::empty())
        } else {
            prev.update(prev.len() - 1, prev.last().push(s.last()))
        }
    }
}

/// There is always at least one fragment.
pub proof fn lemma_fragments_nonempty(s: Seq<char>, seps: Seq<char>)
    ensures
        fragments(s, seps).len() >= 1,
    decreases s.len(),
{
    if s.len() > 0 {
        lemma_fragments_nonempty(s.drop_last(), seps);
    }
}

/// Whether `c` is one of `seps`.
pub fn is_separator(c: char, seps: &Vec<char>) -> (r: bool)
    ensures
        r == seps@.contains(c),
{
    let mut i: usize = 0;
    while i < seps.len()
        invariant
            0 <= i <= seps@.len(),
            forall|j: int| 0 <= j < i ==> seps@[j] != c,
        decreases seps@.len() - i,
    {
        if seps[i] == c {
            return true;
        }
        i = i + 1;
    }
    false
}

/// Splits `s` at every character of `seps`.
pub fn split_on(s: &str, seps: &Vec<char>) -> (r: Vec<String>)
    ensures
        views(r@) == fragments(s@, seps@),
{
    let n = s.unicode_len();
    let mut parts: Vec<String> = Vec::new();
    let mut start: usize = 0;
    let mut i: usize = 0;
    assert(views(parts@) =~= Seq::<Seq<char>>::empty());
    assert(s@.subrange(0, 0) =~= Seq::<char>::empty());
    assert(views(parts@).push(s@.subrange(0, 0)) =~= fragments(s@.subrange(0, 0), seps@));
    while i < n
        invariant
            n == s@.len(),
            start <= i <= n,
            views(parts@).push(s@.subrange(start as int, i as int)) == fragments(
                s@.subrange(0, i as int),
                seps@,
            ),
        decreases n - i,
    {
        let c = s.get_char(i);
        let ghost before = parts@;
        assert(s@.subrange(0, i + 1).drop_last() =~= s@.subrange(0, i as int));
        assert(s@.subrange(0, i + 1).last() == c);
        if is_separator(c, seps) {
            let piece = String::from_str(s.substring_char(start, i));
            parts.push(piece);
            proof {
                assert(views(parts@) =~= views(before).push(piece@));
            }
            start = i + 1;
            assert(s@.subrange(start as int, i + 1) =~= Seq::<char>::empty());
            assert(views(parts@).push(s@.subrange(start as int, i + 1)) =~= fragments(
                s@.subrange(0, i + 1),
                seps@,
            ));
        } else {
            assert(s@.subrange(start as int, i + 1) =~= s@.subrange(start as int, i as int).push(c));
            assert(views(parts@).push(s@.subrange(start as int, i + 1)) =~= fragments(
                s@.subrange(0, i + 1),
                seps@,
            ));
        }
        i = i + 1;
    }
    parts.push(String::from_str(s.substring_char(start, n)));
    proof {
        assert(s@.subrange(0, n as int) == s@);
    }
    parts
}

} // verus!
