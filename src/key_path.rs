//! Splitting a key path such as `prefix:outer.inner` into its parts.
use vstd::prelude::*;
use crate::text::{fragments, lemma_fragments_nonempty, split_on, views};

verus! {

/// The characters that separate the parts of a key path.
pub open spec fn path_separators() -> Seq<char> {
    seq![':', '.']
}

/// A key path: the prefix that names a document, then the keys to follow in it.
pub struct PathSpec {
    pub prefix: String,
    pub segments: Vec<String>,
}

/// Splits `token` at every `:` and `.`; the first fragment is the prefix and
/// the others, in order, are the segments.
pub fn parse(token: &str) -> (r: PathSpec)
    ensures
        r.prefix@ == fragments(token@, path_separators())[0],
        views(r.segments@) == fragments(token@, path_separators()).drop_first(),
{
    let seps: Vec<char> = vec![':', '.'];
    assert(seps@ =~= path_separators());
    let parts = split_on(token, &seps);
    proof {
        lemma_fragments_nonempty(token@, seps@);
    }
    let ghost all = views(parts@);
    let mut segments: Vec<String> = Vec::new();
    let mut i: usize = 1;
    while i < parts.len()
        invariant
            1 <= i <= parts@.len(),
            all == views(parts@),
            views(segments@) =~= all.subrange(1, i as int),
        decreases parts@.len() - i,
    {
        let ghost before = segments@;
        segments.push(parts[i].clone());
        assert(views(segments@) =~= views(before).push(all[i as int]));
        i = i + 1;
    }
    assert(views(segments@) =~= all.drop_first());
    PathSpec { prefix: parts[0].clone(), segments }
}

} // verus!
