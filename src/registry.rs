//! The table from document prefixes to the locations of JSON documents.
use vstd::prelude::*;
use crate::text::{fragments, split_on, views};

verus! {

/// The `prefix:location` pairs named by the entries of a configuration, in
/// order; an entry that is not exactly two `:`-separated parts names none.
pub open spec fn pairs_of(entries: Seq<Seq<char>>) -> Seq<(Seq<char>, Seq<char>)>
    decreases entries.len(),
{
    if entries.len() == 0 {
        Seq::empty()
    } else {
        let prev = pairs_of(entries.drop_last());
        let parts = fragments(entries.last(), seq![':']);
        if parts.len() == 2 {
            prev.push((parts[0], parts[1]))
        } else {
            prev
        }
    }
}

/// The pairs named by a configuration string whose entries are separated by `,`.
pub open spec fn config_pairs(config: Seq<char>) -> Seq<(Seq<char>, Seq<char>)> {
    pairs_of(fragments(config, seq![',']))
}

/// The table built from `pairs`: a later pair for a prefix replaces an earlier one.
pub open spec fn table_of(pairs: Seq<(Seq<char>, Seq<char>)>) -> Map<Seq<char>, Seq<char>>
    decreases pairs.len(),
{
    if pairs.len() == 0 {
        Map::empty()
    } else {
        table_of(pairs.drop_last()).insert(pairs.last().0, pairs.last().1)
    }
}

/// The document registry: prefixes and the locations of their documents.
pub struct Config {
    pub files: Vec<(String, String)>,
}

impl Config {
    /// The registered pairs, in the order they were read.
    pub open spec fn pairs(&self) -> Seq<(Seq<char>, Seq<char>)> {
        self.files@.map_values(|e: (String, String)| (e.0@, e.1@))
    }

    pub open spec fn view(&self) -> Map<Seq<char>, Seq<char>> {
        table_of(self.pairs())
    }

    /// Builds the registry from `prefix:location` entries separated by `,`;
    /// malformed entries are skipped.
    pub fn from_config(config: &str) -> (r: Config)
        ensures
            r.pairs() == config_pairs(config@),
            r.view() == table_of(config_pairs(config@)),
    {
        let comma: Vec<char> = vec![','];
        let colon: Vec<char> = vec![':'];
        assert(comma@ =~= seq![',']);
        assert(colon@ =~= seq![':']);
        let entries = split_on(config, &comma);
        let ghost all = views(entries@);
        let mut files: Vec<(String, String)> = Vec::new();
        let mut i: usize = 0;
        while i < entries.len()
            invariant
                0 <= i <= entries@.len(),
                all == views(entries@),
                colon@ == seq![':'],
                files@.map_values(|e: (String, String)| (e.0@, e.1@)) == pairs_of(
                    all.subrange(0, i as int),
                ),
            decreases entries@.len() - i,
        {
            let parts = split_on(entries[i].as_str(), &colon);
            assert(all.subrange(0, i + 1).drop_last() =~= all.subrange(0, i as int));
            assert(all.subrange(0, i + 1).last() == entries@[i as int]@);
            if parts.len() == 2 {
                let ghost before = files@;
                files.push((parts[0].clone(), parts[1].clone()));
                assert(files@.map_values(|e: (String, String)| (e.0@, e.1@)) =~= before.map_values(
                    |e: (String, String)| (e.0@, e.1@),
                ).push((views(parts@)[0], views(parts@)[1])));
            }
            i = i + 1;
        }
        assert(all.subrange(0, entries@.len() as int) =~= all);
        Config { files }
    }

    /// The location registered for `prefix`, if any.
    pub fn location(&self, prefix: &String) -> (r: Option<String>)
        ensures
            match r {
                Some(l) => self@.contains_key(prefix@) && self@[prefix@] == l@,
                None => !self@.contains_key(prefix@),
            },
    {
        let ghost all = self.pairs();
        let mut i: usize = self.files.len();
        assert(all.subrange(0, i as int) =~= all);
        while i > 0
            invariant
                i <= self.files@.len(),
                all == self.pairs(),
                table_of(all).contains_key(prefix@) == table_of(all.subrange(0, i as int)).contains_key(prefix@),
                table_of(all).contains_key(prefix@) ==> table_of(all)[prefix@] == table_of(all.subrange(0, i as int))[prefix@],
            decreases i,
        {
            assert(all.subrange(0, i as int).drop_last() =~= all.subrange(0, i - 1));
            assert(all.subrange(0, i as int).last() == (self.files@[i - 1].0@, self.files@[i - 1].1@));
            if self.files[i - 1].0 == *prefix {
                return Some(self.files[i - 1].1.clone());
            }
            i = i - 1;
        }
        assert(all.subrange(0, 0) =~= Seq::<(Seq<char>, Seq<char>)>::empty());
        None
    }
}

} // verus!
