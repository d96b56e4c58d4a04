//! The permalinks of the content files, by which relative links are resolved.

use vstd::prelude::*;

use crate::text::same_text;

verus! {

/// The permalinks of content files by the files' paths. No path occurs twice.
#[derive(Debug)]
pub struct Permalinks {
    pub entries: Vec<(String, String)>,
}

/// Whether a path occurs among the entries.
pub open spec fn has_key(entries: Seq<(String, String)>, key: Seq<char>) -> bool {
    exists|i: int| 0 <= i < entries.len() && #[trigger] entries[i].0@ == key
}

/// Where a path occurs among the entries.
pub open spec fn key_index(entries: Seq<(String, String)>, key: Seq<char>) -> int {
    choose|i: int| 0 <= i < entries.len() && #[trigger] entries[i].0@ == key
}

/// Whether no path occurs twice.
pub open spec fn distinct_keys(entries: Seq<(String, String)>) -> bool {
    forall|i: int, j: int|
        0 <= i < j < entries.len() ==> #[trigger] entries[i].0@ != #[trigger] entries[j].0@
}

impl View for Permalinks {
    type V = Map<Seq<char>, Seq<char>>;

    open spec fn view(&self) -> Map<Seq<char>, Seq<char>> {
        Map::new(
            |key: Seq<char>| has_key(self.entries@, key),
            |key: Seq<char>| self.entries@[key_index(self.entries@, key)].1@,
        )
    }
}

impl Permalinks {
    /// Whether no path occurs twice.
    pub open spec fn well_formed(&self) -> bool {
        distinct_keys(self.entries@)
    }

    /// No permalinks.
    pub fn new() -> (links: Permalinks)
        ensures
            links@ == Map::<Seq<char>, Seq<char>>::empty(),
            links.well_formed(),
    {
        let links = Permalinks { entries: Vec::new() };
        assert(links@ == Map::<Seq<char>, Seq<char>>::empty());
        links
    }

    fn find(&self, key: &str) -> (found: Option<usize>)
        ensures
            found is Some <==> self@.contains_key(key@),
            found matches Some(i) ==> i < self.entries.len() && self.entries@[i as int].0@ == key@,
    {
        for i in 0..self.entries.len()
            invariant
                forall|j: int| 0 <= j < i ==> #[trigger] self.entries@[j].0@ != key@,
        {
            if same_text(&self.entries[i].0, key) {
                assert(self.entries@[i as int].0@ == key@);
                return Some(i);
            }
        }
        None
    }

    /// Sets the permalink of a path.
    pub fn insert(&mut self, key: String, link: String)
        requires
            old(self).well_formed(),
        ensures
            final(self)@ == old(self)@.insert(key@, link@),
            final(self).well_formed(),
    {
        let ghost before = self.entries@;
        let ghost held = self@;
        match self.find(&key) {
            Some(i) => {
                let ghost at = i as int;
                self.entries[i].1 = link;
                proof {
                    let now = self.entries@;
                    assert forall|j: int| 0 <= j < now.len() implies (#[trigger] now[j]).0
                        == before[j].0 && (j != at ==> now[j] == before[j]) by {}
                    assert(now[at].0@ == key@);
                    assert forall|k: Seq<char>| #[trigger] has_key(now, k) == has_key(before, k) by {
                        if has_key(now, k) {
                            assert(before[key_index(now, k)].0@ == k);
                        }
                        if has_key(before, k) {
                            assert(now[key_index(before, k)].0@ == k);
                        }
                    }
                    assert forall|k: Seq<char>| #[trigger] has_key(now, k) implies key_index(now, k)
                        == key_index(before, k) by {
                        let x = key_index(now, k);
                        let y = key_index(before, k);
                        assert(now[x].0@ == k && before[y].0@ == k);
                        assert(before[x].0@ == k);
                    }
                    assert(key_index(now, key@) == at) by {
                        let x = key_index(now, key@);
                        assert(now[x].0@ == key@);
                    }
                    assert forall|k: Seq<char>| has_key(now, k) && k != key@ implies now[key_index(
                        now,
                        k,
                    )] == before[key_index(before, k)] by {
                        assert(now[key_index(now, k)].0@ == k);
                    }
                    assert(self@ =~= held.insert(key@, link@));
                }
            },
            None => {
                let ghost pair = (key, link);
                self.entries.push((key, link));
                proof {
                    let now = self.entries@;
                    assert(now == before.push(pair));
                    assert(!has_key(before, key@));
                    assert(now[before.len() as int].0@ == key@);
                    assert forall|k: Seq<char>| #[trigger] has_key(now, k) == (has_key(before, k) || k
                        == key@) by {
                        if has_key(before, k) {
                            assert(now[key_index(before, k)].0@ == k);
                        }
                        if has_key(now, k) && k != key@ {
                            assert(before[key_index(now, k)].0@ == k);
                        }
                    }
                    assert forall|i: int, j: int| 0 <= i < j < now.len() implies #[trigger] now[i].0@
                        != #[trigger] now[j].0@ by {
                        if j == before.len() {
                            assert(before[i].0@ != key@);
                        }
                    }
                    assert forall|k: Seq<char>| has_key(before, k) implies now[key_index(now, k)]
                        == before[key_index(before, k)] by {
                        assert(has_key(now, k));
                        let x = key_index(now, k);
                        let y = key_index(before, k);
                        assert(now[x].0@ == k && now[y].0@ == k);
                    }
                    assert(key_index(now, key@) == before.len()) by {
                        let x = key_index(now, key@);
                        assert(now[x].0@ == key@);
                    }
                    assert(self@ =~= held.insert(key@, link@));
                }
            },
        }
    }

    /// The permalink of a path.
    pub fn get(&self, key: &str) -> (link: Option<String>)
        requires
            self.well_formed(),
        ensures
            link is Some <==> self@.contains_key(key@),
            link matches Some(text) ==> text@ == self@[key@],
    {
        match self.find(key) {
            Some(i) => {
                proof {
                    let x = key_index(self.entries@, key@);
                    assert(self.entries@[x].0@ == key@);
                    assert(self.entries@[i as int].0@ == key@);
                }
                Some(self.entries[i].1.clone())
            },
            None => None,
        }
    }
}

} // verus!
