//! One decoded line: a mapping from field name to a string value or to
//! the absent marker.

use crate::text::str_eq;
use vstd::prelude::*;

verus! {

/// The abstract value of one stored field value: a present string or
/// the absent marker.
pub open spec fn entry_val(v: Option<String>) -> Option<Seq<char>> {
    match v {
        Some(s) => Some(s@),
        None => None,
    }
}

/// The mapping an entry list stands for; a later entry for the same key
/// overrides an earlier one.
pub open spec fn map_of_entries(s: Seq<(String, Option<String>)>) -> Map<
    Seq<char>,
    Option<Seq<char>>,
>
    decreases s.len(),
{
    if s.len() == 0 {
        Map::empty()
    } else {
        map_of_entries(s.drop_last()).insert(s.last().0@, entry_val(s.last().1))
    }
}

/// No two entries share a key.
pub open spec fn unique_keys(s: Seq<(String, Option<String>)>) -> bool {
    forall|i: int, j: int| 0 <= i < j < s.len() ==> s[i].0@ != s[j].0@
}

/// A key is in the mapping exactly when some entry holds it.
pub proof fn lemma_map_of_contains(s: Seq<(String, Option<String>)>, k: Seq<char>)
    ensures
        map_of_entries(s).contains_key(k) <==> exists|i: int| 0 <= i < s.len() && s[i].0@ == k,
    decreases s.len(),
{
    if s.len() > 0 {
        lemma_map_of_contains(s.drop_last(), k);
        if s.last().0@ == k {
            assert(s[s.len() - 1].0@ == k);
        } else if map_of_entries(s).contains_key(k) {
            let i = choose|i: int| 0 <= i < s.drop_last().len() && s.drop_last()[i].0@ == k;
            assert(s[i].0@ == k);
        } else {
            assert(forall|i: int| 0 <= i < s.len() - 1 ==> s.drop_last()[i].0@ == s[i].0@);
        }
    }
}

/// With unique keys, each entry gives the key's value in the mapping.
pub proof fn lemma_map_of_at(s: Seq<(String, Option<String>)>, j: int)
    requires
        unique_keys(s),
        0 <= j < s.len(),
    ensures
        map_of_entries(s).contains_key(s[j].0@),
        map_of_entries(s)[s[j].0@] == entry_val(s[j].1),
    decreases s.len(),
{
    if j == s.len() - 1 {
        assert(s[j] == s.last());
    } else {
        assert(forall|i: int| 0 <= i < s.len() - 1 ==> s.drop_last()[i] == s[i]);
        lemma_map_of_at(s.drop_last(), j);
        assert(s[j].0@ != s.last().0@);
    }
}

/// With unique keys, removing an entry removes exactly its key.
pub proof fn lemma_map_of_remove(s: Seq<(String, Option<String>)>, j: int)
    requires
        unique_keys(s),
        0 <= j < s.len(),
    ensures
        map_of_entries(s.remove(j)) == map_of_entries(s).remove(s[j].0@),
    decreases s.len(),
{
    let k = s[j].0@;
    if j == s.len() - 1 {
        assert(s.remove(j) =~= s.drop_last());
        lemma_map_of_contains(s.drop_last(), k);
        assert(forall|i: int| 0 <= i < s.len() - 1 ==> s.drop_last()[i] == s[i]);
        assert(!map_of_entries(s.drop_last()).contains_key(k));
        assert(map_of_entries(s.drop_last()) =~= map_of_entries(s.drop_last()).insert(
            k,
            entry_val(s.last().1),
        ).remove(k));
    } else {
        assert(forall|i: int| 0 <= i < s.len() - 1 ==> s.drop_last()[i] == s[i]);
        lemma_map_of_remove(s.drop_last(), j);
        assert(s.remove(j).drop_last() =~= s.drop_last().remove(j));
        assert(s.remove(j).last() == s.last());
        assert(k != s.last().0@);
        assert(map_of_entries(s.remove(j)) == map_of_entries(s.drop_last()).remove(k).insert(
            s.last().0@,
            entry_val(s.last().1),
        ));
        assert(map_of_entries(s.drop_last()).remove(k).insert(s.last().0@, entry_val(s.last().1))
            =~= map_of_entries(s.drop_last()).insert(s.last().0@, entry_val(s.last().1)).remove(k));
    }
}

/// With unique keys, the mapping has exactly one key per entry.
pub proof fn lemma_map_of_dom_len(s: Seq<(String, Option<String>)>)
    requires
        unique_keys(s),
    ensures
        map_of_entries(s).dom().finite(),
        map_of_entries(s).dom().len() == s.len(),
    decreases s.len(),
{
    if s.len() == 0 {
        assert(map_of_entries(s).dom() =~= Set::<Seq<char>>::empty());
    } else {
        assert(forall|i: int| 0 <= i < s.len() - 1 ==> s.drop_last()[i] == s[i]);
        lemma_map_of_dom_len(s.drop_last());
        lemma_map_of_contains(s.drop_last(), s.last().0@);
        assert(!map_of_entries(s.drop_last()).contains_key(s.last().0@));
        assert(map_of_entries(s).dom() =~= map_of_entries(s.drop_last()).dom().insert(
            s.last().0@,
        ));
    }
}

/// One decoded line.  A `Record` maps each field name to a present
/// string or to the absent marker; inserting an existing key replaces
/// its value.
pub struct Record {
    entries: Vec<(String, Option<String>)>,
}

impl View for Record {
    type V = Map<Seq<char>, Option<Seq<char>>>;

    closed spec fn view(&self) -> Map<Seq<char>, Option<Seq<char>>> {
        map_of_entries(self.entries@)
    }
}

impl Record {
    /// The representation holds each key of the mapping exactly once.
    pub closed spec fn wf(&self) -> bool {
        unique_keys(self.entries@)
    }

    /// An empty record.
    pub fn new() -> (r: Record)
        ensures
            r.wf(),
            r@ == Map::<Seq<char>, Option<Seq<char>>>::empty(),
    {
        Record { entries: Vec::new() }
    }

    /// An empty record sized for an expected number of fields; the
    /// capacity is a hint only.
    pub fn with_capacity(capacity: usize) -> (r: Record)
        ensures
            r.wf(),
            r@ == Map::<Seq<char>, Option<Seq<char>>>::empty(),
    {
        Record { entries: Vec::with_capacity(capacity) }
    }

    /// Stores a field.  An empty value is stored as the absent marker;
    /// a key already present has its value replaced.
    pub fn insert(&mut self, key: &str, value: &str)
        requires
            old(self).wf(),
        ensures
            final(self).wf(),
            final(self)@ == old(self)@.insert(
                key@,
                if value@.len() == 0 {
                    None
                } else {
                    Some(value@)
                },
            ),
    {
        let stored: Option<String> = if value.unicode_len() == 0 {
            None
        } else {
            Some(value.to_owned())
        };
        let ghost stored_spec: Option<Seq<char>> = if value@.len() == 0 {
            None
        } else {
            Some(value@)
        };
        assert(entry_val(stored) == stored_spec);
        let n = self.entries.len();
        for j in 0..n
            invariant
                n == self.entries.len(),
                unique_keys(self.entries@),
                self.entries@ == old(self).entries@,
                entry_val(stored) == stored_spec,
                stored_spec == (if value@.len() == 0 {
                    None
                } else {
                    Some(value@)
                }),
                forall|i: int| 0 <= i < j ==> self.entries@[i].0@ != key@,
        {
            if str_eq(self.entries[j].0.as_str(), key) {
                proof {
                    lemma_map_of_remove(self.entries@, j as int);
                }
                let _removed = self.entries.remove(j);
                let owned = key.to_owned();
                self.entries.push((owned, stored));
                proof {
                    let e_old = old(self).entries@;
                    let e_new = self.entries@;
                    assert(e_new.drop_last() =~= e_old.remove(j as int));
                    assert(e_new.last().0@ == key@);
                    assert(e_new.last().1 == stored);
                    assert(map_of_entries(e_new) == map_of_entries(e_new.drop_last()).insert(
                        e_new.last().0@,
                        entry_val(e_new.last().1),
                    ));
                    assert(e_old[j as int].0@ == key@);
                    assert(map_of_entries(e_new.drop_last()) == map_of_entries(
                        e_old.remove(j as int),
                    ));
                    assert(map_of_entries(e_old.remove(j as int)) == map_of_entries(e_old).remove(
                        key@,
                    ));
                    assert(entry_val(e_new.last().1) == stored_spec);
                    assert(map_of_entries(e_new) == map_of_entries(e_old).remove(key@).insert(
                        key@,
                        stored_spec,
                    ));
                    assert(map_of_entries(self.entries@) =~= map_of_entries(
                        old(self).entries@,
                    ).insert(key@, stored_spec));
                    assert forall|a: int, b: int|
                        0 <= a < b < self.entries@.len() implies self.entries@[a].0@
                        != self.entries@[b].0@ by {
                        let e = old(self).entries@;
                        if b == self.entries@.len() - 1 {
                            if a < j {
                                assert(self.entries@[a] == e[a]);
                            } else {
                                assert(self.entries@[a] == e[a + 1]);
                            }
                        } else {
                            if a < j {
                                assert(self.entries@[a] == e[a]);
                            } else {
                                assert(self.entries@[a] == e[a + 1]);
                            }
                            if b < j {
                                assert(self.entries@[b] == e[b]);
                            } else {
                                assert(self.entries@[b] == e[b + 1]);
                            }
                        }
                    }
                }
                return ;
            }
        }
        proof {
            lemma_map_of_contains(self.entries@, key@);
            assert(!map_of_entries(self.entries@).contains_key(key@));
        }
        self.entries.push((key.to_owned(), stored));
        proof {
            assert(self.entries@.drop_last() =~= old(self).entries@);
            assert(forall|i: int|
                0 <= i < old(self).entries@.len() ==> self.entries@[i] == old(self).entries@[i]);
        }
    }

    /// Looks a field up: the stored value if the key is present,
    /// nothing otherwise.
    pub fn get(&self, key: &str) -> (r: Option<&Option<String>>)
        requires
            self.wf(),
        ensures
            match r {
                Some(v) => self@.contains_key(key@) && self@[key@] == entry_val(*v),
                None => !self@.contains_key(key@),
            },
    {
        let n = self.entries.len();
        for j in 0..n
            invariant
                n == self.entries.len(),
                self.wf(),
                forall|i: int| 0 <= i < j ==> self.entries@[i].0@ != key@,
        {
            if str_eq(self.entries[j].0.as_str(), key) {
                proof {
                    lemma_map_of_at(self.entries@, j as int);
                }
                return Some(&self.entries[j].1);
            }
        }
        proof {
            lemma_map_of_contains(self.entries@, key@);
        }
        None
    }

    /// The number of fields.
    pub fn len(&self) -> (n: usize)
        requires
            self.wf(),
        ensures
            self@.dom().finite(),
            n == self@.dom().len(),
    {
        proof {
            lemma_map_of_dom_len(self.entries@);
        }
        self.entries.len()
    }

    /// Hands the fields out as a plain list, each key of the mapping
    /// exactly once, with the value it maps to.
    pub fn into_entries(self) -> (r: Vec<(String, Option<String>)>)
        requires
            self.wf(),
        ensures
            forall|i: int, j: int| 0 <= i < j < r@.len() ==> r@[i].0@ != r@[j].0@,
            forall|i: int|
                0 <= i < r@.len() ==> self@.contains_key(#[trigger] r@[i].0@) && self@[r@[i].0@]
                    == entry_val(r@[i].1),
            forall|k: Seq<char>|
                self@.contains_key(k) ==> exists|i: int| 0 <= i < r@.len() && r@[i].0@ == k,
    {
        proof {
            assert forall|j: int| 0 <= j < self.entries@.len() implies self@.contains_key(
                #[trigger] self.entries@[j].0@,
            ) && self@[self.entries@[j].0@] == entry_val(self.entries@[j].1) by {
                lemma_map_of_at(self.entries@, j);
            }
            assert forall|k: Seq<char>| self@.contains_key(k) implies exists|i: int|
                0 <= i < self.entries@.len() && self.entries@[i].0@ == k by {
                lemma_map_of_contains(self.entries@, k);
            }
        }
        self.entries
    }
}

} // verus!
