//! The on-disk version cache, in memory: a mapping from tool name to the
//! latest version the registry reported and the time of that report.
//!
//! The mapping is held as a vector of entries with pairwise distinct names,
//! and viewed as a `Map` from the name's characters to the record.

use vstd::prelude::*;

verus! {

/// One record per tool: when the registry was last consulted, and the
/// latest version it reported.
pub struct ToolVersionInfo {
    pub last_check: u64,
    pub latest: String,
}

impl View for ToolVersionInfo {
    type V = (u64, Seq<char>);

    open spec fn view(&self) -> (u64, Seq<char>) {
        (self.last_check, self.latest@)
    }
}

/// The record of one entry: name, time of last check, latest version.
pub open spec fn entry_model(e: (String, ToolVersionInfo)) -> (Seq<char>, u64, Seq<char>) {
    (e.0@, e.1.last_check, e.1.latest@)
}

/// The mapping that a sequence of entries denotes; a later entry for the
/// same name overrides an earlier one.
pub open spec fn map_of(s: Seq<(Seq<char>, u64, Seq<char>)>) -> Map<Seq<char>, (u64, Seq<char>)>
    decreases s.len(),
{
    if s.len() == 0 {
        Map::empty()
    } else {
        map_of(s.drop_last()).insert(s.last().0, (s.last().1, s.last().2))
    }
}

/// Pairwise distinct names.
pub open spec fn unique_names(s: Seq<(Seq<char>, u64, Seq<char>)>) -> bool {
    forall|i: int, j: int| 0 <= i < j < s.len() ==> s[i].0 != s[j].0
}

/// A mapping from tool name to its version record.
pub struct VersionCache {
    entries: Vec<(String, ToolVersionInfo)>,
}

impl View for VersionCache {
    type V = Map<Seq<char>, (u64, Seq<char>)>;

    closed spec fn view(&self) -> Map<Seq<char>, (u64, Seq<char>)> {
        map_of(self.models())
    }
}

/// In a well-formed list of entries every key the mapping holds is the key
/// of exactly one entry, whose record is the mapping's value.
proof fn lemma_map_of_props(s: Seq<(Seq<char>, u64, Seq<char>)>)
    ensures
        forall|k: Seq<char>|
            #[trigger] map_of(s).contains_key(k) <==> exists|i: int| 0 <= i < s.len() && s[i].0 == k,
        unique_names(s) ==> forall|i: int|
            0 <= i < s.len() ==> map_of(s).contains_key(#[trigger] s[i].0) && map_of(s)[s[i].0]
                == (s[i].1, s[i].2),
    decreases s.len(),
{
    if s.len() > 0 {
        lemma_map_of_props(s.drop_last());
        assert(forall|k: Seq<char>|
            #[trigger] map_of(s).contains_key(k) <==> k == s.last().0 || map_of(
                s.drop_last(),
            ).contains_key(k));
        assert(forall|i: int| 0 <= i < s.len() - 1 ==> s.drop_last()[i] == s[i]);
        assert(forall|k: Seq<char>| #[trigger]
            map_of(s).contains_key(k) ==> (exists|i: int| 0 <= i < s.len() && s[i].0 == k)) by {
            assert(s[s.len() - 1] == s.last());
        }
    }
}

/// Removing the entry at `i` removes exactly its key from the mapping.
proof fn lemma_map_of_remove(s: Seq<(Seq<char>, u64, Seq<char>)>, i: int)
    requires
        unique_names(s),
        0 <= i < s.len(),
    ensures
        map_of(s.remove(i)) =~= map_of(s).remove(s[i].0),
        unique_names(s.remove(i)),
    decreases s.len(),
{
    lemma_map_of_props(s);
    lemma_map_of_props(s.drop_last());
    if i == s.len() - 1 {
        assert(s.remove(i) =~= s.drop_last());
        assert(!map_of(s.drop_last()).contains_key(s[i].0));
        assert(map_of(s.drop_last()) =~= map_of(s.drop_last()).remove(s[i].0));
    } else {
        assert(s.remove(i).drop_last() =~= s.drop_last().remove(i));
        assert(s.remove(i).last() == s.last());
        lemma_map_of_remove(s.drop_last(), i);
        assert(s.drop_last()[i] == s[i]);
    }
}

impl VersionCache {
    /// The records of the entries, in order.
    pub closed spec fn models(&self) -> Seq<(Seq<char>, u64, Seq<char>)> {
        self.entries@.map_values(|e: (String, ToolVersionInfo)| entry_model(e))
    }

    /// Entry names are pairwise distinct.
    pub open spec fn wf(&self) -> bool {
        unique_names(self.models())
    }

    /// An empty cache.
    pub fn new() -> (r: VersionCache)
        ensures
            r.wf(),
            r@ =~= Map::<Seq<char>, (u64, Seq<char>)>::empty(),
            r.models() =~= Seq::<(Seq<char>, u64, Seq<char>)>::empty(),
    {
        VersionCache { entries: Vec::new() }
    }

    /// How many tools have a record.
    pub fn len(&self) -> (n: usize)
        requires
            self.wf(),
        ensures
            n == self@.dom().len(),
    {
        proof {
            lemma_map_of_len(self.models());
        }
        self.entries.len()
    }

    /// The record for `name`, if the cache holds one.
    pub fn lookup(&self, name: &str) -> (r: Option<&ToolVersionInfo>)
        requires
            self.wf(),
        ensures
            match r {
                Some(info) => self@.contains_key(name@) && self@[name@] == info@,
                None => !self@.contains_key(name@),
            },
    {
        proof {
            lemma_map_of_props(self.models());
        }
        let mut i: usize = 0;
        let n = self.entries.len();
        while i < n
            invariant
                i <= n,
                n == self.entries.len(),
                self.wf(),
                forall|j: int| 0 <= j < i ==> self.models()[j].0 != name@,
            decreases n - i,
        {
            if str_eq(self.entries[i].0.as_str(), name) {
                proof {
                    lemma_map_of_props(self.models());
                    assert(self.models()[i as int] == entry_model(self.entries@[i as int]));
                    assert(self.models()[i as int].0 == name@);
                    assert(map_of(self.models()).contains_key(self.models()[i as int].0)
                        && map_of(self.models())[self.models()[i as int].0] == (
                    self.models()[i as int].1,
                    self.models()[i as int].2,
                    ));
                }
                return Some(&self.entries[i].1);
            }
            i += 1;
        }
        None
    }

    /// Drop the record for `name`, if any.
    pub fn remove(&mut self, name: &str)
        requires
            old(self).wf(),
        ensures
            final(self).wf(),
            final(self)@ =~= old(self)@.remove(name@),
    {
        proof {
            lemma_map_of_props(self.models());
        }
        let mut i: usize = 0;
        let n = self.entries.len();
        while i < n
            invariant
                i <= n,
                n == self.entries.len(),
                self.wf(),
                self == old(self),
                forall|j: int| 0 <= j < i ==> self.models()[j].0 != name@,
            decreases n - i,
        {
            if str_eq(self.entries[i].0.as_str(), name) {
                proof {
                    lemma_map_of_remove(self.models(), i as int);
                }
                let ghost pre = self.models();
                self.entries.remove(i);
                proof {
                    assert(self.models() =~= pre.remove(i as int));
                }
                return ;
            }
            i += 1;
        }
        proof {
            assert(!self@.contains_key(name@));
            assert(self@ =~= self@.remove(name@));
        }
    }

    /// How many entries the cache holds.
    pub fn entry_count(&self) -> (n: usize)
        ensures
            n == self.models().len(),
    {
        self.entries.len()
    }

    /// The entry at position `i`: the name and its record.
    pub fn entry_at(&self, i: usize) -> (r: (&String, &ToolVersionInfo))
        requires
            i < self.models().len(),
        ensures
            (r.0@, r.1.last_check, r.1.latest@) == self.models()[i as int],
    {
        let e = &self.entries[i];
        proof {
            assert(self.models()[i as int] == entry_model(self.entries@[i as int]));
        }
        (&e.0, &e.1)
    }

    /// Append an entry whose name the cache does not hold yet.
    pub fn push_entry(&mut self, name: String, info: ToolVersionInfo)
        requires
            old(self).wf(),
            !old(self)@.contains_key(name@),
        ensures
            final(self).wf(),
            final(self).models() =~= old(self).models().push((name@, info@.0, info@.1)),
    {
        proof {
            lemma_map_of_props(self.models());
        }
        let ghost pre = self.models();
        self.entries.push((name, info));
        proof {
            assert(self.models() =~= pre.push(entry_model(self.entries@.last())));
        }
    }

    /// Install or overwrite the record for `name`.
    pub fn upsert(&mut self, name: &str, info: ToolVersionInfo)
        requires
            old(self).wf(),
        ensures
            final(self).wf(),
            final(self)@ =~= old(self)@.insert(name@, info@),
    {
        self.remove(name);
        let ghost pre = self.models();
        proof {
            lemma_map_of_props(pre);
        }
        self.entries.push((name.to_owned(), info));
        proof {
            assert(self.models() =~= pre.push((name@, info.last_check, info.latest@)));
            assert(self.models().drop_last() =~= pre);
        }
    }
}

/// A key the mapping holds is the key of some entry.
pub proof fn lemma_contains_key_index(c: &VersionCache, k: Seq<char>)
    requires
        c@.contains_key(k),
    ensures
        exists|i: int| 0 <= i < c.models().len() && c.models()[i].0 == k,
{
    lemma_map_of_props(c.models());
}

/// With distinct names the mapping's domain has one key per entry.
proof fn lemma_map_of_len(s: Seq<(Seq<char>, u64, Seq<char>)>)
    requires
        unique_names(s),
    ensures
        map_of(s).dom().finite(),
        map_of(s).dom().len() == s.len(),
    decreases s.len(),
{
    if s.len() == 0 {
        broadcast use vstd::set::axiom_set_empty_len;

        assert(map_of(s).dom() =~= Set::<Seq<char>>::empty());
    } else {
        lemma_map_of_len(s.drop_last());
        lemma_map_of_props(s.drop_last());
        assert(!map_of(s.drop_last()).contains_key(s.last().0)) by {
            assert(forall|i: int| 0 <= i < s.len() - 1 ==> s.drop_last()[i] == s[i]);
            assert(s[s.len() - 1] == s.last());
        }
        vstd::set::axiom_set_insert_len(map_of(s.drop_last()).dom(), s.last().0);
        assert(map_of(s).dom() =~= map_of(s.drop_last()).dom().insert(s.last().0));
    }
}

/// Relies on `str`'s `==`: equality of the UTF-8 bytes, which coincides
/// with equality of the character sequences.
#[verifier::external_body]
fn str_eq(a: &str, b: &str) -> (r: bool)
    ensures
        r == (a@ == b@),
{
    a == b
}

} // verus!
