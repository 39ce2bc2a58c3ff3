//! The named parameter values of one profile, and the decoded parameter set.
use vstd::prelude::*;

verus! {

/// The map that entries in the given order make: a later entry for a key
/// replaces an earlier one.
pub open spec fn entries_map(s: Seq<(String, Vec<i64>)>) -> Map<Seq<char>, Seq<i64>>
    decreases s.len(),
{
    if s.len() == 0 {
        Map::empty()
    } else {
        entries_map(s.drop_last()).insert(s.last().0@, s.last().1@)
    }
}

/// The index of the last entry with key `k`, or `-1`.
pub open spec fn last_index_of(s: Seq<(String, Vec<i64>)>, k: Seq<char>) -> int
    decreases s.len(),
{
    if s.len() == 0 {
        -1
    } else if s.last().0@ == k {
        s.len() - 1
    } else {
        last_index_of(s.drop_last(), k)
    }
}

pub proof fn lemma_last_index_of(s: Seq<(String, Vec<i64>)>, k: Seq<char>)
    ensures
        -1 <= last_index_of(s, k) < s.len(),
        last_index_of(s, k) >= 0 ==> s[last_index_of(s, k)].0@ == k,
        forall|j: int| last_index_of(s, k) < j < s.len() ==> s[j].0@ != k,
        entries_map(s).contains_key(k) <==> last_index_of(s, k) >= 0,
        last_index_of(s, k) >= 0 ==> entries_map(s)[k] == s[last_index_of(s, k)].1@,
    decreases s.len(),
{
    if s.len() > 0 {
        lemma_last_index_of(s.drop_last(), k);
        assert forall|j: int| last_index_of(s, k) < j < s.len() implies s[j].0@ != k by {
            if j < s.len() - 1 {
                assert(s[j] == s.drop_last()[j]);
            }
        }
    }
}

pub proof fn lemma_entries_map_update(s: Seq<(String, Vec<i64>)>, j: int, e: (String, Vec<i64>))
    requires
        0 <= j < s.len(),
        j == last_index_of(s, e.0@),
    ensures
        entries_map(s.update(j, e)) == entries_map(s).insert(e.0@, e.1@),
    decreases s.len(),
{
    lemma_last_index_of(s, e.0@);
    if j == s.len() - 1 {
        assert(s.update(j, e).drop_last() =~= s.drop_last());
    } else {
        assert(s.update(j, e).drop_last() =~= s.drop_last().update(j, e));
        lemma_entries_map_update(s.drop_last(), j, e);
        assert(s.last().0@ != e.0@);
        assert(entries_map(s.update(j, e)) =~= entries_map(s).insert(e.0@, e.1@));
    }
}

/// Parameter values by field name.
#[derive(Clone, Debug)]
pub struct ParamMap {
    entries: Vec<(String, Vec<i64>)>,
}

impl View for ParamMap {
    type V = Map<Seq<char>, Seq<i64>>;

    closed spec fn view(&self) -> Map<Seq<char>, Seq<i64>> {
        entries_map(self.entries@)
    }
}

impl ParamMap {
    /// An empty map.
    pub fn new() -> (m: ParamMap)
        ensures
            m@ == Map::<Seq<char>, Seq<i64>>::empty(),
    {
        ParamMap { entries: Vec::new() }
    }

    fn find(&self, key: &String) -> (r: Option<usize>)
        ensures
            match r {
                Some(i) => i == last_index_of(self.entries@, key@),
                None => last_index_of(self.entries@, key@) == -1,
            },
    {
        let mut i = self.entries.len();
        proof {
            lemma_last_index_of(self.entries@, key@);
        }
        while i > 0
            invariant
                i <= self.entries@.len(),
                last_index_of(self.entries@, key@) < i,
            decreases i,
        {
            proof {
                lemma_last_index_of(self.entries@, key@);
            }
            if self.entries[i - 1].0 == *key {
                return Some(i - 1);
            }
            i = i - 1;
        }
        proof {
            lemma_last_index_of(self.entries@, key@);
        }
        None
    }

    /// The values stored under `key`.
    pub fn get(&self, key: &str) -> (r: Option<&Vec<i64>>)
        ensures
            match r {
                Some(v) => self@.contains_key(key@) && v@ == self@[key@],
                None => !self@.contains_key(key@),
            },
    {
        let k = key.to_owned();
        proof {
            lemma_last_index_of(self.entries@, k@);
        }
        match self.find(&k) {
            Some(i) => Some(&self.entries[i].1),
            None => None,
        }
    }

    /// Whether `key` has values.
    pub fn contains_key(&self, key: &str) -> (r: bool)
        ensures
            r == self@.contains_key(key@),
    {
        self.get(key).is_some()
    }

    /// Stores `vals` under `key`, replacing what was there.
    pub fn insert(&mut self, key: String, vals: Vec<i64>)
        ensures
            final(self)@ == old(self)@.insert(key@, vals@),
    {
        proof {
            lemma_last_index_of(self.entries@, key@);
        }
        match self.find(&key) {
            Some(i) => {
                let ghost e = (key, vals);
                proof {
                    lemma_entries_map_update(self.entries@, i as int, e);
                }
                self.entries.set(i, (key, vals));
            },
            None => {
                let ghost old_entries = self.entries@;
                self.entries.push((key, vals));
                assert(self.entries@.drop_last() =~= old_entries);
            },
        }
    }
}

/// The decoded parameter file: the day and night profiles, the bytes of each
/// profile beyond the known layout (kept so that encoding gives the same
/// file back), and the size of one profile in the file.
#[derive(Clone, Debug)]
pub struct IspParams {
    pub day: ParamMap,
    pub night: ParamMap,
    pub day_tail: Vec<u8>,
    pub night_tail: Vec<u8>,
    pub profile_bytes: usize,
}

/// The mathematical value of an `IspParams`.
pub struct IspParamsView {
    pub day: Map<Seq<char>, Seq<i64>>,
    pub night: Map<Seq<char>, Seq<i64>>,
    pub day_tail: Seq<u8>,
    pub night_tail: Seq<u8>,
    pub profile_bytes: nat,
}

impl View for IspParams {
    type V = IspParamsView;

    open spec fn view(&self) -> IspParamsView {
        IspParamsView {
            day: self.day@,
            night: self.night@,
            day_tail: self.day_tail@,
            night_tail: self.night_tail@,
            profile_bytes: self.profile_bytes as nat,
        }
    }
}

} // verus!
