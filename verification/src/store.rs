//! The in-memory key-value store.
//!
//! Keys and values are opaque byte strings. Every key carries a type tag;
//! only `String`-tagged keys have a backing value in this core, the other
//! tags are recognised but have no operations. The store is modelled as a
//! map from key bytes to a pair of tag and value bytes.

use vstd::prelude::*;
use vstd::slice::slice_to_vec;

verus! {

/// The per-key type tag. Only `String` has backing operations in this core;
/// `List`, `Set_` and `Hash` are recognised tags reserved for extension.
pub enum DataType {
    String,
    List,
    Set_,
    Hash,
}

struct Entry {
    key: Vec<u8>,
    tag: DataType,
    value: Vec<u8>,
}

/// The store: an association list of entries with pairwise distinct keys,
/// abstracted as a `Map<Seq<u8>, (DataType, Seq<u8>)>`.
pub struct RedisLess {
    entries: Vec<Entry>,
}

/// The model of one entry: its tag and its value bytes.
pub type EntryModel = (DataType, Seq<u8>);

spec fn entry_map(s: Seq<Entry>) -> Map<Seq<u8>, EntryModel>
    decreases s.len(),
{
    if s.len() == 0 {
        Map::empty()
    } else {
        entry_map(s.drop_last()).insert(s.last().key@, (s.last().tag, s.last().value@))
    }
}

spec fn unique_keys(s: Seq<Entry>) -> bool {
    forall|i: int, j: int| 0 <= i < j < s.len() ==> s[i].key@ != s[j].key@
}

/// What `set` does to the store model.
pub open spec fn spec_set(m: Map<Seq<u8>, EntryModel>, k: Seq<u8>, v: Seq<u8>) -> Map<
    Seq<u8>,
    EntryModel,
> {
    m.insert(k, (DataType::String, v))
}

/// What `get` returns on the store model.
pub open spec fn spec_get(m: Map<Seq<u8>, EntryModel>, k: Seq<u8>) -> Option<Seq<u8>> {
    if m.contains_key(k) && m[k].0 is String {
        Some(m[k].1)
    } else {
        None
    }
}

/// How many entries `del` removes on the store model: one when the key is
/// present and tagged `String`, none otherwise.
pub open spec fn spec_del_count(m: Map<Seq<u8>, EntryModel>, k: Seq<u8>) -> int {
    if m.contains_key(k) && m[k].0 is String {
        1
    } else {
        0
    }
}

/// What `del` does to the store model.
pub open spec fn spec_del(m: Map<Seq<u8>, EntryModel>, k: Seq<u8>) -> Map<Seq<u8>, EntryModel> {
    if m.contains_key(k) && m[k].0 is String {
        m.remove(k)
    } else {
        m
    }
}

proof fn lemma_entry_map_contains(s: Seq<Entry>, k: Seq<u8>)
    ensures
        entry_map(s).contains_key(k) <==> exists|i: int| 0 <= i < s.len() && s[i].key@ == k,
    decreases s.len(),
{
    if s.len() > 0 {
        lemma_entry_map_contains(s.drop_last(), k);
        if s.last().key@ == k {
            assert(s[s.len() - 1].key@ == k);
        } else {
            if entry_map(s).contains_key(k) {
                let i = choose|i: int| 0 <= i < s.drop_last().len() && s.drop_last()[i].key@ == k;
                assert(s[i].key@ == k);
            }
            if exists|i: int| 0 <= i < s.len() && s[i].key@ == k {
                let i = choose|i: int| 0 <= i < s.len() && s[i].key@ == k;
                assert(i < s.len() - 1);
                assert(s.drop_last()[i].key@ == k);
            }
        }
    }
}

proof fn lemma_entry_map_index(s: Seq<Entry>, i: int)
    requires
        unique_keys(s),
        0 <= i < s.len(),
    ensures
        entry_map(s).contains_key(s[i].key@),
        entry_map(s)[s[i].key@] == (s[i].tag, s[i].value@),
    decreases s.len(),
{
    lemma_entry_map_contains(s, s[i].key@);
    if i == s.len() - 1 {
    } else {
        assert(s.drop_last()[i] == s[i]);
        lemma_entry_map_index(s.drop_last(), i);
        assert(s.last().key@ != s[i].key@);
    }
}

proof fn lemma_entry_map_absent(s: Seq<Entry>, k: Seq<u8>)
    requires
        forall|i: int| 0 <= i < s.len() ==> s[i].key@ != k,
    ensures
        !entry_map(s).contains_key(k),
{
    lemma_entry_map_contains(s, k);
}

proof fn lemma_entry_map_remove(s: Seq<Entry>, i: int)
    requires
        unique_keys(s),
        0 <= i < s.len(),
    ensures
        unique_keys(s.remove(i)),
        entry_map(s.remove(i)) =~= entry_map(s).remove(s[i].key@),
    decreases s.len(),
{
    let k = s[i].key@;
    assert forall|p: int, q: int| 0 <= p < q < s.remove(i).len() implies s.remove(i)[p].key@ != s.remove(
        i,
    )[q].key@ by {
        let p0: int = if p < i {
            p
        } else {
            p + 1
        };
        let q0: int = if q < i {
            q
        } else {
            q + 1
        };
        assert(s.remove(i)[p] == s[p0]);
        assert(s.remove(i)[q] == s[q0]);
    }
    if i == s.len() - 1 {
        assert(s.remove(i) =~= s.drop_last());
        assert forall|j: int| 0 <= j < s.drop_last().len() implies s.drop_last()[j].key@ != k by {
            assert(s.drop_last()[j] == s[j]);
        }
        lemma_entry_map_absent(s.drop_last(), k);
        assert(entry_map(s).remove(k) =~= entry_map(s.drop_last()));
    } else {
        let t = s.remove(i);
        assert(t.drop_last() =~= s.drop_last().remove(i));
        assert(t.last() == s.last());
        lemma_entry_map_remove(s.drop_last(), i);
        assert(s.last().key@ != k);
        assert(entry_map(t) =~= entry_map(s.drop_last()).remove(k).insert(
            s.last().key@,
            (s.last().tag, s.last().value@),
        ));
        assert(entry_map(s).remove(k) =~= entry_map(s.drop_last()).remove(k).insert(
            s.last().key@,
            (s.last().tag, s.last().value@),
        ));
    }
}

impl RedisLess {
    /// The mathematical model of the store.
    pub closed spec fn view(&self) -> Map<Seq<u8>, EntryModel> {
        entry_map(self.entries@)
    }

    /// Internal well-formedness: keys are pairwise distinct.
    pub closed spec fn wf(&self) -> bool {
        unique_keys(self.entries@)
    }

    /// An empty store.
    pub fn new() -> (r: RedisLess)
        ensures
            r.wf(),
            r@ == Map::<Seq<u8>, EntryModel>::empty(),
    {
        RedisLess { entries: Vec::new() }
    }

    fn find(&self, key: &[u8]) -> (r: Option<usize>)
        ensures
            match r {
                Some(i) => i < self.entries@.len() && self.entries@[i as int].key@ == key@,
                None => forall|i: int| 0 <= i < self.entries@.len() ==> self.entries@[i].key@
                    != key@,
            },
    {
        let n = self.entries.len();
        let mut i: usize = 0;
        while i < n
            invariant
                i <= n,
                n == self.entries@.len(),
                forall|j: int| 0 <= j < i ==> self.entries@[j].key@ != key@,
            decreases n - i,
        {
            if bytes_eq(self.entries[i].key.as_slice(), key) {
                return Some(i);
            }
            i = i + 1;
        }
        None
    }

    /// Insert or overwrite: after the call the key maps to `value`, tagged
    /// `String`, and every other key is unchanged.
    pub fn set(&mut self, key: &[u8], value: &[u8])
        requires
            old(self).wf(),
        ensures
            final(self).wf(),
            final(self)@ == spec_set(old(self)@, key@, value@),
    {
        match self.find(key) {
            Some(i) => {
                proof {
                    lemma_entry_map_remove(self.entries@, i as int);
                }
                self.entries.remove(i);
            },
            None => {
                proof {
                    lemma_entry_map_absent(self.entries@, key@);
                }
            },
        }
        let ghost pre = self.entries@;
        let entry = Entry {
            key: slice_to_vec(key),
            tag: DataType::String,
            value: slice_to_vec(value),
        };
        self.entries.push(entry);
        proof {
            assert(self.entries@.drop_last() =~= pre);
            assert(forall|j: int| 0 <= j < pre.len() ==> pre[j].key@ != key@);
            assert(unique_keys(pre));
            assert forall|p: int, q: int| 0 <= p < q < self.entries@.len() implies self.entries@[p].key@
                != self.entries@[q].key@ by {
                if q < self.entries@.len() - 1 {
                    assert(self.entries@[p] == pre[p]);
                    assert(self.entries@[q] == pre[q]);
                } else {
                    assert(self.entries@[p] == pre[p]);
                }
            }
            assert(self@ =~= spec_set(old(self)@, key@, value@));
        }
    }

    /// Read: returns the stored bytes when the key is present and tagged
    /// `String`, nothing otherwise.
    pub fn get(&self, key: &[u8]) -> (r: Option<&[u8]>)
        requires
            self.wf(),
        ensures
            match r {
                Some(v) => spec_get(self@, key@) == Some(v@),
                None => spec_get(self@, key@) is None,
            },
    {
        match self.find(key) {
            Some(i) => {
                proof {
                    lemma_entry_map_index(self.entries@, i as int);
                }
                match self.entries[i].tag {
                    DataType::String => Some(self.entries[i].value.as_slice()),
                    _ => None,
                }
            },
            None => {
                proof {
                    lemma_entry_map_absent(self.entries@, key@);
                }
                None
            },
        }
    }

    /// Delete: removes the key when present and tagged `String` and returns
    /// how many entries were removed — one or zero, never more.
    pub fn del(&mut self, key: &[u8]) -> (r: u32)
        requires
            old(self).wf(),
        ensures
            final(self).wf(),
            r == spec_del_count(old(self)@, key@),
            final(self)@ == spec_del(old(self)@, key@),
    {
        match self.find(key) {
            Some(i) => {
                proof {
                    lemma_entry_map_index(self.entries@, i as int);
                }
                let is_string = match self.entries[i].tag {
                    DataType::String => true,
                    _ => false,
                };
                if is_string {
                    proof {
                        lemma_entry_map_remove(self.entries@, i as int);
                    }
                    self.entries.remove(i);
                    proof {
                        assert(self@ =~= spec_del(old(self)@, key@));
                    }
                    1
                } else {
                    0
                }
            },
            None => {
                proof {
                    lemma_entry_map_absent(self.entries@, key@);
                }
                0
            },
        }
    }
}

fn bytes_eq(a: &[u8], b: &[u8]) -> (r: bool)
    ensures
        r == (a@ == b@),
{
    if a.len() != b.len() {
        proof {
            assert(a@ != b@);
        }
        return false;
    }
    let n = a.len();
    let mut i: usize = 0;
    while i < n
        invariant
            i <= n,
            n == a@.len() && n == b@.len(),
            forall|j: int| 0 <= j < i ==> a@[j] == b@[j],
        decreases n - i,
    {
        if a[i] != b[i] {
            proof {
                assert(a@ != b@);
            }
            return false;
        }
        i = i + 1;
    }
    proof {
        assert(a@ =~= b@);
    }
    true
}

/// Setting a key and then reading it yields exactly the bytes that were
/// written, for every store and every non-empty key.
pub proof fn lemma_set_then_get(m: Map<Seq<u8>, EntryModel>, k: Seq<u8>, v: Seq<u8>)
    requires
        k.len() > 0,
    ensures
        spec_get(spec_set(m, k, v), k) == Some(v),
{
}

/// Deleting an absent key removes nothing; after a set, one delete removes
/// exactly one entry, after which the key reads as absent and a second
/// delete removes nothing.
pub proof fn lemma_del_idempotent(m: Map<Seq<u8>, EntryModel>, k: Seq<u8>, v: Seq<u8>)
    ensures
        !m.contains_key(k) ==> spec_del_count(m, k) == 0 && spec_del(m, k) == m,
        spec_del_count(spec_set(m, k, v), k) == 1,
        spec_get(spec_del(spec_set(m, k, v), k), k) is None,
        spec_del_count(spec_del(spec_set(m, k, v), k), k) == 0,
{
}

} // verus!
