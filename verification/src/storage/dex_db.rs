use vstd::prelude::*;

use crate::kv::{find_string_key, insert_spec, keys_of, lookup_spec, remove_spec, string_keyed, texts};
use crate::text::starts_with;

verus! {

/// A stored pair list, seen as key texts and value bytes.
pub open spec fn entry_view(v: Seq<(String, Vec<u8>)>) -> Seq<(Seq<char>, Seq<u8>)> {
    v.map_values(|p: (String, Vec<u8>)| (p.0@, p.1@))
}

/// The entries whose key begins with `prefix`, in store order.
pub open spec fn with_prefix(entries: Seq<(Seq<char>, Seq<u8>)>, prefix: Seq<char>) -> Seq<(Seq<char>, Seq<u8>)>
    decreases entries.len(),
{
    if entries.len() == 0 {
        Seq::empty()
    } else if prefix.is_prefix_of(entries.last().0) {
        with_prefix(entries.drop_last(), prefix).push(entries.last())
    } else {
        with_prefix(entries.drop_last(), prefix)
    }
}

/// An in-memory key-value store: text keys, byte values.
#[derive(Debug)]
pub struct InMemoryDb {
    store: Vec<(String, Vec<u8>)>,
}

impl Default for InMemoryDb {
    fn default() -> (res: Self)
        ensures
            res.wf(),
            res.entries().len() == 0,
    {
        InMemoryDb::new()
    }
}

impl InMemoryDb {
    /// The stored pairs, in the order their keys were first written.
    pub closed spec fn entries(&self) -> Seq<(Seq<char>, Seq<u8>)> {
        entry_view(self.store@)
    }

    /// No key is stored twice.
    pub open spec fn wf(&self) -> bool {
        keys_of(self.entries()).no_duplicates()
    }

    /// An empty store.
    pub fn new() -> (res: Self)
        ensures
            res.wf(),
            res.entries().len() == 0,
    {
        let res = InMemoryDb { store: Vec::new() };
        assert(keys_of(res.entries()) =~= Seq::<Seq<char>>::empty());
        res
    }

    proof fn lemma_keys(&self)
        ensures
            keys_of(string_keyed(self.store@)) == keys_of(self.entries()),
    {
        assert(keys_of(string_keyed(self.store@)) =~= keys_of(self.entries()));
    }

    /// Stores `val` under `key`, replacing any earlier value.
    pub fn put(&mut self, key: &str, val: Vec<u8>)
        requires
            old(self).wf(),
        ensures
            final(self).wf(),
            final(self).entries() == insert_spec(old(self).entries(), key@, val@),
    {
        let ghost old_e = self.entries();
        let k = key.to_owned();
        proof {
            self.lemma_keys();
            keys_of(old_e).index_of_first_ensures(key@);
            crate::kv::lemma_insert_distinct(old_e, key@, val@);
        }
        match find_string_key(&self.store, &k) {
            Some(i) => {
                self.store.set(i, (k, val));
                assert(self.entries() =~= old_e.update(i as int, (key@, val@)));
            },
            None => {
                self.store.push((k, val));
                assert(self.entries() =~= old_e.push((key@, val@)));
            },
        }
    }

    /// The value stored under `key`, if any.
    pub fn get(&self, key: &str) -> (res: Option<&[u8]>)
        ensures
            match lookup_spec(self.entries(), key@) {
                Some(v) => res is Some && res.unwrap()@ == v,
                None => res is None,
            },
    {
        let k = key.to_owned();
        proof {
            self.lemma_keys();
        }
        match find_string_key(&self.store, &k) {
            Some(i) => Some(self.store[i].1.as_slice()),
            None => None,
        }
    }

    /// Removes `key` and its value, if present.
    pub fn delete(&mut self, key: &str)
        requires
            old(self).wf(),
        ensures
            final(self).wf(),
            final(self).entries() == remove_spec(old(self).entries(), key@),
    {
        let ghost old_e = self.entries();
        let k = key.to_owned();
        proof {
            self.lemma_keys();
            keys_of(old_e).index_of_first_ensures(key@);
            crate::kv::lemma_remove_distinct(old_e, key@);
        }
        if let Some(i) = find_string_key(&self.store, &k) {
            self.store.remove(i);
            assert(self.entries() =~= old_e.remove(i as int));
        }
    }

    /// Copies of the pairs whose key begins with `prefix`, in store order.
    pub fn list_prefix(&self, prefix: &str) -> (res: Vec<(String, Vec<u8>)>)
        ensures
            entry_view(res@) == with_prefix(self.entries(), prefix@),
    {
        let mut out: Vec<(String, Vec<u8>)> = Vec::new();
        let n = self.store.len();
        let mut i: usize = 0;
        assert(self.entries().take(0) =~= Seq::<(Seq<char>, Seq<u8>)>::empty());
        while i < n
            invariant
                n == self.store@.len(),
                i <= n,
                entry_view(out@) == with_prefix(self.entries().take(i as int), prefix@),
            decreases n - i,
        {
            proof {
                assert(self.entries().take(i + 1).drop_last() =~= self.entries().take(i as int));
                assert(self.entries().take(i + 1).last() == (self.store@[i as int].0@, self.store@[i as int].1@));
            }
            if starts_with(self.store[i].0.as_str(), prefix) {
                let ghost before = entry_view(out@);
                let k = self.store[i].0.clone();
                let v = crate::kv::copy_bytes(self.store[i].1.as_slice());
                out.push((k, v));
                assert(entry_view(out@) =~= before.push((self.store@[i as int].0@, self.store@[i as int].1@)));
            }
            i = i + 1;
        }
        assert(self.entries().take(n as int) =~= self.entries());
        out
    }

    /// Copies of all keys, in store order.
    pub fn list_keys(&self) -> (res: Vec<String>)
        ensures
            texts(res@) == keys_of(self.entries()),
    {
        let mut out: Vec<String> = Vec::new();
        let n = self.store.len();
        let mut i: usize = 0;
        while i < n
            invariant
                n == self.store@.len(),
                i <= n,
                texts(out@) == keys_of(self.entries()).take(i as int),
            decreases n - i,
        {
            let ghost before = texts(out@);
            let k = self.store[i].0.clone();
            let ghost kv = k@;
            assert(kv == keys_of(self.entries())[i as int]);
            out.push(k);
            assert(texts(out@) =~= before.push(kv));
            assert(texts(out@) =~= keys_of(self.entries()).take(i + 1));
            i = i + 1;
        }
        assert(keys_of(self.entries()).take(n as int) =~= keys_of(self.entries()));
        out
    }
}

} // verus!
