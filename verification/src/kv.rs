use vstd::prelude::*;

verus! {

// A finite map kept as a list of (key, value) pairs with distinct keys; these
// spec functions give the map operations over the abstract pairs.

/// The keys of a pair list, in order.
pub open spec fn keys_of<K, V>(pairs: Seq<(K, V)>) -> Seq<K> {
    pairs.map_values(|p: (K, V)| p.0)
}

/// The value stored under `k`, if any.
pub open spec fn lookup_spec<K, V>(pairs: Seq<(K, V)>, k: K) -> Option<V> {
    match keys_of(pairs).index_of_first(k) {
        Some(i) => Some(pairs[i].1),
        None => None,
    }
}

/// The pair list after storing `v` under `k`: an existing pair is
/// overwritten in place, a new key is appended.
pub open spec fn insert_spec<K, V>(pairs: Seq<(K, V)>, k: K, v: V) -> Seq<(K, V)> {
    match keys_of(pairs).index_of_first(k) {
        Some(i) => pairs.update(i, (k, v)),
        None => pairs.push((k, v)),
    }
}

/// The pair list after removing `k`.
pub open spec fn remove_spec<K, V>(pairs: Seq<(K, V)>, k: K) -> Seq<(K, V)> {
    match keys_of(pairs).index_of_first(k) {
        Some(i) => pairs.remove(i),
        None => pairs,
    }
}

/// A read of the key just written gives the value written.
pub proof fn lemma_lookup_insert_same<K, V>(pairs: Seq<(K, V)>, k: K, v: V)
    ensures
        lookup_spec(insert_spec(pairs, k, v), k) == Some(v),
{
    keys_of(pairs).index_of_first_ensures(k);
    let p2 = insert_spec(pairs, k, v);
    keys_of(p2).index_of_first_ensures(k);
    match keys_of(pairs).index_of_first(k) {
        Some(i) => {
            assert(keys_of(p2)[i] == k);
            let j = keys_of(p2).index_of_first(k).unwrap();
            if j < i {
                assert(keys_of(p2)[j] == keys_of(pairs)[j]);
            }
            if j > i {
                assert(keys_of(p2)[i] == k);
            }
        },
        None => {
            let n = pairs.len() as int;
            assert(keys_of(p2)[n] == k);
            let j = keys_of(p2).index_of_first(k).unwrap();
            if j < n {
                assert(keys_of(p2)[j] == keys_of(pairs)[j]);
                assert(keys_of(pairs).contains(k));
            }
        },
    }
}

/// Writing one key leaves the reads of every other key as they were.
pub proof fn lemma_lookup_insert_other<K, V>(pairs: Seq<(K, V)>, k: K, v: V, k2: K)
    requires
        k2 != k,
    ensures
        lookup_spec(insert_spec(pairs, k, v), k2) == lookup_spec(pairs, k2),
{
    keys_of(pairs).index_of_first_ensures(k);
    keys_of(pairs).index_of_first_ensures(k2);
    let p2 = insert_spec(pairs, k, v);
    keys_of(p2).index_of_first_ensures(k2);
    assert(keys_of(p2).len() >= keys_of(pairs).len());
    assert forall|j: int| 0 <= j < pairs.len() implies #[trigger] keys_of(p2)[j] == keys_of(pairs)[j] by {
        match keys_of(pairs).index_of_first(k) {
            Some(i) => {
                if j == i {
                    assert(keys_of(pairs)[i] == k);
                }
            },
            None => {},
        }
    }
    match keys_of(pairs).index_of_first(k2) {
        Some(i2) => {
            let j = keys_of(p2).index_of_first(k2).unwrap();
            assert(keys_of(p2)[i2] == k2);
            if j < i2 {
                assert(keys_of(p2)[j] == keys_of(pairs)[j]);
            }
            if j > i2 {
                assert(keys_of(p2)[i2] == k2);
            }
            assert(j == i2);
            assert(p2[i2].1 == pairs[i2].1) by {
                match keys_of(pairs).index_of_first(k) {
                    Some(i) => {
                        assert(i != i2);
                    },
                    None => {},
                }
            }
        },
        None => {
            match keys_of(p2).index_of_first(k2) {
                Some(j) => {
                    if j < pairs.len() {
                        assert(keys_of(pairs)[j] == k2);
                    } else {
                        assert(keys_of(p2)[j] == k);
                    }
                },
                None => {},
            }
        },
    }
}

/// After removing a key, nothing is stored under it.
pub proof fn lemma_lookup_remove_same<K, V>(pairs: Seq<(K, V)>, k: K)
    requires
        keys_of(pairs).no_duplicates(),
    ensures
        lookup_spec(remove_spec(pairs, k), k) is None,
{
    keys_of(pairs).index_of_first_ensures(k);
    let p2 = remove_spec(pairs, k);
    keys_of(p2).index_of_first_ensures(k);
    match keys_of(pairs).index_of_first(k) {
        Some(i) => {
            match keys_of(p2).index_of_first(k) {
                Some(j) => {
                    if j < i {
                        assert(keys_of(p2)[j] == keys_of(pairs)[j]);
                    } else {
                        assert(keys_of(p2)[j] == keys_of(pairs)[j + 1]);
                    }
                },
                None => {},
            }
        },
        None => {},
    }
}

/// Inserting keeps the keys distinct.
pub proof fn lemma_insert_distinct<K, V>(pairs: Seq<(K, V)>, k: K, v: V)
    requires
        keys_of(pairs).no_duplicates(),
    ensures
        keys_of(insert_spec(pairs, k, v)).no_duplicates(),
{
    keys_of(pairs).index_of_first_ensures(k);
    let p2 = insert_spec(pairs, k, v);
    let ks = keys_of(p2);
    let ok = keys_of(pairs);
    match ok.index_of_first(k) {
        Some(i) => {
            assert forall|a: int| 0 <= a < ks.len() implies #[trigger] ks[a] == ok[a] by {}
        },
        None => {
            assert forall|a: int, b: int| 0 <= a < ks.len() && 0 <= b < ks.len() && a != b implies ks[a] != ks[b] by {
                if a < pairs.len() && b < pairs.len() {
                    assert(ks[a] == ok[a]);
                    assert(ks[b] == ok[b]);
                } else if a < pairs.len() {
                    assert(ks[a] == ok[a]);
                } else {
                    assert(ks[b] == ok[b]);
                }
            }
        },
    }
}

/// Removing keeps the keys distinct.
pub proof fn lemma_remove_distinct<K, V>(pairs: Seq<(K, V)>, k: K)
    requires
        keys_of(pairs).no_duplicates(),
    ensures
        keys_of(remove_spec(pairs, k)).no_duplicates(),
{
    keys_of(pairs).index_of_first_ensures(k);
    match keys_of(pairs).index_of_first(k) {
        Some(i) => {
            let ks = keys_of(remove_spec(pairs, k));
            let ok = keys_of(pairs);
            assert forall|a: int, b: int| 0 <= a < ks.len() && 0 <= b < ks.len() && a != b implies ks[a] != ks[b] by {
                let oa = if a < i { a } else { a + 1 };
                let ob = if b < i { b } else { b + 1 };
                assert(ks[a] == ok[oa]);
                assert(ks[b] == ok[ob]);
            }
        },
        None => {},
    }
}

/// A byte-keyed map held as a list of pairs, seen through the views of its keys and values.
pub open spec fn byte_pairs(v: Seq<(Vec<u8>, Vec<u8>)>) -> Seq<(Seq<u8>, Seq<u8>)> {
    v.map_values(|p: (Vec<u8>, Vec<u8>)| (p.0@, p.1@))
}

/// A copy of a byte slice.
pub fn copy_bytes(v: &[u8]) -> (res: Vec<u8>)
    ensures
        res@ == v@,
{
    let mut out: Vec<u8> = Vec::with_capacity(v.len());
    let mut i: usize = 0;
    while i < v.len()
        invariant
            i <= v@.len(),
            out@ == v@.take(i as int),
        decreases v@.len() - i,
    {
        out.push(v[i]);
        i = i + 1;
        assert(out@ =~= v@.take(i as int));
    }
    assert(v@.take(v@.len() as int) =~= v@);
    out
}

/// Whether two byte slices are equal.
pub fn bytes_eq(a: &[u8], b: &[u8]) -> (res: bool)
    ensures
        res == (a@ == b@),
{
    if a.len() != b.len() {
        return false;
    }
    let mut i: usize = 0;
    while i < a.len()
        invariant
            a@.len() == b@.len(),
            i <= a@.len(),
            forall|j: int| 0 <= j < i ==> a@[j] == b@[j],
        decreases a@.len() - i,
    {
        if a[i] != b[i] {
            return false;
        }
        i = i + 1;
    }
    assert(a@ =~= b@);
    true
}

/// The position of the first pair whose key is `key`.
pub fn find_byte_key(data: &Vec<(Vec<u8>, Vec<u8>)>, key: &[u8]) -> (res: Option<usize>)
    ensures
        res is None <==> keys_of(byte_pairs(data@)).index_of_first(key@) is None,
        res is Some ==> keys_of(byte_pairs(data@)).index_of_first(key@) == Some(res.unwrap() as int),
        res is Some ==> res.unwrap() < data@.len(),
{
    let ghost ks = keys_of(byte_pairs(data@));
    proof {
        ks.index_of_first_ensures(key@);
    }
    let mut i: usize = 0;
    while i < data.len()
        invariant
            ks == keys_of(byte_pairs(data@)),
            i <= data@.len(),
            forall|j: int| 0 <= j < i ==> ks[j] != key@,
        decreases data@.len() - i,
    {
        if bytes_eq(data[i].0.as_slice(), key) {
            proof {
                ks.index_of_first_ensures(key@);
                assert(byte_pairs(data@)[i as int] == (data@[i as int].0@, data@[i as int].1@));
                assert(ks[i as int] == key@);
                assert(ks.contains(key@));
                let f = ks.index_of_first(key@);
                let k = f.unwrap();
                if k < i {
                    assert(ks[k] != key@);
                }
                if k > i {
                    assert(ks[i as int] == key@);
                }
            }
            return Some(i);
        }
        i = i + 1;
    }
    proof {
        ks.index_of_first_ensures(key@);
        if ks.index_of_first(key@) is Some {
            let k = ks.index_of_first(key@).unwrap();
            assert(ks[k] != key@);
        }
    }
    assert(ks.index_of_first(key@) is None);
    None
}

/// Stores `val` under `key` (overwriting an existing value in place).
pub fn put_bytes(data: &mut Vec<(Vec<u8>, Vec<u8>)>, key: Vec<u8>, val: Vec<u8>)
    ensures
        byte_pairs(final(data)@) == insert_spec(byte_pairs(old(data)@), key@, val@),
{
    let ghost old_d = data@;
    proof {
        keys_of(byte_pairs(old_d)).index_of_first_ensures(key@);
    }
    match find_byte_key(data, key.as_slice()) {
        Some(i) => {
            let ghost k = key@;
            let ghost v = val@;
            data.set(i, (key, val));
            assert(byte_pairs(data@) =~= byte_pairs(old_d).update(i as int, (k, v)));
            assert(keys_of(byte_pairs(old_d)).index_of_first(k) == Some(i as int));
            assert(byte_pairs(data@) == insert_spec(byte_pairs(old_d), k, v));
        },
        None => {
            let ghost k = key@;
            let ghost v = val@;
            data.push((key, val));
            assert(byte_pairs(data@) =~= byte_pairs(old_d).push((k, v)));
            assert(byte_pairs(data@) == insert_spec(byte_pairs(old_d), k, v));
        },
    }
}

/// Removes `key` and its value, if present.
pub fn remove_bytes(data: &mut Vec<(Vec<u8>, Vec<u8>)>, key: &[u8])
    ensures
        byte_pairs(final(data)@) == remove_spec(byte_pairs(old(data)@), key@),
{
    let ghost old_d = data@;
    proof {
        keys_of(byte_pairs(old_d)).index_of_first_ensures(key@);
    }
    if let Some(i) = find_byte_key(data, key) {
        data.remove(i);
        assert(byte_pairs(data@) =~= byte_pairs(old_d).remove(i as int));
    }
}

/// A text-keyed list of pairs, keys seen as character sequences.
pub open spec fn string_keyed<V>(v: Seq<(String, V)>) -> Seq<(Seq<char>, V)> {
    v.map_values(|p: (String, V)| (p.0@, p.1))
}

/// The position of the first pair whose key is `key`.
pub fn find_string_key<V>(data: &Vec<(String, V)>, key: &String) -> (res: Option<usize>)
    ensures
        res is None <==> keys_of(string_keyed(data@)).index_of_first(key@) is None,
        res is Some ==> keys_of(string_keyed(data@)).index_of_first(key@) == Some(res.unwrap() as int),
        res is Some ==> res.unwrap() < data@.len(),
{
    let ghost ks = keys_of(string_keyed(data@));
    let mut i: usize = 0;
    while i < data.len()
        invariant
            ks == keys_of(string_keyed(data@)),
            i <= data@.len(),
            forall|j: int| 0 <= j < i ==> ks[j] != key@,
        decreases data@.len() - i,
    {
        if data[i].0 == *key {
            proof {
                ks.index_of_first_ensures(key@);
                assert(string_keyed(data@)[i as int] == (data@[i as int].0@, data@[i as int].1));
                assert(ks[i as int] == key@);
                assert(ks.contains(key@));
                let k = ks.index_of_first(key@).unwrap();
                if k < i {
                    assert(ks[k] != key@);
                }
                if k > i {
                    assert(ks[i as int] == key@);
                }
            }
            return Some(i);
        }
        i = i + 1;
    }
    proof {
        ks.index_of_first_ensures(key@);
        if ks.index_of_first(key@) is Some {
            let k = ks.index_of_first(key@).unwrap();
            assert(ks[k] != key@);
        }
    }
    None
}

/// Stores `val` under `key` (overwriting an existing value in place).
pub fn put_string_keyed<V>(data: &mut Vec<(String, V)>, key: String, val: V)
    ensures
        string_keyed(final(data)@) == insert_spec(string_keyed(old(data)@), key@, val),
{
    let ghost old_d = data@;
    let ghost k = key@;
    match find_string_key(data, &key) {
        Some(i) => {
            data.set(i, (key, val));
            assert(string_keyed(data@) =~= string_keyed(old_d).update(i as int, (k, val)));
        },
        None => {
            data.push((key, val));
            assert(string_keyed(data@) =~= string_keyed(old_d).push((k, val)));
        },
    }
}

/// Removes `key` and its value, if present.
pub fn remove_string_keyed<V>(data: &mut Vec<(String, V)>, key: &String)
    ensures
        string_keyed(final(data)@) == remove_spec(string_keyed(old(data)@), key@),
{
    let ghost old_d = data@;
    if let Some(i) = find_string_key(data, key) {
        data.remove(i);
        assert(string_keyed(data@) =~= string_keyed(old_d).remove(i as int));
    }
}

/// The position of the first pair whose key is `key`.
pub fn find_u64_key<V>(data: &Vec<(u64, V)>, key: u64) -> (res: Option<usize>)
    ensures
        res is None ==> keys_of(data@).index_of_first(key) is None,
        res matches Some(i) ==> i < data@.len() && keys_of(data@).index_of_first(key) == Some(i as int),
{
    let ghost ks = keys_of(data@);
    proof {
        ks.index_of_first_ensures(key);
    }
    let mut i: usize = 0;
    while i < data.len()
        invariant
            ks == keys_of(data@),
            i <= data@.len(),
            forall|j: int| 0 <= j < i ==> ks[j] != key,
        decreases data@.len() - i,
    {
        if data[i].0 == key {
            proof {
                ks.index_of_first_ensures(key);
                assert(ks[i as int] == key);
                assert(ks.contains(key));
                let k = ks.index_of_first(key).unwrap();
                if k < i {
                    assert(ks[k] != key);
                }
                if k > i {
                    assert(ks[i as int] == key);
                }
            }
            return Some(i);
        }
        i = i + 1;
    }
    proof {
        if ks.index_of_first(key) is Some {
            let k = ks.index_of_first(key).unwrap();
            assert(ks[k] == key);
        }
    }
    None
}

/// A list of texts, seen as character sequences.
pub open spec fn texts(v: Seq<String>) -> Seq<Seq<char>> {
    v.map_values(|s: String| s@)
}

/// Whether `v` holds the text `s`.
pub fn contains_text(v: &Vec<String>, s: &String) -> (res: bool)
    ensures
        res == texts(v@).contains(s@),
{
    let mut i: usize = 0;
    while i < v.len()
        invariant
            i <= v@.len(),
            forall|j: int| 0 <= j < i ==> texts(v@)[j] != s@,
        decreases v@.len() - i,
    {
        if v[i] == *s {
            assert(texts(v@)[i as int] == s@);
            return true;
        }
        i = i + 1;
    }
    false
}

/// Adds the text `s` unless it is already there; returns whether it was added.
pub fn insert_text(v: &mut Vec<String>, s: String) -> (added: bool)
    ensures
        added == !texts(old(v)@).contains(s@),
        texts(final(v)@) == if added { texts(old(v)@).push(s@) } else { texts(old(v)@) },
{
    if contains_text(v, &s) {
        false
    } else {
        let ghost old_v = v@;
        let ghost sv = s@;
        v.push(s);
        assert(texts(v@) =~= texts(old_v).push(sv));
        true
    }
}

} // verus!
