use vstd::prelude::*;

use aes_gcm::aead::generic_array::GenericArray;
use aes_gcm::aead::{Aead, NewAead};
use aes_gcm::Aes256Gcm;
use rand::RngCore;

use crate::error::{is_error_with, DexError};
use vstd::string::StrSliceExecFns;

verus! {

/// The largest plaintext, in bytes, that AES-GCM encrypts.
pub open spec fn aead_p_max() -> nat {
    0x10_0000_0000
}

/// The AES-256-GCM ciphertext (with its 16-byte tag appended) of `pt` under
/// `key` and `nonce`, with no associated data, as computed by `aes-gcm`.
pub uninterp spec fn spec_aes_gcm_seal(key: Seq<u8>, nonce: Seq<u8>, pt: Seq<u8>) -> Seq<u8>;

/// The AES-256-GCM decryption of `ct` under `key` and `nonce`, with no
/// associated data, as computed by `aes-gcm`: `None` when authentication
/// fails.
pub uninterp spec fn spec_aes_gcm_open(key: Seq<u8>, nonce: Seq<u8>, ct: Seq<u8>) -> Option<Seq<u8>>;

/// `Aes256Gcm::encrypt` (`aead::Aead`) with a 32-byte key and a 12-byte nonce.
/// Claimed, as the `aes-gcm` source shows: it fails exactly when the
/// plaintext is longer than 2^36 bytes; otherwise the result is
/// `spec_aes_gcm_seal` of the arguments and is 16 bytes (the tag) longer than
/// the plaintext.
#[verifier::external_body]
fn aes_gcm_seal(key: &[u8; 32], nonce: &[u8; 12], pt: &[u8]) -> (res: Option<Vec<u8>>)
    ensures
        res is None <==> pt@.len() > aead_p_max(),
        res matches Some(c) ==> c@ == spec_aes_gcm_seal(key@, nonce@, pt@) && c@.len() == pt@.len() + 16,
{
    let cipher = Aes256Gcm::new(GenericArray::from_slice(key));
    cipher.encrypt(GenericArray::from_slice(nonce), pt).ok()
}

/// `Aes256Gcm::decrypt` (`aead::Aead`) with a 32-byte key and a 12-byte nonce.
/// Claimed: the result is `spec_aes_gcm_open` of the arguments, and a
/// ciphertext made by encrypting a plaintext (of at most 2^36 bytes) under
/// the same key and nonce decrypts to that plaintext.
#[verifier::external_body]
fn aes_gcm_open(key: &[u8; 32], nonce: &[u8], ct: &[u8]) -> (res: Option<Vec<u8>>)
    requires
        nonce@.len() == 12,
    ensures
        res is None <==> spec_aes_gcm_open(key@, nonce@, ct@) is None,
        res matches Some(p) ==> spec_aes_gcm_open(key@, nonce@, ct@) == Some(p@),
        forall|p: Seq<u8>| p.len() <= aead_p_max() && ct@ == #[trigger] spec_aes_gcm_seal(key@, nonce@, p)
            ==> res is Some && res.unwrap()@ == p,
{
    let cipher = Aes256Gcm::new(GenericArray::from_slice(key));
    cipher.decrypt(GenericArray::from_slice(nonce), ct).ok()
}

/// Twelve random bytes from the operating system (`rand::rngs::OsRng`).
/// Nothing is promised of them.
#[verifier::external_body]
fn random_nonce() -> [u8; 12] {
    let mut nonce = [0u8; 12];
    rand::rngs::OsRng.fill_bytes(&mut nonce);
    nonce
}

/// The keys, as byte sequences.
pub open spec fn key_view(keys: Seq<[u8; 32]>) -> Seq<Seq<u8>> {
    keys.map_values(|k: [u8; 32]| k@)
}

/// `layers` are the successive layers of a layered encryption of `m` with
/// `keys` and `nonces` whose outermost layer is `c`: the last layer is `m`,
/// and each layer is its 12-byte nonce followed by the ciphertext, under its
/// key, of the layer inside it (at most 2^36 bytes long). The first key's
/// layer is outermost.
pub open spec fn onion_layers(c: Seq<u8>, m: Seq<u8>, keys: Seq<Seq<u8>>, nonces: Seq<Seq<u8>>, layers: Seq<Seq<u8>>) -> bool {
    &&& layers.len() == keys.len() + 1
    &&& nonces.len() == keys.len()
    &&& layers[0] == c
    &&& layers[keys.len() as int] == m
    &&& forall|i: int| 0 <= i < keys.len() ==> {
        &&& (#[trigger] nonces[i]).len() == 12
        &&& layers[i + 1].len() <= aead_p_max()
        &&& layers[i] == nonces[i] + spec_aes_gcm_seal(keys[i], nonces[i], layers[i + 1])
    }
}

/// Whether every layer's plaintext stays within what AES-GCM encrypts: each
/// layer adds a 12-byte nonce and a 16-byte tag.
pub open spec fn onion_fits(len: nat, layers: nat) -> bool {
    layers == 0 || len + 28 * (layers - 1) <= aead_p_max()
}

/// Peeling layers off `data` with `keys`, outermost first: the plaintext,
/// or the message of the first failure.
pub open spec fn onion_open(data: Seq<u8>, keys: Seq<Seq<u8>>) -> Result<Seq<u8>, Seq<char>>
    decreases keys.len(),
{
    if keys.len() == 0 {
        Ok(data)
    } else if data.len() < 12 {
        Err("Data too short, missing nonce"@)
    } else {
        match spec_aes_gcm_open(keys[0], data.take(12), data.skip(12)) {
            None => Err("Decryption failed: Error"@),
            Some(p) => onion_open(p, keys.drop_first()),
        }
    }
}

/// Encrypts `message` in one layer per key, the last key innermost, each
/// layer with a fresh random nonce. Fails with "Encryption failed: Error"
/// exactly when some layer would exceed what AES-GCM encrypts.
pub fn onion_encrypt(message: &[u8], keys: &[[u8; 32]]) -> (res: Result<Vec<u8>, DexError>)
    ensures
        res is Ok <==> onion_fits(message@.len(), keys@.len()),
        !onion_fits(message@.len(), keys@.len()) ==> is_error_with(res, "Encryption failed: Error"@),
        res matches Ok(c) ==> exists|ns: Seq<Seq<u8>>, ls: Seq<Seq<u8>>|
            #[trigger] onion_layers(c@, message@, key_view(keys@), ns, ls),
{
    let ghost kv = key_view(keys@);
    let n = keys.len();
    let mut data = crate::kv::copy_bytes(message);
    let ghost mut nonces: Seq<Seq<u8>> = Seq::empty();
    let ghost mut layers: Seq<Seq<u8>> = seq![message@];
    let mut i: usize = n;
    while i > 0
        invariant
            n == keys@.len(),
            kv == key_view(keys@),
            i <= n,
            onion_layers(data@, message@, kv.skip(i as int), nonces, layers),
            data@.len() == message@.len() + 28 * (n - i),
            i < n ==> message@.len() + 28 * (n - 1 - i) <= aead_p_max(),
        decreases i,
    {
        i = i - 1;
        let nonce = random_nonce();
        let sealed = aes_gcm_seal(&keys[i], &nonce, data.as_slice());
        match sealed {
            None => {
                proof {
                    assert(message@.len() + 28 * (n - 1) >= message@.len() + 28 * (n - i - 1));
                }
                return Err(DexError::Other(String::from_str("Encryption failed: Error")));
            },
            Some(ct) => {
                let mut combined: Vec<u8> = crate::kv::copy_bytes(nonce.as_slice());
                let mut j: usize = 0;
                let ghost head = combined@;
                while j < ct.len()
                    invariant
                        head == nonce@,
                        j <= ct@.len(),
                        combined@ == head + ct@.take(j as int),
                    decreases ct@.len() - j,
                {
                    combined.push(ct[j]);
                    j = j + 1;
                    assert(combined@ =~= head + ct@.take(j as int));
                }
                assert(ct@.take(ct@.len() as int) =~= ct@);
                proof {
                    let ks = kv.skip(i as int);
                    let new_nonces = seq![nonce@] + nonces;
                    let new_layers = seq![combined@] + layers;
                    assert(ks.skip(1) =~= kv.skip(i + 1));
                    assert(ks[0] == keys@[i as int]@);
                    assert forall|k: int| 0 <= k < ks.len() implies {
                        &&& (#[trigger] new_nonces[k]).len() == 12
                        &&& new_layers[k + 1].len() <= aead_p_max()
                        &&& new_layers[k] == new_nonces[k] + spec_aes_gcm_seal(ks[k], new_nonces[k], new_layers[k + 1])
                    } by {
                        if k > 0 {
                            assert(new_nonces[k] == nonces[k - 1]);
                            assert(new_layers[k] == layers[k - 1]);
                            assert(new_layers[k + 1] == layers[k]);
                            assert(ks[k] == kv.skip(i + 1)[k - 1]);
                        }
                    }
                    assert(onion_layers(combined@, message@, ks, new_nonces, new_layers));
                    nonces = new_nonces;
                    layers = new_layers;
                }
                data = combined;
            },
        }
    }
    assert(kv.skip(0) =~= kv);
    let r: Result<Vec<u8>, DexError> = Ok(data);
    assert(onion_layers(r->Ok_0@, message@, key_view(keys@), nonces, layers));
    r
}

/// Peels one layer per key off `encrypted_data`, outermost (first key)
/// first. What `onion_encrypt` produced with the same keys decrypts to the
/// message that was encrypted.
pub fn onion_decrypt(encrypted_data: &[u8], keys: &[[u8; 32]]) -> (res: Result<Vec<u8>, DexError>)
    ensures
        match onion_open(encrypted_data@, key_view(keys@)) {
            Ok(p) => res matches Ok(v) && v@ == p,
            Err(msg) => is_error_with(res, msg),
        },
        forall|m: Seq<u8>, nonces: Seq<Seq<u8>>, layers: Seq<Seq<u8>>|
            #[trigger] onion_layers(encrypted_data@, m, key_view(keys@), nonces, layers)
                ==> (res matches Ok(v) && v@ == m),
{
    let ghost kv = key_view(keys@);
    let n = keys.len();
    let mut data = crate::kv::copy_bytes(encrypted_data);
    let mut i: usize = 0;
    assert(kv.skip(0) =~= kv);
    while i < n
        invariant
            n == keys@.len(),
            kv == key_view(keys@),
            i <= n,
            onion_open(encrypted_data@, kv) == onion_open(data@, kv.skip(i as int)),
            forall|m: Seq<u8>, nonces: Seq<Seq<u8>>, layers: Seq<Seq<u8>>|
                #[trigger] onion_layers(encrypted_data@, m, kv, nonces, layers) ==> data@ == layers[i as int],
        decreases n - i,
    {
        let ghost rest = kv.skip(i as int);
        assert(rest.drop_first() =~= kv.skip(i + 1));
        assert(rest[0] == keys@[i as int]@);
        assert(kv[i as int] == keys@[i as int]@);
        if data.len() < 12 {
            proof {
                assert forall|m: Seq<u8>, nonces: Seq<Seq<u8>>, layers: Seq<Seq<u8>>|
                    #[trigger] onion_layers(encrypted_data@, m, kv, nonces, layers) implies false by {
                    assert(nonces[i as int].len() == 12);
                    assert(data@ == layers[i as int]);
                }
            }
            return Err(DexError::Other(String::from_str("Data too short, missing nonce")));
        }
        let mut nonce: Vec<u8> = Vec::new();
        let mut ct: Vec<u8> = Vec::new();
        let mut j: usize = 0;
        while j < data.len()
            invariant
                data@.len() >= 12,
                j <= data@.len(),
                j <= 12 ==> nonce@ == data@.take(j as int) && ct@.len() == 0,
                j > 12 ==> nonce@ == data@.take(12) && ct@ == data@.subrange(12, j as int),
            decreases data@.len() - j,
        {
            if j < 12 {
                nonce.push(data[j]);
                assert(nonce@ =~= data@.take(j + 1));
            } else {
                ct.push(data[j]);
                assert(ct@ =~= data@.subrange(12, j + 1));
            }
            j = j + 1;
        }
        assert(ct@ =~= data@.skip(12));
        assert(nonce@ =~= data@.take(12));
        let opened = aes_gcm_open(&keys[i], nonce.as_slice(), ct.as_slice());
        match opened {
            None => {
                proof {
                    assert forall|m: Seq<u8>, nonces: Seq<Seq<u8>>, layers: Seq<Seq<u8>>|
                        #[trigger] onion_layers(encrypted_data@, m, kv, nonces, layers) implies false by {
                        assert(nonces[i as int].len() == 12);
                        assert(data@ == layers[i as int]);
                        assert(data@.take(12) =~= nonces[i as int]);
                        assert(data@.skip(12) =~= spec_aes_gcm_seal(kv[i as int], nonces[i as int], layers[i + 1]));
                    }
                }
                return Err(DexError::Other(String::from_str("Decryption failed: Error")));
            },
            Some(p) => {
                proof {
                    assert forall|m: Seq<u8>, nonces: Seq<Seq<u8>>, layers: Seq<Seq<u8>>|
                        #[trigger] onion_layers(encrypted_data@, m, kv, nonces, layers)
                        implies p@ == layers[i + 1] by {
                        assert(nonces[i as int].len() == 12);
                        assert(data@ == layers[i as int]);
                        assert(data@.take(12) =~= nonces[i as int]);
                        assert(data@.skip(12) =~= spec_aes_gcm_seal(kv[i as int], nonces[i as int], layers[i + 1]));
                    }
                }
                data = p;
            },
        }
        i = i + 1;
    }
    assert(kv.skip(n as int) =~= Seq::<Seq<u8>>::empty());
    Ok(data)
}


/// The characters after the last `/` of `p` (all of `p` when it has none).
pub open spec fn last_segment(p: Seq<char>) -> Seq<char>
    decreases p.len(),
{
    if p.len() == 0 || p.last() == '/' {
        Seq::empty()
    } else {
        last_segment(p.drop_last()).push(p.last())
    }
}

/// The file name of a path, as `std::path::Path::file_name` reads it:
/// trailing separators and `.` components are skipped; a path that ends in
/// `..`, or has no component left, has none.
pub open spec fn file_name_of(p: Seq<char>) -> Option<Seq<char>>
    decreases p.len(),
{
    if p.len() == 0 {
        None
    } else if p.last() == '/' {
        file_name_of(p.drop_last())
    } else if last_segment(p) == seq!['.'] {
        file_name_of(p.drop_last())
    } else if last_segment(p) == seq!['.', '.'] {
        None
    } else {
        Some(last_segment(p))
    }
}

/// The directory audit logs are kept in.
pub open spec fn audit_dir() -> Seq<char> {
    "/var/log/dex/"@
}

proof fn lemma_last_segment(q: Seq<char>, start: int)
    requires
        0 <= start <= q.len(),
        forall|k: int| start <= k < q.len() ==> q[k] != '/',
        start == 0 || q[start - 1] == '/',
    ensures
        last_segment(q) == q.subrange(start, q.len() as int),
    decreases q.len() - start,
{
    if q.len() == start {
        if start > 0 {
            assert(q.last() == '/');
        }
        assert(q.subrange(start, q.len() as int) =~= Seq::<char>::empty());
    } else {
        let d = q.drop_last();
        lemma_last_segment(d, start);
        assert(q.subrange(start, q.len() as int) =~= d.subrange(start, d.len() as int).push(q.last()));
    }
}

/// Where an audit entry for `path` is written: the path's file name inside
/// the audit directory, or `None` when the path has no file name (empty,
/// `/`, `.`, or ending in `..`), so that no other directory can be reached.
pub fn audit_log_path(path: &str) -> (res: Option<String>)
    ensures
        match file_name_of(path@) {
            Some(name) => res matches Some(r) && r@ == audit_dir() + name,
            None => res is None,
        },
{
    let ghost p = path@;
    let n = path.unicode_len();
    let mut end: usize = n;
    assert(p.subrange(0, n as int) =~= p);
    loop
        invariant
            p == path@,
            end <= p.len(),
            file_name_of(p) == file_name_of(p.subrange(0, end as int)),
        decreases end,
    {
        let ghost q = p.subrange(0, end as int);
        if end == 0 {
            assert(q.len() == 0);
            return None;
        }
        if path.get_char(end - 1) == '/' {
            assert(q.last() == '/');
            assert(q.drop_last() =~= p.subrange(0, end - 1));
            end = end - 1;
            continue;
        }
        let mut start: usize = end;
        while start > 0 && path.get_char(start - 1) != '/'
            invariant
                start <= end <= p.len(),
                p == path@,
                forall|k: int| start <= k < end ==> p[k] != '/',
            decreases start,
        {
            start = start - 1;
        }
        proof {
            lemma_last_segment(q, start as int);
            assert(q.subrange(start as int, end as int) =~= p.subrange(start as int, end as int));
        }
        let len = end - start;
        if len == 1 && path.get_char(start) == '.' {
            proof {
                assert(last_segment(q) =~= seq!['.']);
                assert(q.drop_last() =~= p.subrange(0, start as int));
            }
            end = start;
            continue;
        }
        if len == 2 && path.get_char(start) == '.' && path.get_char(start + 1) == '.' {
            assert(last_segment(q) =~= seq!['.', '.']);
            return None;
        }
        proof {
            if last_segment(q) == seq!['.'] {
                assert(last_segment(q)[0] == p[start as int]);
            }
            if last_segment(q) == seq!['.', '.'] {
                assert(last_segment(q)[0] == p[start as int]);
                assert(last_segment(q)[1] == p[start + 1]);
            }
        }
        let mut out = String::from_str("/var/log/dex/");
        out.append(path.substring_char(start, end));
        return Some(out);
    }
}

} // verus!
