//! The cipher engine: keys of three parallel component streams and the
//! position-keyed substitution of a byte stream.

use crate::table::{
    gen_sub, inv_sub, is_inverse_of, lemma_bijection_onto, lemma_inverse_is_bijection,
    lemma_lvl3_table_bijective, lvl3_table, substitute,
};
use vstd::prelude::*;

verus! {

/// A cipher key: the xor stream, the add stream and the mix stream. The mix
/// stream holds one big-endian 16-bit permutation index per position.
pub struct Key {
    pub x: Vec<u8>,
    pub a: Vec<u8>,
    pub m: Vec<u8>,
}

/// The logical length of a key given by its three raw streams: the longest of
/// them, a mix stream counting one position per two bytes.
pub open spec fn logical_len(x: Seq<u8>, a: Seq<u8>, m: Seq<u8>) -> nat {
    let lm = m.len() / 2;
    if x.len() >= a.len() && x.len() >= lm {
        x.len()
    } else if a.len() >= lm {
        a.len()
    } else {
        lm
    }
}

/// `s` cut to `n` bytes, or filled up to `n` bytes with zeros.
pub open spec fn fit(s: Seq<u8>, n: nat) -> Seq<u8> {
    Seq::new(n, |i: int| if i < s.len() { s[i] } else { 0u8 })
}

impl Key {
    /// The three streams cover the same positions.
    pub open spec fn wf(&self) -> bool {
        &&& self.a@.len() == self.x@.len()
        &&& self.m@.len() == 2 * self.x@.len()
    }

    /// The number of key positions.
    pub open spec fn spec_len(&self) -> nat {
        self.x@.len()
    }

    /// The permutation index at position `i`, read big-endian from the mix stream.
    pub open spec fn mix_at(&self, i: int) -> u16 {
        (self.m@[2 * i] as int * 256 + self.m@[2 * i + 1] as int) as u16
    }

    /// The byte that position `i` of the key substitutes for `b`.
    pub open spec fn apply(&self, i: int, b: u8) -> u8 {
        substitute(b, self.x@[i], self.a@[i], self.mix_at(i))
    }

    /// The byte that position `i` of the key sends to `c`.
    pub open spec fn unapply(&self, i: int, c: u8) -> u8 {
        choose|b: u8| #[trigger] self.apply(i, b) == c
    }

    /// Builds the key from three raw streams, padding with zeros to the
    /// longest logical length. A zero mix index is the identity permutation.
    pub fn new(x: Vec<u8>, a: Vec<u8>, m: Vec<u8>) -> (key: Key)
        requires
            2 * x@.len() <= usize::MAX,
            2 * a@.len() <= usize::MAX,
        ensures
            key.wf(),
            key.spec_len() == logical_len(x@, a@, m@),
            key.x@ == fit(x@, key.spec_len()),
            key.a@ == fit(a@, key.spec_len()),
            key.m@ == fit(m@, 2 * key.spec_len()),
    {
        let mut x = x;
        let mut a = a;
        let mut m = m;
        let ghost x0 = x@;
        let ghost a0 = a@;
        let ghost m0 = m@;
        let lm = m.len() / 2;
        let length = if x.len() >= a.len() && x.len() >= lm {
            x.len()
        } else if a.len() >= lm {
            a.len()
        } else {
            lm
        };
        x.resize(length, 0u8);
        a.resize(length, 0u8);
        m.resize(length * 2, 0u8);
        proof {
            assert(x@ =~= fit(x0, length as nat)) by {
                assert(x@.subrange(0, x0.len() as int) == x0);
                assert forall|i: int| 0 <= i < length implies x@[i] == fit(x0, length as nat)[i] by {
                    if i < x0.len() {
                        assert(x@.subrange(0, x0.len() as int)[i] == x@[i]);
                    }
                }
            }
            assert(a@ =~= fit(a0, length as nat)) by {
                if length > a0.len() {
                    assert(a@.subrange(0, a0.len() as int) == a0);
                }
                assert forall|i: int| 0 <= i < length implies a@[i] == fit(a0, length as nat)[i] by {
                    if i < a0.len() && length > a0.len() {
                        assert(a@.subrange(0, a0.len() as int)[i] == a@[i]);
                    }
                }
            }
            assert(m@ =~= fit(m0, 2 * length as nat)) by {
                if 2 * length > m0.len() {
                    assert(m@.subrange(0, m0.len() as int) == m0);
                }
                assert forall|i: int| 0 <= i < 2 * length implies m@[i] == fit(
                    m0,
                    2 * length as nat,
                )[i] by {
                    if i < m0.len() && 2 * length > m0.len() {
                        assert(m@.subrange(0, m0.len() as int)[i] == m@[i]);
                    }
                }
            }
        }
        Key { x, a, m }
    }

    /// The number of key positions.
    pub fn len(&self) -> (l: usize)
        ensures
            l == self.spec_len(),
    {
        self.x.len()
    }
}

/// `c` is `d` enciphered under `key`: byte `j` went through the
/// substitution of key position `j mod l`.
pub open spec fn is_encryption_of(c: Seq<u8>, d: Seq<u8>, key: Key) -> bool {
    &&& c.len() == d.len()
    &&& forall|j: int|
        0 <= j < d.len() ==> #[trigger] c[j] == key.apply(j % (key.spec_len() as int), d[j])
}

/// The ciphertext of `d` under `key`.
pub open spec fn encrypted(d: Seq<u8>, key: Key) -> Seq<u8> {
    Seq::new(d.len(), |j: int| key.apply(j % (key.spec_len() as int), d[j]))
}

/// The plaintext of `c` under `key`: at each offset the byte that the key
/// position's substitution sends to the ciphertext byte.
pub open spec fn decrypted(c: Seq<u8>, key: Key) -> Seq<u8> {
    Seq::new(c.len(), |j: int| key.unapply(j % (key.spec_len() as int), c[j]))
}

/// `tables` holds, for each key position, the substitution table of that position.
pub open spec fn are_cipher_tables(tables: Seq<[usize; 256]>, key: Key) -> bool {
    &&& tables.len() == key.spec_len()
    &&& forall|i: int|
        0 <= i < tables.len() ==> (#[trigger] tables[i])@ == lvl3_table(
            key.x@[i],
            key.a@[i],
            key.mix_at(i),
        )
}

/// `tables` holds, for each key position, the inverse of its substitution table.
pub open spec fn are_decipher_tables(tables: Seq<[usize; 256]>, key: Key) -> bool {
    &&& tables.len() == key.spec_len()
    &&& forall|i: int|
        0 <= i < tables.len() ==> is_inverse_of(
            (#[trigger] tables[i])@,
            lvl3_table(key.x@[i], key.a@[i], key.mix_at(i)),
        )
}

/// The permutation index of key position `i`.
fn mix_index(key: &Key, i: usize) -> (m: u16)
    requires
        key.wf(),
        i < key.spec_len(),
    ensures
        m == key.mix_at(i as int),
{
    assert(2 * i + 1 < key.m.len());
    let hi: u16 = key.m[2 * i] as u16;
    let lo: u16 = key.m[2 * i + 1] as u16;
    hi * 256 + lo
}

/// One substitution table per key position; inverted ones for deciphering.
pub fn build_tables(key: &Key, invert: bool) -> (tables: Vec<[usize; 256]>)
    requires
        key.wf(),
    ensures
        !invert ==> are_cipher_tables(tables@, *key),
        invert ==> are_decipher_tables(tables@, *key),
{
    let mut tables: Vec<[usize; 256]> = Vec::new();
    let l = key.x.len();
    let mut i: usize = 0;
    while i < l
        invariant
            key.wf(),
            l == key.spec_len(),
            i <= l,
            tables@.len() == i,
            !invert ==> forall|k: int|
                0 <= k < i ==> (#[trigger] tables@[k])@ == lvl3_table(
                    key.x@[k],
                    key.a@[k],
                    key.mix_at(k),
                ),
            invert ==> forall|k: int|
                0 <= k < i ==> is_inverse_of(
                    (#[trigger] tables@[k])@,
                    lvl3_table(key.x@[k], key.a@[k], key.mix_at(k)),
                ),
        decreases l - i,
    {
        let mut t: [usize; 256] = [0; 256];
        gen_sub(key.x[i], key.a[i], mix_index(key, i), &mut t);
        if invert {
            inv_sub(&mut t);
        }
        tables.push(t);
        i += 1;
    }
    tables
}

/// Sends every byte of `buffer` through the table of its offset modulo the
/// number of tables.
fn transform(buffer: &mut Vec<u8>, tables: &Vec<[usize; 256]>)
    requires
        tables@.len() > 0 || old(buffer)@.len() == 0,
        forall|i: int, b: int|
            0 <= i < tables@.len() && 0 <= b < 256 ==> (#[trigger] tables@[i]@[b]) < 256,
    ensures
        final(buffer)@.len() == old(buffer)@.len(),
        forall|j: int|
            0 <= j < old(buffer)@.len() ==> #[trigger] final(buffer)@[j] as int == tables@[j % (
            tables@.len() as int)]@[old(buffer)@[j] as int],
{
    let n = buffer.len();
    let l = tables.len();
    let mut j: usize = 0;
    while j < n
        invariant
            j <= n,
            n == buffer@.len(),
            n == old(buffer)@.len(),
            l == tables@.len(),
            l > 0 || n == 0,
            forall|i: int, b: int|
                0 <= i < tables@.len() && 0 <= b < 256 ==> (#[trigger] tables@[i]@[b]) < 256,
            forall|k: int|
                0 <= k < j ==> #[trigger] buffer@[k] as int == tables@[k % (l as int)]@[old(
                    buffer,
                )@[k] as int],
            forall|k: int| j <= k < n ==> #[trigger] buffer@[k] == old(buffer)@[k],
        decreases n - j,
    {
        let b = buffer[j];
        let v = tables[j % l][b as usize];
        buffer[j] = v as u8;
        j += 1;
    }
}

/// Enciphers `buffer` in place under `key`.
///
/// A key without positions enciphers only the empty stream.
pub fn dummy_crypt(buffer: &mut Vec<u8>, key: &Key)
    requires
        key.wf(),
        key.spec_len() > 0 || old(buffer)@.len() == 0,
    ensures
        final(buffer)@ == encrypted(old(buffer)@, *key),
{
    let tables = build_tables(key, false);
    proof {
        assert forall|i: int, b: int| 0 <= i < tables@.len() && 0 <= b < 256 implies (
        #[trigger] tables@[i]@[b]) < 256 by {
            assert(tables@[i]@ == lvl3_table(key.x@[i], key.a@[i], key.mix_at(i)));
        }
    }
    transform(buffer, &tables);
    proof {
        let l = key.spec_len() as int;
        assert forall|j: int| 0 <= j < old(buffer)@.len() implies buffer@[j] == encrypted(
            old(buffer)@,
            *key,
        )[j] by {
            let i = j % l;
            assert(0 <= i < l) by (nonlinear_arith)
                requires
                    i == j % l,
                    l > 0,
                    j >= 0,
            ;
            assert(tables@[i]@ == lvl3_table(key.x@[i], key.a@[i], key.mix_at(i)));
        }
        assert(buffer@ =~= encrypted(old(buffer)@, *key));
    }
}

/// Deciphers `buffer` in place under `key`: the result is the one stream
/// whose encryption under `key` is the old content.
pub fn dummy_decrypt(buffer: &mut Vec<u8>, key: &Key)
    requires
        key.wf(),
        key.spec_len() > 0 || old(buffer)@.len() == 0,
    ensures
        final(buffer)@ == decrypted(old(buffer)@, *key),
        encrypted(final(buffer)@, *key) == old(buffer)@,
{
    let tables = build_tables(key, true);
    proof {
        assert forall|i: int, b: int| 0 <= i < tables@.len() && 0 <= b < 256 implies (
        #[trigger] tables@[i]@[b]) < 256 by {
            let t = lvl3_table(key.x@[i], key.a@[i], key.mix_at(i));
            lemma_lvl3_table_bijective(key.x@[i], key.a@[i], key.mix_at(i));
            lemma_inverse_is_bijection(t, tables@[i]@);
        }
    }
    transform(buffer, &tables);
    proof {
        let l = key.spec_len() as int;
        assert forall|j: int| 0 <= j < old(buffer)@.len() implies key.apply(j % l, buffer@[j])
            == old(buffer)@[j] && buffer@[j] == decrypted(old(buffer)@, *key)[j] by {
            let i = j % l;
            assert(0 <= i < l) by (nonlinear_arith)
                requires
                    i == j % l,
                    l > 0,
                    j >= 0,
            ;
            let t = lvl3_table(key.x@[i], key.a@[i], key.mix_at(i));
            lemma_lvl3_table_bijective(key.x@[i], key.a@[i], key.mix_at(i));
            lemma_inverse_is_bijection(t, tables@[i]@);
            let c = old(buffer)@[j];
            let b = buffer@[j];
            assert(b as int == tables@[i]@[c as int]);
            assert(t[tables@[i]@[c as int] as int] == c);
            assert(t[b as int] == key.apply(i, b));
            lemma_apply_injective(*key, i, b, key.unapply(i, c));
        }
        assert(buffer@ =~= decrypted(old(buffer)@, *key));
        assert(encrypted(buffer@, *key) =~= old(buffer)@);
    }
}

/// One key position never sends two bytes to the same byte.
pub proof fn lemma_apply_injective(key: Key, i: int, b: u8, c: u8)
    requires
        key.apply(i, b) == key.apply(i, c),
    ensures
        b == c,
{
    let x = key.x@[i];
    let a = key.a@[i];
    let m = key.mix_at(i);
    lemma_lvl3_table_bijective(x, a, m);
    let t = lvl3_table(x, a, m);
    assert(t[b as int] == substitute(b, x, a, m));
    assert(t[c as int] == substitute(c, x, a, m));
}

/// Deciphering what was enciphered under the same key gives the stream back.
pub proof fn lemma_decrypt_encrypt(d: Seq<u8>, key: Key)
    ensures
        decrypted(encrypted(d, key), key) == d,
{
    let c = encrypted(d, key);
    let l = key.spec_len() as int;
    assert forall|j: int| 0 <= j < d.len() implies decrypted(c, key)[j] == d[j] by {
        let i = j % l;
        assert(key.apply(i, d[j]) == c[j]);
        lemma_apply_injective(key, i, key.unapply(i, c[j]), d[j]);
    }
    assert(decrypted(c, key) =~= d);
}

/// Enciphering what was deciphered under the same key gives the stream back.
pub proof fn lemma_encrypt_decrypt(c: Seq<u8>, key: Key)
    ensures
        encrypted(decrypted(c, key), key) == c,
{
    let d = decrypted(c, key);
    let l = key.spec_len() as int;
    assert forall|j: int| 0 <= j < c.len() implies encrypted(d, key)[j] == c[j] by {
        let i = j % l;
        let x = key.x@[i];
        let a = key.a@[i];
        let m = key.mix_at(i);
        lemma_lvl3_table_bijective(x, a, m);
        lemma_bijection_onto(lvl3_table(x, a, m), c[j] as int);
        let k = choose|k: int| 0 <= k < 256 && lvl3_table(x, a, m)[k] == c[j] as int;
        assert(key.apply(i, k as u8) == c[j]);
    }
    assert(encrypted(d, key) =~= c);
}

} // verus!
