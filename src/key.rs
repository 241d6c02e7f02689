//! 256-bit keys of the DHT keyspace and the XOR metric over them.
use vstd::prelude::*;
use vstd::std_specs::bits::u64_leading_zeros;

use crate::PeerId;
use vstd::string::StringExecFns;

verus! {

/// A key of the DHT keyspace: a 256-bit unsigned integer held as four
/// 64-bit words, most significant word first.
#[derive(Clone, Copy, PartialEq, Eq, Structural, Hash, Debug)]
pub struct Key {
    pub w0: u64,
    pub w1: u64,
    pub w2: u64,
    pub w3: u64,
}

/// The XOR distance between two keys, as a 256-bit unsigned integer held
/// as four 64-bit words, most significant word first.
#[derive(Clone, Copy, PartialEq, Eq, Structural, Hash, Debug)]
pub struct Distance {
    pub w0: u64,
    pub w1: u64,
    pub w2: u64,
    pub w3: u64,
}

/// The digest that SHA-256 gives for `data`.
pub uninterp spec fn sha256_of(data: Seq<u8>) -> Seq<u8>;

/// Relies on `sha2::Sha256::digest`: the SHA-256 digest of the input, 32 bytes.
#[verifier::external_body]
fn sha256(data: &[u8]) -> (r: Vec<u8>)
    ensures
        r@ == sha256_of(data@),
        r@.len() == 32,
{
    <sha2::Sha256 as sha2::Digest>::digest(data).to_vec()
}

/// The value of `s` read as a big-endian unsigned integer.
pub open spec fn be_value(s: Seq<u8>) -> nat
    decreases s.len(),
{
    if s.len() == 0 {
        0
    } else {
        be_value(s.drop_last()) * 256 + s.last() as nat
    }
}

pub open spec fn pow256(n: nat) -> nat
    decreases n,
{
    if n == 0 {
        1
    } else {
        pow256((n - 1) as nat) * 256
    }
}

/// The key that 32 bytes give when read as a big-endian integer.
pub open spec fn key_of_bytes(s: Seq<u8>) -> Key {
    Key {
        w0: be_value(s.subrange(0, 8)) as u64,
        w1: be_value(s.subrange(8, 16)) as u64,
        w2: be_value(s.subrange(16, 24)) as u64,
        w3: be_value(s.subrange(24, 32)) as u64,
    }
}

/// The four little-endian bytes of a peer id.
pub open spec fn le_bytes(id: PeerId) -> Seq<u8> {
    seq![
        (id % 256) as u8,
        ((id / 256) % 256) as u8,
        ((id / 65536) % 256) as u8,
        ((id / 16777216) % 256) as u8,
    ]
}

/// The key of a byte string: its SHA-256 digest read as a big-endian integer.
pub open spec fn sha256_key(data: Seq<u8>) -> Key {
    key_of_bytes(sha256_of(data))
}

/// The key of a peer: the SHA-256 key of its id's little-endian bytes.
pub open spec fn peer_key(id: PeerId) -> Key {
    sha256_key(le_bytes(id))
}

pub open spec fn key_xor(a: Key, b: Key) -> Distance {
    Distance { w0: a.w0 ^ b.w0, w1: a.w1 ^ b.w1, w2: a.w2 ^ b.w2, w3: a.w3 ^ b.w3 }
}

pub open spec fn key_for_distance(a: Key, d: Distance) -> Key {
    Key { w0: a.w0 ^ d.w0, w1: a.w1 ^ d.w1, w2: a.w2 ^ d.w2, w3: a.w3 ^ d.w3 }
}

impl Distance {
    /// Unsigned comparison: word by word, most significant first.
    pub open spec fn spec_lt(self, o: Distance) -> bool {
        self.w0 < o.w0 || (self.w0 == o.w0 && (self.w1 < o.w1 || (self.w1 == o.w1 && (
        self.w2 < o.w2 || (self.w2 == o.w2 && self.w3 < o.w3)))))
    }

    pub open spec fn spec_le(self, o: Distance) -> bool {
        self.spec_lt(o) || self == o
    }

    /// The number of leading zero bits of the 256-bit value (256 for zero).
    pub open spec fn spec_leading_zeros(self) -> int {
        if self.w0 != 0 {
            u64_leading_zeros(self.w0)
        } else if self.w1 != 0 {
            64 + u64_leading_zeros(self.w1)
        } else if self.w2 != 0 {
            128 + u64_leading_zeros(self.w2)
        } else {
            192 + u64_leading_zeros(self.w3)
        }
    }

    /// Unsigned comparison of two distances.
    pub fn is_less(&self, o: &Distance) -> (r: bool)
        ensures
            r == self.spec_lt(*o),
    {
        if self.w0 != o.w0 {
            self.w0 < o.w0
        } else if self.w1 != o.w1 {
            self.w1 < o.w1
        } else if self.w2 != o.w2 {
            self.w2 < o.w2
        } else {
            self.w3 < o.w3
        }
    }

    /// Returns the number of leading zeros in the binary representation of the distance.
    pub fn leading_zeros(&self) -> (r: u32)
        ensures
            r as int == self.spec_leading_zeros(),
            r <= 256,
            r == 256 <==> (self.w0 == 0 && self.w1 == 0 && self.w2 == 0 && self.w3 == 0),
    {
        broadcast use vstd::std_specs::bits::axiom_u64_leading_zeros;
        if self.w0 != 0 {
            self.w0.leading_zeros()
        } else if self.w1 != 0 {
            64 + self.w1.leading_zeros()
        } else if self.w2 != 0 {
            128 + self.w2.leading_zeros()
        } else {
            192 + self.w3.leading_zeros()
        }
    }

    /// The bitwise complement of the distance, which orders distances in reverse.
    pub fn not(&self) -> (r: Distance)
        ensures
            r == (Distance { w0: !self.w0, w1: !self.w1, w2: !self.w2, w3: !self.w3 }),
    {
        Distance { w0: !self.w0, w1: !self.w1, w2: !self.w2, w3: !self.w3 }
    }
}

/// Reads eight bytes of `b`, from `start` on, as a big-endian word.
fn be_word(b: &[u8], start: usize) -> (r: u64)
    requires
        start <= 24,
        start + 8 <= b@.len(),
    ensures
        r as nat == be_value(b@.subrange(start as int, start + 8)),
{
    let mut w: u64 = 0;
    let mut i: usize = 0;
    while i < 8
        invariant
            i <= 8,
            start <= 24,
            start + 8 <= b@.len(),
            w as nat == be_value(b@.subrange(start as int, start + i)),
            (w as nat) < pow256(i as nat),
        decreases 8 - i,
    {
        let ghost prev = b@.subrange(start as int, start + i);
        let ghost next = b@.subrange(start as int, start + i + 1);
        assert(next.drop_last() =~= prev);
        proof {
            reveal_with_fuel(pow256, 9);
            lemma_pow256_mono(i as nat + 1, 8);
        }
        assert(pow256(8) == 0x1_0000_0000_0000_0000);
        let byte = b[start + i];
        assert((w as nat) * 256 + byte < pow256(i as nat) * 256) by (nonlinear_arith)
            requires
                (w as nat) < pow256(i as nat),
                byte < 256,
        ;
        w = w * 256 + byte as u64;
        i = i + 1;
    }
    w
}

proof fn lemma_pow256_mono(a: nat, b: nat)
    requires
        a <= b,
    ensures
        pow256(a) <= pow256(b),
    decreases b,
{
    if a < b {
        lemma_pow256_mono(a, (b - 1) as nat);
    }
}

impl Key {
    /// The key that 32 bytes give when read as a big-endian integer.
    pub fn from_be_bytes(b: &[u8]) -> (r: Key)
        requires
            b@.len() == 32,
        ensures
            r == key_of_bytes(b@),
    {
        Key { w0: be_word(b, 0), w1: be_word(b, 8), w2: be_word(b, 16), w3: be_word(b, 24) }
    }

    /// Creates a `Key` from the SHA-256 hash of the given bytes.
    pub fn from_sha256(bytes: &[u8]) -> (r: Key)
        ensures
            r == sha256_key(bytes@),
    {
        let digest = sha256(bytes);
        Key::from_be_bytes(digest.as_slice())
    }

    /// The key of a peer: the SHA-256 key of its id's little-endian bytes.
    pub fn from_peer_id(peer_id: PeerId) -> (r: Key)
        ensures
            r == peer_key(peer_id),
    {
        let bytes: [u8; 4] = [
            (peer_id % 256) as u8,
            ((peer_id / 256) % 256) as u8,
            ((peer_id / 65536) % 256) as u8,
            ((peer_id / 16777216) % 256) as u8,
        ];
        assert(bytes@ =~= le_bytes(peer_id));
        Key::from_sha256(&bytes)
    }

    /// Calculates the distance between two keys using the XOR metric.
    pub fn distance(&self, other: &Key) -> (r: Distance)
        ensures
            r == key_xor(*self, *other),
    {
        Distance {
            w0: self.w0 ^ other.w0,
            w1: self.w1 ^ other.w1,
            w2: self.w2 ^ other.w2,
            w3: self.w3 ^ other.w3,
        }
    }

    /// Returns the key that is uniquely determined by the given distance to `self`.
    pub fn for_distance(&self, dist: &Distance) -> (r: Key)
        ensures
            r == key_for_distance(*self, *dist),
            key_xor(*self, r) == *dist,
    {
        let r = Key {
            w0: self.w0 ^ dist.w0,
            w1: self.w1 ^ dist.w1,
            w2: self.w2 ^ dist.w2,
            w3: self.w3 ^ dist.w3,
        };
        proof {
            lemma_xor_cancel(self.w0, dist.w0);
            lemma_xor_cancel(self.w1, dist.w1);
            lemma_xor_cancel(self.w2, dist.w2);
            lemma_xor_cancel(self.w3, dist.w3);
        }
        r
    }
}

proof fn lemma_xor_cancel(a: u64, b: u64)
    ensures
        a ^ (a ^ b) == b,
{
    assert(a ^ (a ^ b) == b) by (bit_vector);
}

proof fn lemma_xor_word(a: u64, b: u64)
    ensures
        a ^ b == b ^ a,
        a ^ a == 0,
        (a ^ b == 0) == (a == b),
{
    assert(a ^ b == b ^ a) by (bit_vector);
    assert(a ^ a == 0) by (bit_vector);
    assert((a ^ b == 0) == (a == b)) by (bit_vector);
}

/// The XOR metric is symmetric, is zero exactly between equal keys, and
/// `from_sha256` is a function of its input.
pub proof fn lemma_metric(a: Key, b: Key, x: Seq<u8>, y: Seq<u8>)
    ensures
        key_xor(a, b) == key_xor(b, a),
        key_xor(a, a) == (Distance { w0: 0, w1: 0, w2: 0, w3: 0 }),
        key_xor(a, b) == (Distance { w0: 0, w1: 0, w2: 0, w3: 0 }) <==> a == b,
        x == y ==> sha256_key(x) == sha256_key(y),
{
    lemma_xor_word(a.w0, b.w0);
    lemma_xor_word(a.w1, b.w1);
    lemma_xor_word(a.w2, b.w2);
    lemma_xor_word(a.w3, b.w3);
}

/// Distances are totally ordered by unsigned comparison.
pub proof fn lemma_distance_order(a: Distance, b: Distance, c: Distance)
    ensures
        !a.spec_lt(a),
        a.spec_lt(b) ==> !b.spec_lt(a),
        a.spec_lt(b) || b.spec_lt(a) || a == b,
        a.spec_lt(b) && b.spec_lt(c) ==> a.spec_lt(c),
{
}


/// The word `x` with its bits above bit `63 - s` cleared and that bit set.
pub open spec fn bucket_word(x: u64, s: u64) -> u64 {
    (x & (0xffff_ffff_ffff_ffffu64 >> s)) | (1u64 << vstd::prelude::sub(63u64, s))
}

/// The distance whose first `index` bits are clear, whose next bit is set,
/// and whose remaining bits are those of `random`.
pub open spec fn bucket_distance(random: Key, index: int) -> Distance {
    let wi = index / 64;
    let s = (index % 64) as u64;
    Distance {
        w0: if wi == 0 { bucket_word(random.w0, s) } else { 0 },
        w1: if wi == 1 { bucket_word(random.w1, s) } else if wi < 1 { random.w1 } else { 0 },
        w2: if wi == 2 { bucket_word(random.w2, s) } else if wi < 2 { random.w2 } else { 0 },
        w3: if wi == 3 { bucket_word(random.w3, s) } else { random.w3 },
    }
}

/// The key at distance `bucket_distance(random, index)` from `local`.
pub open spec fn bucket_key(local: Key, random: Key, index: int) -> Key {
    key_for_distance(local, bucket_distance(random, index))
}

proof fn lemma_bucket_word(x: u64, s: u64)
    requires
        s < 64,
    ensures
        bucket_word(x, s) != 0,
        u64_leading_zeros(bucket_word(x, s)) == s,
{
    broadcast use vstd::std_specs::bits::axiom_u64_leading_zeros;
    let y = bucket_word(x, s);
    assert(y != 0) by (bit_vector)
        requires
            s < 64,
            y == (x & (0xffff_ffff_ffff_ffffu64 >> s)) | (1u64 << vstd::prelude::sub(63u64, s)),
    ;
    let n = u64_leading_zeros(y) as u64;
    assert(n < 64);
    assert((y >> vstd::prelude::sub(63u64, n)) & 1u64 != 0u64);
    assert(y >> vstd::prelude::sub(64u64, n) == 0);
    assert(n == s) by (bit_vector)
        requires
            s < 64,
            n < 64,
            y == (x & (0xffff_ffff_ffff_ffffu64 >> s)) | (1u64 << vstd::prelude::sub(63u64, s)),
            (y >> vstd::prelude::sub(63u64, n)) & 1u64 != 0u64,
            y >> vstd::prelude::sub(64u64, n) == 0,
    ;
}

impl Key {
    /// A key in bucket `index` of `local_key`: its distance from
    /// `local_key` has exactly `index` leading zeros, and the bits of that
    /// distance after the first set one are those of `random`.
    pub fn random_in_bucket(local_key: &Key, random: &Key, index: usize) -> (r: Key)
        requires
            index < 256,
        ensures
            r == bucket_key(*local_key, *random, index as int),
            key_xor(*local_key, r) == bucket_distance(*random, index as int),
            key_xor(*local_key, r).spec_leading_zeros() == index,
    {
        let wi = index / 64;
        let s = (index % 64) as u64;
        proof {
            lemma_bucket_word(random.w0, s);
            lemma_bucket_word(random.w1, s);
            lemma_bucket_word(random.w2, s);
            lemma_bucket_word(random.w3, s);
        }
        let w0 = if wi == 0 { bucket_word_exec(random.w0, s) } else { 0 };
        let w1 = if wi == 1 { bucket_word_exec(random.w1, s) } else if wi < 1 { random.w1 } else { 0 };
        let w2 = if wi == 2 { bucket_word_exec(random.w2, s) } else if wi < 2 { random.w2 } else { 0 };
        let w3 = if wi == 3 { bucket_word_exec(random.w3, s) } else { random.w3 };
        let dist = Distance { w0, w1, w2, w3 };
        let r = local_key.for_distance(&dist);
        r
    }
}

fn bucket_word_exec(x: u64, s: u64) -> (r: u64)
    requires
        s < 64,
    ensures
        r == bucket_word(x, s),
{
    (x & (0xffff_ffff_ffff_ffffu64 >> s)) | (1u64 << (63 - s))
}


/// The lowercase hexadecimal digit of `n`.
pub open spec fn hex_digit(n: int) -> char {
    if n < 10 {
        ((n + 48) as u8) as char
    } else {
        ((n + 87) as u8) as char
    }
}

/// Nibble `i` of a key, the most significant first.
pub open spec fn nibble(k: Key, i: int) -> int {
    let w = if i / 16 == 0 {
        k.w0
    } else if i / 16 == 1 {
        k.w1
    } else if i / 16 == 2 {
        k.w2
    } else {
        k.w3
    };
    ((w >> ((60 - 4 * (i % 16)) as u64)) & 15u64) as int
}

/// The 64 lowercase hexadecimal digits of a key, most significant first.
pub open spec fn key_hex(k: Key) -> Seq<char> {
    Seq::new(64, |i: int| hex_digit(nibble(k, i)))
}

fn hex_str(n: u64) -> (r: &'static str)
    requires
        n < 16,
    ensures
        r@ == seq![hex_digit(n as int)],
{
    proof {
        reveal_strlit("0");
        reveal_strlit("1");
        reveal_strlit("2");
        reveal_strlit("3");
        reveal_strlit("4");
        reveal_strlit("5");
        reveal_strlit("6");
        reveal_strlit("7");
        reveal_strlit("8");
        reveal_strlit("9");
        reveal_strlit("a");
        reveal_strlit("b");
        reveal_strlit("c");
        reveal_strlit("d");
        reveal_strlit("e");
        reveal_strlit("f");
    }
    match n {
        0 => "0",
        1 => "1",
        2 => "2",
        3 => "3",
        4 => "4",
        5 => "5",
        6 => "6",
        7 => "7",
        8 => "8",
        9 => "9",
        10 => "a",
        11 => "b",
        12 => "c",
        13 => "d",
        14 => "e",
        _ => "f",
    }
}

impl Key {
    /// The key as 64 lowercase hexadecimal digits, most significant first.
    pub fn to_hex(&self) -> (r: String)
        ensures
            r@ == key_hex(*self),
    {
        let mut r = String::new();
        let words: [u64; 4] = [self.w0, self.w1, self.w2, self.w3];
        let mut i: usize = 0;
        while i < 64
            invariant
                i <= 64,
                words@ == seq![self.w0, self.w1, self.w2, self.w3],
                r@ == key_hex(*self).subrange(0, i as int),
            decreases 64 - i,
        {
            let w = words[i / 16];
            let shift = (60 - 4 * (i % 16)) as u64;
            let n = (w >> shift) & 15;
            assert(n < 16) by (bit_vector)
                requires
                    n == (w >> shift) & 15,
            ;
            let d = hex_str(n);
            r.append(d);
            assert(r@ =~= key_hex(*self).subrange(0, i + 1));
            i = i + 1;
        }
        r
    }
}

} // verus!
