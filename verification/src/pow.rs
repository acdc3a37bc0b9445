//! The proof-of-work codec and verifier: 256-bit difficulty arithmetic, the
//! seal structure with its fixed-width encoding, the multiplicative difficulty
//! test, seal verification, and the nonce search of the miner.

use vstd::prelude::*;

verus! {

/// 2 to the 64th power, the weight of the upper half of a `u128`.
pub const BASE64: u128 = 0x1_0000_0000_0000_0000;

/// A 256-bit unsigned integer, as two 128-bit halves.
#[derive(Clone, Copy, PartialEq, Eq, Structural, Debug)]
pub struct U256 {
    pub lo: u128,
    pub hi: u128,
}

/// The value of a `U256`.
pub open spec fn u256_val(x: U256) -> int {
    x.lo + x.hi * 0x1_0000_0000_0000_0000_0000_0000_0000_0000
}

impl U256 {
    /// The 256-bit integer with the given value.
    pub fn from_u64(v: u64) -> (r: U256)
        ensures
            u256_val(r) == v,
    {
        U256 { lo: v as u128, hi: 0 }
    }
}

/// The value of a byte string read as a big-endian integer.
pub open spec fn be_val(s: Seq<u8>) -> int
    decreases s.len(),
{
    if s.len() == 0 {
        0
    } else {
        be_val(s.drop_last()) * 256 + s.last()
    }
}

/// 256 to the `n`th power: the weight of a byte `n` places from the end.
pub open spec fn pow256(n: nat) -> int
    decreases n,
{
    if n == 0 {
        1
    } else {
        256 * pow256((n - 1) as nat)
    }
}

proof fn lemma_be_val_bounds(s: Seq<u8>)
    ensures
        0 <= be_val(s) < pow256(s.len()),
    decreases s.len(),
{
    if s.len() > 0 {
        lemma_be_val_bounds(s.drop_last());
        assert(be_val(s.drop_last()) * 256 <= (pow256((s.len() - 1) as nat) - 1) * 256) by (nonlinear_arith)
            requires
                be_val(s.drop_last()) <= pow256((s.len() - 1) as nat) - 1,
        ;
    }
}

/// Reads at most 16 bytes as a big-endian integer.
fn u128_from_be(s: &[u8]) -> (r: u128)
    requires
        s@.len() <= 16,
    ensures
        r == be_val(s@),
{
    proof {
        reveal_with_fuel(pow256, 17);
    }
    let mut r: u128 = 0;
    let mut i: usize = 0;
    while i < s.len()
        invariant
            i <= s@.len() <= 16,
            r == be_val(s@.take(i as int)),
            r < pow256(i as nat),
            pow256(16) == 0x1_0000_0000_0000_0000_0000_0000_0000_0000,
            forall|n: nat| n < 16 ==> #[trigger] pow256(n) * 256 == pow256(n + 1),
        decreases s@.len() - i,
    {
        let b = s[i];
        proof {
            assert(s@.take(i + 1 as int).drop_last() =~= s@.take(i as int));
            lemma_pow256_pos(i as nat);
            assert(r * 256 + b < pow256(i as nat) * 256) by (nonlinear_arith)
                requires
                    r < pow256(i as nat),
                    b < 256,
                    pow256(i as nat) >= 1,
            ;
            lemma_pow256_mono((i + 1) as nat, 16);
        }
        r = r * 256 + (b as u128);
        i = i + 1;
    }
    proof {
        assert(s@.take(s@.len() as int) =~= s@);
    }
    r
}

proof fn lemma_pow256_pos(n: nat)
    ensures
        pow256(n) >= 1,
    decreases n,
{
    if n > 0 {
        lemma_pow256_pos((n - 1) as nat);
    }
}

proof fn lemma_pow256_mono(m: nat, n: nat)
    requires
        m <= n,
    ensures
        pow256(m) <= pow256(n),
    decreases n,
{
    if m < n {
        lemma_pow256_mono(m, (n - 1) as nat);
        lemma_pow256_pos((n - 1) as nat);
    }
}

/// Splitting a byte string splits its big-endian value by place weight.
proof fn lemma_be_val_concat(a: Seq<u8>, b: Seq<u8>)
    ensures
        be_val(a + b) == be_val(a) * pow256(b.len()) + be_val(b),
    decreases b.len(),
{
    if b.len() == 0 {
        assert(a + b =~= a);
    } else {
        lemma_be_val_concat(a, b.drop_last());
        assert((a + b).drop_last() =~= a + b.drop_last());
        assert((a + b).last() == b.last());
        assert((be_val(a) * pow256((b.len() - 1) as nat) + be_val(b.drop_last())) * 256 == be_val(
            a,
        ) * (pow256((b.len() - 1) as nat) * 256) + be_val(b.drop_last()) * 256) by (nonlinear_arith);
    }
}

/// Reads 32 bytes as a big-endian 256-bit integer, the way a proof-of-work
/// hash is compared against a difficulty.
pub fn u256_from_be_bytes(s: &[u8]) -> (r: U256)
    requires
        s@.len() == 32,
    ensures
        u256_val(r) == be_val(s@),
{
    let hi = u128_from_be(crate::util::slice_subrange_u8(s, 0, 16));
    let lo = u128_from_be(crate::util::slice_subrange_u8(s, 16, 32));
    proof {
        assert(s@ =~= s@.subrange(0, 16) + s@.subrange(16, 32));
        lemma_be_val_concat(s@.subrange(0, 16), s@.subrange(16, 32));
        reveal_with_fuel(pow256, 17);
        lemma_be_val_bounds(s@.subrange(16, 32));
    }
    U256 { lo, hi }
}

/// Multiplies two 128-bit integers into a 256-bit result, high half first.
#[verifier::rlimit(50)]
fn mul_u128(a: u128, b: u128) -> (r: (u128, u128))
    ensures
        r.0 * 0x1_0000_0000_0000_0000_0000_0000_0000_0000 + r.1 == a * b,
{
    let a1 = a / BASE64;
    let a0 = a % BASE64;
    let b1 = b / BASE64;
    let b0 = b % BASE64;
    proof {
        assert(a0 * b0 < BASE64 * BASE64 && a0 * b1 < BASE64 * BASE64 && a1 * b0 < BASE64 * BASE64
            && a1 * b1 < BASE64 * BASE64) by (nonlinear_arith)
            requires
                a0 < BASE64 && a1 < BASE64 && b0 < BASE64 && b1 < BASE64,
        ;
    }
    let p00 = a0 * b0;
    let p01 = a0 * b1;
    let p10 = a1 * b0;
    let p11 = a1 * b1;
    proof {
        assert(p00 <= (BASE64 - 1) * (BASE64 - 1) && p01 <= (BASE64 - 1) * (BASE64 - 1) && p10 <= (
        BASE64 - 1) * (BASE64 - 1)) by (nonlinear_arith)
            requires
                p00 == a0 * b0 && p01 == a0 * b1 && p10 == a1 * b0,
                a0 < BASE64 && a1 < BASE64 && b0 < BASE64 && b1 < BASE64,
        ;
        assert(p00 / BASE64 <= BASE64 - 2 && p01 / BASE64 <= BASE64 - 2 && p10 / BASE64 <= BASE64
            - 2 && p11 <= (BASE64 - 1) * (BASE64 - 1)) by (nonlinear_arith)
            requires
                p00 <= (BASE64 - 1) * (BASE64 - 1),
                p01 <= (BASE64 - 1) * (BASE64 - 1),
                p10 <= (BASE64 - 1) * (BASE64 - 1),
                p11 == a1 * b1,
                a1 < BASE64 && b1 < BASE64,
        ;
    }
    let mid = p00 / BASE64 + p01 % BASE64 + p10 % BASE64;
    proof {
        assert(mid / BASE64 <= 2) by (nonlinear_arith)
            requires
                mid < 3 * BASE64,
        ;
    }
    let lo = p00 % BASE64 + (mid % BASE64) * BASE64;
    let hi = p11 + p01 / BASE64 + p10 / BASE64 + mid / BASE64;
    proof {
        let s = BASE64 as int;
        let p00h = p00 as int / s;
        let p00l = p00 as int % s;
        let p01h = p01 as int / s;
        let p01l = p01 as int % s;
        let p10h = p10 as int / s;
        let p10l = p10 as int % s;
        let midh = mid as int / s;
        let midl = mid as int % s;
        assert(hi * (s * s) + lo == a * b) by (nonlinear_arith)
            requires
                s == BASE64,
                a == a1 * s + a0,
                b == b1 * s + b0,
                p00 == a0 * b0 && p01 == a0 * b1 && p10 == a1 * b0 && p11 == a1 * b1,
                mid == p00h + p01l + p10l,
                lo == p00l + midl * s,
                hi == p11 + p01h + p10h + midh,
                p00 == p00h * s + p00l,
                p01 == p01h * s + p01l,
                p10 == p10h * s + p10l,
                mid == midh * s + midl,
        ;
        assert(BASE64 * BASE64 == 0x1_0000_0000_0000_0000_0000_0000_0000_0000);
    }
    (hi, lo)
}

/// Whether a hash value meets a difficulty: their product must fit in 256
/// bits. A larger difficulty admits proportionally smaller hashes; difficulty
/// zero admits every hash.
pub open spec fn spec_meets_difficulty(work_val: int, difficulty: U256) -> bool {
    work_val * u256_val(difficulty)
        < 0x1_0000_0000_0000_0000_0000_0000_0000_0000_0000_0000_0000_0000_0000_0000_0000_0000
}

/// Decides the difficulty test for a 256-bit hash value: multiplies it by the
/// difficulty and reports whether the product stays within 256 bits.
#[verifier::rlimit(50)]
pub fn u256_meets_difficulty(h: U256, d: U256) -> (r: bool)
    ensures
        r == spec_meets_difficulty(u256_val(h), d),
{
    let ghost t = 0x1_0000_0000_0000_0000_0000_0000_0000_0000int;
    if h.hi != 0 && d.hi != 0 {
        proof {
            assert(u256_val(h) * u256_val(d) >= t * t) by (nonlinear_arith)
                requires
                    u256_val(h) >= t && u256_val(d) >= t,
                    t > 0,
            ;
            assert(u256_val(h) >= t) by (nonlinear_arith)
                requires
                    h.hi >= 1,
                    h.lo >= 0,
                    t == 0x1_0000_0000_0000_0000_0000_0000_0000_0000,
                    u256_val(h) == h.lo + h.hi * t,
            ;
            assert(u256_val(d) >= t) by (nonlinear_arith)
                requires
                    d.hi >= 1,
                    d.lo >= 0,
                    t == 0x1_0000_0000_0000_0000_0000_0000_0000_0000,
                    u256_val(d) == d.lo + d.hi * t,
            ;
        }
        return false;
    }
    let (x1h, x1l) = mul_u128(h.lo, d.hi);
    let (x2h, x2l) = mul_u128(h.hi, d.lo);
    let (x0h, x0l) = mul_u128(h.lo, d.lo);
    let sum_ok: bool = match x1l.checked_add(x2l) {
        Some(s1) => match s1.checked_add(x0h) {
            Some(_) => true,
            None => false,
        },
        None => false,
    };
    let r = x1h == 0 && x2h == 0 && sum_ok;
    proof {
        let hv = u256_val(h);
        let dv = u256_val(d);
        let mid = x1l + x2l + x0h;
        assert(h.hi * d.hi == 0);
        assert(hv * dv == h.lo * dv + (h.hi * dv) * t) by (nonlinear_arith)
            requires
                hv == h.lo + h.hi * t,
        ;
        assert(h.lo * dv == h.lo * d.lo + (h.lo * d.hi) * t) by (nonlinear_arith)
            requires
                dv == d.lo + d.hi * t,
        ;
        assert((h.hi * dv) * t == (h.hi * d.lo) * t + (h.hi * d.hi) * (t * t)) by (nonlinear_arith)
            requires
                dv == d.lo + d.hi * t,
        ;
        assert(hv * dv == (h.lo * d.lo) + (h.lo * d.hi) * t + (h.hi * d.lo) * t + (h.hi * d.hi) * (
        t * t));
        assert((h.lo * d.hi) * t == x1h * (t * t) + x1l * t && (h.hi * d.lo) * t == x2h * (t * t)
            + x2l * t) by (nonlinear_arith)
            requires
                x1h * t + x1l == h.lo * d.hi,
                x2h * t + x2l == h.hi * d.lo,
        ;
        assert(hv * dv == (h.hi * d.hi) * (t * t) + (x1h + x2h) * (t * t) + mid * t + x0l)
            by (nonlinear_arith)
            requires
                hv * dv == (h.lo * d.lo) + (h.lo * d.hi) * t + (h.hi * d.lo) * t + (h.hi * d.hi) * (
                t * t),
                (h.lo * d.hi) * t == x1h * (t * t) + x1l * t,
                (h.hi * d.lo) * t == x2h * (t * t) + x2l * t,
                x0h * t + x0l == h.lo * d.lo,
                mid == x1l + x2l + x0h,
        ;
        if x1h == 0 && x2h == 0 && mid < t {
            assert(mid * t + x0l < t * t) by (nonlinear_arith)
                requires
                    0 <= mid < t,
                    0 <= x0l < t,
                    t == 0x1_0000_0000_0000_0000_0000_0000_0000_0000,
            ;
        } else if x1h != 0 || x2h != 0 {
            assert((x1h + x2h) * (t * t) >= t * t && mid * t >= 0) by (nonlinear_arith)
                requires
                    x1h + x2h >= 1,
                    mid >= 0,
                    t == 0x1_0000_0000_0000_0000_0000_0000_0000_0000,
            ;
        } else {
            assert(mid * t >= t * t) by (nonlinear_arith)
                requires
                    mid >= t,
                    t == 0x1_0000_0000_0000_0000_0000_0000_0000_0000,
            ;
        }
        assert(sum_ok == (mid < t));
    }
    r
}

/// A 256-bit hash value: exactly 32 bytes.
pub struct H256 {
    pub bytes: Vec<u8>,
}

impl View for H256 {
    type V = Seq<u8>;

    open spec fn view(&self) -> Seq<u8> {
        self.bytes@
    }
}

impl H256 {
    /// A hash value from its 32 bytes.
    pub fn from_bytes(bytes: Vec<u8>) -> (r: H256)
        requires
            bytes@.len() == 32,
        ensures
            r@ == bytes@,
    {
        H256 { bytes }
    }

    /// An owned copy of the hash value.
    pub fn duplicate(&self) -> (r: H256)
        ensures
            r@ == self@,
    {
        H256 { bytes: crate::util::slice_to_vec_u8(self.bytes.as_slice()) }
    }
}

/// The raw result of the SHA3-256 digest, named; only `sha3_of` reads it.
pub uninterp spec fn sha3_raw(bytes: Seq<u8>) -> Seq<u8>;

/// The SHA3-256 digest of a byte string: a function of the input alone, with a
/// 256-bit result.
pub open spec fn sha3_of(bytes: Seq<u8>) -> Seq<u8> {
    if sha3_raw(bytes).len() == 32 {
        sha3_raw(bytes)
    } else {
        Seq::new(32, |i: int| 0u8)
    }
}

/// Relies on sha3::Sha3_256 (through the digest crate's `Digest::digest`): the
/// SHA3-256 digest, 32 bytes that depend on the input bytes alone.
#[verifier::external_body]
fn sha3_256(data: &[u8]) -> (r: Vec<u8>)
    ensures
        r@ == sha3_raw(data@),
        r@.len() == 32,
{
    <sha3::Sha3_256 as sha3::Digest>::digest(data).to_vec()
}

/// Relies on rand::rngs::ThreadRng (via rand::thread_rng) and `Rng::fill`: 32
/// bytes from the thread-local generator, which reseeds itself from operating
/// system entropy. Nothing is promised of the values.
#[verifier::external_body]
fn random_nonce_bytes() -> (r: Vec<u8>)
    ensures
        r@.len() == 32,
{
    let mut bytes = [0u8; 32];
    rand::Rng::fill(&mut rand::thread_rng(), &mut bytes[..]);
    bytes.to_vec()
}

/// The mathematical content of a seal.
pub struct SealData {
    pub difficulty: U256,
    pub work: Seq<u8>,
    pub nonce: Seq<u8>,
}

/// A proof-of-work seal: the difficulty it was mined against, the work hash,
/// and the nonce that produced it.
pub struct Seal {
    pub difficulty: U256,
    pub work: H256,
    pub nonce: H256,
}

impl View for Seal {
    type V = SealData;

    open spec fn view(&self) -> SealData {
        SealData { difficulty: self.difficulty, work: self.work@, nonce: self.nonce@ }
    }
}

/// The mathematical content of a sealing attempt.
pub struct ComputeData {
    pub difficulty: U256,
    pub pre_hash: Seq<u8>,
    pub nonce: Seq<u8>,
}

/// A not-yet-computed attempt to solve the proof of work: hashing its
/// encoding yields the work of the seal.
pub struct Compute {
    pub difficulty: U256,
    pub pre_hash: H256,
    pub nonce: H256,
}

impl View for Compute {
    type V = ComputeData;

    open spec fn view(&self) -> ComputeData {
        ComputeData { difficulty: self.difficulty, pre_hash: self.pre_hash@, nonce: self.nonce@ }
    }
}

/// The 32-byte little-endian encoding of a 256-bit integer.
pub open spec fn spec_u256_le_bytes(x: U256) -> Seq<u8> {
    vstd::bytes::spec_u128_to_le_bytes(x.lo) + vstd::bytes::spec_u128_to_le_bytes(x.hi)
}

/// The encoding of a sealing attempt: difficulty, pre-hash, nonce.
pub open spec fn spec_encode_compute(c: ComputeData) -> Seq<u8> {
    spec_u256_le_bytes(c.difficulty) + c.pre_hash + c.nonce
}

/// The seal that a sealing attempt produces: its work is the digest of the
/// attempt's encoding.
pub open spec fn spec_compute_seal(c: ComputeData) -> SealData {
    SealData { difficulty: c.difficulty, work: sha3_of(spec_encode_compute(c)), nonce: c.nonce }
}

/// The 96-byte encoding of a seal: difficulty, work, nonce.
pub open spec fn spec_encode_seal(s: SealData) -> Seq<u8> {
    spec_u256_le_bytes(s.difficulty) + s.work + s.nonce
}

/// The seal read from the first 96 bytes, or nothing if fewer are given.
pub open spec fn spec_decode_seal(bytes: Seq<u8>) -> Option<SealData> {
    if bytes.len() < 96 {
        None
    } else {
        Some(
            SealData {
                difficulty: U256 {
                    lo: vstd::bytes::spec_u128_from_le_bytes(bytes.subrange(0, 16)),
                    hi: vstd::bytes::spec_u128_from_le_bytes(bytes.subrange(16, 32)),
                },
                work: bytes.subrange(32, 64),
                nonce: bytes.subrange(64, 96),
            },
        )
    }
}

/// What it means for a seal to verify against a pre-hash and difficulty: the
/// bytes decode, the work meets the difficulty, and the seal is bit for bit
/// the one recomputed from the difficulty, the pre-hash and its own nonce.
pub open spec fn spec_verify(pre_hash: Seq<u8>, difficulty: U256, seal_bytes: Seq<u8>) -> bool {
    match spec_decode_seal(seal_bytes) {
        None => false,
        Some(s) => spec_meets_difficulty(be_val(s.work), difficulty) && s == spec_compute_seal(
            ComputeData { difficulty, pre_hash, nonce: s.nonce },
        ),
    }
}

/// Writes a 256-bit integer as 32 little-endian bytes.
pub fn u256_to_le_bytes(x: U256) -> (r: Vec<u8>)
    ensures
        r@ == spec_u256_le_bytes(x),
        r@.len() == 32,
{
    let mut r = vstd::bytes::u128_to_le_bytes(x.lo);
    let mut hi = vstd::bytes::u128_to_le_bytes(x.hi);
    r.append(&mut hi);
    r
}

/// Whether the given hash satisfies the given difficulty: the hash, read as a
/// big-endian 256-bit integer, multiplied by the difficulty must not overflow
/// 256 bits.
pub fn hash_meets_difficulty(hash: &H256, difficulty: U256) -> (r: bool)
    requires
        hash@.len() == 32,
    ensures
        r == spec_meets_difficulty(be_val(hash@), difficulty),
{
    let num_hash = u256_from_be_bytes(hash.bytes.as_slice());
    u256_meets_difficulty(num_hash, difficulty)
}

impl Compute {
    /// The fields hold hashes of the right width.
    pub open spec fn wf(&self) -> bool {
        self.pre_hash@.len() == 32 && self.nonce@.len() == 32
    }

    /// The encoding of the attempt, the pre-image of the work hash.
    pub fn encode(&self) -> (r: Vec<u8>)
        ensures
            r@ == spec_encode_compute(self@),
    {
        let mut r = u256_to_le_bytes(self.difficulty);
        let mut pre = crate::util::slice_to_vec_u8(self.pre_hash.bytes.as_slice());
        let mut nonce = crate::util::slice_to_vec_u8(self.nonce.bytes.as_slice());
        r.append(&mut pre);
        r.append(&mut nonce);
        r
    }

    /// Computes the seal of this attempt: hashes the encoding into the work.
    pub fn compute(self) -> (r: Seal)
        requires
            self.wf(),
        ensures
            r@ == spec_compute_seal(self@),
            r.wf(),
    {
        let encoded = self.encode();
        let digest = sha3_256(encoded.as_slice());
        let work = H256::from_bytes(digest);
        Seal { nonce: self.nonce, difficulty: self.difficulty, work }
    }
}

impl Seal {
    /// The fields hold hashes of the right width.
    pub open spec fn wf(&self) -> bool {
        self.work@.len() == 32 && self.nonce@.len() == 32
    }

    /// The 96-byte encoding of the seal.
    pub fn encode(&self) -> (r: Vec<u8>)
        ensures
            r@ == spec_encode_seal(self@),
    {
        let mut r = u256_to_le_bytes(self.difficulty);
        let mut work = crate::util::slice_to_vec_u8(self.work.bytes.as_slice());
        let mut nonce = crate::util::slice_to_vec_u8(self.nonce.bytes.as_slice());
        r.append(&mut work);
        r.append(&mut nonce);
        r
    }

    /// Reads a seal back from its encoding; fails on fewer than 96 bytes.
    pub fn decode(bytes: &[u8]) -> (r: Option<Seal>)
        ensures
            match r {
                Some(s) => spec_decode_seal(bytes@) == Some(s@) && s.wf(),
                None => spec_decode_seal(bytes@) is None,
            },
    {
        if bytes.len() < 96 {
            return None;
        }
        let lo = vstd::bytes::u128_from_le_bytes(crate::util::slice_subrange_u8(bytes, 0, 16));
        let hi = vstd::bytes::u128_from_le_bytes(crate::util::slice_subrange_u8(bytes, 16, 32));
        let work = H256::from_bytes(crate::util::slice_to_vec_u8(crate::util::slice_subrange_u8(
            bytes,
            32,
            64,
        )));
        let nonce = H256::from_bytes(crate::util::slice_to_vec_u8(crate::util::slice_subrange_u8(
            bytes,
            64,
            96,
        )));
        Some(Seal { difficulty: U256 { lo, hi }, work, nonce })
    }

    /// Compares two seals field by field.
    pub fn matches(&self, other: &Seal) -> (r: bool)
        ensures
            r == (self@ == other@),
    {
        let r = self.difficulty == other.difficulty && crate::util::bytes_vec_eq(
            &self.work.bytes,
            &other.work.bytes,
        ) && crate::util::bytes_vec_eq(&self.nonce.bytes, &other.nonce.bytes);
        r
    }
}

/// The encoding of a well-formed seal decodes back to the same seal.
pub proof fn lemma_seal_codec_round_trip(s: SealData)
    requires
        s.work.len() == 32,
        s.nonce.len() == 32,
    ensures
        spec_decode_seal(spec_encode_seal(s)) == Some(s),
{
    vstd::bytes::lemma_auto_spec_u128_to_from_le_bytes();
    let e = spec_encode_seal(s);
    assert(e.subrange(0, 16) =~= vstd::bytes::spec_u128_to_le_bytes(s.difficulty.lo));
    assert(e.subrange(16, 32) =~= vstd::bytes::spec_u128_to_le_bytes(s.difficulty.hi));
    assert(e.subrange(32, 64) =~= s.work);
    assert(e.subrange(64, 96) =~= s.nonce);
}

/// Verifies a seal: decodes it (failing closed on malformed bytes), tests the
/// work against the difficulty, and demands that the seal equal the one
/// recomputed from the pre-hash and its nonce.
pub fn verify_seal(pre_hash: &H256, difficulty: U256, seal: &[u8]) -> (r: bool)
    requires
        pre_hash@.len() == 32,
    ensures
        r == spec_verify(pre_hash@, difficulty, seal@),
{
    let decoded = match Seal::decode(seal) {
        Some(s) => s,
        None => {
            return false;
        },
    };
    if !hash_meets_difficulty(&decoded.work, difficulty) {
        return false;
    }
    let compute = Compute {
        difficulty,
        pre_hash: pre_hash.duplicate(),
        nonce: decoded.nonce.duplicate(),
    };
    let recomputed = compute.compute();
    recomputed.matches(&decoded)
}

/// Searches for a seal: draws up to `round` random nonces and returns the
/// encoding of the first seal whose work meets the difficulty. A zero budget
/// finds nothing; a zero difficulty is met by the first attempt.
pub fn mine(pre_hash: &H256, difficulty: U256, round: u32) -> (r: Option<Vec<u8>>)
    requires
        pre_hash@.len() == 32,
    ensures
        match r {
            Some(bytes) => spec_verify(pre_hash@, difficulty, bytes@),
            None => round == 0 || u256_val(difficulty) != 0,
        },
        round == 0 ==> r is None,
{
    let mut n: u32 = 0;
    if round == 0 {
        return None;
    }
    while n < round
        invariant
            pre_hash@.len() == 32,
            n > 0 ==> u256_val(difficulty) != 0,
        decreases round - n,
    {
        let nonce = H256::from_bytes(random_nonce_bytes());
        let compute = Compute { difficulty, pre_hash: pre_hash.duplicate(), nonce };
        let ghost cd = compute@;
        let seal = compute.compute();
        if hash_meets_difficulty(&seal.work, difficulty) {
            proof {
                lemma_seal_codec_round_trip(seal@);
            }
            return Some(seal.encode());
        }
        proof {
            if u256_val(difficulty) == 0 {
                assert(be_val(seal@.work) * u256_val(difficulty) == 0) by (nonlinear_arith)
                    requires
                        u256_val(difficulty) == 0,
                ;
                assert(false);
            }
        }
        n = n + 1;
    }
    None
}

/// Law: sealing and verifying round-trip. For every pre-hash, nonce and
/// difficulty, the encoded seal of a sealing attempt verifies against that
/// pre-hash and difficulty exactly when its work meets the difficulty — so a
/// zero difficulty, which every work value meets, always verifies, and a
/// difficulty too high for the computed work never does.
pub proof fn lemma_seal_round_trip(pre_hash: Seq<u8>, nonce: Seq<u8>, difficulty: U256)
    requires
        pre_hash.len() == 32,
        nonce.len() == 32,
    ensures
        ({
            let s = spec_compute_seal(ComputeData { difficulty, pre_hash, nonce });
            spec_verify(pre_hash, difficulty, spec_encode_seal(s)) == spec_meets_difficulty(
                be_val(s.work),
                difficulty,
            )
        }),
{
    let s = spec_compute_seal(ComputeData { difficulty, pre_hash, nonce });
    lemma_seal_codec_round_trip(s);
}

/// The proof-of-work algorithm with a fixed difficulty of one million.
pub struct MinimalSha3Algorithm;

impl MinimalSha3Algorithm {
    /// The required difficulty for the block after `parent`: a constant.
    pub fn difficulty(&self, parent: &H256) -> (r: U256)
        ensures
            u256_val(r) == 1000000,
    {
        let _ = parent;
        U256::from_u64(1000000)
    }

    /// Verifies an inbound seal; see `verify_seal`.
    pub fn verify(&self, pre_hash: &H256, seal: &[u8], difficulty: U256) -> (r: bool)
        requires
            pre_hash@.len() == 32,
        ensures
            r == spec_verify(pre_hash@, difficulty, seal@),
    {
        verify_seal(pre_hash, difficulty, seal)
    }

    /// Tries `round` nonces against the difficulty; see `mine`.
    pub fn mine(&self, pre_hash: &H256, difficulty: U256, round: u32) -> (r: Option<Vec<u8>>)
        requires
            pre_hash@.len() == 32,
        ensures
            match r {
                Some(bytes) => spec_verify(pre_hash@, difficulty, bytes@),
                None => round == 0 || u256_val(difficulty) != 0,
            },
            round == 0 ==> r is None,
    {
        mine(pre_hash, difficulty, round)
    }
}

/// The proof-of-work algorithm whose difficulty comes from the chain's own
/// runtime state. The embedder holds the client that answers difficulty
/// queries and passes each answer to `verify`.
pub struct Sha3Algorithm<C> {
    pub client: C,
}

impl<C> Sha3Algorithm<C> {
    /// An algorithm over the given runtime client.
    pub fn new(client: C) -> (r: Sha3Algorithm<C>) {
        Sha3Algorithm { client }
    }

    /// Verifies an inbound seal against the difficulty that the runtime
    /// reported for the parent block; see `verify_seal`.
    pub fn verify(&self, pre_hash: &H256, seal: &[u8], difficulty: U256) -> (r: bool)
        requires
            pre_hash@.len() == 32,
        ensures
            r == spec_verify(pre_hash@, difficulty, seal@),
    {
        verify_seal(pre_hash, difficulty, seal)
    }
}

} // verus!
