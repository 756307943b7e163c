use vstd::prelude::*;
use vstd::slice::slice_subrange;
use vstd::arithmetic::div_mod::lemma_add_mod_noop;
use vstd::bytes::{
    lemma_auto_spec_u128_to_from_le_bytes, lemma_auto_spec_u16_to_from_le_bytes,
    lemma_auto_spec_u32_to_from_le_bytes, lemma_auto_spec_u64_to_from_le_bytes,
    spec_u128_from_le_bytes, spec_u128_to_le_bytes, spec_u16_from_le_bytes, spec_u16_to_le_bytes,
    spec_u32_from_le_bytes, spec_u32_to_le_bytes, spec_u64_from_le_bytes, spec_u64_to_le_bytes,
    u128_from_le_bytes, u128_to_le_bytes, u16_from_le_bytes, u16_to_le_bytes, u32_from_le_bytes,
    u32_to_le_bytes, u64_from_le_bytes, u64_to_le_bytes,
};

verus! {

/// The alignments the arenas sort their storage by.
pub open spec fn is_supported_align(align: nat) -> bool {
    align == 1 || align == 2 || align == 4 || align == 8 || align == 16
}

/// Plain data that the arenas store as bytes: a value is its bytes, and every
/// byte pattern of the right length is a value.
pub trait Plain: Sized {
    /// The size of a value in bytes.
    spec fn spec_size() -> nat;

    /// The alignment class the value is stored in.
    spec fn spec_align() -> nat;

    /// The bytes of a value.
    spec fn spec_to_bytes(self) -> Seq<u8>;

    /// The value of bytes.
    spec fn spec_from_bytes(b: Seq<u8>) -> Self;

    fn size() -> (r: usize)
        ensures
            r == Self::spec_size(),
            1 <= r <= 32,
    ;

    fn align() -> (r: usize)
        ensures
            r == Self::spec_align(),
            is_supported_align(r as nat),
            r <= Self::spec_size(),
            Self::spec_size() % Self::spec_align() == 0,
    ;

    fn to_bytes(&self) -> (b: Vec<u8>)
        ensures
            b@ == self.spec_to_bytes(),
            b@.len() == Self::spec_size(),
    ;

    fn from_bytes(b: &[u8]) -> (v: Self)
        requires
            b@.len() == Self::spec_size(),
        ensures
            v == Self::spec_from_bytes(b@),
    ;

    /// Reading back the bytes of a value gives the value.
    proof fn lemma_roundtrip(v: Self)
        ensures
            Self::spec_from_bytes(v.spec_to_bytes()) == v,
            v.spec_to_bytes().len() == Self::spec_size(),
            1 <= Self::spec_size() <= 32,
            is_supported_align(Self::spec_align()),
            Self::spec_size() % Self::spec_align() == 0,
    ;
}

/// A single number: plain data of at most sixteen bytes, from which pairs are built.
pub trait Scalar: Plain {
    proof fn lemma_scalar_size()
        ensures
            Self::spec_size() <= 16,
    ;
}

impl Plain for u8 {
    open spec fn spec_size() -> nat {
        1
    }

    open spec fn spec_align() -> nat {
        1
    }

    open spec fn spec_to_bytes(self) -> Seq<u8> {
        seq![self]
    }

    open spec fn spec_from_bytes(b: Seq<u8>) -> u8 {
        b[0]
    }

    fn size() -> (r: usize) {
        1
    }

    fn align() -> (r: usize) {
        1
    }

    fn to_bytes(&self) -> (b: Vec<u8>) {
        let mut b: Vec<u8> = Vec::new();
        b.push(*self);
        assert(b@ =~= seq![*self]);
        b
    }

    fn from_bytes(b: &[u8]) -> (v: u8) {
        b[0]
    }

    proof fn lemma_roundtrip(v: u8) {
    }
}

impl Plain for u16 {
    open spec fn spec_size() -> nat {
        2
    }

    open spec fn spec_align() -> nat {
        2
    }

    open spec fn spec_to_bytes(self) -> Seq<u8> {
        spec_u16_to_le_bytes(self)
    }

    open spec fn spec_from_bytes(b: Seq<u8>) -> u16 {
        spec_u16_from_le_bytes(b)
    }

    fn size() -> (r: usize) {
        2
    }

    fn align() -> (r: usize) {
        2
    }

    fn to_bytes(&self) -> (b: Vec<u8>) {
        u16_to_le_bytes(*self)
    }

    fn from_bytes(b: &[u8]) -> (v: u16) {
        u16_from_le_bytes(b)
    }

    proof fn lemma_roundtrip(v: u16) {
        lemma_auto_spec_u16_to_from_le_bytes();
        assert(spec_u16_to_le_bytes(v).len() == Self::spec_size());
    }
}

impl Plain for u32 {
    open spec fn spec_size() -> nat {
        4
    }

    open spec fn spec_align() -> nat {
        4
    }

    open spec fn spec_to_bytes(self) -> Seq<u8> {
        spec_u32_to_le_bytes(self)
    }

    open spec fn spec_from_bytes(b: Seq<u8>) -> u32 {
        spec_u32_from_le_bytes(b)
    }

    fn size() -> (r: usize) {
        4
    }

    fn align() -> (r: usize) {
        4
    }

    fn to_bytes(&self) -> (b: Vec<u8>) {
        u32_to_le_bytes(*self)
    }

    fn from_bytes(b: &[u8]) -> (v: u32) {
        u32_from_le_bytes(b)
    }

    proof fn lemma_roundtrip(v: u32) {
        lemma_auto_spec_u32_to_from_le_bytes();
        assert(spec_u32_to_le_bytes(v).len() == Self::spec_size());
    }
}

impl Plain for u64 {
    open spec fn spec_size() -> nat {
        8
    }

    open spec fn spec_align() -> nat {
        8
    }

    open spec fn spec_to_bytes(self) -> Seq<u8> {
        spec_u64_to_le_bytes(self)
    }

    open spec fn spec_from_bytes(b: Seq<u8>) -> u64 {
        spec_u64_from_le_bytes(b)
    }

    fn size() -> (r: usize) {
        8
    }

    fn align() -> (r: usize) {
        8
    }

    fn to_bytes(&self) -> (b: Vec<u8>) {
        u64_to_le_bytes(*self)
    }

    fn from_bytes(b: &[u8]) -> (v: u64) {
        u64_from_le_bytes(b)
    }

    proof fn lemma_roundtrip(v: u64) {
        lemma_auto_spec_u64_to_from_le_bytes();
        assert(spec_u64_to_le_bytes(v).len() == Self::spec_size());
    }
}

impl Plain for u128 {
    open spec fn spec_size() -> nat {
        16
    }

    open spec fn spec_align() -> nat {
        16
    }

    open spec fn spec_to_bytes(self) -> Seq<u8> {
        spec_u128_to_le_bytes(self)
    }

    open spec fn spec_from_bytes(b: Seq<u8>) -> u128 {
        spec_u128_from_le_bytes(b)
    }

    fn size() -> (r: usize) {
        16
    }

    fn align() -> (r: usize) {
        16
    }

    fn to_bytes(&self) -> (b: Vec<u8>) {
        u128_to_le_bytes(*self)
    }

    fn from_bytes(b: &[u8]) -> (v: u128) {
        u128_from_le_bytes(b)
    }

    proof fn lemma_roundtrip(v: u128) {
        lemma_auto_spec_u128_to_from_le_bytes();
        assert(spec_u128_to_le_bytes(v).len() == Self::spec_size());
    }
}

impl Plain for i32 {
    open spec fn spec_size() -> nat {
        4
    }

    open spec fn spec_align() -> nat {
        4
    }

    open spec fn spec_to_bytes(self) -> Seq<u8> {
        spec_u32_to_le_bytes(self as u32)
    }

    open spec fn spec_from_bytes(b: Seq<u8>) -> i32 {
        spec_u32_from_le_bytes(b) as i32
    }

    fn size() -> (r: usize) {
        4
    }

    fn align() -> (r: usize) {
        4
    }

    fn to_bytes(&self) -> (b: Vec<u8>) {
        u32_to_le_bytes(*self as u32)
    }

    fn from_bytes(b: &[u8]) -> (v: i32) {
        u32_from_le_bytes(b) as i32
    }

    proof fn lemma_roundtrip(v: i32) {
        lemma_auto_spec_u32_to_from_le_bytes();
        assert(spec_u32_to_le_bytes(v as u32).len() == Self::spec_size());
        assert((v as u32) as i32 == v) by (bit_vector);
    }
}

impl Plain for i64 {
    open spec fn spec_size() -> nat {
        8
    }

    open spec fn spec_align() -> nat {
        8
    }

    open spec fn spec_to_bytes(self) -> Seq<u8> {
        spec_u64_to_le_bytes(self as u64)
    }

    open spec fn spec_from_bytes(b: Seq<u8>) -> i64 {
        spec_u64_from_le_bytes(b) as i64
    }

    fn size() -> (r: usize) {
        8
    }

    fn align() -> (r: usize) {
        8
    }

    fn to_bytes(&self) -> (b: Vec<u8>) {
        u64_to_le_bytes(*self as u64)
    }

    fn from_bytes(b: &[u8]) -> (v: i64) {
        u64_from_le_bytes(b) as i64
    }

    proof fn lemma_roundtrip(v: i64) {
        lemma_auto_spec_u64_to_from_le_bytes();
        assert(spec_u64_to_le_bytes(v as u64).len() == Self::spec_size());
        assert((v as u64) as i64 == v) by (bit_vector);
    }
}

impl Scalar for u8 {
    proof fn lemma_scalar_size() {
    }
}

impl Scalar for u16 {
    proof fn lemma_scalar_size() {
    }
}

impl Scalar for u32 {
    proof fn lemma_scalar_size() {
    }
}

impl Scalar for u64 {
    proof fn lemma_scalar_size() {
    }
}

impl Scalar for u128 {
    proof fn lemma_scalar_size() {
    }
}

impl Scalar for i32 {
    proof fn lemma_scalar_size() {
    }
}

impl Scalar for i64 {
    proof fn lemma_scalar_size() {
    }
}

/// Two numbers of one type side by side, as `(A, A)` is laid out: the first
/// number's bytes, then the second's.
impl<A: Scalar> Plain for (A, A) {
    open spec fn spec_size() -> nat {
        2 * A::spec_size()
    }

    open spec fn spec_align() -> nat {
        A::spec_align()
    }

    open spec fn spec_to_bytes(self) -> Seq<u8> {
        self.0.spec_to_bytes() + self.1.spec_to_bytes()
    }

    open spec fn spec_from_bytes(b: Seq<u8>) -> (A, A) {
        (
            A::spec_from_bytes(b.subrange(0, A::spec_size() as int)),
            A::spec_from_bytes(b.subrange(A::spec_size() as int, (2 * A::spec_size()) as int)),
        )
    }

    fn size() -> (r: usize) {
        proof {
            A::lemma_scalar_size();
        }
        let s = A::size();
        2 * s
    }

    fn align() -> (r: usize) {
        proof {
            A::lemma_scalar_size();
        }
        let a = A::align();
        proof {
            lemma_add_mod_noop(A::spec_size() as int, A::spec_size() as int, A::spec_align() as int);
        }
        a
    }

    fn to_bytes(&self) -> (b: Vec<u8>) {
        let mut b = self.0.to_bytes();
        let mut rest = self.1.to_bytes();
        b.append(&mut rest);
        b
    }

    fn from_bytes(b: &[u8]) -> (v: (A, A)) {
        proof {
            A::lemma_scalar_size();
        }
        let s = A::size();
        let first = A::from_bytes(slice_subrange(b, 0, s));
        let second = A::from_bytes(slice_subrange(b, s, 2 * s));
        (first, second)
    }

    proof fn lemma_roundtrip(v: (A, A)) {
        A::lemma_scalar_size();
        A::lemma_roundtrip(v.0);
        A::lemma_roundtrip(v.1);
        let bytes = v.0.spec_to_bytes() + v.1.spec_to_bytes();
        assert(bytes.subrange(0, A::spec_size() as int) =~= v.0.spec_to_bytes());
        assert(bytes.subrange(A::spec_size() as int, (2 * A::spec_size()) as int) =~= v.1.spec_to_bytes());
        lemma_add_mod_noop(A::spec_size() as int, A::spec_size() as int, A::spec_align() as int);
    }
}

/// Two numbers of one type in an array, laid out as `[A; 2]` is: the first
/// number's bytes, then the second's.
impl<A: Scalar> Plain for [A; 2] {
    open spec fn spec_size() -> nat {
        2 * A::spec_size()
    }

    open spec fn spec_align() -> nat {
        A::spec_align()
    }

    open spec fn spec_to_bytes(self) -> Seq<u8> {
        self[0].spec_to_bytes() + self[1].spec_to_bytes()
    }

    open spec fn spec_from_bytes(b: Seq<u8>) -> [A; 2] {
        [
            A::spec_from_bytes(b.subrange(0, A::spec_size() as int)),
            A::spec_from_bytes(b.subrange(A::spec_size() as int, (2 * A::spec_size()) as int)),
        ]
    }

    fn size() -> (r: usize) {
        proof {
            A::lemma_scalar_size();
        }
        let s = A::size();
        2 * s
    }

    fn align() -> (r: usize) {
        proof {
            A::lemma_scalar_size();
        }
        let a = A::align();
        proof {
            lemma_add_mod_noop(A::spec_size() as int, A::spec_size() as int, A::spec_align() as int);
        }
        a
    }

    fn to_bytes(&self) -> (b: Vec<u8>) {
        let mut b = self[0].to_bytes();
        let mut rest = self[1].to_bytes();
        b.append(&mut rest);
        b
    }

    fn from_bytes(b: &[u8]) -> (v: [A; 2]) {
        proof {
            A::lemma_scalar_size();
        }
        let s = A::size();
        let first = A::from_bytes(slice_subrange(b, 0, s));
        let second = A::from_bytes(slice_subrange(b, s, 2 * s));
        [first, second]
    }

    proof fn lemma_roundtrip(v: [A; 2]) {
        A::lemma_scalar_size();
        A::lemma_roundtrip(v[0]);
        A::lemma_roundtrip(v[1]);
        let bytes = v[0].spec_to_bytes() + v[1].spec_to_bytes();
        assert(bytes.subrange(0, A::spec_size() as int) =~= v[0].spec_to_bytes());
        assert(bytes.subrange(A::spec_size() as int, (2 * A::spec_size()) as int)
            =~= v[1].spec_to_bytes());
        lemma_add_mod_noop(A::spec_size() as int, A::spec_size() as int, A::spec_align() as int);
        assert(Self::spec_from_bytes(bytes) =~= v);
    }
}

} // verus!
