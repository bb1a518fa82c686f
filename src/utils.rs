use vstd::arithmetic::power2::*;
use vstd::prelude::*;

verus! {

/// Value of a big-endian byte string.
pub open spec fn be_value(s: Seq<u8>) -> nat
    decreases s.len(),
{
    if s.len() == 0 {
        0
    } else {
        be_value(s.drop_last()) * 256 + s.last() as nat
    }
}

/// Value of one ASCII hexadecimal digit (either case).
pub open spec fn hex_digit_value(c: u8) -> int {
    if 48 <= c <= 57 {
        c - 48
    } else if 97 <= c <= 102 {
        c - 87
    } else if 65 <= c <= 70 {
        c - 55
    } else {
        -1
    }
}

pub open spec fn is_hex_digit(c: u8) -> bool {
    hex_digit_value(c) >= 0
}

/// Bytes spelled by a text of hexadecimal digits, two digits per byte.
pub open spec fn hex_decode(text: Seq<u8>) -> Seq<u8> {
    Seq::new(
        text.len() / 2,
        |i: int| (hex_digit_value(text[2 * i]) * 16 + hex_digit_value(text[2 * i + 1])) as u8,
    )
}

/// The text drops its leading zero bytes.
pub open spec fn strip_zeros(s: Seq<u8>) -> Seq<u8>
    decreases s.len(),
{
    if s.len() > 0 && s[0] == 0 {
        strip_zeros(s.skip(1))
    } else {
        s
    }
}

/// Shortest big-endian form of a value; zero is a single zero byte.
pub open spec fn minimal_be(s: Seq<u8>) -> Seq<u8> {
    if strip_zeros(s).len() == 0 {
        seq![0u8]
    } else {
        strip_zeros(s)
    }
}

/// The eight big-endian bytes of `x`.
pub open spec fn u64_be(x: u64) -> Seq<u8> {
    Seq::new(8, |i: int| ((x as nat / pow2((8 * (7 - i)) as nat)) % 256) as u8)
}

/// A 256-bit unsigned integer, held as 32 big-endian bytes.
#[derive(Debug)]
pub struct U256 {
    pub bytes: Vec<u8>,
}

impl View for U256 {
    type V = Seq<u8>;

    open spec fn view(&self) -> Seq<u8> {
        self.bytes@
    }
}

impl U256 {
    pub open spec fn wf(&self) -> bool {
        self.bytes@.len() == 32
    }

    pub open spec fn value(&self) -> nat {
        be_value(self.bytes@)
    }

    /// The integer zero.
    pub fn zero() -> (r: U256)
        ensures
            r.wf(),
            r@ == Seq::new(32, |i: int| 0u8),
    {
        let mut bytes: Vec<u8> = Vec::new();
        let mut i: usize = 0;
        while i < 32
            invariant
                i <= 32,
                bytes@ == Seq::new(i as nat, |j: int| 0u8),
            decreases 32 - i,
        {
            bytes.push(0u8);
            i = i + 1;
            assert(bytes@ =~= Seq::new(i as nat, |j: int| 0u8));
        }
        U256 { bytes }
    }

    pub fn cloned(&self) -> (r: U256)
        ensures
            r@ == self@,
    {
        let mut bytes: Vec<u8> = Vec::new();
        let mut i: usize = 0;
        while i < self.bytes.len()
            invariant
                i <= self.bytes@.len(),
                bytes@ == self.bytes@.take(i as int),
            decreases self.bytes@.len() - i,
        {
            bytes.push(self.bytes[i]);
            i = i + 1;
            assert(bytes@ =~= self.bytes@.take(i as int));
        }
        assert(bytes@ =~= self.bytes@);
        U256 { bytes }
    }

    /// Whether two integers have the same bytes.
    pub fn same(&self, other: &U256) -> (r: bool)
        ensures
            r == (self@ == other@),
    {
        bytes_equal(&self.bytes, &other.bytes)
    }

    pub fn is_zero(&self) -> (r: bool)
        ensures
            r == (forall|i: int| 0 <= i < self@.len() ==> self@[i] == 0),
    {
        let mut i: usize = 0;
        while i < self.bytes.len()
            invariant
                i <= self.bytes@.len(),
                forall|j: int| 0 <= j < i ==> self.bytes@[j] == 0,
            decreases self.bytes@.len() - i,
        {
            if self.bytes[i] != 0 {
                assert(self@[i as int] != 0);
                return false;
            }
            i = i + 1;
        }
        true
    }

    /// Numeric comparison: whether `self < other`.
    pub fn lt(&self, other: &U256) -> (r: bool)
        requires
            self.wf(),
            other.wf(),
        ensures
            r == (self.value() < other.value()),
    {
        let a = &self.bytes;
        let b = &other.bytes;
        // sign of be_value(a[..i]) - be_value(b[..i])
        let mut ord: i8 = 0;
        let mut i: usize = 0;
        while i < 32
            invariant
                i <= 32,
                a@.len() == 32,
                b@.len() == 32,
                ord == 0 ==> be_value(a@.take(i as int)) == be_value(b@.take(i as int)),
                ord < 0 ==> be_value(a@.take(i as int)) < be_value(b@.take(i as int)),
                ord > 0 ==> be_value(a@.take(i as int)) > be_value(b@.take(i as int)),
            decreases 32 - i,
        {
            let x = a[i];
            let y = b[i];
            let ghost pa = be_value(a@.take(i as int));
            let ghost pb = be_value(b@.take(i as int));
            assert(a@.take(i + 1).drop_last() =~= a@.take(i as int));
            assert(b@.take(i + 1).drop_last() =~= b@.take(i as int));
            assert(be_value(a@.take(i + 1)) == pa * 256 + x);
            assert(be_value(b@.take(i + 1)) == pb * 256 + y);
            proof {
                if ord < 0 {
                    lemma_step_less(pa, pb, x, y);
                } else if ord > 0 {
                    lemma_step_less(pb, pa, y, x);
                }
            }
            if ord == 0 {
                if x < y {
                    ord = -1;
                } else if x > y {
                    ord = 1;
                }
            }
            i = i + 1;
        }
        assert(a@.take(32) =~= a@);
        assert(b@.take(32) =~= b@);
        ord < 0
    }
}

proof fn lemma_step_less(pa: nat, pb: nat, x: u8, y: u8)
    requires
        pa < pb,
    ensures
        pa * 256 + x < pb * 256 + y,
{
    assert(pa * 256 + 256 <= pb * 256) by (nonlinear_arith)
        requires
            pa < pb,
    ;
}

/// Whether two byte strings are equal.
pub fn bytes_equal(a: &Vec<u8>, b: &Vec<u8>) -> (r: bool)
    ensures
        r == (a@ == b@),
{
    if a.len() != b.len() {
        return false;
    }
    let mut i: usize = 0;
    while i < a.len()
        invariant
            i <= a@.len(),
            a@.len() == b@.len(),
            forall|j: int| 0 <= j < i ==> a@[j] == b@[j],
        decreases a@.len() - i,
    {
        if a[i] != b[i] {
            return false;
        }
        i = i + 1;
    }
    assert(a@ =~= b@);
    true
}

/// A copy of a byte string.
pub fn copy_bytes(a: &Vec<u8>) -> (r: Vec<u8>)
    ensures
        r@ == a@,
{
    let mut r: Vec<u8> = Vec::new();
    let mut i: usize = 0;
    while i < a.len()
        invariant
            i <= a@.len(),
            r@ == a@.take(i as int),
        decreases a@.len() - i,
    {
        r.push(a[i]);
        i = i + 1;
        assert(r@ =~= a@.take(i as int));
    }
    assert(r@ =~= a@);
    r
}

proof fn lemma_strip_zeros_skip(s: Seq<u8>, i: int)
    requires
        0 <= i <= s.len(),
        forall|j: int| 0 <= j < i ==> s[j] == 0,
    ensures
        strip_zeros(s) == strip_zeros(s.skip(i)),
    decreases i,
{
    if i > 0 {
        assert(s.skip(1).skip(i - 1) =~= s.skip(i));
        lemma_strip_zeros_skip(s.skip(1), i - 1);
    } else {
        assert(s.skip(0) =~= s);
    }
}

/// The shortest big-endian form of a big-endian byte string (one zero byte for zero).
pub fn minimal_be_bytes(s: &Vec<u8>) -> (r: Vec<u8>)
    ensures
        r@ == minimal_be(s@),
{
    let mut i: usize = 0;
    while i < s.len() && s[i] == 0
        invariant
            i <= s@.len(),
            forall|j: int| 0 <= j < i ==> s@[j] == 0,
        decreases s@.len() - i,
    {
        i = i + 1;
    }
    proof {
        lemma_strip_zeros_skip(s@, i as int);
    }
    let mut r: Vec<u8> = Vec::new();
    if i == s.len() {
        assert(strip_zeros(s@.skip(i as int)) =~= Seq::<u8>::empty());
        r.push(0u8);
        assert(r@ =~= seq![0u8]);
        return r;
    }
    assert(strip_zeros(s@.skip(i as int)) == s@.skip(i as int));
    let mut k: usize = i;
    while k < s.len()
        invariant
            i <= k <= s@.len(),
            r@ == s@.subrange(i as int, k as int),
        decreases s@.len() - k,
    {
        r.push(s[k]);
        k = k + 1;
        assert(r@ =~= s@.subrange(i as int, k as int));
    }
    assert(r@ =~= s@.skip(i as int));
    r
}

/// The eight big-endian bytes of an integer.
pub fn u64_to_be_bytes(x: u64) -> (r: Vec<u8>)
    ensures
        r@ == u64_be(x),
{
    let mut r: Vec<u8> = Vec::new();
    let mut i: usize = 0;
    while i < 8
        invariant
            i <= 8,
            r@ == u64_be(x).take(i as int),
        decreases 8 - i,
    {
        let shift: u64 = (8 * (7 - i)) as u64;
        let b: u8 = ((x >> shift) & 0xff) as u8;
        proof {
            lemma_shift_byte(x, shift);
        }
        r.push(b);
        i = i + 1;
        assert(r@ =~= u64_be(x).take(i as int));
    }
    assert(r@ =~= u64_be(x));
    r
}

proof fn lemma_shift_byte(x: u64, shift: u64)
    requires
        shift < 64,
    ensures
        ((x >> shift) & 0xff) as nat == (x as nat / pow2(shift as nat)) % 256,
{
    vstd::bits::lemma_u64_shr_is_div(x, shift);
    let y: u64 = x >> shift;
    assert(y & 0xff == y % 256) by (bit_vector);
}

/// Reads a text of hexadecimal digits, such as a hex digest, as a 256-bit integer.
/// The text must hold exactly 64 digits.
pub fn create_bigint_from_hash(hashed: &Vec<u8>) -> (r: Option<U256>)
    ensures
        r is Some <==> (hashed@.len() == 64 && forall|i: int|
            0 <= i < 64 ==> is_hex_digit(#[trigger] hashed@[i])),
        r matches Some(v) ==> v.wf() && v@ == hex_decode(hashed@),
{
    if hashed.len() != 64 {
        return None;
    }
    let mut bytes: Vec<u8> = Vec::new();
    let mut i: usize = 0;
    while i < 32
        invariant
            i <= 32,
            hashed@.len() == 64,
            forall|j: int| 0 <= j < 2 * i ==> is_hex_digit(#[trigger] hashed@[j]),
            bytes@ == hex_decode(hashed@).take(i as int),
        decreases 32 - i,
    {
        let hi = hex_digit(hashed[2 * i]);
        let lo = hex_digit(hashed[2 * i + 1]);
        if hi < 0 || lo < 0 {
            return None;
        }
        bytes.push((hi * 16 + lo) as u8);
        i = i + 1;
        assert(bytes@ =~= hex_decode(hashed@).take(i as int));
    }
    assert(bytes@ =~= hex_decode(hashed@));
    Some(U256 { bytes })
}

fn hex_digit(c: u8) -> (r: i16)
    ensures
        r == hex_digit_value(c),
{
    if 48 <= c && c <= 57 {
        c as i16 - 48
    } else if 97 <= c && c <= 102 {
        c as i16 - 87
    } else if 65 <= c && c <= 70 {
        c as i16 - 55
    } else {
        -1
    }
}

/// Names the hexadecimal text (as ASCII bytes) of the SHA-256 digest of `data`.
pub uninterp spec fn sha256_hex(data: Seq<u8>) -> Seq<u8>;

/// Relies on sha256::digest: the lowercase hex encoding (64 characters) of the
/// SHA-256 digest of the bytes, which depends on them alone.
#[verifier::external_body]
pub(crate) fn sha256_digest(data: &Vec<u8>) -> (r: Vec<u8>)
    ensures
        r@ == sha256_hex(data@),
        r@.len() == 64,
        forall|i: int| 0 <= i < 64 ==> is_hex_digit(#[trigger] r@[i]),
{
    sha256::digest(data.as_slice()).into_bytes()
}

/// The 256-bit integer that the hex digest of `data` spells.
pub open spec fn digest_value(data: Seq<u8>) -> Seq<u8> {
    hex_decode(sha256_hex(data))
}

/// SHA-256 of `data`, as a 256-bit integer.
pub fn hash_bytes(data: &Vec<u8>) -> (r: U256)
    ensures
        r.wf(),
        r@ == digest_value(data@),
{
    let text = sha256_digest(data);
    create_bigint_from_hash(&text).unwrap()
}

/// The 256-bit integer whose big-endian bytes are `bytes`, at most 32 of them.
pub fn create_bigint_from_bytes(bytes: &Vec<u8>) -> (r: U256)
    requires
        bytes@.len() <= 32,
    ensures
        r.wf(),
        r@ == Seq::new((32 - bytes@.len()) as nat, |i: int| 0u8) + bytes@,
{
    let pad: usize = 32 - bytes.len();
    let mut out: Vec<u8> = Vec::new();
    let mut i: usize = 0;
    while i < pad
        invariant
            i <= pad,
            out@ == Seq::new(i as nat, |j: int| 0u8),
        decreases pad - i,
    {
        out.push(0u8);
        i = i + 1;
        assert(out@ =~= Seq::new(i as nat, |j: int| 0u8));
    }
    let mut k: usize = 0;
    while k < bytes.len()
        invariant
            k <= bytes@.len(),
            pad == 32 - bytes@.len(),
            out@ == Seq::new(pad as nat, |j: int| 0u8) + bytes@.take(k as int),
        decreases bytes@.len() - k,
    {
        out.push(bytes[k]);
        k = k + 1;
        assert(out@ =~= Seq::new(pad as nat, |j: int| 0u8) + bytes@.take(k as int));
    }
    assert(bytes@.take(k as int) =~= bytes@);
    U256 { bytes: out }
}

} // verus!
