//! Identifiers, keys and the XOR metric.

use std::cmp::Ordering;
use vstd::prelude::*;
use vstd::std_specs::bits::u8_leading_zeros;
use vstd::std_specs::cmp::PartialOrdSpecImpl;

verus! {

/// The bytes of `a` and `b` combined position by position with XOR.
pub open spec fn xor_bytes(a: Seq<u8>, b: Seq<u8>) -> Seq<u8> {
    Seq::new(a.len(), |i: int| a[i] ^ b[i])
}

/// The number that a byte string denotes, most significant byte first.
pub open spec fn be_value(s: Seq<u8>) -> nat
    decreases s.len(),
{
    if s.len() == 0 {
        0
    } else {
        be_value(s.drop_last()) * 256 + s.last() as nat
    }
}

/// A 160-bit identifier of a node, or of a stored value.
#[derive(Clone, Copy, Debug, PartialEq, Eq, Hash)]
pub struct NodeId([u8; 20]);

/// Keys are drawn from the same space as node identifiers.
pub type Key = NodeId;

impl View for NodeId {
    type V = Seq<u8>;

    closed spec fn view(&self) -> Seq<u8> {
        self.0@
    }
}

impl NodeId {
    /// An identifier made of the given bytes.
    pub fn new(bytes: [u8; 20]) -> (id: NodeId)
        ensures
            id@ == bytes@,
    {
        NodeId(bytes)
    }

    /// The identifier's bytes, most significant first.
    pub fn as_bytes(&self) -> (bytes: &[u8])
        ensures
            bytes@ == self@,
    {
        self.0.as_slice()
    }

    /// Every identifier has twenty bytes.
    pub broadcast proof fn lemma_len(self)
        ensures
            #[trigger] self@.len() == 20,
    {
    }

    /// Identifiers with the same bytes are the same identifier.
    pub proof fn lemma_ext(self, other: NodeId)
        requires
            self@ == other@,
        ensures
            self == other,
    {
        assert(self.0 =~= other.0);
    }
}


/// The number of zero bits before the first set bit of a byte string, read
/// most significant byte first; its whole width in bits if no bit is set.
pub open spec fn leading_zero_bits(s: Seq<u8>) -> nat
    decreases s.len(),
{
    if s.len() == 0 {
        0
    } else if s[0] == 0 {
        8 + leading_zero_bits(s.skip(1))
    } else {
        u8_leading_zeros(s[0]) as nat
    }
}

/// XOR of a byte string with itself is zero everywhere.
pub proof fn lemma_xor_self(a: Seq<u8>)
    ensures
        xor_bytes(a, a) =~= Seq::new(a.len(), |i: int| 0u8),
{
    assert forall|i: int| 0 <= i < a.len() implies #[trigger] xor_bytes(a, a)[i] == 0u8 by {
        let x = a[i];
        assert(x ^ x == 0u8) by (bit_vector);
    }
}

/// XOR does not depend on the order of its arguments.
pub proof fn lemma_xor_commutes(a: Seq<u8>, b: Seq<u8>)
    requires
        a.len() == b.len(),
    ensures
        xor_bytes(a, b) =~= xor_bytes(b, a),
{
    assert forall|i: int| 0 <= i < a.len() implies #[trigger] xor_bytes(a, b)[i] == xor_bytes(
        b,
        a,
    )[i] by {
        let x = a[i];
        let y = b[i];
        assert(x ^ y == y ^ x) by (bit_vector);
    }
}

/// XOR with a fixed string can be undone: equal results come from equal inputs.
pub proof fn lemma_xor_cancels(a: Seq<u8>, b: Seq<u8>, t: Seq<u8>)
    requires
        a.len() == b.len(),
        a.len() == t.len(),
        xor_bytes(a, t) == xor_bytes(b, t),
    ensures
        a == b,
{
    assert forall|i: int| 0 <= i < a.len() implies a[i] == b[i] by {
        let x = a[i];
        let y = b[i];
        let z = t[i];
        assert(xor_bytes(a, t)[i] == x ^ z);
        assert(xor_bytes(b, t)[i] == y ^ z);
        assert(x ^ z == y ^ z ==> x == y) by (bit_vector);
    }
    assert(a =~= b);
}

/// A byte string denotes zero exactly when all its bytes are zero.
pub proof fn lemma_be_value_zero(s: Seq<u8>)
    ensures
        be_value(s) == 0 <==> (forall|i: int| 0 <= i < s.len() ==> s[i] == 0),
    decreases s.len(),
{
    if s.len() > 0 {
        lemma_be_value_zero(s.drop_last());
        let p = s.drop_last();
        if be_value(s) == 0 {
            assert(be_value(p) == 0 && s.last() == 0);
            assert forall|i: int| 0 <= i < s.len() implies s[i] == 0 by {
                if i < s.len() - 1 {
                    assert(p[i] == s[i]);
                }
            }
        }
        if forall|i: int| 0 <= i < s.len() ==> s[i] == 0 {
            assert forall|i: int| 0 <= i < p.len() implies p[i] == 0 by {
                assert(p[i] == s[i]);
            }
        }
    }
}

/// Byte strings of one length that denote the same number are equal.
pub proof fn lemma_be_value_injective(a: Seq<u8>, b: Seq<u8>)
    requires
        a.len() == b.len(),
        be_value(a) == be_value(b),
    ensures
        a == b,
    decreases a.len(),
{
    if a.len() > 0 {
        lemma_be_value_injective(a.drop_last(), b.drop_last());
        assert(a =~= a.drop_last().push(a.last()));
        assert(b =~= b.drop_last().push(b.last()));
    } else {
        assert(a =~= b);
    }
}

/// The XOR distance between two identifiers, a 160-bit number.
#[derive(Clone, Copy, Debug, PartialEq, Eq, Ord, Hash)]
pub struct Distance([u8; 20]);

impl View for Distance {
    type V = Seq<u8>;

    closed spec fn view(&self) -> Seq<u8> {
        self.0@
    }
}

impl Distance {
    /// The distance as a number: its bytes read most significant first.
    pub open spec fn value(&self) -> nat {
        be_value(self@)
    }

    /// The distance between `a` and `b`: their bytes combined with XOR.
    pub fn between(a: &NodeId, b: &NodeId) -> (d: Distance)
        ensures
            d@ == xor_bytes(a@, b@),
    {
        let mut result = [0u8; 20];
        let mut i: usize = 0;
        while i < 20
            invariant
                i <= 20,
                forall|j: int| 0 <= j < i ==> result@[j] == a.0@[j] ^ b.0@[j],
            decreases 20 - i,
        {
            result[i] = a.0[i] ^ b.0[i];
            i += 1;
        }
        assert(result@ =~= xor_bytes(a@, b@));
        Distance(result)
    }

    /// The number of leading zero bits, from 0 to 160; 160 for the zero
    /// distance.
    pub fn leading_zeros(&self) -> (n: u32)
        ensures
            n == leading_zero_bits(self@),
            n <= 160,
            n == 160 <==> self.value() == 0,
    {
        let mut i: usize = 0;
        assert(self.0@.skip(0) =~= self.0@);
        while i < 20
            invariant
                i <= 20,
                forall|j: int| 0 <= j < i ==> self.0@[j] == 0,
                leading_zero_bits(self.0@) == 8 * i + leading_zero_bits(self.0@.skip(i as int)),
            decreases 20 - i,
        {
            let byte = self.0[i];
            proof {
                let rest = self.0@.skip(i as int);
                assert(rest[0] == byte);
                assert(rest.skip(1) =~= self.0@.skip(i + 1));
                vstd::std_specs::bits::axiom_u8_leading_zeros(byte);
            }
            if byte != 0 {
                proof {
                    lemma_be_value_zero(self.0@);
                }
                return (i * 8) as u32 + byte.leading_zeros();
            }
            i += 1;
        }
        proof {
            assert(self.0@.skip(20).len() == 0);
            lemma_be_value_zero(self.0@);
        }
        160
    }

    /// The distance's bytes, most significant first.
    pub fn as_bytes(&self) -> (bytes: &[u8])
        ensures
            bytes@ == self@,
    {
        self.0.as_slice()
    }

    /// Whether this distance is smaller than `other`.
    pub fn is_less(&self, other: &Distance) -> (r: bool)
        ensures
            r == (self.value() < other.value()),
    {
        let mut i: usize = 0;
        let mut less = false;
        let mut equal = true;
        while i < 20
            invariant
                i <= 20,
                equal == (be_value(self.0@.take(i as int)) == be_value(other.0@.take(i as int))),
                less == (be_value(self.0@.take(i as int)) < be_value(other.0@.take(i as int))),
            decreases 20 - i,
        {
            proof {
                let a = self.0@.take(i + 1);
                let b = other.0@.take(i + 1);
                assert(a.drop_last() =~= self.0@.take(i as int));
                assert(b.drop_last() =~= other.0@.take(i as int));
                assert(a.last() == self.0@[i as int]);
                assert(b.last() == other.0@[i as int]);
            }
            if equal {
                if self.0[i] < other.0[i] {
                    less = true;
                    equal = false;
                } else if self.0[i] > other.0[i] {
                    equal = false;
                }
            }
            i += 1;
        }
        proof {
            assert(self.0@.take(20) =~= self.0@);
            assert(other.0@.take(20) =~= other.0@);
        }
        less
    }
}

impl NodeId {
    /// The XOR of two identifiers, as an identifier.
    pub fn distance(&self, other: &NodeId) -> (d: NodeId)
        ensures
            d@ == xor_bytes(self@, other@),
    {
        let mut result = [0u8; 20];
        let mut i: usize = 0;
        while i < 20
            invariant
                i <= 20,
                forall|j: int| 0 <= j < i ==> result@[j] == self.0@[j] ^ other.0@[j],
            decreases 20 - i,
        {
            result[i] = self.0[i] ^ other.0[i];
            i += 1;
        }
        assert(result@ =~= xor_bytes(self@, other@));
        NodeId(result)
    }

    /// Whether two identifiers are the same.
    pub fn same(&self, other: &NodeId) -> (r: bool)
        ensures
            r == (self@ == other@),
            r == (*self == *other),
    {
        let mut i: usize = 0;
        while i < 20
            invariant
                i <= 20,
                forall|j: int| 0 <= j < i ==> self.0@[j] == other.0@[j],
            decreases 20 - i,
        {
            if self.0[i] != other.0[i] {
                return false;
            }
            i += 1;
        }
        proof {
            assert(self.0@ =~= other.0@);
            self.lemma_ext(*other);
        }
        true
    }
}


impl PartialOrd for Distance {
    /// Distances are ordered as the numbers they denote.
    fn partial_cmp(&self, other: &Distance) -> (r: Option<Ordering>) {
        if self.is_less(other) {
            Some(Ordering::Less)
        } else if other.is_less(self) {
            Some(Ordering::Greater)
        } else {
            Some(Ordering::Equal)
        }
    }
}

impl PartialOrdSpecImpl for Distance {
    open spec fn obeys_partial_cmp_spec() -> bool {
        true
    }

    open spec fn partial_cmp_spec(&self, other: &Distance) -> Option<Ordering> {
        if self.value() < other.value() {
            Some(Ordering::Less)
        } else if other.value() < self.value() {
            Some(Ordering::Greater)
        } else {
            Some(Ordering::Equal)
        }
    }
}

/// Bytes that nothing is promised of, from the thread's random number
/// generator: `rand::thread_rng` and `RngCore::fill_bytes`.
#[verifier::external_body]
fn random_bytes() -> (bytes: [u8; 20]) {
    let mut bytes = [0u8; 20];
    rand::RngCore::fill_bytes(&mut rand::thread_rng(), &mut bytes);
    bytes
}

impl NodeId {
    /// An identifier drawn at random.
    pub fn random() -> (id: NodeId) {
        NodeId(random_bytes())
    }
}

/// The distance from an identifier to itself is zero; the distance between
/// two different identifiers is greater than zero.
pub proof fn distance_zero_iff_same(x: NodeId, y: NodeId)
    ensures
        be_value(xor_bytes(x@, x@)) == 0,
        x != y ==> be_value(xor_bytes(x@, y@)) > 0,
{
    lemma_xor_self(x@);
    lemma_be_value_zero(xor_bytes(x@, x@));
    if x != y {
        if be_value(xor_bytes(x@, y@)) == 0 {
            lemma_be_value_zero(xor_bytes(x@, y@));
            lemma_be_value_zero(xor_bytes(y@, y@));
            lemma_xor_self(y@);
            assert(xor_bytes(x@, y@) =~= xor_bytes(y@, y@));
            lemma_xor_cancels(x@, y@, y@);
            x.lemma_ext(y);
        }
    }
}

/// The distance from `x` to `y` is the distance from `y` to `x`.
pub proof fn distance_is_symmetric(x: NodeId, y: NodeId)
    ensures
        xor_bytes(x@, y@) == xor_bytes(y@, x@),
{
    lemma_xor_commutes(x@, y@);
}

/// The distance from an identifier to itself has 160 leading zero bits.
pub proof fn leading_zeros_of_zero_distance(x: NodeId)
    ensures
        leading_zero_bits(xor_bytes(x@, x@)) == 160,
{
    lemma_xor_self(x@);
    let z = xor_bytes(x@, x@);
    lemma_leading_zero_bits_of_zeros(z, 0);
    assert(z.skip(0) =~= z);
}

/// Two identifiers that differ in the least significant bit alone are at a
/// distance with 159 leading zero bits.
pub proof fn leading_zeros_of_unit_distance(x: NodeId, y: NodeId)
    requires
        y@ == x@.update(19, x@[19] ^ 1u8),
    ensures
        leading_zero_bits(xor_bytes(x@, y@)) == 159,
{
    let d = xor_bytes(x@, y@);
    assert forall|i: int| 0 <= i < 19 implies d[i] == 0u8 by {
        let b = x@[i];
        assert(b ^ b == 0u8) by (bit_vector);
    }
    let b = x@[19];
    assert(b ^ (b ^ 1u8) == 1u8) by (bit_vector);
    assert(d[19] == 1u8);
    vstd::std_specs::bits::axiom_u8_leading_zeros(1u8);
    let lz = u8_leading_zeros(1u8);
    assert(lz == 7) by {
        let s: u8 = (7 - lz) as u8;
        assert(s < 8 && (1u8 >> s) & 1u8 != 0u8 ==> s == 0) by (bit_vector);
    }
    lemma_leading_zero_bits_prefix(d, 19);
    assert(d.skip(19).len() == 1);
    assert(d.skip(19)[0] == 1u8);
}

/// Where the first `n` bytes are zero, they add eight leading zero bits each.
pub proof fn lemma_leading_zero_bits_prefix(s: Seq<u8>, n: int)
    requires
        0 <= n <= s.len(),
        forall|i: int| 0 <= i < n ==> s[i] == 0,
    ensures
        leading_zero_bits(s) == 8 * n + leading_zero_bits(s.skip(n)),
    decreases n,
{
    if n == 0 {
        assert(s.skip(0) =~= s);
    } else {
        lemma_leading_zero_bits_prefix(s, n - 1);
        let rest = s.skip(n - 1);
        assert(rest[0] == s[n - 1]);
        assert(rest.skip(1) =~= s.skip(n));
    }
}

/// A byte string that is zero from position `from` on has eight leading zero
/// bits for each of those bytes.
pub proof fn lemma_leading_zero_bits_of_zeros(s: Seq<u8>, from: int)
    requires
        0 <= from <= s.len(),
        forall|i: int| from <= i < s.len() ==> s[i] == 0,
    ensures
        leading_zero_bits(s.skip(from)) == 8 * (s.len() - from),
    decreases s.len() - from,
{
    if from < s.len() {
        lemma_leading_zero_bits_of_zeros(s, from + 1);
        let rest = s.skip(from);
        assert(rest[0] == s[from]);
        assert(rest.skip(1) =~= s.skip(from + 1));
    }
}


/// A byte whose highest set bit is bit number `bit`, counted from the most
/// significant, has that many leading zeros.
pub proof fn lemma_leading_zeros_of_byte(d: u8, bit: u8)
    requires
        bit < 8,
        d >> ((7 - bit) as u8) == 1,
    ensures
        u8_leading_zeros(d) == bit,
{
    vstd::std_specs::bits::axiom_u8_leading_zeros(d);
    let sh: u8 = (7 - bit) as u8;
    assert(d != 0) by (bit_vector)
        requires
            sh < 8,
            d >> sh == 1,
    ;
    let y: u8 = u8_leading_zeros(d) as u8;
    let hi: u8 = (7 - y) as u8;
    let top: u8 = (8 - y) as u8;
    assert(y == bit) by (bit_vector)
        requires
            y < 8,
            bit < 8,
            hi == 7 - y,
            top == 8 - y,
            sh == 7 - bit,
            (d >> hi) & 1u8 != 0u8,
            d >> top == 0,
            d >> sh == 1,
    ;
}

/// The XOR of the distances from `x` to `y` and from `y` to `z` is the
/// distance from `x` to `z`.
pub proof fn distance_composes(x: NodeId, y: NodeId, z: NodeId)
    ensures
        xor_bytes(xor_bytes(x@, y@), xor_bytes(y@, z@)) == xor_bytes(x@, z@),
{
    let l = xor_bytes(xor_bytes(x@, y@), xor_bytes(y@, z@));
    let r = xor_bytes(x@, z@);
    assert forall|i: int| 0 <= i < l.len() implies l[i] == r[i] by {
        let a = x@[i];
        let b = y@[i];
        let c = z@[i];
        assert((a ^ b) ^ (b ^ c) == a ^ c) by (bit_vector);
    }
    assert(l =~= r);
}

impl NodeId {
    /// An identifier that shares its first `bit` bits with this one and
    /// differs in the next; the bits after that are those of `filler`.
    pub fn diverging_at(&self, bit: usize, filler: &NodeId) -> (r: NodeId)
        requires
            bit < 160,
        ensures
            leading_zero_bits(xor_bytes(self@, r@)) == bit,
            forall|i: int| bit / 8 < i < 20 ==> r@[i] == filler@[i],
    {
        let byte = bit / 8;
        let within: u8 = (bit % 8) as u8;
        let mut out = filler.0;
        let mut i: usize = 0;
        while i < byte
            invariant
                i <= byte < 20,
                forall|j: int| 0 <= j < i ==> out@[j] == self.0@[j],
                forall|j: int| i <= j < 20 ==> out@[j] == filler.0@[j],
            decreases byte - i,
        {
            out[i] = self.0[i];
            i += 1;
        }
        let flip: u8 = 0x80u8 >> within;
        assert(flip >= 1) by (bit_vector)
            requires
                within < 8,
                flip == 0x80u8 >> within,
        ;
        let low: u8 = flip - 1;
        let keep: u8 = !(flip | low);
        let mine = self.0[byte];
        let other = filler.0[byte];
        let made: u8 = (mine & keep) | (!mine & flip) | (other & low);
        out[byte] = made;
        let r = NodeId(out);
        proof {
            let d = mine ^ made;
            let sh: u8 = (7 - within) as u8;
            assert(d >> sh == 1) by (bit_vector)
                requires
                    within < 8,
                    sh == 7 - within,
                    flip == 0x80u8 >> within,
                    low == flip - 1,
                    keep == !(flip | low),
                    made == (mine & keep) | (!mine & flip) | (other & low),
                    d == mine ^ made,
            ;
            lemma_leading_zeros_of_byte(d, within);
            let x = xor_bytes(self@, r@);
            assert forall|j: int| 0 <= j < byte implies x[j] == 0 by {
                let b = self.0@[j];
                assert(b ^ b == 0u8) by (bit_vector);
            }
            lemma_leading_zero_bits_prefix(x, byte as int);
            let rest = x.skip(byte as int);
            assert(rest[0] == d);
            assert(d != 0) by (bit_vector)
                requires
                    sh < 8,
                    d >> sh == 1,
            ;
        }
        r
    }
}


/// The bit number `i` of a byte string, counted from the most significant
/// bit of its first byte.
pub open spec fn bit_at(s: Seq<u8>, i: int) -> bool {
    (s[i / 8] >> ((7 - i % 8) as u8)) & 1u8 == 1u8
}

/// Where the leading zero bits of a byte string end: the bytes before that
/// place are zero, and the byte at that place is not and has the zeros that
/// remain.
pub proof fn lemma_leading_zero_bits_shape(s: Seq<u8>)
    ensures
        leading_zero_bits(s) <= 8 * s.len(),
        forall|j: int| 0 <= j < leading_zero_bits(s) / 8 && j < s.len() ==> s[j] == 0,
        leading_zero_bits(s) < 8 * s.len() ==> s[(leading_zero_bits(s) / 8) as int] != 0
            && u8_leading_zeros(s[(leading_zero_bits(s) / 8) as int]) == leading_zero_bits(s) % 8,
    decreases s.len(),
{
    if s.len() > 0 {
        vstd::std_specs::bits::axiom_u8_leading_zeros(s[0]);
        if s[0] == 0 {
            let rest = s.skip(1);
            lemma_leading_zero_bits_shape(rest);
            let n = leading_zero_bits(rest);
            assert(leading_zero_bits(s) == 8 + n);
            assert forall|j: int| 0 <= j < leading_zero_bits(s) / 8 && j < s.len() implies s[j]
                == 0 by {
                if j > 0 {
                    assert(rest[j - 1] == s[j]);
                }
            }
            if leading_zero_bits(s) < 8 * s.len() {
                assert(rest[(n / 8) as int] == s[(n / 8) as int + 1]);
            }
        }
    }
}

/// The leading zeros of a distance count the bits that the two identifiers
/// share at their start: those bits are the same in both, and the bit that
/// follows them, if there is one, is not.
pub proof fn leading_zeros_is_shared_prefix(x: NodeId, y: NodeId)
    ensures
        leading_zero_bits(xor_bytes(x@, y@)) <= 160,
        forall|i: int|
            0 <= i < leading_zero_bits(xor_bytes(x@, y@)) ==> #[trigger] bit_at(x@, i) == bit_at(
                y@,
                i,
            ),
        leading_zero_bits(xor_bytes(x@, y@)) < 160 ==> bit_at(
            x@,
            leading_zero_bits(xor_bytes(x@, y@)) as int,
        ) != bit_at(y@, leading_zero_bits(xor_bytes(x@, y@)) as int),
{
    let d = xor_bytes(x@, y@);
    let n = leading_zero_bits(d) as int;
    lemma_leading_zero_bits_shape(d);
    assert forall|i: int| 0 <= i < n implies #[trigger] bit_at(x@, i) == bit_at(y@, i) by {
        let q = i / 8;
        let a = x@[q];
        let b = y@[q];
        let e = d[q];
        let sh: u8 = (7 - i % 8) as u8;
        assert(e == a ^ b);
        if q < n / 8 {
            assert(e == 0);
            assert(a == b) by (bit_vector)
                requires
                    a ^ b == 0,
            ;
        } else {
            vstd::std_specs::bits::axiom_u8_leading_zeros(e);
            assert((e >> sh) & 1u8 == 0u8);
            assert(((a >> sh) & 1u8 == 1u8) == ((b >> sh) & 1u8 == 1u8)) by (bit_vector)
                requires
                    e == a ^ b,
                    (e >> sh) & 1u8 == 0u8,
            ;
        }
    }
    if n < 160 {
        let q = n / 8;
        let a = x@[q];
        let b = y@[q];
        let e = d[q];
        let sh: u8 = (7 - n % 8) as u8;
        assert(e == a ^ b);
        vstd::std_specs::bits::axiom_u8_leading_zeros(e);
        assert((e >> sh) & 1u8 != 0u8);
        assert(((a >> sh) & 1u8 == 1u8) != ((b >> sh) & 1u8 == 1u8)) by (bit_vector)
            requires
                e == a ^ b,
                (e >> sh) & 1u8 != 0u8,
        ;
    }
}


/// The number that the XOR of two byte strings denotes is at most the sum
/// of the numbers that they denote.
pub proof fn lemma_xor_at_most_sum(a: Seq<u8>, b: Seq<u8>)
    requires
        a.len() == b.len(),
    ensures
        be_value(xor_bytes(a, b)) <= be_value(a) + be_value(b),
    decreases a.len(),
{
    if a.len() > 0 {
        let pa = a.drop_last();
        let pb = b.drop_last();
        lemma_xor_at_most_sum(pa, pb);
        let x = xor_bytes(a, b);
        assert(x.drop_last() =~= xor_bytes(pa, pb));
        let al = a.last();
        let bl = b.last();
        assert(x.last() == al ^ bl);
        assert(al ^ bl <= al + bl) by (bit_vector);
    }
}

/// The distance from `x` to `z` is at most the distance from `x` to `y`
/// and the distance from `y` to `z` together.
pub proof fn distance_triangle(x: NodeId, y: NodeId, z: NodeId)
    ensures
        be_value(xor_bytes(x@, z@)) <= be_value(xor_bytes(x@, y@)) + be_value(
            xor_bytes(y@, z@),
        ),
{
    distance_composes(x, y, z);
    lemma_xor_at_most_sum(xor_bytes(x@, y@), xor_bytes(y@, z@));
}

} // verus!
