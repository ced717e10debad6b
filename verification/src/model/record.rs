//! Address blocks and their bits, and registry objects with their fields.
use crate::model::net::{ip_text, parse_ip, parse_ip_chars, IpAddr, Ipv4Addr, Ipv6Addr};
use crate::text::{
    append_chars, decimal, first_index_of, lemma_first_index_of, number_fault,
    number_fault_text, parse_unsigned, parse_unsigned_or_fault, push_decimal, same_chars,
    slice_chars, split, split_chars, str_chars, string_from_chars, string_of, string_views, trim,
    trim_chars, views,
};
use vstd::prelude::*;

verus! {

/// Bit `k` of an octet, where bit 0 is the most significant.
pub open spec fn octet_bit(o: u8, k: int) -> u8 {
    (o >> ((7 - k) as u8)) & 1
}

/// Bit `i` of a row of octets, counted from the most significant bit of the first octet.
pub open spec fn bit_at(octets: Seq<u8>, i: int) -> u8 {
    octet_bit(octets[i / 8], i % 8)
}

/// The first `len` bits of a row of octets.
pub open spec fn bits_of(octets: Seq<u8>, len: nat) -> Seq<u8> {
    Seq::new(len, |i: int| bit_at(octets, i))
}

/// The element at position `i`, or zero past the end.
pub open spec fn bit_or_zero(bits: Seq<u8>, i: int) -> u8 {
    if 0 <= i < bits.len() {
        bits[i]
    } else {
        0
    }
}

/// The octet made of eight bits, the first of which becomes the most significant. An element
/// other than 0 or 1 spills into the higher bits of its octet.
pub open spec fn pack8(b0: u8, b1: u8, b2: u8, b3: u8, b4: u8, b5: u8, b6: u8, b7: u8) -> u8 {
    (b0 << 7u8) | (b1 << 6u8) | (b2 << 5u8) | (b3 << 4u8) | (b4 << 3u8) | (b5 << 2u8) | (b6
        << 1u8) | b7
}

/// Octet `j` of the octets that a row of bits fills, with zero bits after the last.
pub open spec fn packed_octet(bits: Seq<u8>, j: int) -> u8 {
    pack8(
        bit_or_zero(bits, 8 * j),
        bit_or_zero(bits, 8 * j + 1),
        bit_or_zero(bits, 8 * j + 2),
        bit_or_zero(bits, 8 * j + 3),
        bit_or_zero(bits, 8 * j + 4),
        bit_or_zero(bits, 8 * j + 5),
        bit_or_zero(bits, 8 * j + 6),
        bit_or_zero(bits, 8 * j + 7),
    )
}

/// The octets that a row of bits fills: one for every eight bits or part of eight.
pub open spec fn octets_of(bits: Seq<u8>) -> Seq<u8> {
    Seq::new(((bits.len() + 7) / 8) as nat, |j: int| packed_octet(bits, j))
}

/// The first `n` octets of a row, with zeros where the row is shorter.
pub open spec fn zero_fill(octets: Seq<u8>, n: nat) -> Seq<u8> {
    Seq::new(n, |i: int| if i < octets.len() { octets[i] } else { 0u8 })
}

/// The lesser of two numbers.
pub open spec fn min_nat(a: nat, b: nat) -> nat {
    if a <= b {
        a
    } else {
        b
    }
}

/// The leading bits of the octets, most significant first: `prefix_len` of them, or all
/// there are where that is fewer.
pub fn octets_to_bits(octets: &[u8], prefix_len: u8) -> (bits: Vec<u8>)
    ensures
        bits@ == bits_of(octets@, min_nat(prefix_len as nat, 8 * octets@.len())),
{
    let mut bits: Vec<u8> = Vec::new();
    let total: usize = prefix_len as usize;
    let mut i: usize = 0;
    while i < total && i / 8 < octets.len()
        invariant
            total == prefix_len,
            i <= total,
            i <= 8 * octets@.len(),
            bits@ == bits_of(octets@, i as nat),
        decreases total - i,
    {
        let k: u8 = (7 - i % 8) as u8;
        let bit: u8 = (octets[i / 8] >> k) & 1;
        bits.push(bit);
        assert(bits@ =~= bits_of(octets@, (i + 1) as nat));
        i += 1;
    }
    bits
}

fn bit_or_zero_at(bits: &[u8], i: usize) -> (b: u8)
    ensures
        b == bit_or_zero(bits@, i as int),
{
    if i < bits.len() {
        bits[i]
    } else {
        0
    }
}

/// The octets that the bits fill, the first bit the most significant of the first octet; the
/// last octet is filled up with zero bits.
pub fn bits_to_octets(bits: &[u8]) -> (octets: Vec<u8>)
    ensures
        octets@ == octets_of(bits@),
{
    let n: usize = bits.len();
    let count: usize = n / 8 + if n % 8 != 0 { 1usize } else { 0usize };
    let mut octets: Vec<u8> = Vec::new();
    let mut j: usize = 0;
    while j < count
        invariant
            n == bits.len(),
            count == (n + 7) / 8,
            j <= count,
            octets@ == Seq::new(j as nat, |k: int| packed_octet(bits@, k)),
        decreases count - j,
    {
        let base: usize = 8 * j;
        let b0: u8 = bit_or_zero_at(bits, base);
        let b1: u8 = bit_or_zero_at(bits, base + 1);
        let b2: u8 = bit_or_zero_at(bits, base + 2);
        let b3: u8 = bit_or_zero_at(bits, base + 3);
        let b4: u8 = bit_or_zero_at(bits, base + 4);
        let b5: u8 = bit_or_zero_at(bits, base + 5);
        let b6: u8 = bit_or_zero_at(bits, base + 6);
        let b7: u8 = bit_or_zero_at(bits, base + 7);
        let o: u8 = (b0 << 7u8) | (b1 << 6u8) | (b2 << 5u8) | (b3 << 4u8) | (b4 << 3u8) | (b5
            << 2u8) | (b6 << 1u8) | b7;
        octets.push(o);
        assert(octets@ =~= Seq::new((j + 1) as nat, |k: int| packed_octet(bits@, k)));
        j += 1;
    }
    octets
}

/// The first `N` octets of the vector, with zeros where the vector is shorter.
pub fn vec_to_slice_zero_fill<const N: usize>(vec: &Vec<u8>) -> (slice: [u8; N])
    ensures
        slice@ == zero_fill(vec@, N as nat),
{
    let mut slice: [u8; N] = [0u8;N];
    let mut i: usize = 0;
    while i < N && i < vec.len()
        invariant
            i <= N,
            i <= vec.len(),
            slice@.len() == N,
            forall|k: int| 0 <= k < i ==> slice@[k] == vec@[k],
            forall|k: int| i <= k < N ==> slice@[k] == 0,
        decreases N - i,
    {
        slice[i] = vec[i];
        i += 1;
    }
    assert(slice@ =~= zero_fill(vec@, N as nat));
    slice
}

/// An address block: a network address and the number of its leading bits that count.
#[derive(Debug, Clone, Copy, PartialEq, Eq, Hash)]
pub struct Prefix {
    network: IpAddr,
    prefix_len: u8,
}

/// The mathematical value of a `Prefix`: the octets of its network address (four for IPv4,
/// sixteen for IPv6) and its length in bits.
pub struct PrefixView {
    pub network: Seq<u8>,
    pub len: nat,
}

/// The octets with every bit from position `len` on set to zero.
pub open spec fn masked(octets: Seq<u8>, len: nat) -> Seq<u8> {
    zero_fill(octets_of(bits_of(octets, len)), octets.len())
}

impl PrefixView {
    /// Four or sixteen octets, and a length within them.
    pub open spec fn wf(self) -> bool {
        (self.network.len() == 4 || self.network.len() == 16) && self.len <= 8
            * self.network.len()
    }

    /// The bits of the prefix, most significant first.
    pub open spec fn bits(self) -> Seq<u8> {
        bits_of(self.network, self.len)
    }

    /// Whether every bit of the network address after the prefix is zero.
    pub open spec fn normalized(self) -> bool {
        forall|i: int| self.len <= i < 8 * self.network.len() ==> bit_at(self.network, i) == 0
    }

    /// The prefix cut down or stretched to `n` bits: its first `n` bits where it has as many,
    /// all its bits and zeros after them where it has fewer.
    pub open spec fn resized(self, n: nat) -> PrefixView {
        PrefixView { network: masked(self.network, min_nat(self.len, n)), len: n }
    }
}

/// The message for a length that the family of an address does not admit.
pub open spec fn length_message(octets: nat, len: nat) -> Seq<char> {
    if octets == 4 {
        "Invalid prefix length for IPv4: "@ + decimal(len)
    } else {
        "Invalid prefix length for IPv6: "@ + decimal(len)
    }
}

/// What is wrong with a text that writes no prefix: it does not have one slash, or what
/// stands before the slash is no address, or what stands behind it is no number from 0 to
/// 255, or the number is a length that the family of the address does not admit.
pub open spec fn prefix_fault_text(s: Seq<char>) -> Seq<char> {
    let parts = split(s, '/');
    if parts.len() != 2 {
        "Invalid prefix format: "@ + s
    } else if parse_ip(parts[0]) is None {
        "Invalid IP address: invalid IP address syntax"@
    } else {
        match number_fault(parts[1], 10, 255) {
            Some(f) => "Invalid prefix length: "@ + number_fault_text(f),
            None => length_message(
                parse_ip(parts[0]).unwrap().len(),
                parse_unsigned(parts[1], 10, 255).unwrap(),
            ),
        }
    }
}

/// The text of a prefix: the address, a slash, and the length.
pub open spec fn prefix_text(p: PrefixView) -> Seq<char> {
    ip_text(p.network) + seq!['/'] + decimal(p.len)
}

/// The prefix that a text writes: an address, one slash, and a length in decimal that the
/// family of the address admits. The address is taken as it is written.
pub open spec fn parse_prefix(s: Seq<char>) -> Option<PrefixView> {
    let parts = split(s, '/');
    if parts.len() != 2 {
        None
    } else {
        match (parse_ip(parts[0]), parse_unsigned(parts[1], 10, 255)) {
            (Some(o), Some(n)) => if n <= 8 * o.len() {
                Some(PrefixView { network: o, len: n })
            } else {
                None
            },
            _ => None,
        }
    }
}

impl View for Prefix {
    type V = PrefixView;

    closed spec fn view(&self) -> PrefixView {
        PrefixView { network: self.network@, len: self.prefix_len as nat }
    }
}

impl Prefix {
    /// Every prefix has a length that its family admits.
    #[verifier::type_invariant]
    pub open spec fn wf(&self) -> bool {
        self@.wf()
    }

    fn masked_v4(a: &Ipv4Addr, len: u8) -> (r: Ipv4Addr)
        ensures
            r@ == masked(a@, min_nat(len as nat, 32)),
    {
        let octets = a.octets();
        let bits = octets_to_bits(octets.as_slice(), len);
        let packed = bits_to_octets(bits.as_slice());
        Ipv4Addr::from_octets(vec_to_slice_zero_fill::<4>(&packed))
    }

    fn masked_v6(a: &Ipv6Addr, len: u8) -> (r: Ipv6Addr)
        ensures
            r@ == masked(a@, min_nat(len as nat, 128)),
    {
        let octets = a.octets();
        let bits = octets_to_bits(octets.as_slice(), len);
        let packed = bits_to_octets(bits.as_slice());
        Ipv6Addr::from_octets(vec_to_slice_zero_fill::<16>(&packed))
    }

    /// The prefix of the given length in the network of the address; the bits of the address
    /// after the prefix are dropped. A length that the family does not admit is refused.
    pub fn new(network: IpAddr, prefix_len: u8) -> (r: Result<Self, String>)
        ensures
            r is Ok <==> prefix_len <= 8 * network@.len(),
            r is Ok ==> r.unwrap()@ == (PrefixView {
                network: masked(network@, prefix_len as nat),
                len: prefix_len as nat,
            }),
            r is Err ==> r.unwrap_err()@ == length_message(network@.len(), prefix_len as nat),
    {
        match network {
            IpAddr::V4(a) => {
                if prefix_len > 32 {
                    let mut msg: Vec<char> = str_chars("Invalid prefix length for IPv4: ");
                    push_decimal(&mut msg, prefix_len as u64);
                    return Err(string_from_chars(&msg));
                }
                Ok(Prefix { network: IpAddr::V4(Self::masked_v4(&a, prefix_len)), prefix_len })
            },
            IpAddr::V6(a) => {
                if prefix_len > 128 {
                    let mut msg: Vec<char> = str_chars("Invalid prefix length for IPv6: ");
                    push_decimal(&mut msg, prefix_len as u64);
                    return Err(string_from_chars(&msg));
                }
                Ok(Prefix { network: IpAddr::V6(Self::masked_v6(&a, prefix_len)), prefix_len })
            },
        }
    }

    /// The prefix cut down or stretched to `new_prefix_len` bits; none where the family does
    /// not admit that length.
    pub fn with_prefix_len(&self, new_prefix_len: u8) -> (r: Option<Self>)
        ensures
            r is Some <==> new_prefix_len <= 8 * self@.network.len(),
            r is Some ==> r.unwrap()@ == self@.resized(new_prefix_len as nat),
    {
        proof {
            use_type_invariant(self);
        }
        let keep: u8 = if new_prefix_len < self.prefix_len {
            new_prefix_len
        } else {
            self.prefix_len
        };
        match self.network {
            IpAddr::V4(a) => {
                if new_prefix_len > 32 {
                    return None;
                }
                Some(Prefix { network: IpAddr::V4(Self::masked_v4(&a, keep)), prefix_len: new_prefix_len })
            },
            IpAddr::V6(a) => {
                if new_prefix_len > 128 {
                    return None;
                }
                Some(Prefix { network: IpAddr::V6(Self::masked_v6(&a, keep)), prefix_len: new_prefix_len })
            },
        }
    }

    /// The IPv4 prefix with the given bits; none for more than 32 of them.
    pub fn from_bits_v4(bits: &[u8]) -> (r: Option<Self>)
        ensures
            r is Some <==> bits@.len() <= 32,
            r is Some ==> r.unwrap()@ == (PrefixView {
                network: zero_fill(octets_of(bits@), 4),
                len: bits@.len(),
            }),
    {
        if bits.len() > 32 {
            return None;
        }
        let packed = bits_to_octets(bits);
        let octets: [u8; 4] = vec_to_slice_zero_fill::<4>(&packed);
        Some(Prefix { network: IpAddr::V4(Ipv4Addr::from_octets(octets)), prefix_len: bits.len() as u8 })
    }

    /// The IPv6 prefix with the given bits; none for more than 128 of them.
    pub fn from_bits_v6(bits: &[u8]) -> (r: Option<Self>)
        ensures
            r is Some <==> bits@.len() <= 128,
            r is Some ==> r.unwrap()@ == (PrefixView {
                network: zero_fill(octets_of(bits@), 16),
                len: bits@.len(),
            }),
    {
        if bits.len() > 128 {
            return None;
        }
        let packed = bits_to_octets(bits);
        let octets: [u8; 16] = vec_to_slice_zero_fill::<16>(&packed);
        Some(Prefix { network: IpAddr::V6(Ipv6Addr::from_octets(octets)), prefix_len: bits.len() as u8 })
    }

    /// The bits of the prefix, most significant first, one octet of value 0 or 1 for each.
    pub fn get_bits(&self) -> (bits: Vec<u8>)
        ensures
            bits@ == self@.bits(),
    {
        proof {
            use_type_invariant(self);
        }
        match self.network {
            IpAddr::V4(a) => {
                let octets = a.octets();
                octets_to_bits(octets.as_slice(), self.prefix_len)
            },
            IpAddr::V6(a) => {
                let octets = a.octets();
                octets_to_bits(octets.as_slice(), self.prefix_len)
            },
        }
    }

    /// The network address of the prefix, as it is kept.
    pub fn network(&self) -> (r: &IpAddr)
        ensures
            r@ == self@.network,
    {
        &self.network
    }

    /// The length of the prefix in bits.
    pub fn prefix_len(&self) -> (r: u8)
        ensures
            r == self@.len,
            self@.wf(),
    {
        proof {
            use_type_invariant(self);
        }
        self.prefix_len
    }

    /// Whether the two prefixes have the same address and the same length.
    pub fn equals(&self, other: &Prefix) -> (r: bool)
        ensures
            r == (self@ == other@),
    {
        if self.prefix_len != other.prefix_len {
            return false;
        }
        match (&self.network, &other.network) {
            (IpAddr::V4(a), IpAddr::V4(b)) => {
                let x = a.octets();
                let y = b.octets();
                let same = x[0] == y[0] && x[1] == y[1] && x[2] == y[2] && x[3] == y[3];
                if same {
                    assert(a@ =~= b@);
                }
                same
            },
            (IpAddr::V6(a), IpAddr::V6(b)) => {
                let x = a.octets();
                let y = b.octets();
                let mut i: usize = 0;
                while i < 16
                    invariant
                        i <= 16,
                        x@ == a@,
                        y@ == b@,
                        self@.network == a@,
                        other@.network == b@,
                        self@.len == other@.len,
                        forall|k: int| 0 <= k < i ==> x@[k] == y@[k],
                    decreases 16 - i,
                {
                    if x[i] != y[i] {
                        return false;
                    }
                    i += 1;
                }
                assert(a@ =~= b@);
                true
            },
            (IpAddr::V4(a), IpAddr::V6(b)) => {
                assert(a@.len() == 4 && b@.len() == 16);
                false
            },
            (IpAddr::V6(a), IpAddr::V4(b)) => {
                assert(a@.len() == 16 && b@.len() == 4);
                false
            },
        }
    }

    /// The prefix that the text writes, as `parse_prefix` reads it, or what is wrong with
    /// the text, as `prefix_fault_text` says it.
    pub fn from_str(s: &str) -> (r: Result<Self, String>)
        ensures
            match parse_prefix(s@) {
                Some(p) => r is Ok && r.unwrap()@ == p,
                None => r is Err && r.unwrap_err()@ == prefix_fault_text(s@),
            },
    {
        let v = str_chars(s);
        let parts = split_chars(&v, '/');
        if parts.len() != 2 {
            let mut msg: Vec<char> = str_chars("Invalid prefix format: ");
            append_chars(&mut msg, &v);
            return Err(string_from_chars(&msg));
        }
        assert(views(parts@)[0] == parts@[0]@ && views(parts@)[1] == parts@[1]@);
        let network = match parse_ip_chars(&parts[0]) {
            Some(a) => a,
            None => {
                return Err(string_of("Invalid IP address: invalid IP address syntax"));
            },
        };
        let prefix_len: u8 = match parse_unsigned_or_fault(&parts[1], 10, 255) {
            Ok(n) => n as u8,
            Err(fault) => {
                let mut msg: Vec<char> = str_chars("Invalid prefix length: ");
                append_chars(&mut msg, &str_chars(fault.to_text().as_str()));
                return Err(string_from_chars(&msg));
            },
        };
        if network.is_ipv4() {
            if prefix_len > 32 {
                let mut msg: Vec<char> = str_chars("Invalid prefix length for IPv4: ");
                push_decimal(&mut msg, prefix_len as u64);
                return Err(string_from_chars(&msg));
            }
        } else {
            if prefix_len > 128 {
                let mut msg: Vec<char> = str_chars("Invalid prefix length for IPv6: ");
                push_decimal(&mut msg, prefix_len as u64);
                return Err(string_from_chars(&msg));
            }
        }
        Ok(Prefix { network, prefix_len })
    }

    /// The text of the prefix: the address, a slash, and the length.
    pub fn to_chars(&self) -> (r: Vec<char>)
        ensures
            r@ == prefix_text(self@),
    {
        let mut r = self.network.to_chars();
        r.push('/');
        push_decimal(&mut r, self.prefix_len as u64);
        r
    }

    /// The text of the prefix: the address, a slash, and the length.
    pub fn to_text(&self) -> (r: String)
        ensures
            r@ == prefix_text(self@),
    {
        string_from_chars(&self.to_chars())
    }
}

/// A bit of an octet is 0 or 1.
pub proof fn lemma_octet_bit_range(o: u8, k: int)
    requires
        0 <= k < 8,
    ensures
        octet_bit(o, k) <= 1,
{
    let s: u8 = (7 - k) as u8;
    assert((o >> s) & 1 <= 1) by (bit_vector);
}

/// Eight bits packed into an octet can be read back one by one.
pub proof fn lemma_pack8_bit(b0: u8, b1: u8, b2: u8, b3: u8, b4: u8, b5: u8, b6: u8, b7: u8, k: int)
    requires
        0 <= k < 8,
        b0 <= 1,
        b1 <= 1,
        b2 <= 1,
        b3 <= 1,
        b4 <= 1,
        b5 <= 1,
        b6 <= 1,
        b7 <= 1,
    ensures
        octet_bit(pack8(b0, b1, b2, b3, b4, b5, b6, b7), k) == seq![b0, b1, b2, b3, b4, b5, b6, b7][k],
{
    let s: u8 = (7 - k) as u8;
    let x = pack8(b0, b1, b2, b3, b4, b5, b6, b7);
    assert(((((b0 << 7u8) | (b1 << 6u8) | (b2 << 5u8) | (b3 << 4u8) | (b4 << 3u8) | (b5 << 2u8) | (b6
        << 1u8) | b7) >> s) & 1) == (if s == 7 {
        b0
    } else if s == 6 {
        b1
    } else if s == 5 {
        b2
    } else if s == 4 {
        b3
    } else if s == 3 {
        b4
    } else if s == 2 {
        b5
    } else if s == 1 {
        b6
    } else {
        b7
    })) by (bit_vector)
        requires
            s < 8,
            b0 <= 1,
            b1 <= 1,
            b2 <= 1,
            b3 <= 1,
            b4 <= 1,
            b5 <= 1,
            b6 <= 1,
            b7 <= 1,
    ;
}

/// An octet is what its eight bits pack into.
pub proof fn lemma_pack8_octet(o: u8)
    ensures
        pack8(
            octet_bit(o, 0),
            octet_bit(o, 1),
            octet_bit(o, 2),
            octet_bit(o, 3),
            octet_bit(o, 4),
            octet_bit(o, 5),
            octet_bit(o, 6),
            octet_bit(o, 7),
        ) == o,
{
    assert(((((o >> 7u8) & 1) << 7u8) | (((o >> 6u8) & 1) << 6u8) | (((o >> 5u8) & 1) << 5u8) | (((o
        >> 4u8) & 1) << 4u8) | (((o >> 3u8) & 1) << 3u8) | (((o >> 2u8) & 1) << 2u8) | (((o >> 1u8)
        & 1) << 1u8) | ((o >> 0u8) & 1)) == o) by (bit_vector);
}

/// Whether every element is 0 or 1.
pub open spec fn all_bits(bits: Seq<u8>) -> bool {
    forall|i: int| 0 <= i < bits.len() ==> #[trigger] bits[i] <= 1
}

/// The bits of octets are bits.
pub proof fn lemma_bits_of_all_bits(octets: Seq<u8>, len: nat)
    requires
        len <= 8 * octets.len(),
    ensures
        all_bits(bits_of(octets, len)),
{
    assert forall|i: int| 0 <= i < len implies #[trigger] bits_of(octets, len)[i] <= 1 by {
        lemma_octet_bit_range(octets[i / 8], i % 8);
    }
}

/// Bits that were packed into `n` octets can be read back; after them come zeros.
pub proof fn lemma_packed_bit(bits: Seq<u8>, n: nat, i: int)
    requires
        all_bits(bits),
        bits.len() <= 8 * n,
        0 <= i < 8 * n,
    ensures
        bit_at(zero_fill(octets_of(bits), n), i) == bit_or_zero(bits, i),
{
    let j = i / 8;
    let k = i % 8;
    let packed = octets_of(bits);
    if j < packed.len() {
        assert(zero_fill(packed, n)[j] == packed_octet(bits, j));
        lemma_pack8_bit(
            bit_or_zero(bits, 8 * j),
            bit_or_zero(bits, 8 * j + 1),
            bit_or_zero(bits, 8 * j + 2),
            bit_or_zero(bits, 8 * j + 3),
            bit_or_zero(bits, 8 * j + 4),
            bit_or_zero(bits, 8 * j + 5),
            bit_or_zero(bits, 8 * j + 6),
            bit_or_zero(bits, 8 * j + 7),
            k,
        );
    } else {
        assert(zero_fill(packed, n)[j] == 0);
        let s: u8 = (7 - k) as u8;
        assert((0u8 >> s) & 1 == 0) by (bit_vector);
    }
}

/// The bits of masked octets: the leading bits as they were, zeros after them.
pub proof fn lemma_masked_bit(octets: Seq<u8>, len: nat, i: int)
    requires
        len <= 8 * octets.len(),
        0 <= i < 8 * octets.len(),
    ensures
        bit_at(masked(octets, len), i) == if i < len {
            bit_at(octets, i)
        } else {
            0
        },
{
    lemma_bits_of_all_bits(octets, len);
    lemma_packed_bit(bits_of(octets, len), octets.len(), i);
}

/// Rows of octets of one length that agree bit by bit are the same.
pub proof fn lemma_octets_by_bits(a: Seq<u8>, b: Seq<u8>)
    requires
        a.len() == b.len(),
        forall|i: int| 0 <= i < 8 * a.len() ==> bit_at(a, i) == bit_at(b, i),
    ensures
        a == b,
{
    assert forall|j: int| 0 <= j < a.len() implies a[j] == b[j] by {
        lemma_pack8_octet(a[j]);
        lemma_pack8_octet(b[j]);
        assert(bit_at(a, 8 * j) == bit_at(b, 8 * j));
        assert(bit_at(a, 8 * j + 1) == bit_at(b, 8 * j + 1));
        assert(bit_at(a, 8 * j + 2) == bit_at(b, 8 * j + 2));
        assert(bit_at(a, 8 * j + 3) == bit_at(b, 8 * j + 3));
        assert(bit_at(a, 8 * j + 4) == bit_at(b, 8 * j + 4));
        assert(bit_at(a, 8 * j + 5) == bit_at(b, 8 * j + 5));
        assert(bit_at(a, 8 * j + 6) == bit_at(b, 8 * j + 6));
        assert(bit_at(a, 8 * j + 7) == bit_at(b, 8 * j + 7));
    }
    assert(a =~= b);
}

/// The prefix with the given bits in a family of `octets` octets.
pub open spec fn prefix_from_bits(bits: Seq<u8>, octets: nat) -> PrefixView {
    PrefixView { network: zero_fill(octets_of(bits), octets), len: bits.len() }
}

/// What resizing does, bit by bit: the result is well formed and normalized, and its bits are
/// the first bits of the prefix, with zeros after them where it was shorter.
pub proof fn lemma_resized(p: PrefixView, n: nat)
    requires
        p.wf(),
        n <= 8 * p.network.len(),
    ensures
        p.resized(n).wf(),
        p.resized(n).normalized(),
        p.resized(n).network.len() == p.network.len(),
        p.resized(n).bits() == Seq::new(n, |i: int| if i < p.len { bit_at(p.network, i) } else { 0u8 }),
{
    let keep = min_nat(p.len, n);
    let r = p.resized(n);
    assert forall|i: int| 0 <= i < 8 * p.network.len() implies bit_at(r.network, i) == if i
        < keep {
        bit_at(p.network, i)
    } else {
        0
    } by {
        lemma_masked_bit(p.network, keep, i);
    }
    assert(r.bits() =~= Seq::new(n, |i: int| if i < p.len { bit_at(p.network, i) } else { 0u8 }));
}

/// Rebuilding a normalized prefix from its own bits gives the prefix back.
pub proof fn law_from_bits_get_bits(p: PrefixView)
    requires
        p.wf(),
        p.normalized(),
    ensures
        prefix_from_bits(p.bits(), p.network.len()) == p,
{
    assert forall|i: int| 0 <= i < 8 * p.network.len() implies bit_at(masked(p.network, p.len), i)
        == bit_at(p.network, i) by {
        lemma_masked_bit(p.network, p.len, i);
    }
    lemma_octets_by_bits(masked(p.network, p.len), p.network);
}

/// Reading the bits of a prefix that was built from bits gives those bits back.
pub proof fn law_get_bits_from_bits(bits: Seq<u8>, octets: nat)
    requires
        all_bits(bits),
        bits.len() <= 8 * octets,
    ensures
        prefix_from_bits(bits, octets).bits() == bits,
{
    let p = prefix_from_bits(bits, octets);
    assert forall|i: int| 0 <= i < bits.len() implies p.bits()[i] == bits[i] by {
        lemma_packed_bit(bits, octets, i);
    }
    assert(p.bits() =~= bits);
}

/// Resizing a normalized prefix to its own length changes nothing.
pub proof fn law_resized_to_own_length(p: PrefixView)
    requires
        p.wf(),
        p.normalized(),
    ensures
        p.resized(p.len) == p,
{
    law_from_bits_get_bits(p);
}

/// Cutting a prefix down and stretching it again fills with zeros: only the bits that
/// survived the cut are left.
pub proof fn law_resize_pads_with_zeros(p: PrefixView, short: nat, long: nat)
    requires
        p.wf(),
        short <= long <= 8 * p.network.len(),
        short <= p.len,
    ensures
        p.resized(short).resized(long).bits() == Seq::new(
            long,
            |i: int| if i < short { bit_at(p.network, i) } else { 0u8 },
        ),
        p.resized(short).resized(long).normalized(),
{
    lemma_resized(p, short);
    let q = p.resized(short);
    lemma_resized(q, long);
    assert forall|i: int| 0 <= i < long implies q.resized(long).bits()[i] == (if i < short {
        bit_at(p.network, i)
    } else {
        0u8
    }) by {
        if i < short {
            assert(q.bits()[i] == bit_at(q.network, i));
        }
    }
    assert(q.resized(long).bits() =~= Seq::new(
        long,
        |i: int| if i < short { bit_at(p.network, i) } else { 0u8 },
    ));
}

/// The fields of a registry object that are read.
#[derive(Debug, Clone, Copy, PartialEq, Eq, Hash, Structural)]
pub enum RecordField {
    Route,
    Route6,
    Origin,
    Source,
    MaxLength,
    Description,
    Domain,
    NameServer,
    Cidr,
    DSRdata,
}

/// The key that names a field in a registry object.
pub open spec fn field_key(f: RecordField) -> Seq<char> {
    match f {
        RecordField::Route => "route"@,
        RecordField::Route6 => "route6"@,
        RecordField::Origin => "origin"@,
        RecordField::Source => "source"@,
        RecordField::MaxLength => "max-length"@,
        RecordField::Description => "descr"@,
        RecordField::Domain => "domain"@,
        RecordField::NameServer => "nserver"@,
        RecordField::Cidr => "cidr"@,
        RecordField::DSRdata => "ds-rdata"@,
    }
}

/// The field that a key names, if it names one. Keys are told apart by case.
pub open spec fn field_of_key(k: Seq<char>) -> Option<RecordField> {
    if k == "route"@ {
        Some(RecordField::Route)
    } else if k == "route6"@ {
        Some(RecordField::Route6)
    } else if k == "origin"@ {
        Some(RecordField::Origin)
    } else if k == "source"@ {
        Some(RecordField::Source)
    } else if k == "max-length"@ {
        Some(RecordField::MaxLength)
    } else if k == "descr"@ {
        Some(RecordField::Description)
    } else if k == "domain"@ {
        Some(RecordField::Domain)
    } else if k == "nserver"@ {
        Some(RecordField::NameServer)
    } else if k == "cidr"@ {
        Some(RecordField::Cidr)
    } else if k == "ds-rdata"@ {
        Some(RecordField::DSRdata)
    } else {
        None
    }
}

/// The place of a field among the ten fields.
pub open spec fn field_index(f: RecordField) -> int {
    match f {
        RecordField::Route => 0,
        RecordField::Route6 => 1,
        RecordField::Origin => 2,
        RecordField::Source => 3,
        RecordField::MaxLength => 4,
        RecordField::Description => 5,
        RecordField::Domain => 6,
        RecordField::NameServer => 7,
        RecordField::Cidr => 8,
        RecordField::DSRdata => 9,
    }
}

/// Whether the text `s` begins with the text `p`.
pub open spec fn starts_with(s: Seq<char>, p: Seq<char>) -> bool {
    p.len() <= s.len() && s.subrange(0, p.len() as int) == p
}

/// What a line of a registry object says: the field that its key names and the value, both
/// without white space around them. A line says nothing where it has no colon, where the text
/// before its first colon does not begin with the key itself, or where the key names no field.
pub open spec fn line_entry(line: Seq<char>) -> Option<(RecordField, Seq<char>)> {
    let i = first_index_of(line, ':');
    let left = line.subrange(0, i);
    let right = line.subrange(i + 1, line.len() as int);
    if !(0 <= i < line.len()) || !starts_with(left, trim(left)) {
        None
    } else {
        match field_of_key(trim(left)) {
            Some(f) => Some((f, trim(right))),
            None => None,
        }
    }
}

/// The values that the lines give to the field, in the order of the lines.
pub open spec fn values_of(lines: Seq<Seq<char>>, f: RecordField) -> Seq<Seq<char>>
    decreases lines.len(),
{
    if lines.len() == 0 {
        Seq::empty()
    } else {
        let front = values_of(lines.drop_last(), f);
        match line_entry(lines.last()) {
            Some((g, v)) => if g == f {
                front.push(v)
            } else {
                front
            },
            None => front,
        }
    }
}

/// The values that the text of a registry object gives to the field. The lines are the
/// pieces of the text between line feeds.
pub open spec fn field_values(content: Seq<char>, f: RecordField) -> Seq<Seq<char>> {
    values_of(split(content, '\n'), f)
}

/// The fields of the text of a registry object: each field that has a value, with its values.
pub open spec fn parsed_fields(content: Seq<char>) -> Map<RecordField, Seq<Seq<char>>> {
    Map::new(
        |f: RecordField| field_values(content, f).len() > 0,
        |f: RecordField| field_values(content, f),
    )
}

impl RecordField {
    /// The field that the key names, if it names one.
    pub fn from_key(k: &Vec<char>) -> (r: Option<RecordField>)
        ensures
            r == field_of_key(k@),
    {
        if same_chars(k, &str_chars("route")) {
            Some(RecordField::Route)
        } else if same_chars(k, &str_chars("route6")) {
            Some(RecordField::Route6)
        } else if same_chars(k, &str_chars("origin")) {
            Some(RecordField::Origin)
        } else if same_chars(k, &str_chars("source")) {
            Some(RecordField::Source)
        } else if same_chars(k, &str_chars("max-length")) {
            Some(RecordField::MaxLength)
        } else if same_chars(k, &str_chars("descr")) {
            Some(RecordField::Description)
        } else if same_chars(k, &str_chars("domain")) {
            Some(RecordField::Domain)
        } else if same_chars(k, &str_chars("nserver")) {
            Some(RecordField::NameServer)
        } else if same_chars(k, &str_chars("cidr")) {
            Some(RecordField::Cidr)
        } else if same_chars(k, &str_chars("ds-rdata")) {
            Some(RecordField::DSRdata)
        } else {
            None
        }
    }

    /// The field that the key names, if it names one.
    pub fn from_str(key: &str) -> (r: Option<RecordField>)
        ensures
            r == field_of_key(key@),
    {
        RecordField::from_key(&str_chars(key))
    }

    /// The key that names the field.
    pub fn as_str(&self) -> (r: &'static str)
        ensures
            r@ == field_key(*self),
    {
        match self {
            RecordField::Route => "route",
            RecordField::Route6 => "route6",
            RecordField::Origin => "origin",
            RecordField::Source => "source",
            RecordField::MaxLength => "max-length",
            RecordField::Description => "descr",
            RecordField::Domain => "domain",
            RecordField::NameServer => "nserver",
            RecordField::Cidr => "cidr",
            RecordField::DSRdata => "ds-rdata",
        }
    }

    /// The place of the field among the ten fields.
    pub fn index(&self) -> (r: usize)
        ensures
            r == field_index(*self),
            r < 10,
    {
        match self {
            RecordField::Route => 0,
            RecordField::Route6 => 1,
            RecordField::Origin => 2,
            RecordField::Source => 3,
            RecordField::MaxLength => 4,
            RecordField::Description => 5,
            RecordField::Domain => 6,
            RecordField::NameServer => 7,
            RecordField::Cidr => 8,
            RecordField::DSRdata => 9,
        }
    }
}

/// What the line says, as `line_entry` has it.
pub fn parse_line(line: &Vec<char>) -> (r: Option<(RecordField, Vec<char>)>)
    ensures
        match line_entry(line@) {
            Some((f, v)) => r is Some && r.unwrap().0 == f && r.unwrap().1@ == v,
            None => r is None,
        },
{
    let n: usize = line.len();
    let mut i: usize = 0;
    while i < n && line[i] != ':'
        invariant
            n == line.len(),
            i <= n,
            forall|k: int| 0 <= k < i ==> line@[k] != ':',
        decreases n - i,
    {
        i += 1;
    }
    proof {
        lemma_first_index_of(line@, ':', i as int);
    }
    if i == n {
        return None;
    }
    let left = slice_chars(line, 0, i);
    let right = slice_chars(line, i + 1, n);
    let key = trim_chars(&left);
    if key.len() > left.len() {
        return None;
    }
    let begin = slice_chars(&left, 0, key.len());
    if !same_chars(&begin, &key) {
        return None;
    }
    match RecordField::from_key(&key) {
        Some(f) => Some((f, trim_chars(&right))),
        None => None,
    }
}

/// The values of each of the ten fields in the text of a registry object, by the place of
/// the field.
pub fn parse_content(content: &str) -> (table: Vec<Vec<String>>)
    ensures
        table.len() == 10,
        forall|f: RecordField| string_views(#[trigger] table@[field_index(f)]@) == field_values(content@, f),
{
    let mut table: Vec<Vec<String>> = Vec::new();
    let mut t: usize = 0;
    while t < 10
        invariant
            t <= 10,
            table.len() == t,
            forall|k: int| 0 <= k < t ==> table@[k]@.len() == 0,
        decreases 10 - t,
    {
        table.push(Vec::new());
        t += 1;
    }
    let v = str_chars(content);
    let lines = split_chars(&v, '\n');
    let ghost all = split(content@, '\n');
    let mut i: usize = 0;
    assert forall|f: RecordField| string_views(#[trigger] table@[field_index(f)]@) == values_of(
        all.subrange(0, 0),
        f,
    ) by {
        assert(string_views(table@[field_index(f)]@) =~= Seq::<Seq<char>>::empty());
    }
    while i < lines.len()
        invariant
            i <= lines.len(),
            views(lines@) == all,
            table.len() == 10,
            forall|f: RecordField| string_views(#[trigger] table@[field_index(f)]@) == values_of(
                all.subrange(0, i as int),
                f,
            ),
        decreases lines.len() - i,
    {
        let ghost before = table@;
        let ghost seen = all.subrange(0, i as int);
        let ghost next = all.subrange(0, i + 1);
        proof {
            assert(next.drop_last() == seen);
            assert(next.last() == lines@[i as int]@);
        }
        match parse_line(&lines[i]) {
            Some((field, value)) => {
                let idx: usize = field.index();
                let text = string_from_chars(&value);
                table[idx].push(text);
                assert forall|f: RecordField| string_views(#[trigger] table@[field_index(f)]@)
                    == values_of(next, f) by {
                    if f == field {
                        assert(string_views(table@[field_index(f)]@) =~= string_views(
                            before[field_index(f)]@,
                        ).push(value@));
                    } else {
                        assert(field_index(f) != idx);
                        assert(table@[field_index(f)] == before[field_index(f)]);
                    }
                }
            },
            None => {},
        }
        i += 1;
    }
    assert(all.subrange(0, lines.len() as int) == all);
    table
}

/// A registry object: where it was read from, and the values of its fields.
pub struct RecordFile {
    file_path: String,
    field_map: Vec<Vec<String>>,
}

/// The mathematical value of a `RecordFile`: its path, and each field that has a value with
/// its values in the order of the lines.
pub struct RecordFileView {
    pub path: Seq<char>,
    pub fields: Map<RecordField, Seq<Seq<char>>>,
}

impl RecordFileView {
    /// The values of a field; none where the field does not occur.
    pub open spec fn values(self, f: RecordField) -> Seq<Seq<char>> {
        if self.fields.contains_key(f) {
            self.fields[f]
        } else {
            Seq::empty()
        }
    }
}

impl View for RecordFile {
    type V = RecordFileView;

    closed spec fn view(&self) -> RecordFileView {
        RecordFileView {
            path: self.file_path@,
            fields: Map::new(
                |f: RecordField| self.field_map@[field_index(f)]@.len() > 0,
                |f: RecordField| string_views(self.field_map@[field_index(f)]@),
            ),
        }
    }
}

impl RecordFile {
    #[verifier::type_invariant]
    closed spec fn wf(&self) -> bool {
        self.field_map.len() == 10
    }

    /// The registry object with the given path and text.
    pub fn new(file_path: String, content: &str) -> (r: RecordFile)
        ensures
            r@ == (RecordFileView { path: file_path@, fields: parsed_fields(content@) }),
    {
        let field_map = parse_content(content);
        let r = RecordFile { file_path, field_map };
        assert(r@.fields =~= parsed_fields(content@)) by {
            assert forall|f: RecordField| #[trigger]
                r@.fields.contains_key(f) <==> parsed_fields(content@).contains_key(f) by {
                assert(string_views(field_map@[field_index(f)]@) == field_values(content@, f));
            }
            assert forall|f: RecordField| #[trigger] r@.fields.contains_key(f) implies r@.fields[f]
                == parsed_fields(content@)[f] by {
                assert(string_views(field_map@[field_index(f)]@) == field_values(content@, f));
            }
        }
        r
    }

    /// The values of the field, where the object has any.
    pub fn get_field(&self, key: RecordField) -> (r: Option<&Vec<String>>)
        ensures
            r is Some <==> self@.fields.contains_key(key),
            r is Some ==> string_views(r.unwrap()@) == self@.fields[key] && r.unwrap().len() > 0,
    {
        proof {
            use_type_invariant(self);
        }
        let list = &self.field_map[key.index()];
        if list.len() == 0 {
            None
        } else {
            Some(list)
        }
    }

    /// The path from which the object was read.
    pub fn get_file_path(&self) -> (r: &str)
        ensures
            r@ == self@.path,
    {
        self.file_path.as_str()
    }
}

impl core::str::FromStr for Prefix {
    type Err = String;

    /// The prefix that the text writes, as `Prefix::from_str` reads it.
    fn from_str(s: &str) -> (r: Result<Self, String>)
        ensures
            match parse_prefix(s@) {
                Some(p) => r is Ok && r.unwrap()@ == p,
                None => r is Err && r.unwrap_err()@ == prefix_fault_text(s@),
            },
    {
        Prefix::from_str(s)
    }
}

} // verus!
