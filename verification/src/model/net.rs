//! IPv4 and IPv6 addresses: their octets, their text, and the addresses that texts write.
use crate::text::{
    all_digits, append_chars, decimal, digits_value, is_radix_digit, join, join_chars,
    lemma_split_len, lower_hex, parse_unsigned_chars, push_decimal, push_lower_hex,
    slice_chars, split, split_chars, str_chars, string_from_chars, string_of, views,
    without_plus,
};
use vstd::prelude::*;

verus! {

/// An IPv4 address: four octets, the first of which is the most significant.
#[derive(Debug, Clone, Copy, PartialEq, Eq, Hash)]
pub struct Ipv4Addr {
    pub octets: [u8; 4],
}

/// An IPv6 address: sixteen octets, the first of which is the most significant.
#[derive(Debug, Clone, Copy, PartialEq, Eq, Hash)]
pub struct Ipv6Addr {
    pub octets: [u8; 16],
}

/// An address of either family.
#[derive(Debug, Clone, Copy, PartialEq, Eq, Hash)]
pub enum IpAddr {
    V4(Ipv4Addr),
    V6(Ipv6Addr),
}

/// A single dot.
pub open spec fn dot() -> Seq<char> {
    seq!['.']
}

/// A single colon.
pub open spec fn colon() -> Seq<char> {
    seq![':']
}

/// The dotted-quad text of four octets.
pub open spec fn ipv4_text(o: Seq<u8>) -> Seq<char> {
    decimal(o[0] as nat) + dot() + decimal(o[1] as nat) + dot() + decimal(o[2] as nat) + dot()
        + decimal(o[3] as nat)
}

/// The octet that one part of a dotted quad writes: one to three decimal digits, no leading
/// zero before another digit, and a value of at most 255.
pub open spec fn parse_octet(s: Seq<char>) -> Option<u8> {
    if 1 <= s.len() <= 3 && all_digits(s, 10) && (s.len() == 1 || s[0] != '0') && digits_value(
        s,
        10,
    ) <= 255 {
        Some(digits_value(s, 10) as u8)
    } else {
        None
    }
}

/// The four octets that a dotted quad writes.
pub open spec fn parse_ipv4(s: Seq<char>) -> Option<Seq<u8>> {
    let parts = split(s, '.');
    if parts.len() == 4 && (forall|i: int| 0 <= i < 4 ==> parse_octet(#[trigger] parts[i]) is Some) {
        Some(Seq::new(4, |i: int| parse_octet(parts[i]).unwrap()))
    } else {
        None
    }
}

/// The octet that one part of a dotted quad writes.
pub fn parse_octet_chars(v: &Vec<char>) -> (r: Option<u8>)
    ensures
        r == parse_octet(v@),
{
    let n: usize = v.len();
    if n < 1 || n > 3 {
        return None;
    }
    if n > 1 && v[0] == '0' {
        return None;
    }
    if v[0] == '+' {
        assert(!is_radix_digit(v@[0], 10));
        return None;
    }
    assert(without_plus(v@) == v@);
    match parse_unsigned_chars(v, 10, 255) {
        Some(x) => Some(x as u8),
        None => None,
    }
}

/// The four octets that a dotted quad writes.
pub fn parse_ipv4_chars(v: &Vec<char>) -> (r: Option<[u8; 4]>)
    ensures
        match parse_ipv4(v@) {
            Some(o) => r is Some && r.unwrap()@ == o,
            None => r is None,
        },
{
    let parts = split_chars(v, '.');
    if parts.len() != 4 {
        return None;
    }
    let mut octets: [u8; 4] = [0u8;4];
    let mut i: usize = 0;
    while i < 4
        invariant
            i <= 4,
            parts.len() == 4,
            views(parts@) == split(v@, '.'),
            forall|k: int| 0 <= k < i ==> parse_octet(#[trigger] views(parts@)[k]) == Some(octets@[k]),
        decreases 4 - i,
    {
        match parse_octet_chars(&parts[i]) {
            Some(x) => {
                octets[i] = x;
            },
            None => {
                assert(parse_octet(views(parts@)[i as int]) is None);
                return None;
            },
        }
        i += 1;
    }
    assert(octets@ == Seq::new(4, |i: int| parse_octet(split(v@, '.')[i]).unwrap()));
    Some(octets)
}

impl View for Ipv4Addr {
    type V = Seq<u8>;

    open spec fn view(&self) -> Seq<u8> {
        self.octets@
    }
}

impl Ipv4Addr {
    /// The address `a.b.c.d`.
    pub fn new(a: u8, b: u8, c: u8, d: u8) -> (r: Self)
        ensures
            r@ == seq![a, b, c, d],
    {
        Ipv4Addr { octets: [a, b, c, d] }
    }

    /// The address with the given octets.
    pub fn from_octets(octets: [u8; 4]) -> (r: Self)
        ensures
            r@ == octets@,
    {
        Ipv4Addr { octets }
    }

    /// The octets of the address.
    pub fn octets(&self) -> (r: [u8; 4])
        ensures
            r@ == self@,
    {
        self.octets
    }

    /// The address that a dotted quad writes, if it writes one.
    pub fn parse(s: &str) -> (r: Option<Self>)
        ensures
            match parse_ipv4(s@) {
                Some(o) => r is Some && r.unwrap()@ == o,
                None => r is None,
            },
    {
        let v = str_chars(s);
        match parse_ipv4_chars(&v) {
            Some(octets) => Some(Ipv4Addr { octets }),
            None => None,
        }
    }

    /// The address as a dotted quad.
    pub fn to_chars(&self) -> (r: Vec<char>)
        ensures
            r@ == ipv4_text(self@),
    {
        let mut r: Vec<char> = Vec::new();
        push_decimal(&mut r, self.octets[0] as u64);
        r.push('.');
        push_decimal(&mut r, self.octets[1] as u64);
        r.push('.');
        push_decimal(&mut r, self.octets[2] as u64);
        r.push('.');
        push_decimal(&mut r, self.octets[3] as u64);
        r
    }

    /// The address as a dotted quad.
    pub fn to_text(&self) -> (r: String)
        ensures
            r@ == ipv4_text(self@),
    {
        string_from_chars(&self.to_chars())
    }
}

/// The eight 16-bit groups of sixteen octets, each group with its high octet first.
pub open spec fn segments(o: Seq<u8>) -> Seq<u16> {
    Seq::new(8, |i: int| (o[2 * i] as int * 256 + o[2 * i + 1] as int) as u16)
}

/// The sixteen octets of eight 16-bit groups.
pub open spec fn segment_octets(g: Seq<u16>) -> Seq<u8> {
    Seq::new(16, |i: int| if i % 2 == 0 {
        (g[i / 2] as int / 256) as u8
    } else {
        (g[i / 2] as int % 256) as u8
    })
}

/// The number of groups from position `i` on that are zero without a break.
pub open spec fn zero_run(g: Seq<u16>, i: int) -> nat
    decreases g.len() - i,
{
    if 0 <= i < g.len() && g[i] == 0 {
        1 + zero_run(g, i + 1)
    } else {
        0
    }
}

/// The first position below `n` at which the longest run of zero groups begins.
pub open spec fn longest_zero_run_start(g: Seq<u16>, n: int) -> int
    decreases n,
{
    if n <= 1 {
        0
    } else {
        let best = longest_zero_run_start(g, n - 1);
        if zero_run(g, n - 1) > zero_run(g, best) {
            n - 1
        } else {
            best
        }
    }
}

/// The lower-case hexadecimal text of each group.
pub open spec fn hex_groups(g: Seq<u16>) -> Seq<Seq<char>> {
    Seq::new(g.len(), |i: int| lower_hex(g[i] as nat))
}

/// Whether the groups write an IPv4 address mapped into IPv6 (`::ffff:a.b.c.d`).
pub open spec fn is_ipv4_mapped(g: Seq<u16>) -> bool {
    g[0] == 0 && g[1] == 0 && g[2] == 0 && g[3] == 0 && g[4] == 0 && g[5] == 0xffff
}

/// The canonical text of an IPv6 address: groups in lower-case hexadecimal without leading
/// zeros, the first longest run of two or more zero groups written as `::`, and a mapped
/// IPv4 address written as a dotted quad.
pub open spec fn ipv6_text(o: Seq<u8>) -> Seq<char> {
    let g = segments(o);
    if is_ipv4_mapped(g) {
        seq![':', ':', 'f', 'f', 'f', 'f', ':'] + ipv4_text(o.subrange(12, 16))
    } else {
        let start = longest_zero_run_start(g, 8);
        let len = zero_run(g, start);
        if len > 1 {
            join(hex_groups(g.subrange(0, start)), colon()) + seq![':', ':'] + join(
                hex_groups(g.subrange(start + len, 8)),
                colon(),
            )
        } else {
            join(hex_groups(g), colon())
        }
    }
}

/// The group that one part of an IPv6 address writes: one to four hexadecimal digits.
pub open spec fn parse_group(s: Seq<char>) -> Option<u16> {
    if 1 <= s.len() <= 4 && all_digits(s, 16) && digits_value(s, 16) <= 0xffff {
        Some(digits_value(s, 16) as u16)
    } else {
        None
    }
}

/// Whether a `::` begins at position `k` of `s`.
pub open spec fn double_colon_at(s: Seq<char>, k: int) -> bool {
    0 <= k && k + 1 < s.len() && s[k] == ':' && s[k + 1] == ':'
}

/// The position of the first `::` in `s`, or the length of `s` where there is none.
pub open spec fn first_double_colon(s: Seq<char>) -> int
    decreases s.len(),
{
    if s.len() < 2 {
        s.len() as int
    } else if s[0] == ':' && s[1] == ':' {
        0
    } else {
        1 + first_double_colon(s.drop_first())
    }
}

/// The two groups that hold the four octets of an IPv4 address.
pub open spec fn octet_groups(o: Seq<u8>) -> Seq<u16> {
    seq![(o[0] as int * 256 + o[1] as int) as u16, (o[2] as int * 256 + o[3] as int) as u16]
}

/// The groups that a colon-separated list writes. The empty text writes no group. Where
/// `v4_ok` holds, the last part may be a dotted quad, which stands for two groups.
pub open spec fn parse_groups(s: Seq<char>, v4_ok: bool) -> Option<Seq<u16>> {
    let parts = split(s, ':');
    let front = parts.drop_last();
    if s.len() == 0 {
        Some(Seq::empty())
    } else if !(forall|i: int| 0 <= i < front.len() ==> parse_group(#[trigger] front[i]) is Some) {
        None
    } else {
        let groups = Seq::new(front.len(), |i: int| parse_group(front[i]).unwrap());
        if parse_group(parts.last()) is Some {
            Some(groups.push(parse_group(parts.last()).unwrap()))
        } else if v4_ok && parse_ipv4(parts.last()) is Some {
            Some(groups + octet_groups(parse_ipv4(parts.last()).unwrap()))
        } else {
            None
        }
    }
}

/// The eight groups that the text of an IPv6 address writes: eight groups in full, or fewer
/// around one `::`, which stands for the missing zero groups (at least one). A dotted quad may
/// stand for the last two groups, but not before `::`.
pub open spec fn parse_ipv6(s: Seq<char>) -> Option<Seq<u16>> {
    let k = first_double_colon(s);
    if k >= s.len() {
        match parse_groups(s, true) {
            Some(g) => if g.len() == 8 {
                Some(g)
            } else {
                None
            },
            None => None,
        }
    } else {
        match (
            parse_groups(s.subrange(0, k), false),
            parse_groups(s.subrange(k + 2, s.len() as int), true),
        ) {
            (Some(h), Some(t)) => if h.len() + t.len() <= 7 {
                Some(h + Seq::new((8 - h.len() - t.len()) as nat, |i: int| 0u16) + t)
            } else {
                None
            },
            _ => None,
        }
    }
}

/// The first `::` is at `i` where none begins before `i` and one begins at `i`, or where
/// none begins anywhere and `i` is the length of the text.
pub proof fn lemma_first_double_colon(s: Seq<char>, i: int)
    requires
        0 <= i <= s.len(),
        forall|k: int| 0 <= k < i ==> !double_colon_at(s, k),
        double_colon_at(s, i) || i == s.len(),
    ensures
        first_double_colon(s) == i,
    decreases s.len(),
{
    if s.len() >= 2 && i > 0 {
        let t = s.drop_first();
        assert forall|k: int| 0 <= k < i - 1 implies !double_colon_at(t, k) by {
            assert(!double_colon_at(s, k + 1));
        }
        assert(!double_colon_at(s, 0));
        assert(double_colon_at(s, i) ==> double_colon_at(t, i - 1));
        lemma_first_double_colon(t, i - 1);
    }
}

/// The group that one part of an IPv6 address writes.
pub fn parse_group_chars(v: &Vec<char>) -> (r: Option<u16>)
    ensures
        r == parse_group(v@),
{
    let n: usize = v.len();
    if n < 1 || n > 4 {
        return None;
    }
    if v[0] == '+' {
        assert(!is_radix_digit(v@[0], 16));
        return None;
    }
    assert(without_plus(v@) == v@);
    match parse_unsigned_chars(v, 16, 0xffff) {
        Some(x) => Some(x as u16),
        None => None,
    }
}

/// The groups that a colon-separated list writes.
pub fn parse_groups_chars(v: &Vec<char>, v4_ok: bool) -> (r: Option<Vec<u16>>)
    ensures
        match parse_groups(v@, v4_ok) {
            Some(g) => r is Some && r.unwrap()@ == g,
            None => r is None,
        },
{
    let mut groups: Vec<u16> = Vec::new();
    if v.len() == 0 {
        return Some(groups);
    }
    let parts = split_chars(v, ':');
    let n: usize = parts.len();
    proof {
        lemma_split_len(v@, ':');
    }
    let ghost front = split(v@, ':').drop_last();
    let mut i: usize = 0;
    while i + 1 < n
        invariant
            n == parts.len(),
            n >= 1,
            i + 1 <= n,
            views(parts@) == split(v@, ':'),
            front == split(v@, ':').drop_last(),
            groups.len() == i,
            forall|k: int| 0 <= k < i ==> parse_group(#[trigger] front[k]) == Some(groups@[k]),
        decreases n - i,
    {
        match parse_group_chars(&parts[i]) {
            Some(g) => {
                groups.push(g);
            },
            None => {
                assert(parse_group(front[i as int]) is None);
                return None;
            },
        }
        i += 1;
    }
    assert(groups@ == Seq::new(front.len(), |i: int| parse_group(front[i]).unwrap()));
    let last = &parts[n - 1];
    assert(last@ == split(v@, ':').last());
    match parse_group_chars(last) {
        Some(g) => {
            groups.push(g);
            Some(groups)
        },
        None => {
            if !v4_ok {
                return None;
            }
            match parse_ipv4_chars(last) {
                Some(o) => {
                    groups.push((o[0] as u16) * 256 + (o[1] as u16));
                    groups.push((o[2] as u16) * 256 + (o[3] as u16));
                    assert(groups@ == Seq::new(front.len(), |i: int| parse_group(front[i]).unwrap())
                        + octet_groups(o@));
                    Some(groups)
                },
                None => None,
            }
        },
    }
}

/// The position of the first `::`, or the length of the text where there is none.
pub fn find_double_colon(v: &Vec<char>) -> (k: usize)
    ensures
        k == first_double_colon(v@),
        k <= v.len(),
        k < v.len() ==> k + 2 <= v.len(),
{
    let n: usize = v.len();
    let mut i: usize = 0;
    while i < n && n - i >= 2
        invariant
            n == v.len(),
            i <= n,
            forall|k: int| 0 <= k < i ==> !double_colon_at(v@, k),
        decreases n - i,
    {
        if v[i] == ':' && v[i + 1] == ':' {
            proof {
                lemma_first_double_colon(v@, i as int);
            }
            return i;
        }
        i += 1;
    }
    proof {
        assert forall|k: int| 0 <= k < n implies !double_colon_at(v@, k) by {}
        lemma_first_double_colon(v@, n as int);
    }
    n
}

/// The sixteen octets that the text of an IPv6 address writes.
pub fn parse_ipv6_chars(v: &Vec<char>) -> (r: Option<[u8; 16]>)
    ensures
        match parse_ipv6(v@) {
            Some(g) => r is Some && r.unwrap()@ == segment_octets(g),
            None => r is None,
        },
{
    let n: usize = v.len();
    let k = find_double_colon(v);
    let groups: Vec<u16> = if k >= n {
        assert(v@.subrange(0, n as int) == v@);
        match parse_groups_chars(v, true) {
            Some(g) => {
                if g.len() != 8 {
                    return None;
                }
                g
            },
            None => {
                return None;
            },
        }
    } else {
        let head = slice_chars(v, 0, k);
        let tail = slice_chars(v, k + 2, n);
        let h = match parse_groups_chars(&head, false) {
            Some(h) => h,
            None => {
                return None;
            },
        };
        let t = match parse_groups_chars(&tail, true) {
            Some(t) => t,
            None => {
                return None;
            },
        };
        if h.len() > 7 || t.len() > 7 - h.len() {
            return None;
        }
        let mut g: Vec<u16> = Vec::new();
        let mut i: usize = 0;
        while i < h.len()
            invariant
                i <= h.len(),
                g@ == h@.subrange(0, i as int),
            decreases h.len() - i,
        {
            g.push(h[i]);
            i += 1;
        }
        let mut z: usize = 0;
        let zeros: usize = 8 - h.len() - t.len();
        while z < zeros
            invariant
                z <= zeros,
                g@ == h@ + Seq::new(z as nat, |i: int| 0u16),
            decreases zeros - z,
        {
            g.push(0);
            z += 1;
        }
        let mut j: usize = 0;
        while j < t.len()
            invariant
                j <= t.len(),
                g@ == h@ + Seq::new(zeros as nat, |i: int| 0u16) + t@.subrange(0, j as int),
            decreases t.len() - j,
        {
            g.push(t[j]);
            j += 1;
        }
        assert(t@.subrange(0, t.len() as int) == t@);
        g
    };
    let mut octets: [u8; 16] = [0u8;16];
    let mut i: usize = 0;
    while i < 8
        invariant
            i <= 8,
            groups.len() == 8,
            forall|k: int| 0 <= k < 2 * i ==> octets@[k] == segment_octets(groups@)[k],
        decreases 8 - i,
    {
        octets[2 * i] = (groups[i] / 256) as u8;
        octets[2 * i + 1] = (groups[i] % 256) as u8;
        i += 1;
    }
    assert(octets@ == segment_octets(groups@));
    Some(octets)
}

impl View for Ipv6Addr {
    type V = Seq<u8>;

    open spec fn view(&self) -> Seq<u8> {
        self.octets@
    }
}

impl Ipv6Addr {
    /// The address with the given eight groups.
    pub fn new(a: u16, b: u16, c: u16, d: u16, e: u16, f: u16, g: u16, h: u16) -> (r: Self)
        ensures
            r@ == segment_octets(seq![a, b, c, d, e, f, g, h]),
    {
        let r = Ipv6Addr {
            octets: [
                (a / 256) as u8,
                (a % 256) as u8,
                (b / 256) as u8,
                (b % 256) as u8,
                (c / 256) as u8,
                (c % 256) as u8,
                (d / 256) as u8,
                (d % 256) as u8,
                (e / 256) as u8,
                (e % 256) as u8,
                (f / 256) as u8,
                (f % 256) as u8,
                (g / 256) as u8,
                (g % 256) as u8,
                (h / 256) as u8,
                (h % 256) as u8,
            ],
        };
        assert(r@ =~= segment_octets(seq![a, b, c, d, e, f, g, h]));
        r
    }

    /// The address with the given octets.
    pub fn from_octets(octets: [u8; 16]) -> (r: Self)
        ensures
            r@ == octets@,
    {
        Ipv6Addr { octets }
    }

    /// The octets of the address.
    pub fn octets(&self) -> (r: [u8; 16])
        ensures
            r@ == self@,
    {
        self.octets
    }

    /// The eight groups of the address.
    pub fn segments(&self) -> (r: [u16; 8])
        ensures
            r@ == segments(self@),
    {
        let mut r: [u16; 8] = [0u16;8];
        let mut i: usize = 0;
        while i < 8
            invariant
                i <= 8,
                forall|k: int| 0 <= k < i ==> r@[k] == segments(self@)[k],
            decreases 8 - i,
        {
            r[i] = (self.octets[2 * i] as u16) * 256 + (self.octets[2 * i + 1] as u16);
            i += 1;
        }
        assert(r@ =~= segments(self@));
        r
    }

    /// The address that the text writes, if it writes one.
    pub fn parse(s: &str) -> (r: Option<Self>)
        ensures
            match parse_ipv6(s@) {
                Some(g) => r is Some && r.unwrap()@ == segment_octets(g),
                None => r is None,
            },
    {
        let v = str_chars(s);
        match parse_ipv6_chars(&v) {
            Some(octets) => Some(Ipv6Addr { octets }),
            None => None,
        }
    }
}

/// The length of the run of zero groups that begins at position `i`.
pub fn zero_run_len(g: &[u16; 8], i: usize) -> (r: usize)
    requires
        i <= 8,
    ensures
        r == zero_run(g@, i as int),
        i + r <= 8,
{
    let mut j: usize = i;
    while j < 8 && g[j] == 0
        invariant
            i <= j <= 8,
            zero_run(g@, i as int) == (j - i) + zero_run(g@, j as int),
        decreases 8 - j,
    {
        j += 1;
    }
    j - i
}

/// The hexadecimal text of each of the groups from `from` up to, not including, `to`.
pub fn hex_group_chars(g: &[u16; 8], from: usize, to: usize) -> (r: Vec<Vec<char>>)
    requires
        from <= to <= 8,
    ensures
        views(r@) == hex_groups(g@.subrange(from as int, to as int)),
{
    let mut r: Vec<Vec<char>> = Vec::new();
    let mut i: usize = from;
    while i < to
        invariant
            from <= i <= to <= 8,
            r.len() == i - from,
            views(r@) == hex_groups(g@.subrange(from as int, i as int)),
        decreases to - i,
    {
        let mut t: Vec<char> = Vec::new();
        push_lower_hex(&mut t, g[i] as u64);
        proof {
            assert(t@ =~= lower_hex(g@[i as int] as nat));
            let prev = hex_groups(g@.subrange(from as int, i as int));
            let next = hex_groups(g@.subrange(from as int, i + 1));
            assert forall|k: int| 0 <= k < next.len() implies views(r@.push(t))[k] == next[k] by {
                if k < i - from {
                    assert(views(r@)[k] == prev[k]);
                }
            }
            assert(views(r@.push(t)) =~= next);
        }
        r.push(t);
        i += 1;
    }
    r
}

impl Ipv6Addr {
    /// The canonical text of the address.
    pub fn to_chars(&self) -> (r: Vec<char>)
        ensures
            r@ == ipv6_text(self@),
    {
        let g = self.segments();
        if g[0] == 0 && g[1] == 0 && g[2] == 0 && g[3] == 0 && g[4] == 0 && g[5] == 0xffff {
            let mut r: Vec<char> = vec![':', ':', 'f', 'f', 'f', 'f', ':'];
            let v4 = Ipv4Addr::new(
                self.octets[12],
                self.octets[13],
                self.octets[14],
                self.octets[15],
            );
            let t = v4.to_chars();
            append_chars(&mut r, &t);
            assert(ipv4_text(v4@) == ipv4_text(self@.subrange(12, 16)));
            return r;
        }
        let mut best: usize = 0;
        let mut best_len: usize = zero_run_len(&g, 0);
        let mut n: usize = 1;
        while n < 8
            invariant
                1 <= n <= 8,
                best < 8,
                best == longest_zero_run_start(g@, n as int),
                best_len == zero_run(g@, best as int),
                best + best_len <= 8,
            decreases 8 - n,
        {
            let len = zero_run_len(&g, n);
            if len > best_len {
                best = n;
                best_len = len;
            }
            n += 1;
        }
        let sep: Vec<char> = vec![':'];
        assert(sep@ == colon());
        if best_len > 1 {
            let head = hex_group_chars(&g, 0, best);
            let tail = hex_group_chars(&g, best + best_len, 8);
            let mut r = join_chars(&head, &sep);
            r.push(':');
            r.push(':');
            let t = join_chars(&tail, &sep);
            append_chars(&mut r, &t);
            assert(r@ == join(hex_groups(g@.subrange(0, best as int)), colon()) + seq![':', ':']
                + join(hex_groups(g@.subrange(best + best_len, 8)), colon()));
            r
        } else {
            let all = hex_group_chars(&g, 0, 8);
            assert(g@.subrange(0, 8) == g@);
            join_chars(&all, &sep)
        }
    }

    /// The canonical text of the address.
    pub fn to_text(&self) -> (r: String)
        ensures
            r@ == ipv6_text(self@),
    {
        string_from_chars(&self.to_chars())
    }
}

impl View for IpAddr {
    type V = Seq<u8>;

    /// The octets of the address: four of them for IPv4, sixteen for IPv6.
    open spec fn view(&self) -> Seq<u8> {
        match self {
            IpAddr::V4(a) => a@,
            IpAddr::V6(a) => a@,
        }
    }
}

/// The octets of the address that the text writes: a dotted quad, or else the text of an IPv6
/// address.
pub open spec fn parse_ip(s: Seq<char>) -> Option<Seq<u8>> {
    match parse_ipv4(s) {
        Some(o) => Some(o),
        None => match parse_ipv6(s) {
            Some(g) => Some(segment_octets(g)),
            None => None,
        },
    }
}

/// The text of an address given by its octets.
pub open spec fn ip_text(o: Seq<u8>) -> Seq<char> {
    if o.len() == 4 {
        ipv4_text(o)
    } else {
        ipv6_text(o)
    }
}

/// The address that the text writes, if it writes one.
pub fn parse_ip_chars(v: &Vec<char>) -> (r: Option<IpAddr>)
    ensures
        match parse_ip(v@) {
            Some(o) => r is Some && r.unwrap()@ == o,
            None => r is None,
        },
{
    match parse_ipv4_chars(v) {
        Some(octets) => Some(IpAddr::V4(Ipv4Addr { octets })),
        None => match parse_ipv6_chars(v) {
            Some(octets) => Some(IpAddr::V6(Ipv6Addr { octets })),
            None => None,
        },
    }
}

impl IpAddr {
    /// The address that the text writes, if it writes one.
    pub fn parse(s: &str) -> (r: Option<Self>)
        ensures
            match parse_ip(s@) {
                Some(o) => r is Some && r.unwrap()@ == o,
                None => r is None,
            },
    {
        let v = str_chars(s);
        parse_ip_chars(&v)
    }

    /// The octets of the address.
    pub fn octets_vec(&self) -> (r: Vec<u8>)
        ensures
            r@ == self@,
    {
        match self {
            IpAddr::V4(a) => {
                let o = a.octets();
                vec![o[0], o[1], o[2], o[3]]
            },
            IpAddr::V6(a) => {
                let o = a.octets();
                let mut r: Vec<u8> = Vec::new();
                let mut i: usize = 0;
                while i < 16
                    invariant
                        i <= 16,
                        r@ == o@.subrange(0, i as int),
                    decreases 16 - i,
                {
                    r.push(o[i]);
                    i += 1;
                }
                assert(o@.subrange(0, 16) == o@);
                r
            },
        }
    }

    /// Whether the address is an IPv4 address.
    pub fn is_ipv4(&self) -> (r: bool)
        ensures
            r == (self@.len() == 4),
            !r ==> self@.len() == 16,
    {
        match self {
            IpAddr::V4(_) => true,
            IpAddr::V6(_) => false,
        }
    }

    /// The text of the address.
    pub fn to_chars(&self) -> (r: Vec<char>)
        ensures
            r@ == ip_text(self@),
    {
        match self {
            IpAddr::V4(a) => a.to_chars(),
            IpAddr::V6(a) => a.to_chars(),
        }
    }

    /// The text of the address.
    pub fn to_text(&self) -> (r: String)
        ensures
            r@ == ip_text(self@),
    {
        string_from_chars(&self.to_chars())
    }
}

impl core::str::FromStr for IpAddr {
    type Err = String;

    /// The address that the text writes, as `IpAddr::parse` reads it.
    fn from_str(s: &str) -> (r: Result<Self, String>)
        ensures
            match parse_ip(s@) {
                Some(o) => r is Ok && r.unwrap()@ == o,
                None => r is Err,
            },
    {
        match IpAddr::parse(s) {
            Some(a) => Ok(a),
            None => Err(string_of("invalid IP address syntax")),
        }
    }
}

} // verus!
