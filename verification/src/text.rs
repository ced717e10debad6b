//! Texts as sequences of characters: classes of characters, splitting and joining, white
//! space, and numbers in decimal and hexadecimal.
use vstd::prelude::*;
use vstd::std_specs::iter::IteratorSpec;

verus! {

/// The code points that carry the Unicode `White_Space` property.
pub open spec fn is_whitespace(c: char) -> bool {
    let u = c as u32;
    (0x09 <= u <= 0x0d) || u == 0x20 || u == 0x85 || u == 0xa0 || u == 0x1680 || (0x2000 <= u
        <= 0x200a) || u == 0x2028 || u == 0x2029 || u == 0x202f || u == 0x205f || u == 0x3000
}

/// The decimal digits.
pub open spec fn is_ascii_digit(c: char) -> bool {
    0x30 <= c as u32 <= 0x39
}

/// The letters of the Latin alphabet, in either case.
pub open spec fn is_ascii_alphabetic(c: char) -> bool {
    (0x41 <= c as u32 <= 0x5a) || (0x61 <= c as u32 <= 0x7a)
}

/// The decimal digits and the letters of the Latin alphabet.
pub open spec fn is_ascii_alphanumeric(c: char) -> bool {
    is_ascii_digit(c) || is_ascii_alphabetic(c)
}

/// The digits of the hexadecimal system, letters in either case.
pub open spec fn is_hex_digit(c: char) -> bool {
    is_ascii_digit(c) || (0x41 <= c as u32 <= 0x46) || (0x61 <= c as u32 <= 0x66)
}

/// The value of a digit in any radix up to sixteen; letters count in either case.
pub open spec fn digit_value(c: char) -> nat {
    let u = c as u32;
    if 0x30 <= u <= 0x39 {
        (u - 0x30) as nat
    } else if 0x41 <= u <= 0x46 {
        (u - 0x41 + 10) as nat
    } else if 0x61 <= u <= 0x66 {
        (u - 0x61 + 10) as nat
    } else {
        0
    }
}

/// The lower-case character that writes the digit `d` (`d < 16`).
pub open spec fn digit_char(d: nat) -> char {
    if d < 10 {
        (0x30 + d) as char
    } else {
        (0x61 + d - 10) as char
    }
}

/// The small letter for a capital letter of the Latin alphabet; any other character as it
/// is.
pub open spec fn to_lower_char(c: char) -> char {
    if 0x41 <= c as u32 <= 0x5a {
        ((c as u32) + 0x20) as char
    } else {
        c
    }
}

/// The text with its capital letters of the Latin alphabet made small.
pub open spec fn to_lower(s: Seq<char>) -> Seq<char> {
    Seq::new(s.len(), |i: int| to_lower_char(s[i]))
}

/// Whether the character is white space.
pub fn char_is_whitespace(c: char) -> (b: bool)
    ensures
        b == is_whitespace(c),
{
    let u: u32 = c as u32;
    (0x09 <= u && u <= 0x0d) || u == 0x20 || u == 0x85 || u == 0xa0 || u == 0x1680 || (0x2000 <= u
        && u <= 0x200a) || u == 0x2028 || u == 0x2029 || u == 0x202f || u == 0x205f || u == 0x3000
}

/// Whether the character is a decimal digit or a letter of the Latin alphabet.
pub fn char_is_ascii_alphanumeric(c: char) -> (b: bool)
    ensures
        b == is_ascii_alphanumeric(c),
{
    let u: u32 = c as u32;
    (0x30 <= u && u <= 0x39) || (0x41 <= u && u <= 0x5a) || (0x61 <= u && u <= 0x7a)
}

/// Whether the character is a hexadecimal digit.
pub fn char_is_hex_digit(c: char) -> (b: bool)
    ensures
        b == is_hex_digit(c),
{
    let u: u32 = c as u32;
    (0x30 <= u && u <= 0x39) || (0x41 <= u && u <= 0x46) || (0x61 <= u && u <= 0x66)
}

/// The value of a hexadecimal digit; zero for any other character.
pub fn char_digit_value(c: char) -> (d: u8)
    ensures
        d as nat == digit_value(c),
        d < 16,
{
    let u: u32 = c as u32;
    if 0x30 <= u && u <= 0x39 {
        (u - 0x30) as u8
    } else if 0x41 <= u && u <= 0x46 {
        (u - 0x41 + 10) as u8
    } else if 0x61 <= u && u <= 0x66 {
        (u - 0x61 + 10) as u8
    } else {
        0
    }
}

/// The lower-case character that writes the digit.
pub fn char_of_digit(d: u8) -> (c: char)
    requires
        d < 16,
    ensures
        c == digit_char(d as nat),
{
    if d < 10 {
        (0x30 + d) as char
    } else {
        (0x61 + (d - 10)) as char
    }
}

/// The small letter for a capital letter of the Latin alphabet; any other character as it
/// is.
pub fn char_to_lower(c: char) -> (r: char)
    ensures
        r == to_lower_char(c),
{
    let u: u32 = c as u32;
    if 0x41 <= u && u <= 0x5a {
        ((u + 0x20) as u8) as char
    } else {
        c
    }
}

/// The characters of a string slice, in order.
pub fn str_chars(s: &str) -> (v: Vec<char>)
    ensures
        v@ == s@,
{
    let mut v: Vec<char> = Vec::new();
    let mut it = s.chars();
    loop
        invariant
            v@ + it.remaining() == s@,
            it.obeys_prophetic_iter_laws(),
            it.decrease() is Some,
        decreases it.decrease()->0,
    {
        match it.next() {
            Some(c) => {
                v.push(c);
            },
            None => {
                return v;
            },
        }
    }
}

/// `String::push`: the string grows by the one character at its end.
#[verifier::external_body]
fn string_push(s: &mut String, c: char)
    ensures
        final(s)@ == old(s)@.push(c),
{
    s.push(c)
}

/// The string that holds the given characters.
pub fn string_from_chars(v: &Vec<char>) -> (s: String)
    ensures
        s@ == v@,
{
    let mut s = String::new();
    let mut i: usize = 0;
    while i < v.len()
        invariant
            i <= v.len(),
            s@ == v@.subrange(0, i as int),
        decreases v.len() - i,
    {
        string_push(&mut s, v[i]);
        i += 1;
    }
    assert(v@.subrange(0, v.len() as int) == v@);
    s
}

/// The views of the elements, element by element.
pub open spec fn views(v: Seq<Vec<char>>) -> Seq<Seq<char>> {
    Seq::new(v.len(), |i: int| v[i]@)
}

/// The views of the strings, string by string.
pub open spec fn string_views(v: Seq<String>) -> Seq<Seq<char>> {
    Seq::new(v.len(), |i: int| v[i]@)
}

/// The position of the first `c` in `s`, or the length of `s` where there is none.
pub open spec fn first_index_of(s: Seq<char>, c: char) -> int
    decreases s.len(),
{
    if s.len() == 0 {
        0
    } else if s[0] == c {
        0
    } else {
        1 + first_index_of(s.drop_first(), c)
    }
}

/// The pieces of `s` between the occurrences of `sep`; always at least one piece.
pub open spec fn split(s: Seq<char>, sep: char) -> Seq<Seq<char>>
    decreases s.len(),
{
    let i = first_index_of(s, sep);
    if 0 <= i < s.len() {
        seq![s.subrange(0, i)] + split(s.subrange(i + 1, s.len() as int), sep)
    } else {
        seq![s]
    }
}

/// The parts written one after another with `sep` between neighbours.
pub open spec fn join(parts: Seq<Seq<char>>, sep: Seq<char>) -> Seq<char>
    decreases parts.len(),
{
    if parts.len() == 0 {
        Seq::empty()
    } else if parts.len() == 1 {
        parts[0]
    } else {
        join(parts.drop_last(), sep) + sep + parts.last()
    }
}

/// The text without the white space at its beginning.
pub open spec fn trim_start(s: Seq<char>) -> Seq<char>
    decreases s.len(),
{
    if s.len() > 0 && is_whitespace(s[0]) {
        trim_start(s.drop_first())
    } else {
        s
    }
}

/// The text without the white space at its end.
pub open spec fn trim_end(s: Seq<char>) -> Seq<char>
    decreases s.len(),
{
    if s.len() > 0 && is_whitespace(s.last()) {
        trim_end(s.drop_last())
    } else {
        s
    }
}

/// The text without the white space at its beginning and at its end.
pub open spec fn trim(s: Seq<char>) -> Seq<char> {
    trim_end(trim_start(s))
}

/// The position of the first white-space character of `s`, or its length.
pub open spec fn first_whitespace(s: Seq<char>) -> int
    decreases s.len(),
{
    if s.len() == 0 {
        0
    } else if is_whitespace(s[0]) {
        0
    } else {
        1 + first_whitespace(s.drop_first())
    }
}

/// The maximal runs of characters of `s` that are not white space, in order.
pub open spec fn tokens(s: Seq<char>) -> Seq<Seq<char>>
    decreases s.len(),
    via tokens_end
{
    let t = trim_start(s);
    let k = first_whitespace(t);
    if t.len() == 0 {
        Seq::empty()
    } else {
        seq![t.subrange(0, k)] + tokens(t.subrange(k, t.len() as int))
    }
}

#[via_fn]
proof fn tokens_end(s: Seq<char>) {
    let t = trim_start(s);
    lemma_trim_start_shape(s);
    lemma_first_whitespace_bounds(t);
}

/// What is left without leading white space is no longer, and does not begin with white
/// space.
pub proof fn lemma_trim_start_shape(s: Seq<char>)
    ensures
        trim_start(s).len() <= s.len(),
        trim_start(s).len() > 0 ==> !is_whitespace(trim_start(s)[0]),
    decreases s.len(),
{
    if s.len() > 0 && is_whitespace(s[0]) {
        lemma_trim_start_shape(s.drop_first());
    }
}

/// The first white space of a text lies within the text, and behind its first character
/// where that is no white space.
pub proof fn lemma_first_whitespace_bounds(s: Seq<char>)
    ensures
        0 <= first_whitespace(s) <= s.len(),
        s.len() > 0 && !is_whitespace(s[0]) ==> first_whitespace(s) >= 1,
    decreases s.len(),
{
    if s.len() > 0 && !is_whitespace(s[0]) {
        lemma_first_whitespace_bounds(s.drop_first());
    }
}

/// The first `c` is at `i` where none stands before `i` and one stands at `i`, or where
/// none stands anywhere and `i` is the length of the text.
pub proof fn lemma_first_index_of(s: Seq<char>, c: char, i: int)
    requires
        0 <= i <= s.len(),
        forall|k: int| 0 <= k < i ==> s[k] != c,
        i < s.len() ==> s[i] == c,
    ensures
        first_index_of(s, c) == i,
    decreases s.len(),
{
    if s.len() > 0 && i > 0 {
        lemma_first_index_of(s.drop_first(), c, i - 1);
    }
}

/// The first `c` lies within the text or at its end, and no `c` stands before it.
pub proof fn lemma_first_index_of_bounds(s: Seq<char>, c: char)
    ensures
        0 <= first_index_of(s, c) <= s.len(),
        forall|k: int| 0 <= k < first_index_of(s, c) ==> s[k] != c,
        first_index_of(s, c) < s.len() ==> s[first_index_of(s, c)] == c,
    decreases s.len(),
{
    if s.len() > 0 && s[0] != c {
        let t = s.drop_first();
        lemma_first_index_of_bounds(t, c);
        assert forall|k: int| 0 <= k < first_index_of(s, c) implies s[k] != c by {
            if k > 0 {
                assert(s[k] == t[k - 1]);
            }
        }
    }
}

/// The first white space is at `i` where none stands before `i` and one stands at `i`, or
/// where none stands anywhere and `i` is the length of the text.
pub proof fn lemma_first_whitespace(s: Seq<char>, i: int)
    requires
        0 <= i <= s.len(),
        forall|k: int| 0 <= k < i ==> !is_whitespace(s[k]),
        i < s.len() ==> is_whitespace(s[i]),
    ensures
        first_whitespace(s) == i,
    decreases s.len(),
{
    if s.len() > 0 && i > 0 {
        lemma_first_whitespace(s.drop_first(), i - 1);
    }
}

/// Leading white space ends at `i` where white space stands before `i` and none at `i`.
pub proof fn lemma_trim_start(s: Seq<char>, i: int)
    requires
        0 <= i <= s.len(),
        forall|k: int| 0 <= k < i ==> is_whitespace(s[k]),
        i < s.len() ==> !is_whitespace(s[i]),
    ensures
        trim_start(s) == s.subrange(i, s.len() as int),
    decreases s.len(),
{
    if i > 0 {
        let t = s.drop_first();
        lemma_trim_start(t, i - 1);
        assert(t.subrange(i - 1, t.len() as int) == s.subrange(i, s.len() as int));
    } else {
        assert(s.subrange(0, s.len() as int) == s);
    }
}

/// Trailing white space begins at `j` where white space stands from `j` on and none
/// before `j`.
pub proof fn lemma_trim_end(s: Seq<char>, j: int)
    requires
        0 <= j <= s.len(),
        forall|k: int| j <= k < s.len() ==> is_whitespace(s[k]),
        j > 0 ==> !is_whitespace(s[j - 1]),
    ensures
        trim_end(s) == s.subrange(0, j),
    decreases s.len(),
{
    if j < s.len() {
        let t = s.drop_last();
        lemma_trim_end(t, j);
        assert(t.subrange(0, j) == s.subrange(0, j));
    } else {
        assert(s.subrange(0, s.len() as int) == s);
    }
}

/// The part of `v` from `from` up to, not including, `to`.
pub fn slice_chars(v: &Vec<char>, from: usize, to: usize) -> (r: Vec<char>)
    requires
        from <= to <= v.len(),
    ensures
        r@ == v@.subrange(from as int, to as int),
{
    let mut r: Vec<char> = Vec::new();
    let mut i: usize = from;
    while i < to
        invariant
            from <= i <= to <= v.len(),
            r@ == v@.subrange(from as int, i as int),
        decreases to - i,
    {
        r.push(v[i]);
        i += 1;
    }
    r
}

/// The pieces of the text between the occurrences of `sep`.
pub fn split_chars(v: &Vec<char>, sep: char) -> (parts: Vec<Vec<char>>)
    ensures
        views(parts@) == split(v@, sep),
        parts.len() >= 1,
{
    let mut parts: Vec<Vec<char>> = Vec::new();
    let mut start: usize = 0;
    let mut i: usize = 0;
    let n: usize = v.len();
    proof {
        assert(v@.subrange(0, n as int) == v@);
        assert(views(parts@) + split(v@, sep) == split(v@, sep));
    }
    while i < n
        invariant
            n == v.len(),
            start <= i <= n,
            forall|k: int| start <= k < i ==> v@[k] != sep,
            split(v@, sep) == views(parts@) + split(v@.subrange(start as int, n as int), sep),
        decreases n - i,
    {
        if v[i] == sep {
            let piece = slice_chars(v, start, i);
            proof {
                let rest = v@.subrange(start as int, n as int);
                lemma_first_index_of(rest, sep, i - start);
                assert(rest.subrange(0, i - start) == piece@);
                assert(rest.subrange(i - start + 1, rest.len() as int) == v@.subrange(
                    i + 1,
                    n as int,
                ));
                assert(views(parts@.push(piece)) == views(parts@).push(piece@));
            }
            parts.push(piece);
            start = i + 1;
        }
        i += 1;
    }
    let piece = slice_chars(v, start, n);
    proof {
        let rest = v@.subrange(start as int, n as int);
        lemma_first_index_of(rest, sep, n - start);
        assert(views(parts@.push(piece)) == views(parts@).push(piece@));
    }
    parts.push(piece);
    parts
}

/// The parts written one after another with `sep` between neighbours.
pub fn join_chars(parts: &Vec<Vec<char>>, sep: &Vec<char>) -> (r: Vec<char>)
    ensures
        r@ == join(views(parts@), sep@),
{
    let mut r: Vec<char> = Vec::new();
    let mut i: usize = 0;
    while i < parts.len()
        invariant
            i <= parts.len(),
            r@ == join(views(parts@).subrange(0, i as int), sep@),
        decreases parts.len() - i,
    {
        let ghost before = r@;
        if i > 0 {
            append_chars(&mut r, sep);
        }
        append_chars(&mut r, &parts[i]);
        proof {
            let p = views(parts@).subrange(0, i + 1);
            assert(p.drop_last() == views(parts@).subrange(0, i as int));
            assert(p.last() == parts@[i as int]@);
            if i == 0 {
                assert(before == Seq::<char>::empty());
                assert(r@ == p[0]);
            }
        }
        i += 1;
    }
    assert(views(parts@).subrange(0, parts.len() as int) == views(parts@));
    r
}

/// Puts the characters of `more` at the end of `v`.
pub fn append_chars(v: &mut Vec<char>, more: &Vec<char>)
    ensures
        final(v)@ == old(v)@ + more@,
{
    let mut i: usize = 0;
    while i < more.len()
        invariant
            i <= more.len(),
            v@ == old(v)@ + more@.subrange(0, i as int),
        decreases more.len() - i,
    {
        v.push(more[i]);
        i += 1;
    }
    assert(more@.subrange(0, more.len() as int) == more@);
}

/// The text without the white space at its beginning and at its end.
pub fn trim_chars(v: &Vec<char>) -> (r: Vec<char>)
    ensures
        r@ == trim(v@),
{
    let n: usize = v.len();
    let mut i: usize = 0;
    while i < n && char_is_whitespace(v[i])
        invariant
            n == v.len(),
            i <= n,
            forall|k: int| 0 <= k < i ==> is_whitespace(v@[k]),
        decreases n - i,
    {
        i += 1;
    }
    let mut j: usize = n;
    while j > i && char_is_whitespace(v[j - 1])
        invariant
            n == v.len(),
            i <= j <= n,
            forall|k: int| j <= k < n ==> is_whitespace(v@[k]),
        decreases j,
    {
        j -= 1;
    }
    proof {
        lemma_trim_start(v@, i as int);
        let t = v@.subrange(i as int, n as int);
        lemma_trim_end(t, j - i);
        assert(t.subrange(0, j - i) == v@.subrange(i as int, j as int));
    }
    slice_chars(v, i, j)
}

/// The first `limit` white-space separated tokens of `v`.
pub fn first_tokens(v: &Vec<char>, limit: usize) -> (r: Vec<Vec<char>>)
    ensures
        views(r@) == if tokens(v@).len() <= limit {
            tokens(v@)
        } else {
            tokens(v@).subrange(0, limit as int)
        },
{
    let n: usize = v.len();
    let mut r: Vec<Vec<char>> = Vec::new();
    let mut i: usize = 0;
    proof {
        assert(v@.subrange(0, n as int) == v@);
        assert(views(r@) + tokens(v@) == tokens(v@));
    }
    while r.len() < limit
        invariant
            n == v.len(),
            i <= n,
            r.len() <= limit,
            tokens(v@) == views(r@) + tokens(v@.subrange(i as int, n as int)),
        ensures
            r.len() <= limit,
            tokens(v@) == views(r@) + tokens(v@.subrange(i as int, n as int)),
            r.len() < limit ==> tokens(v@.subrange(i as int, n as int)).len() == 0,
        decreases limit - r.len(),
    {
        let ghost rest = v@.subrange(i as int, n as int);
        let mut a: usize = i;
        while a < n && char_is_whitespace(v[a])
            invariant
                n == v.len(),
                i <= a <= n,
                forall|k: int| i <= k < a ==> is_whitespace(v@[k]),
            decreases n - a,
        {
            a += 1;
        }
        proof {
            lemma_trim_start(rest, a - i);
            assert(rest.subrange(a - i, rest.len() as int) == v@.subrange(a as int, n as int));
        }
        if a == n {
            break ;
        }
        let mut b: usize = a + 1;
        while b < n && !char_is_whitespace(v[b])
            invariant
                n == v.len(),
                a < b <= n,
                forall|k: int| a <= k < b ==> !is_whitespace(v@[k]),
            decreases n - b,
        {
            b += 1;
        }
        let tok = slice_chars(v, a, b);
        proof {
            let t = v@.subrange(a as int, n as int);
            lemma_first_whitespace(t, b - a);
            assert(t.subrange(0, b - a) == tok@);
            assert(t.subrange(b - a, t.len() as int) == v@.subrange(b as int, n as int));
            assert(views(r@.push(tok)) == views(r@).push(tok@));
        }
        r.push(tok);
        i = b;
    }
    r
}

/// The decimal digits of `n`, most significant first, without leading zeros.
pub open spec fn decimal(n: nat) -> Seq<char>
    decreases n,
{
    if n < 10 {
        seq![digit_char(n)]
    } else {
        decimal(n / 10).push(digit_char(n % 10))
    }
}

/// The hexadecimal digits of `n` in lower case, most significant first, without leading zeros.
pub open spec fn lower_hex(n: nat) -> Seq<char>
    decreases n,
{
    if n < 16 {
        seq![digit_char(n)]
    } else {
        lower_hex(n / 16).push(digit_char(n % 16))
    }
}

/// Whether the character is a digit of the radix.
pub open spec fn is_radix_digit(c: char, radix: nat) -> bool {
    is_hex_digit(c) && digit_value(c) < radix
}

/// Whether every character of the text is a digit of the radix.
pub open spec fn all_digits(s: Seq<char>, radix: nat) -> bool {
    forall|i: int| 0 <= i < s.len() ==> is_radix_digit(#[trigger] s[i], radix)
}

/// The number that the digits write in the given radix.
pub open spec fn digits_value(s: Seq<char>, radix: nat) -> nat
    decreases s.len(),
{
    if s.len() == 0 {
        0
    } else {
        digits_value(s.drop_last(), radix) * radix + digit_value(s.last())
    }
}

/// What is left of `s` once one leading plus sign, if there is one, is taken away.
pub open spec fn without_plus(s: Seq<char>) -> Seq<char> {
    if s.len() > 0 && s[0] == '+' {
        s.drop_first()
    } else {
        s
    }
}

/// The unsigned number that `s` writes: an optional plus sign, then one digit or more of the
/// radix, and a value of at most `max`.
pub open spec fn parse_unsigned(s: Seq<char>, radix: nat, max: nat) -> Option<nat> {
    let body = without_plus(s);
    if body.len() > 0 && all_digits(body, radix) && digits_value(body, radix) <= max {
        Some(digits_value(body, radix))
    } else {
        None
    }
}

/// The digits of a leading part of a text write no more than the digits of the text.
pub proof fn lemma_digits_value_monotone(s: Seq<char>, radix: nat, i: int)
    requires
        0 <= i <= s.len(),
        radix >= 1,
    ensures
        digits_value(s.subrange(0, i), radix) <= digits_value(s, radix),
    decreases s.len(),
{
    if i == s.len() {
        assert(s.subrange(0, i) == s);
    } else {
        let t = s.drop_last();
        lemma_digits_value_monotone(t, radix, i);
        assert(t.subrange(0, i) == s.subrange(0, i));
        assert(digits_value(t, radix) * radix >= digits_value(t, radix)) by (nonlinear_arith)
            requires
                radix >= 1,
        ;
    }
}

/// Puts the decimal digits of `n` at the end of `out`.
pub fn push_decimal(out: &mut Vec<char>, n: u64)
    ensures
        final(out)@ == old(out)@ + decimal(n as nat),
    decreases n,
{
    if n >= 10 {
        push_decimal(out, n / 10);
        out.push(char_of_digit((n % 10) as u8));
    } else {
        out.push(char_of_digit(n as u8));
    }
}

/// Puts the lower-case hexadecimal digits of `n` at the end of `out`.
pub fn push_lower_hex(out: &mut Vec<char>, n: u64)
    ensures
        final(out)@ == old(out)@ + lower_hex(n as nat),
    decreases n,
{
    if n >= 16 {
        push_lower_hex(out, n / 16);
        out.push(char_of_digit((n % 16) as u8));
    } else {
        out.push(char_of_digit(n as u8));
    }
}

/// The decimal digits of the number.
pub fn decimal_chars(n: u64) -> (r: Vec<char>)
    ensures
        r@ == decimal(n as nat),
{
    let mut r: Vec<char> = Vec::new();
    push_decimal(&mut r, n);
    r
}

/// Whether the character is a digit of the radix.
pub fn char_is_radix_digit(c: char, radix: u32) -> (b: bool)
    ensures
        b == is_radix_digit(c, radix as nat),
{
    char_is_hex_digit(c) && (char_digit_value(c) as u32) < radix
}

/// Why a text writes no unsigned number.
#[derive(Debug, Clone, Copy, PartialEq, Eq, Structural)]
pub enum NumberFault {
    /// The text is empty.
    Empty,
    /// A character is no digit, or the text is a sign alone.
    InvalidDigit,
    /// The number is greater than the greatest that is admitted.
    TooLarge,
}

/// What is wrong with the digits from position `i` on, given that nothing is wrong before:
/// at the first position where a character is no digit of the radix, or where the number
/// written so far is greater than `max`, that fault; nothing where there is no such position.
pub open spec fn first_number_fault(body: Seq<char>, radix: nat, max: nat, i: int) -> Option<
    NumberFault,
>
    decreases body.len() - i,
{
    if i < 0 || i >= body.len() {
        None
    } else if !is_radix_digit(body[i], radix) {
        Some(NumberFault::InvalidDigit)
    } else if digits_value(body.subrange(0, i + 1), radix) > max {
        Some(NumberFault::TooLarge)
    } else {
        first_number_fault(body, radix, max, i + 1)
    }
}

/// Why the text writes no unsigned number of at most `max`, if it writes none. The text is
/// read from the left, and the first fault that is met decides.
pub open spec fn number_fault(s: Seq<char>, radix: nat, max: nat) -> Option<NumberFault> {
    if s.len() == 0 {
        Some(NumberFault::Empty)
    } else if without_plus(s).len() == 0 {
        Some(NumberFault::InvalidDigit)
    } else {
        first_number_fault(without_plus(s), radix, max, 0)
    }
}

/// What a fault of a number says in words.
pub open spec fn number_fault_text(f: NumberFault) -> Seq<char> {
    match f {
        NumberFault::Empty => "cannot parse integer from empty string"@,
        NumberFault::InvalidDigit => "invalid digit found in string"@,
        NumberFault::TooLarge => "number too large to fit in target type"@,
    }
}

impl NumberFault {
    /// What the fault says in words.
    pub fn to_text(&self) -> (r: String)
        ensures
            r@ == number_fault_text(*self),
    {
        match self {
            NumberFault::Empty => string_of("cannot parse integer from empty string"),
            NumberFault::InvalidDigit => string_of("invalid digit found in string"),
            NumberFault::TooLarge => string_of("number too large to fit in target type"),
        }
    }
}

/// The unsigned number that the text writes, as `parse_unsigned` reads it, or why it writes
/// none, as `number_fault` has it.
pub fn parse_unsigned_or_fault(v: &Vec<char>, radix: u32, max: u32) -> (r: Result<u32, NumberFault>)
    requires
        2 <= radix <= 16,
    ensures
        match parse_unsigned(v@, radix as nat, max as nat) {
            Some(n) => r == Ok::<u32, NumberFault>(n as u32),
            None => r is Err,
        },
        match number_fault(v@, radix as nat, max as nat) {
            Some(f) => r == Err::<u32, NumberFault>(f),
            None => r is Ok,
        },
{
    let n: usize = v.len();
    if n == 0 {
        return Err(NumberFault::Empty);
    }
    let first: usize = if v[0] == '+' {
        1
    } else {
        0
    };
    let ghost body = without_plus(v@);
    assert(body == v@.subrange(first as int, n as int));
    if first == n {
        return Err(NumberFault::InvalidDigit);
    }
    let mut acc: u64 = 0;
    let mut i: usize = first;
    while i < n
        invariant
            n == v.len(),
            n > 0,
            first <= i <= n,
            first < n,
            2 <= radix <= 16,
            body == without_plus(v@),
            body == v@.subrange(first as int, n as int),
            all_digits(body.subrange(0, i - first), radix as nat),
            acc == digits_value(body.subrange(0, i - first), radix as nat),
            acc <= max,
            number_fault(v@, radix as nat, max as nat) == first_number_fault(
                body,
                radix as nat,
                max as nat,
                i - first,
            ),
        decreases n - i,
    {
        let c: char = v[i];
        let ghost next = body.subrange(0, i + 1 - first);
        proof {
            assert(next.drop_last() == body.subrange(0, i - first));
            assert(next.last() == c);
            assert(body[i - first] == c);
        }
        if !char_is_radix_digit(c, radix) {
            return Err(NumberFault::InvalidDigit);
        }
        let d: u64 = char_digit_value(c) as u64;
        assert(acc * (radix as u64) <= 0xffff_ffff * 16) by (nonlinear_arith)
            requires
                acc <= 0xffff_ffff,
                radix <= 16,
        ;
        let value: u64 = acc * (radix as u64) + d;
        if value > max as u64 {
            proof {
                lemma_digits_value_monotone(body, radix as nat, i + 1 - first);
            }
            return Err(NumberFault::TooLarge);
        }
        proof {
            assert forall|k: int| 0 <= k < next.len() implies is_radix_digit(
                #[trigger] next[k],
                radix as nat,
            ) by {
                if k < i - first {
                    assert(next[k] == body.subrange(0, i - first)[k]);
                }
            }
        }
        acc = value;
        i += 1;
    }
    assert(body.subrange(0, n - first) == body);
    Ok(acc as u32)
}

/// The unsigned number that the text writes, as `parse_unsigned` reads it.
pub fn parse_unsigned_chars(v: &Vec<char>, radix: u32, max: u32) -> (r: Option<u32>)
    requires
        2 <= radix <= 16,
    ensures
        match parse_unsigned(v@, radix as nat, max as nat) {
            Some(n) => r == Some(n as u32),
            None => r is None,
        },
{
    match parse_unsigned_or_fault(v, radix, max) {
        Ok(n) => Some(n),
        Err(_) => None,
    }
}

/// A text has at least one piece, and at most one piece more than it has characters.
pub proof fn lemma_split_len(s: Seq<char>, sep: char)
    ensures
        1 <= split(s, sep).len() <= s.len() + 1,
    decreases s.len(),
{
    let i = first_index_of(s, sep);
    if 0 <= i < s.len() {
        lemma_split_len(s.subrange(i + 1, s.len() as int), sep);
    }
}

/// Whether the character does not occur in the text.
pub open spec fn free_of(s: Seq<char>, c: char) -> bool {
    forall|i: int| 0 <= i < s.len() ==> s[i] != c
}

/// A piece without a separator, put after a separator at the end of a text, is one more piece.
pub proof fn lemma_split_concat(a: Seq<char>, b: Seq<char>, sep: char)
    requires
        free_of(b, sep),
    ensures
        split(a + seq![sep] + b, sep) == split(a, sep).push(b),
    decreases a.len(),
{
    let whole = a + seq![sep] + b;
    lemma_first_index_of_bounds(a, sep);
    let i = first_index_of(a, sep);
    if i < a.len() {
        assert forall|k: int| 0 <= k < i implies whole[k] != sep by {
            assert(whole[k] == a[k]);
        }
        assert(whole[i] == a[i]);
        lemma_first_index_of(whole, sep, i);
        let rest = a.subrange(i + 1, a.len() as int);
        let head = a.subrange(0, i);
        lemma_split_concat(rest, b, sep);
        assert(whole.subrange(i + 1, whole.len() as int) =~= rest + seq![sep] + b);
        assert(whole.subrange(0, i) =~= head);
        assert(split(whole, sep) == seq![head] + split(rest + seq![sep] + b, sep));
        assert(split(a, sep) == seq![head] + split(rest, sep));
        assert(seq![head] + split(rest, sep).push(b) =~= (seq![head] + split(rest, sep)).push(b));
    } else {
        assert forall|k: int| 0 <= k < a.len() implies whole[k] != sep by {
            assert(whole[k] == a[k]);
        }
        assert(whole[a.len() as int] == sep);
        lemma_first_index_of(whole, sep, a.len() as int);
        assert(whole.subrange(0, a.len() as int) =~= a);
        assert(whole.subrange(a.len() as int + 1, whole.len() as int) =~= b);
        lemma_first_index_of(b, sep, b.len() as int);
        assert(split(b, sep) == seq![b]);
        assert(split(a, sep) == seq![a]);
        assert(split(whole, sep) == seq![a] + split(b, sep));
        assert(seq![a] + seq![b] =~= seq![a].push(b));
    }
}

/// Pieces without a separator, joined by the separator, split into the same pieces again.
pub proof fn lemma_split_join(parts: Seq<Seq<char>>, sep: char)
    requires
        parts.len() > 0,
        forall|i: int| 0 <= i < parts.len() ==> free_of(#[trigger] parts[i], sep),
    ensures
        split(join(parts, seq![sep]), sep) == parts,
    decreases parts.len(),
{
    if parts.len() == 1 {
        lemma_first_index_of(parts[0], sep, parts[0].len() as int);
        assert(seq![parts[0]] == parts);
    } else {
        let front = parts.drop_last();
        assert forall|i: int| 0 <= i < front.len() implies free_of(#[trigger] front[i], sep) by {
            assert(front[i] == parts[i]);
        }
        lemma_split_join(front, sep);
        lemma_split_concat(join(front, seq![sep]), parts.last(), sep);
        assert(front.push(parts.last()) == parts);
    }
}

/// The text of a string literal or any other string slice, as a string of its own.
pub fn string_of(s: &str) -> (r: String)
    ensures
        r@ == s@,
{
    string_from_chars(&str_chars(s))
}

/// Whether the two strings hold the same text.
pub fn same_text(a: &String, b: &String) -> (r: bool)
    ensures
        r == (a@ == b@),
{
    *a == *b
}

/// A copy of each of the strings, in order.
pub fn clone_strings(v: &Vec<String>) -> (r: Vec<String>)
    ensures
        string_views(r@) == string_views(v@),
        r.len() == v.len(),
{
    let mut r: Vec<String> = Vec::new();
    let mut i: usize = 0;
    while i < v.len()
        invariant
            i <= v.len(),
            r.len() == i,
            forall|k: int| 0 <= k < i ==> r@[k]@ == v@[k]@,
        decreases v.len() - i,
    {
        r.push(v[i].clone());
        i += 1;
    }
    assert(string_views(r@) =~= string_views(v@));
    r
}

/// Whether the two lists hold the same texts in the same order.
pub fn same_texts(a: &Vec<String>, b: &Vec<String>) -> (r: bool)
    ensures
        r == (string_views(a@) == string_views(b@)),
{
    if a.len() != b.len() {
        assert(string_views(a@).len() != string_views(b@).len());
        return false;
    }
    let mut i: usize = 0;
    while i < a.len()
        invariant
            i <= a.len(),
            a.len() == b.len(),
            forall|k: int| 0 <= k < i ==> a@[k]@ == b@[k]@,
        decreases a.len() - i,
    {
        if !same_text(&a[i], &b[i]) {
            assert(string_views(a@)[i as int] != string_views(b@)[i as int]);
            return false;
        }
        i += 1;
    }
    assert(string_views(a@) =~= string_views(b@));
    true
}

/// Whether the two texts are the same.
pub fn same_chars(a: &Vec<char>, b: &Vec<char>) -> (r: bool)
    ensures
        r == (a@ == b@),
{
    if a.len() != b.len() {
        return false;
    }
    let mut i: usize = 0;
    while i < a.len()
        invariant
            i <= a.len(),
            a.len() == b.len(),
            forall|k: int| 0 <= k < i ==> a@[k] == b@[k],
        decreases a.len() - i,
    {
        if a[i] != b[i] {
            return false;
        }
        i += 1;
    }
    assert(a@ =~= b@);
    true
}

/// Puts the characters at the end of the string.
pub fn append_to_string(s: &mut String, more: &Vec<char>)
    ensures
        final(s)@ == old(s)@ + more@,
{
    let mut i: usize = 0;
    assert(s@ =~= old(s)@ + more@.subrange(0, 0));
    while i < more.len()
        invariant
            i <= more.len(),
            s@ == old(s)@ + more@.subrange(0, i as int),
        decreases more.len() - i,
    {
        let ghost before = s@;
        string_push(s, more[i]);
        assert(s@ =~= old(s)@ + more@.subrange(0, i + 1));
        i += 1;
    }
    assert(more@.subrange(0, more.len() as int) == more@);
}

/// Whether the text `a` comes before the text `b` in the order of the dictionary, character
/// by character by code point; a text comes after each of its leading parts.
pub open spec fn lex_less(a: Seq<char>, b: Seq<char>) -> bool
    decreases a.len(),
{
    if b.len() == 0 {
        false
    } else if a.len() == 0 {
        true
    } else if a[0] != b[0] {
        (a[0] as u32) < (b[0] as u32)
    } else {
        lex_less(a.drop_first(), b.drop_first())
    }
}

/// Whether the text `a` comes before the text `b` in the order of the dictionary.
pub fn chars_less(a: &Vec<char>, b: &Vec<char>) -> (r: bool)
    ensures
        r == lex_less(a@, b@),
{
    let mut i: usize = 0;
    assert(a@.subrange(0, a.len() as int) == a@);
    assert(b@.subrange(0, b.len() as int) == b@);
    while i < a.len() && i < b.len()
        invariant
            i <= a.len(),
            i <= b.len(),
            lex_less(a@, b@) == lex_less(
                a@.subrange(i as int, a.len() as int),
                b@.subrange(i as int, b.len() as int),
            ),
        decreases a.len() - i,
    {
        let ghost x = a@.subrange(i as int, a.len() as int);
        let ghost y = b@.subrange(i as int, b.len() as int);
        proof {
            assert(x[0] == a@[i as int]);
            assert(y[0] == b@[i as int]);
            assert(x.drop_first() == a@.subrange(i + 1, a.len() as int));
            assert(y.drop_first() == b@.subrange(i + 1, b.len() as int));
        }
        if a[i] != b[i] {
            return (a[i] as u32) < (b[i] as u32);
        }
        i += 1;
    }
    i < b.len()
}

/// The decimal digits of a number write that number.
pub proof fn lemma_decimal_value(n: nat)
    ensures
        all_digits(decimal(n), 10),
        digits_value(decimal(n), 10) == n,
        decimal(n).len() >= 1,
        without_plus(decimal(n)) == decimal(n),
        free_of(decimal(n), '.'),
    decreases n,
{
    let d = decimal(n);
    if n < 10 {
        assert(d.drop_last() =~= Seq::<char>::empty());
        assert(digits_value(d.drop_last(), 10) == 0);
        assert(is_radix_digit(d[0], 10));
    } else {
        lemma_decimal_value(n / 10);
        let front = decimal(n / 10);
        assert(d.drop_last() =~= front);
        assert(d.last() == digit_char(n % 10));
        assert forall|i: int| 0 <= i < d.len() implies is_radix_digit(#[trigger] d[i], 10) by {
            if i < front.len() {
                assert(d[i] == front[i]);
                assert(is_radix_digit(front[i], 10));
            }
        }
        assert(d[0] == front[0]);
        assert(is_radix_digit(front[0], 10));
    }
    assert(is_radix_digit(d[0], 10));
    assert forall|i: int| 0 <= i < d.len() implies d[i] != '.' by {
        assert(is_radix_digit(d[i], 10));
    }
}

} // verus!
