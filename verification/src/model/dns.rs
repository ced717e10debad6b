//! Domain names, resource records, and zones.
use crate::model::net::{Ipv4Addr, Ipv6Addr};
use crate::text::{
    append_chars, char_is_ascii_alphanumeric, char_is_whitespace, char_to_lower, clone_strings,
    first_index_of, free_of, is_ascii_alphanumeric, is_whitespace, join, join_chars,
    lemma_split_join, lemma_split_len, same_chars, same_text, same_texts, slice_chars, split,
    split_chars, str_chars, string_from_chars, string_of, string_views, to_lower,
    to_lower_char, views,
};
use vstd::prelude::*;

verus! {

/// A validated domain name in its canonical, lower-case form, with the trailing dot that it
/// was written with, if any.
#[derive(Debug, Hash, PartialEq, Eq)]
pub struct FQDNName(String);

/// Why a text is not a domain name.
#[derive(Debug, PartialEq, Eq)]
pub enum FQDNError {
    EmptyInput,
    LabelEmpty,
    LabelTooLong(String),
    InvalidLabelStart(String),
    InvalidLabelEnd(String),
    InvalidCharacter(char, String),
}

/// The mathematical value of an `FQDNError`: the fault, with the label at fault.
pub enum NameFault {
    EmptyInput,
    LabelEmpty,
    LabelTooLong(Seq<char>),
    InvalidLabelStart(Seq<char>),
    InvalidLabelEnd(Seq<char>),
    InvalidCharacter(char, Seq<char>),
}

impl View for FQDNError {
    type V = NameFault;

    open spec fn view(&self) -> NameFault {
        match self {
            FQDNError::EmptyInput => NameFault::EmptyInput,
            FQDNError::LabelEmpty => NameFault::LabelEmpty,
            FQDNError::LabelTooLong(l) => NameFault::LabelTooLong(l@),
            FQDNError::InvalidLabelStart(l) => NameFault::InvalidLabelStart(l@),
            FQDNError::InvalidLabelEnd(l) => NameFault::InvalidLabelEnd(l@),
            FQDNError::InvalidCharacter(c, l) => NameFault::InvalidCharacter(*c, l@),
        }
    }
}

/// The text without its last character where that is a dot.
pub open spec fn strip_dot(s: Seq<char>) -> Seq<char> {
    if s.len() > 0 && s.last() == '.' {
        s.drop_last()
    } else {
        s
    }
}

/// The number of octets that the character takes in UTF-8.
pub open spec fn char_width(c: char) -> nat {
    let u = c as u32;
    if u < 0x80 {
        1
    } else if u < 0x800 {
        2
    } else if u < 0x10000 {
        3
    } else {
        4
    }
}

/// The number of octets that the text takes in UTF-8.
pub open spec fn byte_len(s: Seq<char>) -> nat
    decreases s.len(),
{
    if s.len() == 0 {
        0
    } else {
        byte_len(s.drop_last()) + char_width(s.last())
    }
}

/// The characters that may stand in a label: letters, digits, the hyphen and the slash.
pub open spec fn is_label_char(c: char) -> bool {
    is_ascii_alphanumeric(c) || c == '-' || c == '/'
}

/// The position of the first character of `s` that may not stand in a label, or the length
/// of `s` where there is none.
pub open spec fn first_bad_char(s: Seq<char>) -> int
    decreases s.len(),
{
    if s.len() == 0 {
        0
    } else if !is_label_char(s[0]) {
        0
    } else {
        1 + first_bad_char(s.drop_first())
    }
}

/// What is wrong with a label, if anything; the first rule that it breaks decides.
pub open spec fn label_fault(label: Seq<char>) -> Option<NameFault> {
    if byte_len(label) > 63 {
        Some(NameFault::LabelTooLong(label))
    } else if label.len() == 0 {
        Some(NameFault::LabelEmpty)
    } else if !is_ascii_alphanumeric(label[0]) {
        Some(NameFault::InvalidLabelStart(label))
    } else if !is_ascii_alphanumeric(label.last()) {
        Some(NameFault::InvalidLabelEnd(label))
    } else if first_bad_char(label) < label.len() {
        Some(NameFault::InvalidCharacter(label[first_bad_char(label)], label))
    } else {
        None
    }
}

/// What is wrong with the first label that has a fault, if any has.
pub open spec fn labels_fault(labels: Seq<Seq<char>>) -> Option<NameFault>
    decreases labels.len(),
{
    if labels.len() == 0 {
        None
    } else {
        match label_fault(labels[0]) {
            Some(f) => Some(f),
            None => labels_fault(labels.drop_first()),
        }
    }
}

/// Whether the text holds white space alone.
pub open spec fn all_whitespace(s: Seq<char>) -> bool {
    forall|i: int| 0 <= i < s.len() ==> is_whitespace(#[trigger] s[i])
}

/// What is wrong with a text as a domain name, if anything. A text of white space alone, or
/// one that is empty once a trailing dot is taken away, is empty input; otherwise the labels
/// between the dots are judged from left to right.
pub open spec fn name_fault(s: Seq<char>) -> Option<NameFault> {
    if all_whitespace(s) || strip_dot(s).len() == 0 {
        Some(NameFault::EmptyInput)
    } else {
        labels_fault(split(strip_dot(s), '.'))
    }
}

/// Whether the text is a domain name.
pub open spec fn valid_name(s: Seq<char>) -> bool {
    name_fault(s) is None
}

/// The labels of a name: the pieces between the dots, a trailing dot left aside.
pub open spec fn labels(s: Seq<char>) -> Seq<Seq<char>> {
    split(strip_dot(s), '.')
}

/// Whether the name `s` lies strictly below the name `p`: it has more labels, and its last
/// labels are those of `p`.
pub open spec fn is_child(s: Seq<char>, p: Seq<char>) -> bool {
    let a = labels(s);
    let b = labels(p);
    a.len() > b.len() && a.subrange(a.len() - b.len(), a.len() as int) == b
}

/// The name `s` as seen from `p`: `@` for `p` itself, the leading labels of a name below `p`,
/// and nothing for any other name.
pub open spec fn relative(s: Seq<char>, p: Seq<char>) -> Option<Seq<char>> {
    if s == p {
        Some(seq!['@'])
    } else if is_child(s, p) {
        Some(join(labels(s).subrange(0, labels(s).len() - labels(p).len()), seq!['.']))
    } else {
        None
    }
}

/// A leading part of a text takes no more octets than the text, and a text takes an octet
/// or more for each of its characters.
pub proof fn lemma_byte_len_monotone(s: Seq<char>, i: int)
    requires
        0 <= i <= s.len(),
    ensures
        byte_len(s.subrange(0, i)) <= byte_len(s),
        s.len() <= byte_len(s),
    decreases s.len(),
{
    if i == s.len() {
        assert(s.subrange(0, i) == s);
        if s.len() > 0 {
            lemma_byte_len_monotone(s.drop_last(), i - 1);
        }
    } else {
        let t = s.drop_last();
        lemma_byte_len_monotone(t, i);
        assert(t.subrange(0, i) == s.subrange(0, i));
    }
}

/// The first character that may not stand in a label is at `i` where those before `i` may
/// and the one at `i`, if there is one, may not.
pub proof fn lemma_first_bad_char(s: Seq<char>, i: int)
    requires
        0 <= i <= s.len(),
        forall|k: int| 0 <= k < i ==> is_label_char(s[k]),
        i < s.len() ==> !is_label_char(s[i]),
    ensures
        first_bad_char(s) == i,
    decreases s.len(),
{
    if s.len() > 0 && i > 0 {
        lemma_first_bad_char(s.drop_first(), i - 1);
    }
}

/// Before the first character that may not stand in a label, every character may.
pub proof fn lemma_first_bad_char_bounds(s: Seq<char>)
    ensures
        0 <= first_bad_char(s) <= s.len(),
        forall|k: int| 0 <= k < first_bad_char(s) ==> is_label_char(s[k]),
        first_bad_char(s) < s.len() ==> !is_label_char(s[first_bad_char(s)]),
    decreases s.len(),
{
    if s.len() > 0 && is_label_char(s[0]) {
        let t = s.drop_first();
        lemma_first_bad_char_bounds(t);
        assert forall|k: int| 0 <= k < first_bad_char(s) implies is_label_char(s[k]) by {
            if k > 0 {
                assert(s[k] == t[k - 1]);
            }
        }
    }
}

/// Whether the label takes more than 63 octets.
fn label_too_long(label: &Vec<char>) -> (b: bool)
    ensures
        b == (byte_len(label@) > 63),
{
    let n: usize = label.len();
    let mut total: usize = 0;
    let mut i: usize = 0;
    while i < n
        invariant
            n == label.len(),
            i <= n,
            total == byte_len(label@.subrange(0, i as int)),
            total <= 63,
        decreases n - i,
    {
        let u: u32 = label[i] as u32;
        let w: usize = if u < 0x80 {
            1
        } else if u < 0x800 {
            2
        } else if u < 0x10000 {
            3
        } else {
            4
        };
        proof {
            let next = label@.subrange(0, i + 1);
            assert(next.drop_last() == label@.subrange(0, i as int));
            assert(next.last() == label@[i as int]);
        }
        total = total + w;
        if total > 63 {
            proof {
                lemma_byte_len_monotone(label@, i + 1);
            }
            return true;
        }
        i += 1;
    }
    assert(label@.subrange(0, n as int) == label@);
    false
}

fn char_is_label_char(c: char) -> (b: bool)
    ensures
        b == is_label_char(c),
{
    char_is_ascii_alphanumeric(c) || c == '-' || c == '/'
}

#[verifier::loop_isolation(false)]
fn validate_label_chars(label: &Vec<char>) -> (r: Result<(), FQDNError>)
    ensures
        match label_fault(label@) {
            Some(f) => r is Err && r.unwrap_err()@ == f,
            None => r is Ok,
        },
{
    if label_too_long(label) {
        return Err(FQDNError::LabelTooLong(string_from_chars(label)));
    }
    let n: usize = label.len();
    if n == 0 {
        return Err(FQDNError::LabelEmpty);
    }
    if !char_is_ascii_alphanumeric(label[0]) {
        return Err(FQDNError::InvalidLabelStart(string_from_chars(label)));
    }
    if !char_is_ascii_alphanumeric(label[n - 1]) {
        return Err(FQDNError::InvalidLabelEnd(string_from_chars(label)));
    }
    let mut i: usize = 0;
    while i < n
        invariant
            n == label.len(),
            i <= n,
            forall|k: int| 0 <= k < i ==> is_label_char(label@[k]),
        decreases n - i,
    {
        if !char_is_label_char(label[i]) {
            proof {
                lemma_first_bad_char(label@, i as int);
            }
            return Err(FQDNError::InvalidCharacter(label[i], string_from_chars(label)));
        }
        i += 1;
    }
    proof {
        lemma_first_bad_char(label@, n as int);
    }
    Ok(())
}

/// The text without one trailing dot.
fn strip_dot_chars(v: &Vec<char>) -> (r: Vec<char>)
    ensures
        r@ == strip_dot(v@),
{
    let n: usize = v.len();
    if n > 0 && v[n - 1] == '.' {
        slice_chars(v, 0, n - 1)
    } else {
        assert(v@.subrange(0, n as int) == v@);
        slice_chars(v, 0, n)
    }
}

#[verifier::loop_isolation(false)]
fn validate_name_chars(v: &Vec<char>) -> (r: Result<(), FQDNError>)
    ensures
        match name_fault(v@) {
            Some(f) => r is Err && r.unwrap_err()@ == f,
            None => r is Ok,
        },
{
    let n: usize = v.len();
    let mut i: usize = 0;
    while i < n && char_is_whitespace(v[i])
        invariant
            n == v.len(),
            i <= n,
            forall|k: int| 0 <= k < i ==> is_whitespace(v@[k]),
        decreases n - i,
    {
        i += 1;
    }
    if i == n {
        return Err(FQDNError::EmptyInput);
    }
    assert(!all_whitespace(v@)) by {
        assert(!is_whitespace(v@[i as int]));
    }
    let stripped = strip_dot_chars(v);
    if stripped.len() == 0 {
        return Err(FQDNError::EmptyInput);
    }
    let parts = split_chars(&stripped, '.');
    let ghost all = split(stripped@, '.');
    assert(all.subrange(0, all.len() as int) == all);
    let mut j: usize = 0;
    while j < parts.len()
        invariant
            j <= parts.len(),
            views(parts@) == all,
            labels_fault(all) == labels_fault(all.subrange(j as int, all.len() as int)),
        decreases parts.len() - j,
    {
        let ghost rest = all.subrange(j as int, all.len() as int);
        assert(rest[0] == parts@[j as int]@);
        assert(rest.drop_first() == all.subrange(j + 1, all.len() as int));
        match validate_label_chars(&parts[j]) {
            Ok(()) => {},
            Err(e) => {
                return Err(e);
            },
        }
        j += 1;
    }
    Ok(())
}

/// The lower-case form of each text.
pub open spec fn lower_each(p: Seq<Seq<char>>) -> Seq<Seq<char>> {
    Seq::new(p.len(), |i: int| to_lower(p[i]))
}

/// Lower case moves no dot.
pub proof fn lemma_lower_first_index(s: Seq<char>)
    ensures
        first_index_of(to_lower(s), '.') == first_index_of(s, '.'),
    decreases s.len(),
{
    if s.len() > 0 {
        assert(to_lower(s)[0] == to_lower_char(s[0]));
        assert(to_lower(s).drop_first() == to_lower(s.drop_first()));
        lemma_lower_first_index(s.drop_first());
    }
}

/// The pieces of a text in lower case are the pieces of the text, in lower case.
pub proof fn lemma_lower_split(s: Seq<char>)
    ensures
        split(to_lower(s), '.') == lower_each(split(s, '.')),
    decreases s.len(),
{
    lemma_lower_first_index(s);
    let i = first_index_of(s, '.');
    if 0 <= i < s.len() {
        let rest = s.subrange(i + 1, s.len() as int);
        lemma_lower_split(rest);
        assert(to_lower(s).subrange(i + 1, s.len() as int) == to_lower(rest));
        assert(to_lower(s).subrange(0, i) == to_lower(s.subrange(0, i)));
        assert(seq![to_lower(s.subrange(0, i))] + lower_each(split(rest, '.')) == lower_each(
            seq![s.subrange(0, i)] + split(rest, '.'),
        ));
    } else {
        assert(seq![to_lower(s)] == lower_each(seq![s]));
    }
}

/// Lower case keeps the number of octets of a text.
pub proof fn lemma_lower_byte_len(s: Seq<char>)
    ensures
        byte_len(to_lower(s)) == byte_len(s),
    decreases s.len(),
{
    if s.len() > 0 {
        assert(to_lower(s).drop_last() == to_lower(s.drop_last()));
        assert(to_lower(s).last() == to_lower_char(s.last()));
        lemma_lower_byte_len(s.drop_last());
    }
}

/// Lower case keeps the first character that may not stand in a label where it is.
pub proof fn lemma_lower_first_bad_char(s: Seq<char>)
    ensures
        first_bad_char(to_lower(s)) == first_bad_char(s),
    decreases s.len(),
{
    if s.len() > 0 {
        assert(to_lower(s)[0] == to_lower_char(s[0]));
        assert(to_lower(s).drop_first() == to_lower(s.drop_first()));
        lemma_lower_first_bad_char(s.drop_first());
    }
}

/// A label in lower case is at fault where the label is.
pub proof fn lemma_lower_label(label: Seq<char>)
    ensures
        label_fault(to_lower(label)) is None <==> label_fault(label) is None,
{
    lemma_lower_byte_len(label);
    lemma_lower_first_bad_char(label);
    if label.len() > 0 {
        assert(to_lower(label)[0] == to_lower_char(label[0]));
        assert(to_lower(label).last() == to_lower_char(label.last()));
    }
}

/// Labels in lower case are at fault where the labels are.
pub proof fn lemma_lower_labels(p: Seq<Seq<char>>)
    ensures
        labels_fault(lower_each(p)) is None <==> labels_fault(p) is None,
    decreases p.len(),
{
    if p.len() > 0 {
        lemma_lower_label(p[0]);
        assert(lower_each(p)[0] == to_lower(p[0]));
        assert(lower_each(p).drop_first() == lower_each(p.drop_first()));
        lemma_lower_labels(p.drop_first());
    }
}

/// Lower case keeps a name a name, and changes nothing when applied again.
pub proof fn lemma_lower_name(s: Seq<char>)
    ensures
        valid_name(to_lower(s)) <==> valid_name(s),
        to_lower(to_lower(s)) == to_lower(s),
        strip_dot(to_lower(s)) == to_lower(strip_dot(s)),
{
    let l = to_lower(s);
    assert(to_lower(l) =~= l);
    assert(strip_dot(l) =~= to_lower(strip_dot(s))) by {
        if s.len() > 0 {
            assert(l.last() == to_lower_char(s.last()));
        }
    }
    assert(all_whitespace(l) <==> all_whitespace(s)) by {
        if all_whitespace(s) {
            assert forall|i: int| 0 <= i < l.len() implies is_whitespace(#[trigger] l[i]) by {
                assert(is_whitespace(s[i]));
            }
        }
        if all_whitespace(l) {
            assert forall|i: int| 0 <= i < s.len() implies is_whitespace(#[trigger] s[i]) by {
                assert(is_whitespace(l[i]));
            }
        }
    }
    lemma_lower_split(strip_dot(s));
    lemma_lower_labels(split(strip_dot(s), '.'));
}

impl View for FQDNName {
    type V = Seq<char>;

    closed spec fn view(&self) -> Seq<char> {
        self.0@
    }
}

impl Clone for FQDNName {
    fn clone(&self) -> (r: Self)
        ensures
            r@ == self@,
    {
        proof {
            use_type_invariant(self);
        }
        FQDNName(self.0.clone())
    }
}

impl FQDNName {
    /// Every name is a valid domain name in lower case.
    #[verifier::type_invariant]
    pub open spec fn wf(&self) -> bool {
        valid_name(self@) && to_lower(self@) == self@
    }

    /// The name that the text writes: the text in lower case where it is a domain name, and
    /// otherwise what is wrong with it.
    pub fn new(name: &str) -> (r: Result<Self, FQDNError>)
        ensures
            match name_fault(name@) {
                Some(f) => r is Err && r.unwrap_err()@ == f,
                None => r is Ok && r.unwrap()@ == to_lower(name@) && r.unwrap().wf(),
            },
    {
        let v = str_chars(name);
        match validate_name_chars(&v) {
            Ok(()) => {},
            Err(e) => {
                return Err(e);
            },
        }
        let mut low: Vec<char> = Vec::new();
        let mut i: usize = 0;
        while i < v.len()
            invariant
                i <= v.len(),
                low@ == to_lower(v@.subrange(0, i as int)),
            decreases v.len() - i,
        {
            low.push(char_to_lower(v[i]));
            assert(low@ =~= to_lower(v@.subrange(0, i + 1)));
            i += 1;
        }
        proof {
            assert(v@.subrange(0, v.len() as int) == v@);
            lemma_lower_name(v@);
        }
        Ok(FQDNName(string_from_chars(&low)))
    }

    /// What is wrong with a single label, if anything.
    pub fn validate_label(label: &str) -> (r: Result<(), FQDNError>)
        ensures
            match label_fault(label@) {
                Some(f) => r is Err && r.unwrap_err()@ == f,
                None => r is Ok,
            },
    {
        let v = str_chars(label);
        validate_label_chars(&v)
    }

    /// The text of the name.
    pub fn as_str(&self) -> (r: &str)
        ensures
            r@ == self@,
    {
        self.0.as_str()
    }

    /// The characters of the name.
    pub fn chars(&self) -> (r: Vec<char>)
        ensures
            r@ == self@,
            self.wf(),
    {
        proof {
            use_type_invariant(self);
        }
        str_chars(self.0.as_str())
    }

    /// Whether the two names are the same text.
    pub fn equals(&self, other: &FQDNName) -> (r: bool)
        ensures
            r == (self@ == other@),
    {
        self.0 == other.0
    }

    /// The labels of the name.
    pub fn label_chars(&self) -> (r: Vec<Vec<char>>)
        ensures
            views(r@) == labels(self@),
            r.len() >= 1,
    {
        let v = str_chars(self.0.as_str());
        let stripped = strip_dot_chars(&v);
        split_chars(&stripped, '.')
    }

    /// Whether the name lies strictly below `parent`.
    #[verifier::loop_isolation(false)]
    pub fn is_child_of(&self, parent: &FQDNName) -> (r: bool)
        ensures
            r == is_child(self@, parent@),
    {
        let a = self.label_chars();
        let b = parent.label_chars();
        if a.len() <= b.len() {
            return false;
        }
        let start: usize = a.len() - b.len();
        let mut i: usize = 0;
        while i < b.len()
            invariant
                i <= b.len(),
                start + b.len() == a.len(),
                forall|k: int| 0 <= k < i ==> a@[start + k]@ == b@[k]@,
            decreases b.len() - i,
        {
            if !same_chars(&a[start + i], &b[i]) {
                proof {
                    let sub = views(a@).subrange(start as int, a.len() as int);
                    assert(sub[i as int] == a@[start + i]@);
                    assert(views(b@)[i as int] == b@[i as int]@);
                }
                return false;
            }
            i += 1;
        }
        proof {
            let sub = views(a@).subrange(start as int, a.len() as int);
            assert(sub =~= views(b@));
        }
        true
    }

    /// The name as seen from `parent`.
    #[verifier::loop_isolation(false)]
    pub fn relative_to(&self, parent: &FQDNName) -> (r: Option<String>)
        ensures
            match relative(self@, parent@) {
                Some(t) => r is Some && r.unwrap()@ == t,
                None => r is None,
            },
    {
        if self.equals(parent) {
            let at: Vec<char> = vec!['@'];
            return Some(string_from_chars(&at));
        }
        if !self.is_child_of(parent) {
            return None;
        }
        let a = self.label_chars();
        let b = parent.label_chars();
        let keep: usize = a.len() - b.len();
        let mut front: Vec<Vec<char>> = Vec::new();
        let mut i: usize = 0;
        while i < keep
            invariant
                i <= keep <= a.len(),
                front.len() == i,
                views(front@) == views(a@).subrange(0, i as int),
            decreases keep - i,
        {
            let piece = slice_chars(&a[i], 0, a[i].len());
            proof {
                assert(a@[i as int]@.subrange(0, a@[i as int]@.len() as int) == a@[i as int]@);
                let prev = views(a@).subrange(0, i as int);
                let next = views(a@).subrange(0, i + 1);
                assert forall|k: int| 0 <= k < next.len() implies views(front@.push(piece))[k]
                    == next[k] by {
                    if k < i {
                        assert(views(front@)[k] == prev[k]);
                    }
                }
                assert(views(front@.push(piece)) =~= next);
            }
            front.push(piece);
            i += 1;
        }
        let sep: Vec<char> = vec!['.'];
        let joined = join_chars(&front, &sep);
        proof {
            assert(sep@ =~= seq!['.']);
            assert(views(a@).len() == a.len());
            assert(views(b@).len() == b.len());
        }
        Some(string_from_chars(&joined))
    }

    /// The last label of the name.
    pub fn tld(&self) -> (r: Option<String>)
        ensures
            r is Some,
            r.unwrap()@ == labels(self@).last(),
    {
        let a = self.label_chars();
        Some(string_from_chars(&a[a.len() - 1]))
    }

    /// The number of characters of the name.
    pub fn name_len(&self) -> (r: usize)
        ensures
            r == self@.len(),
    {
        let v = str_chars(self.0.as_str());
        v.len()
    }
}

/// Whether the text is a label in lower case.
pub open spec fn lower_label(l: Seq<char>) -> bool {
    label_fault(l) is None && to_lower(l) == l
}

/// Whether the list is a list of one or more labels in lower case.
pub open spec fn lower_labels(ls: Seq<Seq<char>>) -> bool {
    ls.len() > 0 && forall|i: int| 0 <= i < ls.len() ==> lower_label(#[trigger] ls[i])
}

proof fn lemma_join_shape(ls: Seq<Seq<char>>)
    requires
        lower_labels(ls),
    ensures
        join(ls, seq!['.']).len() > 0,
        join(ls, seq!['.'])[0] == ls[0][0],
        join(ls, seq!['.']).last() == ls.last().last(),
        to_lower(join(ls, seq!['.'])) == join(ls, seq!['.']),
    decreases ls.len(),
{
    let j = join(ls, seq!['.']);
    assert(ls.last().len() > 0 && ls[0].len() > 0);
    if ls.len() == 1 {
    } else {
        let front = ls.drop_last();
        assert(lower_labels(front)) by {
            assert forall|i: int| 0 <= i < front.len() implies lower_label(#[trigger] front[i]) by {
                assert(front[i] == ls[i]);
            }
        }
        lemma_join_shape(front);
        let jf = join(front, seq!['.']);
        assert(j == jf + seq!['.'] + ls.last());
        assert(front[0] == ls[0]);
        assert forall|i: int| 0 <= i < j.len() implies to_lower_char(j[i]) == j[i] by {
            if i < jf.len() {
                assert(to_lower(jf)[i] == to_lower_char(jf[i]));
            } else if i > jf.len() {
                let l = ls.last();
                assert(to_lower(l)[i - jf.len() - 1] == to_lower_char(l[i - jf.len() - 1]));
            }
        }
        assert(to_lower(j) =~= j);
    }
    if ls.len() == 1 {
        assert(j == ls[0]);
    }
}

proof fn lemma_labels_fault_none(ls: Seq<Seq<char>>)
    requires
        forall|i: int| 0 <= i < ls.len() ==> label_fault(#[trigger] ls[i]) is None,
    ensures
        labels_fault(ls) is None,
    decreases ls.len(),
{
    if ls.len() > 0 {
        let rest = ls.drop_first();
        assert forall|i: int| 0 <= i < rest.len() implies label_fault(#[trigger] rest[i]) is None by {
            assert(rest[i] == ls[i + 1]);
        }
        lemma_labels_fault_none(rest);
    }
}

/// Labels in lower case, joined by dots, make a domain name in canonical form that has those
/// labels.
pub proof fn lemma_name_of_labels(ls: Seq<Seq<char>>)
    requires
        lower_labels(ls),
    ensures
        valid_name(join(ls, seq!['.'])),
        to_lower(join(ls, seq!['.'])) == join(ls, seq!['.']),
        labels(join(ls, seq!['.'])) == ls,
{
    let j = join(ls, seq!['.']);
    lemma_join_shape(ls);
    assert forall|i: int| 0 <= i < ls.len() implies free_of(#[trigger] ls[i], '.') by {
        lemma_first_bad_char_bounds(ls[i]);
        assert(lower_label(ls[i]));
    }
    lemma_split_join(ls, '.');
    assert(lower_label(ls[0]) && lower_label(ls.last()));
    assert(!all_whitespace(j)) by {
        assert(!is_whitespace(j[0]));
    }
    assert(strip_dot(j) == j);
    lemma_labels_fault_none(ls);
}

impl FQDNName {
    /// The name with the given labels.
    pub fn from_labels(parts: &Vec<Vec<char>>) -> (r: FQDNName)
        requires
            lower_labels(views(parts@)),
        ensures
            r@ == join(views(parts@), seq!['.']),
            labels(r@) == views(parts@),
    {
        let sep: Vec<char> = vec!['.'];
        assert(sep@ =~= seq!['.']);
        let text = join_chars(parts, &sep);
        proof {
            lemma_name_of_labels(views(parts@));
        }
        FQDNName(string_from_chars(&text))
    }
}

/// The class of a record; the Internet class is the only one.
#[derive(Debug, Copy, Clone, Hash, PartialEq, Eq)]
pub enum DNSClass {
    IN,
}

/// What a record holds, by its type.
#[derive(Debug, Hash, PartialEq, Eq)]
pub enum DNSRecordData {
    A(Ipv4Addr),
    AAAA(Ipv6Addr),
    CNAME(String),
    MX { preference: u16, exchange: String },
    TXT(Vec<String>),
    NS(String),
    SOA {
        mname: String,
        rname: String,
        serial: u32,
        refresh: u32,
        retry: u32,
        expire: u32,
        minimum: u32,
    },
    PTR(String),
    SRV { priority: u16, weight: u16, port: u16, target: String },
    DS(String),
}

/// The mathematical value of a `DNSRecordData`.
pub enum RecordDataView {
    A(Seq<u8>),
    AAAA(Seq<u8>),
    CNAME(Seq<char>),
    MX { preference: u16, exchange: Seq<char> },
    TXT(Seq<Seq<char>>),
    NS(Seq<char>),
    SOA {
        mname: Seq<char>,
        rname: Seq<char>,
        serial: u32,
        refresh: u32,
        retry: u32,
        expire: u32,
        minimum: u32,
    },
    PTR(Seq<char>),
    SRV { priority: u16, weight: u16, port: u16, target: Seq<char> },
    DS(Seq<char>),
}

impl View for DNSRecordData {
    type V = RecordDataView;

    open spec fn view(&self) -> RecordDataView {
        match self {
            DNSRecordData::A(a) => RecordDataView::A(a@),
            DNSRecordData::AAAA(a) => RecordDataView::AAAA(a@),
            DNSRecordData::CNAME(t) => RecordDataView::CNAME(t@),
            DNSRecordData::MX { preference, exchange } => RecordDataView::MX {
                preference: *preference,
                exchange: exchange@,
            },
            DNSRecordData::TXT(t) => RecordDataView::TXT(string_views(t@)),
            DNSRecordData::NS(t) => RecordDataView::NS(t@),
            DNSRecordData::SOA { mname, rname, serial, refresh, retry, expire, minimum } => {
                RecordDataView::SOA {
                    mname: mname@,
                    rname: rname@,
                    serial: *serial,
                    refresh: *refresh,
                    retry: *retry,
                    expire: *expire,
                    minimum: *minimum,
                }
            },
            DNSRecordData::PTR(t) => RecordDataView::PTR(t@),
            DNSRecordData::SRV { priority, weight, port, target } => RecordDataView::SRV {
                priority: *priority,
                weight: *weight,
                port: *port,
                target: target@,
            },
            DNSRecordData::DS(t) => RecordDataView::DS(t@),
        }
    }
}

/// The mnemonic of the type of a record.
pub open spec fn type_mnemonic(d: RecordDataView) -> Seq<char> {
    match d {
        RecordDataView::A(_) => seq!['A'],
        RecordDataView::AAAA(_) => seq!['A', 'A', 'A', 'A'],
        RecordDataView::CNAME(_) => seq!['C', 'N', 'A', 'M', 'E'],
        RecordDataView::MX { .. } => seq!['M', 'X'],
        RecordDataView::TXT(_) => seq!['T', 'X', 'T'],
        RecordDataView::NS(_) => seq!['N', 'S'],
        RecordDataView::SOA { .. } => seq!['S', 'O', 'A'],
        RecordDataView::PTR(_) => seq!['P', 'T', 'R'],
        RecordDataView::SRV { .. } => seq!['S', 'R', 'V'],
        RecordDataView::DS(_) => seq!['D', 'S'],
    }
}

/// The number of the type of a record.
pub open spec fn type_code(d: RecordDataView) -> u16 {
    match d {
        RecordDataView::A(_) => 1,
        RecordDataView::NS(_) => 2,
        RecordDataView::CNAME(_) => 5,
        RecordDataView::SOA { .. } => 6,
        RecordDataView::PTR(_) => 12,
        RecordDataView::MX { .. } => 15,
        RecordDataView::TXT(_) => 16,
        RecordDataView::AAAA(_) => 28,
        RecordDataView::SRV { .. } => 33,
        RecordDataView::DS(_) => 43,
    }
}

impl Clone for DNSRecordData {
    fn clone(&self) -> (r: Self)
        ensures
            r@ == self@,
    {
        match self {
            DNSRecordData::A(a) => DNSRecordData::A(*a),
            DNSRecordData::AAAA(a) => DNSRecordData::AAAA(*a),
            DNSRecordData::CNAME(t) => DNSRecordData::CNAME(t.clone()),
            DNSRecordData::MX { preference, exchange } => DNSRecordData::MX {
                preference: *preference,
                exchange: exchange.clone(),
            },
            DNSRecordData::TXT(t) => DNSRecordData::TXT(clone_strings(t)),
            DNSRecordData::NS(t) => DNSRecordData::NS(t.clone()),
            DNSRecordData::SOA { mname, rname, serial, refresh, retry, expire, minimum } => {
                DNSRecordData::SOA {
                    mname: mname.clone(),
                    rname: rname.clone(),
                    serial: *serial,
                    refresh: *refresh,
                    retry: *retry,
                    expire: *expire,
                    minimum: *minimum,
                }
            },
            DNSRecordData::PTR(t) => DNSRecordData::PTR(t.clone()),
            DNSRecordData::SRV { priority, weight, port, target } => DNSRecordData::SRV {
                priority: *priority,
                weight: *weight,
                port: *port,
                target: target.clone(),
            },
            DNSRecordData::DS(t) => DNSRecordData::DS(t.clone()),
        }
    }
}

fn same_octets_4(a: &Ipv4Addr, b: &Ipv4Addr) -> (r: bool)
    ensures
        r == (a@ == b@),
{
    let x = a.octets();
    let y = b.octets();
    let r = x[0] == y[0] && x[1] == y[1] && x[2] == y[2] && x[3] == y[3];
    if r {
        assert(a@ =~= b@);
    }
    r
}

fn same_octets_16(a: &Ipv6Addr, b: &Ipv6Addr) -> (r: bool)
    ensures
        r == (a@ == b@),
{
    let x = a.octets();
    let y = b.octets();
    let mut i: usize = 0;
    while i < 16
        invariant
            i <= 16,
            x@ == a@,
            y@ == b@,
            forall|k: int| 0 <= k < i ==> x@[k] == y@[k],
        decreases 16 - i,
    {
        if x[i] != y[i] {
            return false;
        }
        i += 1;
    }
    assert(a@ =~= b@);
    true
}

impl DNSRecordData {
    /// The mnemonic of the type.
    pub fn type_str(&self) -> (r: &'static str)
        ensures
            r@ == type_mnemonic(self@),
    {
        proof {
            reveal_strlit("A");
            reveal_strlit("AAAA");
            reveal_strlit("CNAME");
            reveal_strlit("MX");
            reveal_strlit("TXT");
            reveal_strlit("NS");
            reveal_strlit("SOA");
            reveal_strlit("PTR");
            reveal_strlit("SRV");
            reveal_strlit("DS");
        }
        let r = match self {
            DNSRecordData::A(_) => "A",
            DNSRecordData::AAAA(_) => "AAAA",
            DNSRecordData::CNAME(_) => "CNAME",
            DNSRecordData::MX { .. } => "MX",
            DNSRecordData::TXT(_) => "TXT",
            DNSRecordData::NS(_) => "NS",
            DNSRecordData::SOA { .. } => "SOA",
            DNSRecordData::PTR(_) => "PTR",
            DNSRecordData::SRV { .. } => "SRV",
            DNSRecordData::DS(_) => "DS",
        };
        assert(r@ =~= type_mnemonic(self@));
        r
    }

    /// Whether this is the data of a start-of-authority record.
    pub fn is_soa(&self) -> (r: bool)
        ensures
            r == (self@ is SOA),
    {
        match self {
            DNSRecordData::SOA { .. } => true,
            _ => false,
        }
    }

    /// Whether the two hold the same data.
    pub fn equals(&self, other: &DNSRecordData) -> (r: bool)
        ensures
            r == (self@ == other@),
    {
        match (self, other) {
            (DNSRecordData::A(a), DNSRecordData::A(b)) => same_octets_4(a, b),
            (DNSRecordData::AAAA(a), DNSRecordData::AAAA(b)) => same_octets_16(a, b),
            (DNSRecordData::CNAME(a), DNSRecordData::CNAME(b)) => same_text(a, b),
            (
                DNSRecordData::MX { preference: p1, exchange: e1 },
                DNSRecordData::MX { preference: p2, exchange: e2 },
            ) => *p1 == *p2 && same_text(e1, e2),
            (DNSRecordData::TXT(a), DNSRecordData::TXT(b)) => same_texts(a, b),
            (DNSRecordData::NS(a), DNSRecordData::NS(b)) => same_text(a, b),
            (
                DNSRecordData::SOA {
                    mname: m1,
                    rname: r1,
                    serial: s1,
                    refresh: f1,
                    retry: t1,
                    expire: e1,
                    minimum: n1,
                },
                DNSRecordData::SOA {
                    mname: m2,
                    rname: r2,
                    serial: s2,
                    refresh: f2,
                    retry: t2,
                    expire: e2,
                    minimum: n2,
                },
            ) => same_text(m1, m2) && same_text(r1, r2) && *s1 == *s2 && *f1 == *f2 && *t1 == *t2
                && *e1 == *e2 && *n1 == *n2,
            (DNSRecordData::PTR(a), DNSRecordData::PTR(b)) => same_text(a, b),
            (
                DNSRecordData::SRV { priority: p1, weight: w1, port: o1, target: t1 },
                DNSRecordData::SRV { priority: p2, weight: w2, port: o2, target: t2 },
            ) => *p1 == *p2 && *w1 == *w2 && *o1 == *o2 && same_text(t1, t2),
            (DNSRecordData::DS(a), DNSRecordData::DS(b)) => same_text(a, b),
            _ => false,
        }
    }
}

/// A resource record of a zone.
#[derive(Debug, Hash, PartialEq, Eq)]
pub struct DNSRecord {
    pub name: FQDNName,
    pub class: DNSClass,
    pub ttl: u32,
    pub data: DNSRecordData,
}

/// The mathematical value of a `DNSRecord`.
pub struct RecordView {
    pub name: Seq<char>,
    pub class: DNSClass,
    pub ttl: u32,
    pub data: RecordDataView,
}

impl View for DNSRecord {
    type V = RecordView;

    open spec fn view(&self) -> RecordView {
        RecordView { name: self.name@, class: self.class, ttl: self.ttl, data: self.data@ }
    }
}

impl Clone for DNSRecord {
    fn clone(&self) -> (r: Self)
        ensures
            r@ == self@,
    {
        DNSRecord {
            name: self.name.clone(),
            class: self.class,
            ttl: self.ttl,
            data: self.data.clone(),
        }
    }
}

impl DNSRecord {
    /// The number of the type of the record.
    pub fn get_type_code(&self) -> (r: u16)
        ensures
            r == type_code(self@.data),
    {
        match &self.data {
            DNSRecordData::A(_) => 1,
            DNSRecordData::NS(_) => 2,
            DNSRecordData::CNAME(_) => 5,
            DNSRecordData::SOA { .. } => 6,
            DNSRecordData::PTR(_) => 12,
            DNSRecordData::MX { .. } => 15,
            DNSRecordData::TXT(_) => 16,
            DNSRecordData::AAAA(_) => 28,
            DNSRecordData::SRV { .. } => 33,
            DNSRecordData::DS(_) => 43,
        }
    }

    /// Whether the two records agree in name, class, time to live and data.
    pub fn equals(&self, other: &DNSRecord) -> (r: bool)
        ensures
            r == (self@ == other@),
    {
        self.name.equals(&other.name) && self.ttl == other.ttl && self.data.equals(&other.data)
    }
}

/// The characters of a label in lower case: digits, small letters, the hyphen and the slash.
pub open spec fn is_plain_char(c: char) -> bool {
    (0x30 <= c as u32 <= 0x39) || (0x61 <= c as u32 <= 0x7a) || c == '-' || c == '/'
}

/// A text of 1 to 63 plain characters that begins and ends with a letter or a digit.
pub open spec fn plain_label(l: Seq<char>) -> bool {
    &&& 0 < l.len() <= 63
    &&& forall|i: int| 0 <= i < l.len() ==> is_plain_char(#[trigger] l[i])
    &&& is_ascii_alphanumeric(l[0])
    &&& is_ascii_alphanumeric(l.last())
}

proof fn lemma_plain_byte_len(l: Seq<char>)
    requires
        forall|i: int| 0 <= i < l.len() ==> is_plain_char(#[trigger] l[i]),
    ensures
        byte_len(l) == l.len(),
    decreases l.len(),
{
    if l.len() > 0 {
        let front = l.drop_last();
        assert forall|i: int| 0 <= i < front.len() implies is_plain_char(#[trigger] front[i]) by {
            assert(front[i] == l[i]);
        }
        lemma_plain_byte_len(front);
        assert(is_plain_char(l[l.len() - 1]));
    }
}

/// A plain label is a label in lower case.
pub proof fn lemma_plain_label(l: Seq<char>)
    requires
        plain_label(l),
    ensures
        lower_label(l),
{
    lemma_plain_byte_len(l);
    assert forall|k: int| 0 <= k < l.len() implies is_label_char(l[k]) by {
        assert(is_plain_char(l[k]));
    }
    lemma_first_bad_char(l, l.len() as int);
    assert forall|i: int| 0 <= i < l.len() implies to_lower_char(l[i]) == l[i] by {
        assert(is_plain_char(l[i]));
    }
    assert(to_lower(l) =~= l);
}

/// A zone: its origin, the data of its start-of-authority record, and its records.
pub struct DNSZone {
    origin: FQDNName,
    soa: DNSRecordData,
    records: Vec<DNSRecord>,
}

/// The mathematical value of a `DNSZone`. The records stand in the order in which they were
/// added.
pub struct ZoneView {
    pub origin: Seq<char>,
    pub soa: RecordDataView,
    pub records: Seq<RecordView>,
}

/// The values of the records, one by one.
pub open spec fn record_views(s: Seq<DNSRecord>) -> Seq<RecordView> {
    Seq::new(s.len(), |i: int| s[i]@)
}

/// Whether the name is the origin or lies below it.
pub open spec fn within(name: Seq<char>, origin: Seq<char>) -> bool {
    name == origin || is_child(name, origin)
}

/// Whether no record occurs twice.
pub open spec fn distinct(s: Seq<RecordView>) -> bool {
    forall|i: int, j: int| 0 <= i < s.len() && 0 <= j < s.len() && i != j ==> s[i] != s[j]
}

/// The message for a record whose name lies outside the zone.
pub open spec fn outside_message(name: Seq<char>, origin: Seq<char>) -> Seq<char> {
    "Record name '"@ + name + "' is not within the zone origin '"@ + origin + "'"@
}

/// The records after `record` was added: as before where it was there, and with it at the end
/// where it was not.
pub open spec fn with_record(records: Seq<RecordView>, record: RecordView) -> Seq<RecordView> {
    if records.contains(record) {
        records
    } else {
        records.push(record)
    }
}

impl ZoneView {
    /// The data at the head is that of a start-of-authority record, every record lies within
    /// the origin, and no record occurs twice.
    pub open spec fn wf(self) -> bool {
        &&& self.soa is SOA
        &&& forall|i: int|
            0 <= i < self.records.len() ==> within((#[trigger] self.records[i]).name, self.origin)
        &&& distinct(self.records)
    }
}

impl View for DNSZone {
    type V = ZoneView;

    closed spec fn view(&self) -> ZoneView {
        ZoneView { origin: self.origin@, soa: self.soa@, records: record_views(self.records@) }
    }
}

impl DNSZone {
    /// The value of the zone is well formed.
    #[verifier::type_invariant]
    pub open spec fn wf(&self) -> bool {
        self@.wf()
    }

    /// The zone of the given origin without a record.
    pub fn new(origin: FQDNName, soa: DNSRecordData) -> (zone: Self)
        requires
            soa@ is SOA,
        ensures
            zone@ == (ZoneView { origin: origin@, soa: soa@, records: Seq::empty() }),
    {
        let zone = DNSZone { origin, soa, records: Vec::new() };
        assert(record_views(zone.records@) =~= Seq::empty());
        zone
    }

    /// The origin of the zone.
    pub fn origin(&self) -> (r: &FQDNName)
        ensures
            r@ == self@.origin,
    {
        &self.origin
    }

    /// The data of the start of authority of the zone.
    pub fn soa(&self) -> (r: &DNSRecordData)
        ensures
            r@ == self@.soa,
            r@ is SOA,
    {
        proof {
            use_type_invariant(self);
        }
        &self.soa
    }

    /// The records of the zone, in the order in which they were added.
    pub fn records(&self) -> (r: &Vec<DNSRecord>)
        ensures
            record_views(r@) == self@.records,
            self@.wf(),
    {
        proof {
            use_type_invariant(self);
        }
        &self.records
    }

    /// Whether the zone holds the record.
    pub fn contains(&self, record: &DNSRecord) -> (r: bool)
        ensures
            r == self@.records.contains(record@),
    {
        let mut i: usize = 0;
        while i < self.records.len()
            invariant
                i <= self.records.len(),
                forall|k: int| 0 <= k < i ==> self.records@[k]@ != record@,
            decreases self.records.len() - i,
        {
            if self.records[i].equals(record) {
                assert(record_views(self.records@)[i as int] == record@);
                return true;
            }
            i += 1;
        }
        assert(!record_views(self.records@).contains(record@)) by {
            if record_views(self.records@).contains(record@) {
                let k = choose|k: int|
                    0 <= k < self.records.len() && record_views(self.records@)[k] == record@;
                assert(self.records@[k]@ != record@);
            }
        }
        false
    }

    /// Adds the record to the zone, unless it is there already. A record whose name is
    /// neither the origin nor below it is refused, and the zone stays as it was.
    pub fn add_record(&mut self, record: DNSRecord) -> (r: Result<(), String>)
        ensures
            final(self)@.origin == old(self)@.origin,
            final(self)@.soa == old(self)@.soa,
            within(record@.name, old(self)@.origin) ==> r is Ok && final(self)@.records
                == with_record(old(self)@.records, record@),
            !within(record@.name, old(self)@.origin) ==> r is Err && final(self)@.records == old(
                self,
            )@.records && r.unwrap_err()@ == outside_message(record@.name, old(self)@.origin),
    {
        proof {
            use_type_invariant(&*self);
        }
        if !record.name.is_child_of(&self.origin) && !record.name.equals(&self.origin) {
            let mut msg: Vec<char> = str_chars("Record name '");
            append_chars(&mut msg, &record.name.chars());
            append_chars(&mut msg, &str_chars("' is not within the zone origin '"));
            append_chars(&mut msg, &self.origin.chars());
            append_chars(&mut msg, &str_chars("'"));
            return Err(string_from_chars(&msg));
        }
        if self.contains(&record) {
            return Ok(());
        }
        let ghost before = record_views(self.records@);
        let mut records: Vec<DNSRecord> = Vec::new();
        std::mem::swap(&mut records, &mut self.records);
        records.push(record);
        proof {
            assert(record_views(records@) =~= before.push(record@));
        }
        self.records = records;
        Ok(())
    }
}

impl Default for DNSZone {
    /// The zone `dn42` with a placeholder at its head and no record.
    fn default() -> (zone: Self)
        ensures
            zone@.origin == seq!['d', 'n', '4', '2'],
            zone@.records == Seq::<RecordView>::empty(),
            zone@.soa == (RecordDataView::SOA {
                mname: "default_not_set"@,
                rname: "default_not_set"@,
                serial: 1,
                refresh: 3600,
                retry: 600,
                expire: 604800,
                minimum: 86400,
            }),
    {
        let label: Vec<char> = vec!['d', 'n', '4', '2'];
        let parts: Vec<Vec<char>> = vec![label];
        proof {
            let l = seq!['d', 'n', '4', '2'];
            assert(parts@[0]@ =~= l);
            assert(views(parts@) =~= seq![l]);
            assert(plain_label(l));
            lemma_plain_label(l);
            assert(join(seq![l], seq!['.']) == l);
        }
        let origin = FQDNName::from_labels(&parts);
        DNSZone::new(
            origin,
            DNSRecordData::SOA {
                mname: string_of("default_not_set"),
                rname: string_of("default_not_set"),
                serial: 1,
                refresh: 3600,
                retry: 600,
                expire: 604800,
                minimum: 86400,
            },
        )
    }
}

/// The records after each record of `more` that lies within the origin was added in turn.
pub open spec fn add_all(records: Seq<RecordView>, origin: Seq<char>, more: Seq<RecordView>) -> Seq<
    RecordView,
>
    decreases more.len(),
{
    if more.len() == 0 {
        records
    } else {
        let front = add_all(records, origin, more.drop_last());
        if within(more.last().name, origin) {
            with_record(front, more.last())
        } else {
            front
        }
    }
}

impl ZoneView {
    /// The zone after each record of `more` that lies within it was added in turn.
    pub open spec fn with_added(self, more: Seq<RecordView>) -> ZoneView {
        ZoneView { records: add_all(self.records, self.origin, more), ..self }
    }
}

impl DNSZone {
    /// Adds the records in turn; those whose names lie outside the zone are left out.
    pub fn add_records(&mut self, more: Vec<DNSRecord>)
        ensures
            final(self)@ == old(self)@.with_added(record_views(more@)),
    {
        let ghost all = record_views(more@);
        let ghost start = self@;
        let mut i: usize = 0;
        assert(all.subrange(0, 0) =~= Seq::<RecordView>::empty());
        while i < more.len()
            invariant
                i <= more.len(),
                all == record_views(more@),
                self@ == start.with_added(all.subrange(0, i as int)),
            decreases more.len() - i,
        {
            let ghost next = all.subrange(0, i + 1);
            proof {
                assert(next.drop_last() == all.subrange(0, i as int));
                assert(next.last() == more@[i as int]@);
            }
            let _ = self.add_record(more[i].clone());
            i += 1;
        }
        assert(all.subrange(0, more.len() as int) == all);
    }
}

proof fn lemma_labels_fault_each(ls: Seq<Seq<char>>)
    requires
        labels_fault(ls) is None,
    ensures
        forall|i: int| 0 <= i < ls.len() ==> label_fault(#[trigger] ls[i]) is None,
    decreases ls.len(),
{
    if ls.len() > 0 {
        let rest = ls.drop_first();
        lemma_labels_fault_each(rest);
        assert forall|i: int| 0 <= i < ls.len() implies label_fault(#[trigger] ls[i]) is None by {
            if i > 0 {
                assert(ls[i] == rest[i - 1]);
            }
        }
    }
}

/// The labels of a name in canonical form are labels in lower case.
pub proof fn lemma_labels_of_name(s: Seq<char>)
    requires
        valid_name(s),
        to_lower(s) == s,
    ensures
        lower_labels(labels(s)),
{
    let ls = labels(s);
    lemma_split_len(strip_dot(s), '.');
    lemma_labels_fault_each(ls);
    lemma_lower_name(s);
    lemma_lower_split(strip_dot(s));
    assert forall|i: int| 0 <= i < ls.len() implies lower_label(#[trigger] ls[i]) by {
        assert(lower_each(ls)[i] == to_lower(ls[i]));
    }
}

impl FQDNName {
    /// The name made of the last label of this name alone.
    pub fn tld_name(&self) -> (r: FQDNName)
        ensures
            r@ == labels(self@).last(),
    {
        proof {
            use_type_invariant(self);
            lemma_labels_of_name(self@);
        }
        let ls = self.label_chars();
        let last = slice_chars(&ls[ls.len() - 1], 0, ls[ls.len() - 1].len());
        let parts: Vec<Vec<char>> = vec![last];
        proof {
            let l = labels(self@).last();
            assert(ls@[ls.len() - 1]@ == l);
            assert(l.subrange(0, l.len() as int) == l);
            assert(views(parts@) =~= seq![l]);
            assert(lower_label(labels(self@)[labels(self@).len() - 1]));
            assert(join(seq![l], seq!['.']) == l);
        }
        FQDNName::from_labels(&parts)
    }
}

/// Adding one batch of records and then another is adding the two batches in a row.
pub proof fn lemma_add_all_concat(
    records: Seq<RecordView>,
    origin: Seq<char>,
    a: Seq<RecordView>,
    b: Seq<RecordView>,
)
    ensures
        add_all(add_all(records, origin, a), origin, b) == add_all(records, origin, a + b),
    decreases b.len(),
{
    if b.len() == 0 {
        assert(a + b == a);
    } else {
        lemma_add_all_concat(records, origin, a, b.drop_last());
        assert((a + b).drop_last() == a + b.drop_last());
        assert((a + b).last() == b.last());
    }
}

/// The values of the zones, one by one.
pub open spec fn zone_views(s: Seq<DNSZone>) -> Seq<ZoneView> {
    Seq::new(s.len(), |i: int| s[i]@)
}

/// What was read as a name reads as the same name again: the canonical form of a domain name
/// is a domain name, and its own canonical form.
pub proof fn law_parse_idempotent(s: Seq<char>)
    requires
        name_fault(s) is None,
    ensures
        name_fault(to_lower(s)) is None,
        to_lower(to_lower(s)) == to_lower(s),
{
    lemma_lower_name(s);
}

/// No name lies below itself.
pub proof fn law_child_irreflexive(a: Seq<char>)
    ensures
        !is_child(a, a),
{
}

/// Of two names, at most one lies below the other.
pub proof fn law_child_asymmetric(a: Seq<char>, b: Seq<char>)
    ensures
        !(is_child(a, b) && is_child(b, a)),
{
}

/// A name below a name that lies below a third lies below the third.
pub proof fn law_child_transitive(a: Seq<char>, b: Seq<char>, c: Seq<char>)
    requires
        is_child(a, b),
        is_child(b, c),
    ensures
        is_child(a, c),
{
    let x = labels(a);
    let y = labels(b);
    let z = labels(c);
    let tail_y = x.subrange(x.len() - y.len(), x.len() as int);
    let tail_z = y.subrange(y.len() - z.len(), y.len() as int);
    assert(tail_y == y);
    assert(tail_z == z);
    assert(x.subrange(x.len() - z.len(), x.len() as int) =~= tail_y.subrange(
        y.len() - z.len(),
        y.len() as int,
    ));
}

/// Seen from itself, every name is `@`.
pub proof fn law_relative_to_self(a: Seq<char>)
    ensures
        relative(a, a) == Some(seq!['@']),
{
}

impl core::str::FromStr for FQDNName {
    type Err = FQDNError;

    /// The name that the text writes, as `FQDNName::new` reads it.
    fn from_str(s: &str) -> (r: Result<Self, FQDNError>)
        ensures
            match name_fault(s@) {
                Some(f) => r is Err && r.unwrap_err()@ == f,
                None => r is Ok && r.unwrap()@ == to_lower(s@),
            },
    {
        FQDNName::new(s)
    }
}

/// What a fault says in words.
pub open spec fn fault_text(f: NameFault) -> Seq<char> {
    match f {
        NameFault::EmptyInput => "Domain name cannot be empty"@,
        NameFault::LabelEmpty => "Domain label cannot be empty (e.g., '..')"@,
        NameFault::LabelTooLong(l) => "Label '"@ + l + "' exceeds 63 characters"@,
        NameFault::InvalidLabelStart(l) => "Label '"@ + l + "' must start with a letter"@,
        NameFault::InvalidLabelEnd(l) => "Label '"@ + l + "' must end with a letter or digit"@,
        NameFault::InvalidCharacter(c, l) => "Label '"@ + l + "' contains invalid character '"@
            + seq![c] + "'"@,
    }
}

impl FQDNError {
    /// What the error says in words.
    pub fn to_text(&self) -> (r: String)
        ensures
            r@ == fault_text(self@),
    {
        let mut t: Vec<char> = Vec::new();
        match self {
            FQDNError::EmptyInput => {
                append_chars(&mut t, &str_chars("Domain name cannot be empty"));
            },
            FQDNError::LabelEmpty => {
                append_chars(&mut t, &str_chars("Domain label cannot be empty (e.g., '..')"));
            },
            FQDNError::LabelTooLong(l) => {
                append_chars(&mut t, &str_chars("Label '"));
                append_chars(&mut t, &str_chars(l.as_str()));
                append_chars(&mut t, &str_chars("' exceeds 63 characters"));
            },
            FQDNError::InvalidLabelStart(l) => {
                append_chars(&mut t, &str_chars("Label '"));
                append_chars(&mut t, &str_chars(l.as_str()));
                append_chars(&mut t, &str_chars("' must start with a letter"));
            },
            FQDNError::InvalidLabelEnd(l) => {
                append_chars(&mut t, &str_chars("Label '"));
                append_chars(&mut t, &str_chars(l.as_str()));
                append_chars(&mut t, &str_chars("' must end with a letter or digit"));
            },
            FQDNError::InvalidCharacter(c, l) => {
                append_chars(&mut t, &str_chars("Label '"));
                append_chars(&mut t, &str_chars(l.as_str()));
                append_chars(&mut t, &str_chars("' contains invalid character '"));
                t.push(*c);
                append_chars(&mut t, &str_chars("'"));
            },
        }
        assert(t@ =~= fault_text(self@));
        string_from_chars(&t)
    }
}

} // verus!
