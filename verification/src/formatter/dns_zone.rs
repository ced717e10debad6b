//! Zone files: the head, the block of the start of authority, and the records in sorted,
//! aligned lines.
use crate::model::dns::{
    record_views, relative, type_mnemonic, DNSRecord, DNSRecordData, DNSZone, FQDNName,
    RecordDataView, RecordView, ZoneView,
};
use crate::model::net::{ipv4_text, ipv6_text};
use crate::text::{
    append_chars, append_to_string, chars_less, decimal, join, join_chars, lex_less, push_decimal,
    same_chars, str_chars, string_from_chars, string_views, views,
};
use vstd::prelude::*;

verus! {

/// The time to live that a zone without a record takes for its default.
pub const DEFAULT_TTL: u32 = 3600;

/// The least width of the column of names.
pub const RECORD_NAME_COLUMN_MIN_WIDTH: usize = 5;

/// The least width of the column of times to live.
pub const RECORD_TTL_COLUMN_MIN_WIDTH: usize = 3;

/// The least width of the column of classes.
pub const RECORD_CLASS_COLUMN_WIDTH: usize = 2;

/// The least width of the column of types.
pub const RECORD_TYPE_COLUMN_WIDTH: usize = 4;

/// The number of the records with the given time to live.
pub open spec fn ttl_count(records: Seq<RecordView>, ttl: u32) -> nat
    decreases records.len(),
{
    if records.len() == 0 {
        0
    } else {
        ttl_count(records.drop_last(), ttl) + if records.last().ttl == ttl {
            1nat
        } else {
            0nat
        }
    }
}

/// The place of the first of the first `n` records whose time to live is the most frequent
/// one among all the records.
pub open spec fn most_frequent_at(records: Seq<RecordView>, n: int) -> int
    decreases n,
{
    if n <= 1 {
        0
    } else {
        let best = most_frequent_at(records, n - 1);
        if ttl_count(records, records[n - 1].ttl) > ttl_count(records, records[best].ttl) {
            n - 1
        } else {
            best
        }
    }
}

/// The default time to live of a zone: the one that most of its records have, and of several
/// such the one that occurs first; 3600 for a zone without a record.
pub open spec fn default_ttl(records: Seq<RecordView>) -> u32 {
    if records.len() == 0 {
        DEFAULT_TTL
    } else {
        records[most_frequent_at(records, records.len() as int)].ttl
    }
}

/// The name with every `@` turned into a dot, and with a dot at its end.
pub open spec fn ensure_fqdn_text(name: Seq<char>) -> Seq<char> {
    let dotted = Seq::new(name.len(), |i: int| if name[i] == '@' { '.' } else { name[i] });
    if dotted.len() > 0 && dotted.last() == '.' {
        dotted
    } else {
        dotted.push('.')
    }
}

/// The two lines at the head of a zone file.
pub open spec fn header_text(ttl: u32, origin: Seq<char>) -> Seq<char> {
    "$TTL "@ + decimal(ttl as nat) + seq!['\n'] + "$ORIGIN "@ + ensure_fqdn_text(origin) + seq!['\n']
}

/// One line of the block of the start of authority: the number and its comment.
pub open spec fn soa_line(value: u32, comment: Seq<char>) -> Seq<char> {
    "                "@ + decimal(value as nat) + comment
}

/// The block of the start of authority, with an empty line after it; nothing for data of
/// another type.
pub open spec fn soa_text(soa: RecordDataView) -> Seq<char> {
    match soa {
        RecordDataView::SOA { mname, rname, serial, refresh, retry, expire, minimum } => {
            "@ IN SOA "@ + ensure_fqdn_text(mname) + seq![' '] + ensure_fqdn_text(rname) + " (\n"@
                + soa_line(serial, " ; serial number\n"@) + soa_line(refresh, " ; refresh\n"@)
                + soa_line(retry, " ; update retry\n"@) + soa_line(expire, " ; expiry\n"@)
                + soa_line(minimum, " ) ; minimum\n"@) + seq!['\n']
        },
        _ => Seq::empty(),
    }
}

/// The text with a backslash before every double quote.
pub open spec fn escape_quotes(s: Seq<char>) -> Seq<char>
    decreases s.len(),
{
    if s.len() == 0 {
        Seq::empty()
    } else if s.last() == '"' {
        escape_quotes(s.drop_last()) + seq!['\\', '"']
    } else {
        escape_quotes(s.drop_last()).push(s.last())
    }
}

/// The text between double quotes, with its own double quotes escaped.
pub open spec fn quoted(s: Seq<char>) -> Seq<char> {
    seq!['"'] + escape_quotes(s) + seq!['"']
}

/// Each of the texts between double quotes.
pub open spec fn quoted_each(t: Seq<Seq<char>>) -> Seq<Seq<char>> {
    Seq::new(t.len(), |i: int| quoted(t[i]))
}

/// The data of a record as a zone file writes them; nothing for a start of authority, which
/// has its block.
pub open spec fn data_text(d: RecordDataView) -> Seq<char> {
    match d {
        RecordDataView::A(o) => ipv4_text(o),
        RecordDataView::AAAA(o) => ipv6_text(o),
        RecordDataView::CNAME(t) => ensure_fqdn_text(t),
        RecordDataView::MX { preference, exchange } => decimal(preference as nat) + seq![' ']
            + ensure_fqdn_text(exchange),
        RecordDataView::TXT(t) => join(quoted_each(t), seq![' ']),
        RecordDataView::NS(t) => ensure_fqdn_text(t),
        RecordDataView::SOA { .. } => Seq::empty(),
        RecordDataView::PTR(t) => ensure_fqdn_text(t),
        RecordDataView::SRV { priority, weight, port, target } => decimal(priority as nat)
            + seq![' '] + decimal(weight as nat) + seq![' '] + decimal(port as nat) + seq![' ']
            + ensure_fqdn_text(target),
        RecordDataView::DS(t) => t,
    }
}

/// So many spaces.
pub open spec fn spaces(n: nat) -> Seq<char> {
    Seq::new(n, |i: int| ' ')
}

/// The text with spaces after it up to the given width; a longer text stays as it is.
pub open spec fn pad_right(s: Seq<char>, width: nat) -> Seq<char> {
    if s.len() >= width {
        s
    } else {
        s + spaces((width - s.len()) as nat)
    }
}

/// The greater of two numbers.
pub open spec fn max_nat(a: nat, b: nat) -> nat {
    if a >= b {
        a
    } else {
        b
    }
}

/// The length of the name of a record as seen from the origin; zero for a name outside it.
pub open spec fn relative_len(r: RecordView, origin: Seq<char>) -> nat {
    match relative(r.name, origin) {
        Some(t) => t.len(),
        None => 0,
    }
}

/// The width of the column of names: that of the longest relative name, and at least five.
pub open spec fn name_width(records: Seq<RecordView>, origin: Seq<char>) -> nat
    decreases records.len(),
{
    if records.len() == 0 {
        5
    } else {
        max_nat(name_width(records.drop_last(), origin), relative_len(records.last(), origin))
    }
}

/// The width that the time to live of a record takes: none where it is the default.
pub open spec fn ttl_len(r: RecordView, default: u32) -> nat {
    if r.ttl != default {
        decimal(r.ttl as nat).len()
    } else {
        0
    }
}

/// The width of the column of times to live: that of the longest one that is written, and at
/// least three.
pub open spec fn ttl_width(records: Seq<RecordView>, default: u32) -> nat
    decreases records.len(),
{
    if records.len() == 0 {
        3
    } else {
        max_nat(ttl_width(records.drop_last(), default), ttl_len(records.last(), default))
    }
}

/// The width of the column of types: that of the longest mnemonic, and at least four.
pub open spec fn type_width(records: Seq<RecordView>) -> nat
    decreases records.len(),
{
    if records.len() == 0 {
        4
    } else {
        max_nat(type_width(records.drop_last()), type_mnemonic(records.last().data).len())
    }
}

/// The width of the column of classes: that of `IN`.
pub open spec fn class_width() -> nat {
    2
}

/// Whether the record `a` must stand before the record `b`: its name comes first, or the
/// names are the same and its type comes first.
pub open spec fn record_before(a: RecordView, b: RecordView) -> bool {
    lex_less(a.name, b.name) || (a.name == b.name && lex_less(
        type_mnemonic(a.data),
        type_mnemonic(b.data),
    ))
}

/// The sorted records with one more record put in its place: behind every record that need
/// not stand behind it.
pub open spec fn insert_sorted(s: Seq<RecordView>, r: RecordView) -> Seq<RecordView>
    decreases s.len(),
{
    if s.len() == 0 {
        seq![r]
    } else if record_before(r, s.last()) {
        insert_sorted(s.drop_last(), r).push(s.last())
    } else {
        s.push(r)
    }
}

/// The records sorted by name and then by type; records that agree in both keep their order.
pub open spec fn sorted_records(s: Seq<RecordView>) -> Seq<RecordView>
    decreases s.len(),
{
    if s.len() == 0 {
        Seq::empty()
    } else {
        insert_sorted(sorted_records(s.drop_last()), s.last())
    }
}

/// The field of the time to live in the line of a record: blank where it is the default.
pub open spec fn ttl_field(r: RecordView, default: u32, width: nat) -> Seq<char> {
    if r.ttl != default {
        pad_right(decimal(r.ttl as nat), width) + seq![' ']
    } else {
        spaces(width + 1)
    }
}

/// The widths of the columns of a zone file.
pub struct Columns {
    pub name: nat,
    pub ttl: nat,
    pub class: nat,
    pub kind: nat,
}

/// The widths of the columns for the records of a zone.
pub open spec fn columns_of(records: Seq<RecordView>, origin: Seq<char>, default: u32) -> Columns {
    Columns {
        name: name_width(records, origin),
        ttl: ttl_width(records, default),
        class: class_width(),
        kind: type_width(records),
    }
}

/// The line of a record. A record whose name lies outside the origin has none, nor has a
/// start of authority.
pub open spec fn record_line(r: RecordView, origin: Seq<char>, default: u32, c: Columns) -> Seq<char> {
    match relative(r.name, origin) {
        None => Seq::empty(),
        Some(name) => if r.data is SOA {
            Seq::empty()
        } else {
            pad_right(name, c.name) + seq![' '] + ttl_field(r, default, c.ttl) + seq![' ']
                + pad_right(seq!['I', 'N'], c.class) + seq![' ', ' '] + pad_right(
                type_mnemonic(r.data),
                c.kind,
            ) + seq![' '] + data_text(r.data) + seq!['\n']
        },
    }
}

/// The lines of the records, one after another.
pub open spec fn lines_text(s: Seq<RecordView>, origin: Seq<char>, default: u32, c: Columns) -> Seq<
    char,
>
    decreases s.len(),
{
    if s.len() == 0 {
        Seq::empty()
    } else {
        lines_text(s.drop_last(), origin, default, c) + record_line(s.last(), origin, default, c)
    }
}

/// The lines of the records of a zone: sorted, in columns wide enough for all of them.
pub open spec fn record_lines_text(records: Seq<RecordView>, origin: Seq<char>, default: u32) -> Seq<
    char,
> {
    lines_text(sorted_records(records), origin, default, columns_of(records, origin, default))
}

/// The zone file of a zone.
pub open spec fn zone_text(z: ZoneView) -> Seq<char> {
    header_text(default_ttl(z.records), z.origin) + soa_text(z.soa) + record_lines_text(
        z.records,
        z.origin,
        default_ttl(z.records),
    )
}

/// The number of the records with the given time to live.
fn count_ttl(records: &Vec<DNSRecord>, ttl: u32) -> (n: usize)
    ensures
        n == ttl_count(record_views(records@), ttl),
{
    let ghost all = record_views(records@);
    let mut n: usize = 0;
    let mut i: usize = 0;
    assert(all.subrange(0, 0) =~= Seq::<RecordView>::empty());
    while i < records.len()
        invariant
            i <= records.len(),
            all == record_views(records@),
            n == ttl_count(all.subrange(0, i as int), ttl),
            n <= i,
        decreases records.len() - i,
    {
        let ghost next = all.subrange(0, i + 1);
        proof {
            assert(next.drop_last() == all.subrange(0, i as int));
            assert(next.last() == records@[i as int]@);
        }
        if records[i].ttl == ttl {
            n += 1;
        }
        i += 1;
    }
    assert(all.subrange(0, records.len() as int) == all);
    n
}

/// The default time to live of the zone.
pub fn calculate_default_ttl(zone: &DNSZone) -> (ttl: u32)
    ensures
        ttl == default_ttl(zone@.records),
{
    let records = zone.records();
    let ghost all = record_views(records@);
    if records.len() == 0 {
        return DEFAULT_TTL;
    }
    let mut best: usize = 0;
    let mut best_count: usize = count_ttl(records, records[0].ttl);
    let mut n: usize = 1;
    while n < records.len()
        invariant
            1 <= n <= records.len(),
            all == record_views(records@),
            best < n,
            best == most_frequent_at(all, n as int),
            best_count == ttl_count(all, all[best as int].ttl),
        decreases records.len() - n,
    {
        let count = count_ttl(records, records[n].ttl);
        if count > best_count {
            best = n;
            best_count = count;
        }
        n += 1;
    }
    records[best].ttl
}

/// The name with every `@` turned into a dot, and with a dot at its end.
pub fn ensure_fqdn_chars(name: &Vec<char>) -> (r: Vec<char>)
    ensures
        r@ == ensure_fqdn_text(name@),
{
    let mut r: Vec<char> = Vec::new();
    let mut i: usize = 0;
    while i < name.len()
        invariant
            i <= name.len(),
            r.len() == i,
            forall|k: int| 0 <= k < i ==> r@[k] == if name@[k] == '@' { '.' } else { name@[k] },
        decreases name.len() - i,
    {
        r.push(if name[i] == '@' { '.' } else { name[i] });
        i += 1;
    }
    let ghost dotted = Seq::new(name@.len(), |i: int| if name@[i] == '@' { '.' } else { name@[i] });
    assert(r@ =~= dotted);
    if r.len() == 0 || r[r.len() - 1] != '.' {
        r.push('.');
    }
    r
}

/// The name with every `@` turned into a dot, and with a dot at its end.
pub fn ensure_fqdn(name: &str) -> (r: String)
    ensures
        r@ == ensure_fqdn_text(name@),
{
    string_from_chars(&ensure_fqdn_chars(&str_chars(name)))
}

/// Puts the two lines of the head of a zone file at the end of the buffer.
pub fn generate_header(buffer: &mut String, ttl: u32, origin: &str)
    ensures
        final(buffer)@ == old(buffer)@ + header_text(ttl, origin@),
{
    let mut t: Vec<char> = str_chars("$TTL ");
    push_decimal(&mut t, ttl as u64);
    t.push('\n');
    append_chars(&mut t, &str_chars("$ORIGIN "));
    append_chars(&mut t, &ensure_fqdn_chars(&str_chars(origin)));
    t.push('\n');
    assert(t@ =~= header_text(ttl, origin@));
    append_to_string(buffer, &t);
}

/// Puts one line of the block of the start of authority at the end of the text.
fn push_soa_line(t: &mut Vec<char>, value: u32, comment: &str)
    ensures
        final(t)@ == old(t)@ + soa_line(value, comment@),
{
    let ghost before = t@;
    append_chars(t, &str_chars("                "));
    push_decimal(t, value as u64);
    append_chars(t, &str_chars(comment));
    assert(t@ =~= before + soa_line(value, comment@));
}

/// Puts the block of the start of authority, and an empty line, at the end of the buffer.
pub fn generate_soa_header(buffer: &mut String, soa: &DNSRecordData)
    requires
        soa@ is SOA,
    ensures
        final(buffer)@ == old(buffer)@ + soa_text(soa@),
{
    match soa {
        DNSRecordData::SOA { mname, rname, serial, refresh, retry, expire, minimum } => {
            let mut t: Vec<char> = str_chars("@ IN SOA ");
            append_chars(&mut t, &ensure_fqdn_chars(&str_chars(mname.as_str())));
            t.push(' ');
            append_chars(&mut t, &ensure_fqdn_chars(&str_chars(rname.as_str())));
            append_chars(&mut t, &str_chars(" (\n"));
            push_soa_line(&mut t, *serial, " ; serial number\n");
            push_soa_line(&mut t, *refresh, " ; refresh\n");
            push_soa_line(&mut t, *retry, " ; update retry\n");
            push_soa_line(&mut t, *expire, " ; expiry\n");
            push_soa_line(&mut t, *minimum, " ) ; minimum\n");
            t.push('\n');
            assert(t@ =~= soa_text(soa@));
            append_to_string(buffer, &t);
        },
        _ => {},
    }
}

/// The text with a backslash before every double quote.
fn escape_quotes_chars(s: &Vec<char>) -> (r: Vec<char>)
    ensures
        r@ == escape_quotes(s@),
{
    let mut r: Vec<char> = Vec::new();
    let mut i: usize = 0;
    assert(s@.subrange(0, 0) =~= Seq::<char>::empty());
    while i < s.len()
        invariant
            i <= s.len(),
            r@ == escape_quotes(s@.subrange(0, i as int)),
        decreases s.len() - i,
    {
        let ghost before = r@;
        let ghost next = s@.subrange(0, i + 1);
        proof {
            assert(next.drop_last() == s@.subrange(0, i as int));
            assert(next.last() == s@[i as int]);
        }
        if s[i] == '"' {
            r.push('\\');
            r.push('"');
            assert(r@ =~= before + seq!['\\', '"']);
        } else {
            r.push(s[i]);
        }
        i += 1;
    }
    assert(s@.subrange(0, s.len() as int) == s@);
    r
}

/// The data of a record as a zone file writes them.
fn data_chars(data: &DNSRecordData) -> (t: Vec<char>)
    ensures
        t@ == data_text(data@),
{
    match data {
        DNSRecordData::A(a) => a.to_chars(),
        DNSRecordData::AAAA(a) => a.to_chars(),
        DNSRecordData::CNAME(name) => ensure_fqdn_chars(&str_chars(name.as_str())),
        DNSRecordData::MX { preference, exchange } => {
            let mut t: Vec<char> = Vec::new();
            push_decimal(&mut t, *preference as u64);
            t.push(' ');
            append_chars(&mut t, &ensure_fqdn_chars(&str_chars(exchange.as_str())));
            assert(t@ =~= data_text(data@));
            t
        },
        DNSRecordData::TXT(txts) => {
            let mut parts: Vec<Vec<char>> = Vec::new();
            let mut i: usize = 0;
            while i < txts.len()
                invariant
                    i <= txts.len(),
                    parts.len() == i,
                    forall|k: int| 0 <= k < i ==> parts@[k]@ == quoted(txts@[k]@),
                decreases txts.len() - i,
            {
                let mut q: Vec<char> = vec!['"'];
                append_chars(&mut q, &escape_quotes_chars(&str_chars(txts[i].as_str())));
                q.push('"');
                assert(q@ =~= quoted(txts@[i as int]@));
                parts.push(q);
                i += 1;
            }
            assert(views(parts@) =~= quoted_each(string_views(txts@)));
            let sep: Vec<char> = vec![' '];
            assert(sep@ =~= seq![' ']);
            join_chars(&parts, &sep)
        },
        DNSRecordData::NS(name) => ensure_fqdn_chars(&str_chars(name.as_str())),
        DNSRecordData::SOA { .. } => Vec::new(),
        DNSRecordData::PTR(name) => ensure_fqdn_chars(&str_chars(name.as_str())),
        DNSRecordData::SRV { priority, weight, port, target } => {
            let mut t: Vec<char> = Vec::new();
            push_decimal(&mut t, *priority as u64);
            t.push(' ');
            push_decimal(&mut t, *weight as u64);
            t.push(' ');
            push_decimal(&mut t, *port as u64);
            t.push(' ');
            append_chars(&mut t, &ensure_fqdn_chars(&str_chars(target.as_str())));
            assert(t@ =~= data_text(data@));
            t
        },
        DNSRecordData::DS(rdata) => str_chars(rdata.as_str()),
    }
}

/// Puts the data of a record, as a zone file writes them, at the end of the buffer.
pub fn generate_record_data(buffer: &mut String, data: &DNSRecordData)
    requires
        !(data@ is SOA),
    ensures
        final(buffer)@ == old(buffer)@ + data_text(data@),
{
    let t = data_chars(data);
    append_to_string(buffer, &t);
}

/// Puts the text at the end of `t`, and spaces after it up to the given width.
fn push_padded(t: &mut Vec<char>, s: &Vec<char>, width: usize)
    ensures
        final(t)@ == old(t)@ + pad_right(s@, width as nat),
{
    let ghost before = t@;
    append_chars(t, s);
    let mut n: usize = s.len();
    assert(t@ =~= before + s@ + spaces(0));
    while n < width
        invariant
            s.len() <= n,
            n <= width || n == s.len(),
            t@ == before + s@ + spaces((n - s.len()) as nat),
        decreases width - n,
    {
        let ghost so_far = t@;
        t.push(' ');
        assert(t@ =~= before + s@ + spaces((n + 1 - s.len()) as nat));
        n += 1;
    }
    assert(t@ =~= before + pad_right(s@, width as nat));
}

/// The records at the given places, in the order of the places.
pub open spec fn picked(records: Seq<RecordView>, order: Seq<usize>) -> Seq<RecordView> {
    Seq::new(order.len(), |k: int| records[order[k] as int])
}

/// A record goes into sorted records at the place behind which every record must stand
/// behind it, and before which the nearest record need not.
proof fn lemma_insert_place(s: Seq<RecordView>, r: RecordView, p: int)
    requires
        0 <= p <= s.len(),
        forall|k: int| p <= k < s.len() ==> record_before(r, s[k]),
        p > 0 ==> !record_before(r, s[p - 1]),
    ensures
        insert_sorted(s, r) == s.insert(p, r),
    decreases s.len(),
{
    if s.len() == 0 {
        assert(seq![r] =~= s.insert(p, r));
    } else if p == s.len() {
        assert(s.push(r) =~= s.insert(p, r));
    } else {
        let front = s.drop_last();
        assert forall|k: int| p <= k < front.len() implies record_before(r, front[k]) by {
            assert(front[k] == s[k]);
        }
        if p > 0 {
            assert(front[p - 1] == s[p - 1]);
        }
        lemma_insert_place(front, r, p);
        assert(front.insert(p, r).push(s.last()) =~= s.insert(p, r));
    }
}

/// Whether the record at place `a` must stand before the record at place `b`.
fn before_at(names: &Vec<Vec<char>>, kinds: &Vec<Vec<char>>, a: usize, b: usize) -> (r: bool)
    requires
        names.len() == kinds.len(),
        a < names.len(),
        b < names.len(),
    ensures
        r == (lex_less(names@[a as int]@, names@[b as int]@) || (names@[a as int]@
            == names@[b as int]@ && lex_less(kinds@[a as int]@, kinds@[b as int]@))),
{
    if chars_less(&names[a], &names[b]) {
        true
    } else if same_chars(&names[a], &names[b]) {
        chars_less(&kinds[a], &kinds[b])
    } else {
        false
    }
}

/// The places of the records in sorted order.
fn sorted_order(records: &Vec<DNSRecord>) -> (order: Vec<usize>)
    ensures
        order.len() == records.len(),
        forall|k: int| 0 <= k < order.len() ==> order@[k] < records.len(),
        picked(record_views(records@), order@) == sorted_records(record_views(records@)),
{
    let ghost all = record_views(records@);
    let mut names: Vec<Vec<char>> = Vec::new();
    let mut kinds: Vec<Vec<char>> = Vec::new();
    let mut t: usize = 0;
    while t < records.len()
        invariant
            t <= records.len(),
            names.len() == t,
            kinds.len() == t,
            forall|k: int| 0 <= k < t ==> names@[k]@ == records@[k]@.name,
            forall|k: int| 0 <= k < t ==> kinds@[k]@ == type_mnemonic(records@[k]@.data),
        decreases records.len() - t,
    {
        names.push(records[t].name.chars());
        kinds.push(str_chars(records[t].data.type_str()));
        t += 1;
    }
    let mut order: Vec<usize> = Vec::new();
    let mut i: usize = 0;
    proof {
        assert(all.subrange(0, 0) =~= Seq::<RecordView>::empty());
        assert(picked(all, order@) =~= Seq::<RecordView>::empty());
    }
    while i < records.len()
        invariant
            i <= records.len(),
            all == record_views(records@),
            names.len() == records.len(),
            kinds.len() == records.len(),
            forall|k: int| 0 <= k < records.len() ==> names@[k]@ == records@[k]@.name,
            forall|k: int|
                0 <= k < records.len() ==> kinds@[k]@ == type_mnemonic(records@[k]@.data),
            order.len() == i,
            forall|k: int| 0 <= k < order.len() ==> order@[k] < i,
            picked(all, order@) == sorted_records(all.subrange(0, i as int)),
        decreases records.len() - i,
    {
        let ghost done = all.subrange(0, i as int);
        let ghost next = all.subrange(0, i + 1);
        let ghost sorted = picked(all, order@);
        proof {
            assert(next.drop_last() == done);
            assert(next.last() == all[i as int]);
        }
        proof {
            law_sorted_records(done);
        }
        let mut p: usize = 0;
        let mut end: usize = order.len();
        while p < end
            invariant
                p <= end <= order.len(),
                i < records.len(),
                all == record_views(records@),
                names.len() == records.len(),
                kinds.len() == records.len(),
                forall|k: int| 0 <= k < records.len() ==> names@[k]@ == records@[k]@.name,
                forall|k: int|
                    0 <= k < records.len() ==> kinds@[k]@ == type_mnemonic(records@[k]@.data),
                forall|k: int| 0 <= k < order.len() ==> order@[k] < i,
                sorted == picked(all, order@),
                in_order(sorted),
                forall|k: int| 0 <= k < p ==> !record_before(all[i as int], sorted[k]),
                forall|k: int| end <= k < order.len() ==> record_before(all[i as int], sorted[k]),
            decreases end - p,
        {
            let middle: usize = p + (end - p) / 2;
            assert(sorted[middle as int] == all[order@[middle as int] as int]);
            if before_at(&names, &kinds, i, order[middle]) {
                proof {
                    assert forall|k: int| middle <= k < order.len() implies record_before(
                        all[i as int],
                        sorted[k],
                    ) by {
                        if k > middle {
                            lemma_before_stays(all[i as int], sorted[middle as int], sorted[k]);
                        }
                    }
                }
                end = middle;
            } else {
                proof {
                    assert forall|k: int| 0 <= k <= middle implies !record_before(
                        all[i as int],
                        sorted[k],
                    ) by {
                        if k < middle && record_before(all[i as int], sorted[k]) {
                            lemma_before_stays(all[i as int], sorted[k], sorted[middle as int]);
                        }
                    }
                }
                p = middle + 1;
            }
        }
        proof {
            lemma_insert_place(sorted, all[i as int], p as int);
        }
        order.insert(p, i);
        assert(picked(all, order@) =~= sorted.insert(p as int, all[i as int]));
        i += 1;
    }
    assert(all.subrange(0, records.len() as int) == all);
    order
}

/// The widths of the columns, as numbers of the machine.
struct Widths {
    name: usize,
    ttl: usize,
    class: usize,
    kind: usize,
}

impl Widths {
    spec fn columns(self) -> Columns {
        Columns {
            name: self.name as nat,
            ttl: self.ttl as nat,
            class: self.class as nat,
            kind: self.kind as nat,
        }
    }
}

/// The widths of the columns for the records.
fn measure(records: &Vec<DNSRecord>, origin: &FQDNName, default: u32) -> (w: Widths)
    ensures
        w.columns() == columns_of(record_views(records@), origin@, default),
{
    let ghost all = record_views(records@);
    let mut name: usize = RECORD_NAME_COLUMN_MIN_WIDTH;
    let mut ttl: usize = RECORD_TTL_COLUMN_MIN_WIDTH;
    let mut kind: usize = RECORD_TYPE_COLUMN_WIDTH;
    let mut i: usize = 0;
    assert(all.subrange(0, 0) =~= Seq::<RecordView>::empty());
    while i < records.len()
        invariant
            i <= records.len(),
            all == record_views(records@),
            name == name_width(all.subrange(0, i as int), origin@),
            ttl == ttl_width(all.subrange(0, i as int), default),
            kind == type_width(all.subrange(0, i as int)),
        decreases records.len() - i,
    {
        let ghost next = all.subrange(0, i + 1);
        proof {
            assert(next.drop_last() == all.subrange(0, i as int));
            assert(next.last() == records@[i as int]@);
        }
        let r = &records[i];
        let rel: usize = match r.name.relative_to(origin) {
            Some(t) => str_chars(t.as_str()).len(),
            None => 0,
        };
        if rel > name {
            name = rel;
        }
        let t: usize = if r.ttl != default {
            let mut d: Vec<char> = Vec::new();
            push_decimal(&mut d, r.ttl as u64);
            d.len()
        } else {
            0
        };
        if t > ttl {
            ttl = t;
        }
        let k: usize = str_chars(r.data.type_str()).len();
        if k > kind {
            kind = k;
        }
        i += 1;
    }
    assert(all.subrange(0, records.len() as int) == all);
    Widths { name, ttl, class: RECORD_CLASS_COLUMN_WIDTH, kind }
}

/// The line of the record.
fn line_chars(r: &DNSRecord, origin: &FQDNName, default: u32, w: &Widths) -> (t: Vec<char>)
    requires
        w.ttl < usize::MAX,
    ensures
        t@ == record_line(r@, origin@, default, w.columns()),
{
    let mut t: Vec<char> = Vec::new();
    let name = match r.name.relative_to(origin) {
        Some(n) => n,
        None => {
            return t;
        },
    };
    if r.data.is_soa() {
        return t;
    }
    push_padded(&mut t, &str_chars(name.as_str()), w.name);
    t.push(' ');
    if r.ttl != default {
        let mut d: Vec<char> = Vec::new();
        push_decimal(&mut d, r.ttl as u64);
        push_padded(&mut t, &d, w.ttl);
        t.push(' ');
    } else {
        let blank: Vec<char> = Vec::new();
        push_padded(&mut t, &blank, w.ttl + 1);
        assert(pad_right(blank@, (w.ttl + 1) as nat) =~= spaces((w.ttl + 1) as nat));
    }
    t.push(' ');
    let class: Vec<char> = vec!['I', 'N'];
    assert(class@ =~= seq!['I', 'N']);
    push_padded(&mut t, &class, w.class);
    t.push(' ');
    t.push(' ');
    push_padded(&mut t, &str_chars(r.data.type_str()), w.kind);
    t.push(' ');
    append_chars(&mut t, &data_chars(&r.data));
    t.push('\n');
    assert(t@ =~= record_line(r@, origin@, default, w.columns()));
    t
}

/// Every time to live takes at most ten digits, so the column of times to live is narrow.
proof fn lemma_ttl_width(records: Seq<RecordView>, default: u32)
    ensures
        ttl_width(records, default) <= 10,
    decreases records.len(),
{
    if records.len() > 0 {
        lemma_ttl_width(records.drop_last(), default);
        lemma_decimal_len(records.last().ttl as nat);
    }
}

/// A number below 2^32 has at most ten decimal digits.
proof fn lemma_decimal_len(n: nat)
    requires
        n <= 0xffff_ffff,
    ensures
        decimal(n).len() <= 10,
{
    reveal_with_fuel(decimal, 11);
}

/// Puts the lines of the records at the end of the buffer: sorted by name and then by type,
/// in columns wide enough for all of them. Records whose names lie outside the origin, and
/// records of a start of authority, have no line.
pub fn generate_record_lines(
    buffer: &mut String,
    records: &Vec<DNSRecord>,
    current_origin: FQDNName,
    default_ttl: u32,
)
    ensures
        final(buffer)@ == old(buffer)@ + record_lines_text(
            record_views(records@),
            current_origin@,
            default_ttl,
        ),
{
    let ghost all = record_views(records@);
    let widths = measure(records, &current_origin, default_ttl);
    let order = sorted_order(records);
    let ghost sorted = sorted_records(all);
    let ghost c = widths.columns();
    proof {
        lemma_ttl_width(all, default_ttl);
    }
    let mut t: Vec<char> = Vec::new();
    let mut i: usize = 0;
    proof {
        assert(sorted.subrange(0, 0) =~= Seq::<RecordView>::empty());
    }
    while i < order.len()
        invariant
            i <= order.len(),
            order.len() == records.len(),
            all == record_views(records@),
            sorted == picked(all, order@),
            forall|k: int| 0 <= k < order.len() ==> order@[k] < records.len(),
            c == widths.columns(),
            widths.ttl < usize::MAX,
            t@ == lines_text(sorted.subrange(0, i as int), current_origin@, default_ttl, c),
        decreases order.len() - i,
    {
        let ghost next = sorted.subrange(0, i + 1);
        proof {
            assert(next.drop_last() == sorted.subrange(0, i as int));
            assert(next.last() == records@[order@[i as int] as int]@);
        }
        let line = line_chars(&records[order[i]], &current_origin, default_ttl, &widths);
        append_chars(&mut t, &line);
        i += 1;
    }
    assert(sorted.subrange(0, order.len() as int) == sorted);
    append_to_string(buffer, &t);
}

/// The zone file of the zone: the head, the block of the start of authority, and the lines
/// of the records.
pub fn format_dns_zone(zone: &DNSZone) -> (text: String)
    ensures
        text@ == zone_text(zone@),
{
    let mut buffer = String::new();
    let ttl = calculate_default_ttl(zone);
    generate_header(&mut buffer, ttl, zone.origin().as_str());
    generate_soa_header(&mut buffer, zone.soa());
    generate_record_lines(&mut buffer, zone.records(), zone.origin().clone(), ttl);
    assert(buffer@ =~= zone_text(zone@));
    buffer
}

/// The order of the dictionary puts no text before itself.
pub proof fn lemma_lex_irreflexive(a: Seq<char>)
    ensures
        !lex_less(a, a),
    decreases a.len(),
{
    if a.len() > 0 {
        lemma_lex_irreflexive(a.drop_first());
    }
}

/// Of two different texts, the order of the dictionary puts one before the other.
pub proof fn lemma_lex_total(a: Seq<char>, b: Seq<char>)
    ensures
        lex_less(a, b) || lex_less(b, a) || a == b,
        !(lex_less(a, b) && lex_less(b, a)),
    decreases a.len(),
{
    if a.len() > 0 && b.len() > 0 && a[0] == b[0] {
        let x = a.drop_first();
        let y = b.drop_first();
        lemma_lex_total(x, y);
        if x == y {
            assert forall|i: int| 0 <= i < a.len() implies a[i] == b[i] by {
                if i > 0 {
                    assert(a[i] == x[i - 1]);
                    assert(b[i] == y[i - 1]);
                }
            }
            assert(a.len() == x.len() + 1 && b.len() == y.len() + 1);
            assert(a =~= b);
        }
    } else if a.len() == 0 && b.len() == 0 {
        assert(a =~= b);
    } else if a.len() > 0 && b.len() > 0 {
        vstd::utf8::char_u32_cast(a[0], a[0] as u32);
        vstd::utf8::char_u32_cast(b[0], b[0] as u32);
    }
}

/// The order of the dictionary is transitive.
pub proof fn lemma_lex_transitive(a: Seq<char>, b: Seq<char>, c: Seq<char>)
    requires
        lex_less(a, b),
        lex_less(b, c),
    ensures
        lex_less(a, c),
    decreases a.len(),
{
    if a.len() > 0 && b.len() > 0 && c.len() > 0 && a[0] == b[0] && b[0] == c[0] {
        lemma_lex_transitive(a.drop_first(), b.drop_first(), c.drop_first());
    }
}

/// Where a record need not stand behind a second, nor the second behind a third, the first
/// need not stand behind the third.
pub proof fn lemma_not_before_transitive(a: RecordView, b: RecordView, c: RecordView)
    requires
        !record_before(b, a),
        !record_before(c, b),
    ensures
        !record_before(c, a),
{
    let ta = type_mnemonic(a.data);
    let tb = type_mnemonic(b.data);
    let tc = type_mnemonic(c.data);
    lemma_lex_total(a.name, b.name);
    lemma_lex_total(b.name, c.name);
    lemma_lex_total(a.name, c.name);
    lemma_lex_total(ta, tb);
    lemma_lex_total(tb, tc);
    lemma_lex_total(ta, tc);
    if lex_less(c.name, a.name) {
        if lex_less(a.name, b.name) {
            lemma_lex_transitive(c.name, a.name, b.name);
        }
        if lex_less(b.name, c.name) {
            lemma_lex_transitive(b.name, c.name, a.name);
        }
    } else if c.name == a.name && lex_less(tc, ta) {
        if lex_less(a.name, b.name) {
        } else {
            if lex_less(ta, tb) {
                lemma_lex_transitive(tc, ta, tb);
            }
            if lex_less(tb, tc) {
                lemma_lex_transitive(tb, tc, ta);
            }
        }
    }
}

/// A record that must stand before a second must stand before every record that need not
/// stand before the second.
pub proof fn lemma_before_stays(r: RecordView, a: RecordView, b: RecordView)
    requires
        record_before(r, a),
        !record_before(b, a),
    ensures
        record_before(r, b),
{
    if !record_before(r, b) {
        lemma_not_before_transitive(a, b, r);
    }
}

/// Whether no record stands behind a record that must stand behind it.
pub open spec fn in_order(s: Seq<RecordView>) -> bool {
    forall|i: int, j: int| 0 <= i < j < s.len() ==> !record_before(s[j], s[i])
}

/// The place at which a record goes into sorted records.
pub open spec fn insert_place(s: Seq<RecordView>, r: RecordView) -> int
    decreases s.len(),
{
    if s.len() == 0 {
        0
    } else if record_before(r, s.last()) {
        insert_place(s.drop_last(), r)
    } else {
        s.len() as int
    }
}

proof fn lemma_insert_place_of(s: Seq<RecordView>, r: RecordView)
    ensures
        0 <= insert_place(s, r) <= s.len(),
        forall|k: int| insert_place(s, r) <= k < s.len() ==> record_before(r, s[k]),
        insert_place(s, r) > 0 ==> !record_before(r, s[insert_place(s, r) - 1]),
        insert_sorted(s, r) == s.insert(insert_place(s, r), r),
    decreases s.len(),
{
    if s.len() > 0 && record_before(r, s.last()) {
        let front = s.drop_last();
        lemma_insert_place_of(front, r);
        let p = insert_place(front, r);
        assert forall|k: int| p <= k < s.len() implies record_before(r, s[k]) by {
            if k < front.len() {
                assert(front[k] == s[k]);
            }
        }
        if p > 0 {
            assert(front[p - 1] == s[p - 1]);
        }
    }
    lemma_insert_place(s, r, insert_place(s, r));
}

proof fn lemma_insert_in_order(s: Seq<RecordView>, r: RecordView)
    requires
        in_order(s),
    ensures
        in_order(insert_sorted(s, r)),
        insert_sorted(s, r).to_multiset() == s.to_multiset().insert(r),
{
    lemma_insert_place_of(s, r);
    let p = insert_place(s, r);
    let out = s.insert(p, r);
    assert forall|i: int, j: int| 0 <= i < j < out.len() implies !record_before(out[j], out[i]) by {
        if j == p {
            // out[i] is an element before the place
            assert(out[i] == s[i]);
            if i < p - 1 {
                assert(!record_before(s[p - 1], s[i]));
                lemma_not_before_transitive(s[i], s[p - 1], r);
            }
        } else if i == p {
            assert(out[j] == s[j - 1]);
            assert(record_before(r, s[j - 1]));
            lemma_lex_total(r.name, s[j - 1].name);
            lemma_lex_total(type_mnemonic(r.data), type_mnemonic(s[j - 1].data));
        } else {
            let a = if i < p {
                i
            } else {
                i - 1
            };
            let b = if j < p {
                j
            } else {
                j - 1
            };
            assert(out[i] == s[a] && out[j] == s[b]);
        }
    }
    vstd::seq_lib::to_multiset_insert(s, p, r);
    assert(out.to_multiset() =~= s.to_multiset().insert(r));
}

/// The sorted records are the same records, and none of them stands behind a record that
/// must stand behind it.
pub proof fn law_sorted_records(s: Seq<RecordView>)
    ensures
        in_order(sorted_records(s)),
        sorted_records(s).to_multiset() == s.to_multiset(),
        sorted_records(s).len() == s.len(),
    decreases s.len(),
{
    if s.len() == 0 {
        assert(s =~= Seq::<RecordView>::empty());
    } else {
        let front = s.drop_last();
        law_sorted_records(front);
        lemma_insert_in_order(sorted_records(front), s.last());
        lemma_insert_place_of(sorted_records(front), s.last());
        vstd::seq_lib::to_multiset_build(front, s.last());
        assert(front.push(s.last()) == s);
    }
}

/// Whether the record `x` stands somewhere before the record `y` in the list.
pub open spec fn precedes(s: Seq<RecordView>, x: RecordView, y: RecordView) -> bool {
    exists|i: int, j: int| 0 <= i < j < s.len() && s[i] == x && s[j] == y
}

proof fn lemma_insert_keeps_order(s: Seq<RecordView>, r: RecordView, x: RecordView, y: RecordView)
    requires
        precedes(s, x, y),
    ensures
        precedes(insert_sorted(s, r), x, y),
{
    lemma_insert_place_of(s, r);
    let p = insert_place(s, r);
    let out = s.insert(p, r);
    let (i, j) = choose|i: int, j: int| 0 <= i < j < s.len() && s[i] == x && s[j] == y;
    let a = if i < p {
        i
    } else {
        i + 1
    };
    let b = if j < p {
        j
    } else {
        j + 1
    };
    assert(out[a] == x && out[b] == y);
}

/// Sorting is stable: of two records that agree in name and type, the one that stood first
/// stands first.
pub proof fn law_sort_is_stable(s: Seq<RecordView>, x: RecordView, y: RecordView)
    requires
        precedes(s, x, y),
        !record_before(x, y),
        !record_before(y, x),
    ensures
        precedes(sorted_records(s), x, y),
    decreases s.len(),
{
    let (i, j) = choose|i: int, j: int| 0 <= i < j < s.len() && s[i] == x && s[j] == y;
    let front = s.drop_last();
    let sorted = sorted_records(front);
    if j < s.len() - 1 {
        assert(front[i] == x && front[j] == y);
        law_sort_is_stable(front, x, y);
        lemma_insert_keeps_order(sorted, s.last(), x, y);
    } else {
        // `y` is the record that goes in last; `x` is among the sorted ones.
        law_sorted_records(front);
        lemma_insert_place_of(sorted, y);
        let p = insert_place(sorted, y);
        assert(front[i] == x);
        vstd::seq_lib::to_multiset_contains(front, x);
        vstd::seq_lib::to_multiset_contains(sorted, x);
        assert(front.contains(x));
        assert(sorted.contains(x));
        let k = choose|k: int| 0 <= k < sorted.len() && sorted[k] == x;
        assert(k < p) by {
            if k >= p {
                assert(record_before(y, sorted[k]));
            }
        }
        let out = sorted.insert(p, y);
        assert(out[k] == x && out[p] == y);
    }
}

proof fn lemma_uniform_count(records: Seq<RecordView>, t: u32)
    requires
        forall|i: int| 0 <= i < records.len() ==> (#[trigger] records[i]).ttl == t,
    ensures
        forall|n: int| 0 <= n <= records.len() ==> records[#[trigger] most_frequent_at(records, n)].ttl
            == t || records.len() == 0,
        ttl_width(records, t) == 3,
    decreases records.len(),
{
    if records.len() > 0 {
        let front = records.drop_last();
        assert forall|i: int| 0 <= i < front.len() implies (#[trigger] front[i]).ttl == t by {
            assert(front[i] == records[i]);
        }
        lemma_uniform_count(front, t);
        assert forall|n: int| 0 <= n <= records.len() implies records[#[trigger] most_frequent_at(
            records,
            n,
        )].ttl == t by {
            lemma_most_frequent_bounds(records, n);
        }
    }
}

proof fn lemma_most_frequent_bounds(records: Seq<RecordView>, n: int)
    requires
        0 <= n <= records.len(),
        records.len() > 0,
    ensures
        0 <= most_frequent_at(records, n) < records.len(),
    decreases n,
{
    if n > 1 {
        lemma_most_frequent_bounds(records, n - 1);
    }
}

/// Where all the records of a zone have one time to live, that is the default, and the field
/// of the time to live is blank in every line.
pub proof fn law_uniform_ttl_is_blank(records: Seq<RecordView>, t: u32)
    requires
        records.len() > 0,
        forall|i: int| 0 <= i < records.len() ==> (#[trigger] records[i]).ttl == t,
    ensures
        default_ttl(records) == t,
        ttl_width(records, t) == 3,
        forall|i: int|
            0 <= i < records.len() ==> ttl_field(#[trigger] records[i], t, ttl_width(records, t))
                == spaces(4),
{
    lemma_uniform_count(records, t);
    lemma_most_frequent_bounds(records, records.len() as int);
}

proof fn lemma_ttl_fits(records: Seq<RecordView>, default: u32, i: int)
    requires
        0 <= i < records.len(),
    ensures
        ttl_len(records[i], default) <= ttl_width(records, default),
        ttl_width(records, default) >= 3,
    decreases records.len(),
{
    let front = records.drop_last();
    if i < records.len() - 1 {
        assert(front[i] == records[i]);
        lemma_ttl_fits(front, default, i);
    } else if front.len() > 0 {
        lemma_ttl_fits(front, default, 0);
    }
}

/// The column of times to live is aligned: in the line of every record of the zone the field
/// takes the width of the column and one space more, whether the time is written or not.
pub proof fn law_ttl_column_aligned(records: Seq<RecordView>, default: u32, i: int)
    requires
        0 <= i < records.len(),
    ensures
        ttl_field(records[i], default, ttl_width(records, default)).len() == ttl_width(
            records,
            default,
        ) + 1,
        records[i].ttl != default ==> ttl_field(
            records[i],
            default,
            ttl_width(records, default),
        ).subrange(0, decimal(records[i].ttl as nat).len() as int) == decimal(
            records[i].ttl as nat,
        ),
{
    lemma_ttl_fits(records, default, i);
}

} // verus!
