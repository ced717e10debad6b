//! The entries of the ROA document from route objects.
use crate::clock::elapsed_since_1970;
use crate::model::output::{roa_views, Metadata, MetadataView, OutputView, RoaView, RpkiClientOutput, ROA};
use crate::model::record::{parse_prefix, Prefix, RecordField, RecordFile, RecordFileView};
use crate::parser::dns::{file_views, quoted_path};
use crate::text::{
    all_digits, append_chars, digits_value, is_radix_digit, parse_unsigned, parse_unsigned_chars,
    slice_chars, str_chars, string_from_chars, string_views, without_plus,
};
use vstd::prelude::*;

verus! {

/// The number of the autonomous system that a value of the `origin` field names: the letters
/// `AS` and then one decimal digit or more, for a number that fits in 32 bits.
pub open spec fn parse_asn(s: Seq<char>) -> Option<u32> {
    let digits = s.subrange(2, s.len() as int);
    if s.len() > 2 && s[0] == 'A' && s[1] == 'S' && all_digits(digits, 10) && digits_value(
        digits,
        10,
    ) <= u32::MAX {
        Some(digits_value(digits, 10) as u32)
    } else {
        None
    }
}

/// The values of the field that names the route: `route`, or `route6` where `route` does not
/// occur.
pub open spec fn route_values(r: RecordFileView) -> Seq<Seq<char>> {
    if r.fields.contains_key(RecordField::Route) {
        r.fields[RecordField::Route]
    } else {
        r.values(RecordField::Route6)
    }
}

/// The greatest length of the authorizations of a route object: the value of `max-length`
/// where the field occurs, and the length of the route where it does not. None where the
/// field occurs more than once or does not hold a number from 0 to 255.
pub open spec fn max_length_of(r: RecordFileView, route_len: nat) -> Option<u8> {
    let m = r.values(RecordField::MaxLength);
    if m.len() == 0 {
        Some(route_len as u8)
    } else if m.len() != 1 {
        None
    } else {
        match parse_unsigned(m[0], 10, 255) {
            Some(n) => Some(n as u8),
            None => None,
        }
    }
}

/// The authorizations for the values of the `origin` field, in order: one for each value that
/// names an autonomous system.
pub open spec fn roas_for(origins: Seq<Seq<char>>, prefix: Seq<char>, max_length: u8) -> Seq<RoaView>
    decreases origins.len(),
{
    if origins.len() == 0 {
        Seq::empty()
    } else {
        let front = roas_for(origins.drop_last(), prefix, max_length);
        match parse_asn(origins.last()) {
            Some(asn) => front.push(RoaView { asn, prefix, max_length }),
            None => front,
        }
    }
}

/// The authorizations of one route object. The object gives none unless it has an `origin`
/// field, exactly one route, which is an address block, and a greatest length.
pub open spec fn roas_of(r: RecordFileView) -> Seq<RoaView> {
    let routes = route_values(r);
    if r.values(RecordField::Origin).len() == 0 || routes.len() != 1 {
        Seq::empty()
    } else {
        match parse_prefix(routes[0]) {
            None => Seq::empty(),
            Some(p) => match max_length_of(r, p.len) {
                None => Seq::empty(),
                Some(m) => roas_for(r.values(RecordField::Origin), routes[0], m),
            },
        }
    }
}

/// The authorizations of the route objects, object by object.
pub open spec fn all_roas(files: Seq<RecordFileView>) -> Seq<RoaView>
    decreases files.len(),
{
    if files.len() == 0 {
        Seq::empty()
    } else {
        all_roas(files.drop_last()) + roas_of(files.last())
    }
}

/// The ROA document of the route objects with the given build time.
pub open spec fn roa_document(files: Seq<RecordFileView>, build_time: Seq<char>) -> OutputView {
    OutputView {
        metadata: MetadataView {
            build_time,
            counts: all_roas(files).len() as u64,
            roas: all_roas(files).len() as u64,
        },
        roas: all_roas(files),
    }
}

/// The number of the autonomous system that the text names.
pub fn parse_asn_text(s: &str) -> (r: Option<u32>)
    ensures
        r == parse_asn(s@),
{
    let v = str_chars(s);
    if v.len() <= 2 || v[0] != 'A' || v[1] != 'S' {
        return None;
    }
    let digits = slice_chars(&v, 2, v.len());
    if digits[0] == '+' {
        assert(!is_radix_digit(digits@[0], 10));
        return None;
    }
    assert(without_plus(digits@) == digits@);
    parse_unsigned_chars(&digits, 10, u32::MAX)
}

/// Puts the authorizations of one route object at the end of `roas`.
fn push_roas_of(roas: &mut Vec<ROA>, record_file: &RecordFile)
    ensures
        roa_views(final(roas)@) == roa_views(old(roas)@) + roas_of(record_file@),
{
    let ghost start = roa_views(roas@);
    let ghost file = record_file@;
    proof {
        assert(start + Seq::<RoaView>::empty() =~= start);
    }
    let asn_strs = match record_file.get_field(RecordField::Origin) {
        Some(a) => a,
        None => {
            return ;
        },
    };
    let route_strs = match record_file.get_field(RecordField::Route) {
        Some(r) => r,
        None => match record_file.get_field(RecordField::Route6) {
            Some(r) => r,
            None => {
                return ;
            },
        },
    };
    assert(string_views(route_strs@) == route_values(file));
    if route_strs.len() != 1 {
        return ;
    }
    let route_str = &route_strs[0];
    assert(string_views(route_strs@)[0] == route_str@);
    let prefix = match Prefix::from_str(route_str.as_str()) {
        Ok(p) => p,
        Err(e) => {
            return ;
        },
    };
    let max_length: u8 = match record_file.get_field(RecordField::MaxLength) {
        Some(m) => {
            if m.len() != 1 {
                return ;
            }
            assert(string_views(m@)[0] == m@[0]@);
            match parse_unsigned_chars(&str_chars(m[0].as_str()), 10, 255) {
                Some(n) => n as u8,
                None => {
                    return ;
                },
            }
        },
        None => prefix.prefix_len(),
    };
    let ghost origins = string_views(asn_strs@);
    let mut i: usize = 0;
    proof {
        assert(origins.subrange(0, 0) =~= Seq::<Seq<char>>::empty());
    }
    while i < asn_strs.len()
        invariant
            i <= asn_strs.len(),
            origins == string_views(asn_strs@),
            roa_views(roas@) == start + roas_for(origins.subrange(0, i as int), route_str@, max_length),
        decreases asn_strs.len() - i,
    {
        let ghost before = roa_views(roas@);
        let ghost next = origins.subrange(0, i + 1);
        proof {
            assert(next.drop_last() == origins.subrange(0, i as int));
            assert(next.last() == asn_strs@[i as int]@);
        }
        match parse_asn_text(asn_strs[i].as_str()) {
            Some(asn) => {
                roas.push(ROA { asn, prefix: route_str.clone(), max_length });
                proof {
                    let entry = RoaView { asn, prefix: route_str@, max_length };
                    assert(roa_views(roas@) =~= before.push(entry));
                    assert(start + roas_for(next, route_str@, max_length) =~= before.push(entry));
                }
            },
            None => {},
        }
        i += 1;
    }
    assert(origins.subrange(0, asn_strs.len() as int) == origins);
}

/// The ROA document of the route objects with the given build time.
pub fn roa_output(record_files: &[RecordFile], build_time: String) -> (r: RpkiClientOutput)
    ensures
        r@ == roa_document(file_views(record_files@), build_time@),
{
    let ghost files = file_views(record_files@);
    let mut roas: Vec<ROA> = Vec::new();
    let mut i: usize = 0;
    proof {
        assert(files.subrange(0, 0) =~= Seq::<RecordFileView>::empty());
        assert(roa_views(roas@) =~= Seq::<RoaView>::empty());
    }
    while i < record_files.len()
        invariant
            i <= record_files.len(),
            files == file_views(record_files@),
            roa_views(roas@) == all_roas(files.subrange(0, i as int)),
        decreases record_files.len() - i,
    {
        let ghost next = files.subrange(0, i + 1);
        proof {
            assert(next.drop_last() == files.subrange(0, i as int));
            assert(next.last() == record_files@[i as int]@);
        }
        push_roas_of(&mut roas, &record_files[i]);
        i += 1;
    }
    assert(files.subrange(0, record_files.len() as int) == files);
    let count: u64 = roas.len() as u64;
    RpkiClientOutput { metadata: Metadata { build_time, counts: count, roas: count }, roas }
}

/// The text of RFC 3339 for the point in time that lies the given seconds and nanoseconds
/// after the beginning of 1970, in universal time, as chrono writes it; none where chrono has
/// no such point in time.
pub uninterp spec fn rfc3339_text(seconds: i64, nanos: u32) -> Option<Seq<char>>;

/// `chrono::DateTime::from_timestamp` and, on what it gives, `chrono::DateTime::to_rfc3339`:
/// the text of the point in time, which depends on the two numbers alone, or nothing where
/// the numbers are out of range.
#[verifier::external_body]
fn rfc3339_of(seconds: i64, nanos: u32) -> (text: Option<String>)
    ensures
        match rfc3339_text(seconds, nanos) {
            Some(t) => text is Some && text.unwrap()@ == t,
            None => text is None,
        },
{
    match chrono::DateTime::from_timestamp(seconds, nanos) {
        Some(t) => Some(t.to_rfc3339()),
        None => None,
    }
}

/// The seconds and nanoseconds after the beginning of 1970 that stand for a reading of the
/// clock: those of the reading, and the beginning of 1970 itself for a clock that stood
/// before it or gave more seconds than fit.
pub open spec fn timestamp_of(reading: Option<(u64, u32)>) -> (i64, u32) {
    match reading {
        Some(r) => if r.0 <= i64::MAX {
            (r.0 as i64, r.1)
        } else {
            (0i64, 0u32)
        },
        None => (0i64, 0u32),
    }
}

/// The build time that is written where the text of the time is `text` and the text of the
/// beginning of 1970 is `epoch`: the first that there is, and no text where there is neither.
pub open spec fn chosen_build_time(text: Option<Seq<char>>, epoch: Option<Seq<char>>) -> Seq<char> {
    match text {
        Some(t) => t,
        None => match epoch {
            Some(e) => e,
            None => Seq::empty(),
        },
    }
}

/// The build time for a reading of the clock: the text of the time, and that of the
/// beginning of 1970 where the time has no text.
pub open spec fn build_time_of(reading: Option<(u64, u32)>) -> Seq<char> {
    chosen_build_time(
        rfc3339_text(timestamp_of(reading).0, timestamp_of(reading).1),
        rfc3339_text(0, 0),
    )
}

/// The seconds and nanoseconds after the beginning of 1970 that stand for a reading of the
/// clock.
pub fn timestamp_for(reading: Option<(u64, u32)>) -> (r: (i64, u32))
    ensures
        r == timestamp_of(reading),
{
    match reading {
        Some(r) => {
            if r.0 <= 0x7fff_ffff_ffff_ffff {
                (r.0 as i64, r.1)
            } else {
                (0, 0)
            }
        },
        None => (0, 0),
    }
}

/// The build time that is written: the text of the time where there is one, else that of
/// the beginning of 1970, else no text.
pub fn choose_build_time(text: Option<String>, epoch: Option<String>) -> (r: String)
    ensures
        r@ == chosen_build_time(
            match text {
                Some(t) => Some(t@),
                None => None,
            },
            match epoch {
                Some(e) => Some(e@),
                None => None,
            },
        ),
{
    match text {
        Some(t) => t,
        None => match epoch {
            Some(e) => e,
            None => String::new(),
        },
    }
}

/// The build time for a reading of the clock.
pub fn build_time_for(reading: Option<(u64, u32)>) -> (r: String)
    ensures
        r@ == build_time_of(reading),
{
    let (seconds, nanos) = timestamp_for(reading);
    choose_build_time(rfc3339_of(seconds, nanos), rfc3339_of(0, 0))
}

/// The ROA document of the route objects, built now. Whatever the clock says, the entries
/// are those of `all_roas`, the counts are their number, and the build time is that of some
/// reading of the clock.
pub fn get_parsed_roa_routes(record_files: &[RecordFile]) -> (r: RpkiClientOutput)
    ensures
        exists|reading: Option<(u64, u32)>|
            r@ == roa_document(file_views(record_files@), #[trigger] build_time_of(reading)),
{
    let reading = elapsed_since_1970();
    roa_output(record_files, build_time_for(reading))
}


/// The warnings for the values of the `origin` field that name no autonomous system, in the
/// object at `path`: one for each of them, in order.
pub open spec fn asn_warnings(origins: Seq<Seq<char>>, path: Seq<char>) -> Seq<Seq<char>>
    decreases origins.len(),
{
    if origins.len() == 0 {
        Seq::empty()
    } else {
        let front = asn_warnings(origins.drop_last(), path);
        if parse_asn(origins.last()) is None {
            front.push(
                "Invalid ASN "@ + quoted_path(origins.last()) + " in record: "@ + quoted_path(path),
            )
        } else {
            front
        }
    }
}

/// The warnings of one route object: that it lacks an origin or a route, or has more than
/// one route, or a route that is no address block, or more than one `max-length`; else those
/// of its origins. An object whose one `max-length` is no number is left out without a word.
pub open spec fn roa_warnings_of(r: RecordFileView) -> Seq<Seq<char>> {
    let routes = route_values(r);
    let lengths = r.values(RecordField::MaxLength);
    if r.values(RecordField::Origin).len() == 0 || routes.len() == 0 {
        seq!["Missing required fields in record: "@ + quoted_path(r.path)]
    } else if routes.len() != 1 {
        seq!["Multiple route fields in record: "@ + quoted_path(r.path)]
    } else if parse_prefix(routes[0]) is None {
        seq![
            "Invalid prefix "@ + quoted_path(routes[0]) + " in record: "@ + quoted_path(r.path),
        ]
    } else if lengths.len() > 1 {
        seq!["Multiple max-length fields in record: "@ + quoted_path(r.path)]
    } else if lengths.len() == 1 && parse_unsigned(lengths[0], 10, 255) is None {
        Seq::empty()
    } else {
        asn_warnings(r.values(RecordField::Origin), r.path)
    }
}

/// The warnings of the route objects, object by object.
pub open spec fn roa_warnings(files: Seq<RecordFileView>) -> Seq<Seq<char>>
    decreases files.len(),
{
    if files.len() == 0 {
        Seq::empty()
    } else {
        roa_warnings(files.drop_last()) + roa_warnings_of(files.last())
    }
}

/// The message that names a text and the object at `path`, both between double quotes.
fn warning_about(before: &str, text: &str, path: &str) -> (msg: String)
    ensures
        msg@ == before@ + quoted_path(text@) + " in record: "@ + quoted_path(path@),
{
    let mut msg: Vec<char> = str_chars(before);
    msg.push('"');
    append_chars(&mut msg, &str_chars(text));
    msg.push('"');
    append_chars(&mut msg, &str_chars(" in record: "));
    msg.push('"');
    append_chars(&mut msg, &str_chars(path));
    msg.push('"');
    assert(msg@ =~= before@ + quoted_path(text@) + " in record: "@ + quoted_path(path@));
    string_from_chars(&msg)
}

/// The message that names the object at `path` between double quotes.
fn warning_of(before: &str, path: &str) -> (msg: String)
    ensures
        msg@ == before@ + quoted_path(path@),
{
    let mut msg: Vec<char> = str_chars(before);
    msg.push('"');
    append_chars(&mut msg, &str_chars(path));
    msg.push('"');
    assert(msg@ =~= before@ + quoted_path(path@));
    string_from_chars(&msg)
}

/// Puts the warnings of one route object at the end of `texts`.
fn push_warnings_of(texts: &mut Vec<String>, record_file: &RecordFile)
    ensures
        string_views(final(texts)@) == string_views(old(texts)@) + roa_warnings_of(record_file@),
{
    let ghost start = string_views(texts@);
    let ghost file = record_file@;
    let path = record_file.get_file_path();
    let route_strs = match record_file.get_field(RecordField::Route) {
        Some(r) => Some(r),
        None => record_file.get_field(RecordField::Route6),
    };
    let (asn_strs, route_strs) = match (record_file.get_field(RecordField::Origin), route_strs) {
        (Some(a), Some(r)) => (a, r),
        _ => {
            texts.push(warning_of("Missing required fields in record: ", path));
            assert(string_views(texts@) =~= start + roa_warnings_of(file));
            return ;
        },
    };
    assert(string_views(route_strs@) == route_values(file));
    if route_strs.len() != 1 {
        texts.push(warning_of("Multiple route fields in record: ", path));
        assert(string_views(texts@) =~= start + roa_warnings_of(file));
        return ;
    }
    let route_str = &route_strs[0];
    assert(string_views(route_strs@)[0] == route_str@);
    match Prefix::from_str(route_str.as_str()) {
        Ok(p) => {},
        Err(e) => {
            texts.push(warning_about("Invalid prefix ", route_str.as_str(), path));
            assert(string_views(texts@) =~= start + roa_warnings_of(file));
            return ;
        },
    }
    match record_file.get_field(RecordField::MaxLength) {
        Some(m) => {
            if m.len() != 1 {
                texts.push(warning_of("Multiple max-length fields in record: ", path));
                assert(string_views(texts@) =~= start + roa_warnings_of(file));
                return ;
            }
            assert(string_views(m@)[0] == m@[0]@);
            match parse_unsigned_chars(&str_chars(m[0].as_str()), 10, 255) {
                Some(n) => {},
                None => {
                    assert(start + roa_warnings_of(file) =~= start);
                    return ;
                },
            }
        },
        None => {},
    }
    let ghost origins = string_views(asn_strs@);
    let mut i: usize = 0;
    proof {
        assert(origins.subrange(0, 0) =~= Seq::<Seq<char>>::empty());
        assert(start + asn_warnings(origins.subrange(0, 0), file.path) =~= start);
    }
    while i < asn_strs.len()
        invariant
            i <= asn_strs.len(),
            origins == string_views(asn_strs@),
            path@ == file.path,
            string_views(texts@) == start + asn_warnings(origins.subrange(0, i as int), file.path),
        decreases asn_strs.len() - i,
    {
        let ghost before = string_views(texts@);
        let ghost next = origins.subrange(0, i + 1);
        proof {
            assert(next.drop_last() == origins.subrange(0, i as int));
            assert(next.last() == asn_strs@[i as int]@);
        }
        match parse_asn_text(asn_strs[i].as_str()) {
            Some(asn) => {},
            None => {
                texts.push(warning_about("Invalid ASN ", asn_strs[i].as_str(), path));
                proof {
                    let t = "Invalid ASN "@ + quoted_path(next.last()) + " in record: "@
                        + quoted_path(file.path);
                    assert(string_views(texts@) =~= before.push(t));
                    assert(start + asn_warnings(next, file.path) =~= before.push(t));
                }
            },
        }
        i += 1;
    }
    assert(origins.subrange(0, asn_strs.len() as int) == origins);
}

/// The warnings of the route objects: what is to be written to the log of the objects and
/// origins that give no entry, in order.
pub fn roa_warning_texts(record_files: &[RecordFile]) -> (texts: Vec<String>)
    ensures
        string_views(texts@) == roa_warnings(file_views(record_files@)),
{
    let ghost files = file_views(record_files@);
    let mut texts: Vec<String> = Vec::new();
    let mut i: usize = 0;
    proof {
        assert(files.subrange(0, 0) =~= Seq::<RecordFileView>::empty());
        assert(string_views(texts@) =~= Seq::<Seq<char>>::empty());
    }
    while i < record_files.len()
        invariant
            i <= record_files.len(),
            files == file_views(record_files@),
            string_views(texts@) == roa_warnings(files.subrange(0, i as int)),
        decreases record_files.len() - i,
    {
        let ghost next = files.subrange(0, i + 1);
        proof {
            assert(next.drop_last() == files.subrange(0, i as int));
            assert(next.last() == record_files@[i as int]@);
        }
        push_warnings_of(&mut texts, &record_files[i]);
        i += 1;
    }
    assert(files.subrange(0, record_files.len() as int) == files);
    texts
}

} // verus!
