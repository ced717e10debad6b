//! The ROA document.
use crate::model::net::IpAddr;
use vstd::prelude::*;

verus! {

/// The head of the ROA document: when it was built, and how many entries it has.
#[derive(Debug)]
pub struct Metadata {
    pub build_time: String,
    pub counts: u64,
    pub roas: u64,
}

/// The mathematical value of a `Metadata`.
pub struct MetadataView {
    pub build_time: Seq<char>,
    pub counts: u64,
    pub roas: u64,
}

impl View for Metadata {
    type V = MetadataView;

    open spec fn view(&self) -> MetadataView {
        MetadataView { build_time: self.build_time@, counts: self.counts, roas: self.roas }
    }
}

impl Default for Metadata {
    /// No build time and no entries.
    fn default() -> (r: Self)
        ensures
            r@ == (MetadataView { build_time: Seq::empty(), counts: 0, roas: 0 }),
    {
        Metadata { build_time: String::new(), counts: 0, roas: 0 }
    }
}

/// One route origin authorization: the system `asn` may announce `prefix`, and blocks within
/// it down to the length `max_length`.
#[derive(Debug)]
pub struct ROA {
    pub asn: u32,
    pub prefix: String,
    pub max_length: u8,
}

/// The mathematical value of a `ROA`.
pub struct RoaView {
    pub asn: u32,
    pub prefix: Seq<char>,
    pub max_length: u8,
}

impl View for ROA {
    type V = RoaView;

    open spec fn view(&self) -> RoaView {
        RoaView { asn: self.asn, prefix: self.prefix@, max_length: self.max_length }
    }
}

/// The values of the authorizations, one by one.
pub open spec fn roa_views(s: Seq<ROA>) -> Seq<RoaView> {
    Seq::new(s.len(), |i: int| s[i]@)
}

/// The ROA document.
#[derive(Debug)]
pub struct RpkiClientOutput {
    pub metadata: Metadata,
    pub roas: Vec<ROA>,
}

/// The mathematical value of an `RpkiClientOutput`.
pub struct OutputView {
    pub metadata: MetadataView,
    pub roas: Seq<RoaView>,
}

impl View for RpkiClientOutput {
    type V = OutputView;

    open spec fn view(&self) -> OutputView {
        OutputView { metadata: self.metadata@, roas: roa_views(self.roas@) }
    }
}

impl Default for RpkiClientOutput {
    /// The document without an entry.
    fn default() -> (r: Self)
        ensures
            r@ == (OutputView {
                metadata: MetadataView { build_time: Seq::empty(), counts: 0, roas: 0 },
                roas: Seq::empty(),
            }),
    {
        let r = RpkiClientOutput { metadata: Metadata::default(), roas: Vec::new() };
        assert(roa_views(r.roas@) =~= Seq::empty());
        r
    }
}

/// A domain with the addresses of its name servers.
#[derive(Debug)]
pub struct ForwardZoneItem {
    pub domain: String,
    pub servers: Vec<IpAddr>,
}

} // verus!
