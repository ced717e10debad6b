//! The decisions of the periodic driver, and what a cycle computes: the order of a cycle, the
//! way the registry is refreshed, and the zone files of all zones.
use crate::formatter::dns_zone::{format_dns_zone, zone_text};
use crate::model::dns::{zone_views, DNSZone, ZoneView};
use crate::model::record::{RecordFile, RecordFileView};
use crate::clock::current_serial;
use crate::parser::dns::{
    domain_fault_texts, domain_faults, file_views, forward_rejection_texts,
    forward_rejections, forward_zones, forward_zones_at,
    network_fault_texts, network_faults, registry_sync_fault_texts, registry_sync_faults,
    reverse_counter, reverse_leaves, reverse_zone, reverse_zones_at, reverse_zones_counted_at,
    unaligned_block_texts, unaligned_warnings, zone_soa,
    ReverseRecordCounter,
};
use crate::text::{string_of, string_views};
use vstd::prelude::*;

verus! {

/// The tasks of a cycle.
#[derive(Debug, Clone, Copy, PartialEq, Eq, Structural)]
pub enum TaskKind {
    GenerateRoa,
    GenerateDnsZones,
}

/// The number of the tasks of a cycle.
pub const TASK_COUNT: usize = 2;

/// The task at a place in the order of a cycle: the ROA document first, the zones second.
pub open spec fn task_at(i: int) -> TaskKind {
    if i == 0 {
        TaskKind::GenerateRoa
    } else {
        TaskKind::GenerateDnsZones
    }
}

impl TaskKind {
    /// The task at a place in the order of a cycle.
    pub fn at(i: usize) -> (r: TaskKind)
        requires
            i < TASK_COUNT,
        ensures
            r == task_at(i as int),
    {
        if i == 0 {
            TaskKind::GenerateRoa
        } else {
            TaskKind::GenerateDnsZones
        }
    }

    /// The name of the task in the log.
    pub fn name(&self) -> (r: &'static str)
        ensures
            r@ == match self {
                TaskKind::GenerateRoa => "Generate ROA"@,
                TaskKind::GenerateDnsZones => "Generate DNS Authoritative Zones"@,
            },
    {
        match self {
            TaskKind::GenerateRoa => "Generate ROA",
            TaskKind::GenerateDnsZones => "Generate DNS Authoritative Zones",
        }
    }
}

/// Where the driver stands in its cycle.
#[derive(Debug, Clone, Copy, PartialEq, Eq, Structural)]
pub enum DriverState {
    /// Nothing was asked for yet.
    Starting,
    /// The registry is being refreshed.
    Refreshing,
    /// The task at this place is running.
    Running(usize),
    /// The cycle is over, and the driver waits for the next one.
    Waiting,
}

/// What the driver asks for next.
#[derive(Debug, Clone, Copy, PartialEq, Eq, Structural)]
pub enum DriverAction {
    /// Refresh the registry on disk.
    RefreshRegistry,
    /// Run the task.
    RunTask(TaskKind),
    /// Wait so many seconds.
    Sleep(u64),
}

/// The state and the action that follow when what was asked for in `state` is over, whether
/// it went well or not: a cycle refreshes the registry, runs the tasks in order, and waits.
pub open spec fn driver_step(state: DriverState, interval: u64) -> (DriverState, DriverAction) {
    match state {
        DriverState::Starting => (DriverState::Refreshing, DriverAction::RefreshRegistry),
        DriverState::Waiting => (DriverState::Refreshing, DriverAction::RefreshRegistry),
        DriverState::Refreshing => (DriverState::Running(0), DriverAction::RunTask(task_at(0))),
        DriverState::Running(i) => if i + 1 < TASK_COUNT {
            (DriverState::Running((i + 1) as usize), DriverAction::RunTask(task_at(i + 1)))
        } else {
            (DriverState::Waiting, DriverAction::Sleep(interval))
        },
    }
}

/// Whether a failure of what was asked for in `state` is to be written to the log as an
/// error. Every failure is, and none stops the cycle.
pub open spec fn reports_failure(state: DriverState, succeeded: bool) -> bool {
    !succeeded && (state is Refreshing || state is Running)
}

/// What follows when what was asked for in `state` is over. The result says the next state,
/// the next action, and whether a failure is to be written to the log.
pub fn next_step(state: DriverState, succeeded: bool, update_interval_seconds: u64) -> (r: (
    DriverState,
    DriverAction,
    bool,
))
    ensures
        (r.0, r.1) == driver_step(state, update_interval_seconds),
        r.2 == reports_failure(state, succeeded),
{
    match state {
        DriverState::Starting => (DriverState::Refreshing, DriverAction::RefreshRegistry, false),
        DriverState::Waiting => (DriverState::Refreshing, DriverAction::RefreshRegistry, false),
        DriverState::Refreshing => (
            DriverState::Running(0),
            DriverAction::RunTask(TaskKind::at(0)),
            !succeeded,
        ),
        DriverState::Running(i) => {
            if i < TASK_COUNT - 1 {
                (
                    DriverState::Running(i + 1),
                    DriverAction::RunTask(TaskKind::at(i + 1)),
                    !succeeded,
                )
            } else {
                (DriverState::Waiting, DriverAction::Sleep(update_interval_seconds), !succeeded)
            }
        },
    }
}

/// How the registry on disk is brought up to date.
#[derive(Debug, Clone, Copy, PartialEq, Eq, Structural)]
pub enum SyncPlan {
    /// There is no copy yet: clone the registry.
    Clone,
    /// There is a copy: pull the changes.
    Pull,
    /// There is a copy, and it is to be left as it is.
    Skip,
}

/// How the registry on disk is brought up to date.
pub fn sync_plan(local_copy_exists: bool, do_git_pull: bool) -> (plan: SyncPlan)
    ensures
        plan == if !local_copy_exists {
            SyncPlan::Clone
        } else if do_git_pull {
            SyncPlan::Pull
        } else {
            SyncPlan::Skip
        },
{
    if !local_copy_exists {
        SyncPlan::Clone
    } else if do_git_pull {
        SyncPlan::Pull
    } else {
        SyncPlan::Skip
    }
}

/// The arguments of the version-control client for a plan.
pub open spec fn sync_arguments(plan: SyncPlan, url: Seq<char>, path: Seq<char>) -> Seq<Seq<char>> {
    match plan {
        SyncPlan::Clone => seq!["clone"@, url, path],
        SyncPlan::Pull => seq!["-C"@, path, "pull"@, "--rebase"@],
        SyncPlan::Skip => Seq::empty(),
    }
}

/// The arguments of the version-control client for a plan; none where nothing is to be done.
pub fn git_arguments(plan: SyncPlan, repo_url: &str, repo_local_path: &str) -> (args: Vec<String>)
    ensures
        string_views(args@) == sync_arguments(plan, repo_url@, repo_local_path@),
{
    let mut args: Vec<String> = Vec::new();
    match plan {
        SyncPlan::Clone => {
            args.push(string_of("clone"));
            args.push(string_of(repo_url));
            args.push(string_of(repo_local_path));
        },
        SyncPlan::Pull => {
            args.push(string_of("-C"));
            args.push(string_of(repo_local_path));
            args.push(string_of("pull"));
            args.push(string_of("--rebase"));
        },
        SyncPlan::Skip => {},
    }
    assert(string_views(args@) =~= sync_arguments(plan, repo_url@, repo_local_path@));
    args
}

/// A zone file with the origin under which it is published.
pub struct ZoneFile {
    pub origin: String,
    pub content: String,
}

/// The mathematical value of a `ZoneFile`.
pub struct ZoneFileView {
    pub origin: Seq<char>,
    pub content: Seq<char>,
}

impl View for ZoneFile {
    type V = ZoneFileView;

    open spec fn view(&self) -> ZoneFileView {
        ZoneFileView { origin: self.origin@, content: self.content@ }
    }
}

/// The values of the zone files, one by one.
pub open spec fn zone_file_views(s: Seq<ZoneFile>) -> Seq<ZoneFileView> {
    Seq::new(s.len(), |i: int| s[i]@)
}

/// The zone file of each zone, with its origin.
pub open spec fn zone_files_of(zones: Seq<ZoneView>) -> Seq<ZoneFileView> {
    Seq::new(zones.len(), |i: int| ZoneFileView { origin: zones[i].origin, content: zone_text(zones[i]) })
}

/// All the zones of a cycle: the forward zones, then the two reverse zones.
pub open spec fn all_zones(
    dns: Seq<RecordFileView>,
    inetnum: Seq<RecordFileView>,
    primary: Seq<char>,
    responsible: Seq<char>,
    serial: u32,
) -> Seq<ZoneView> {
    let soa = zone_soa(primary, responsible, serial);
    forward_zones(dns, soa) + seq![
        reverse_zone(inetnum, primary, soa, false),
        reverse_zone(inetnum, primary, soa, true),
    ]
}

/// The zone file of each zone, with its origin.
pub fn format_zones(zones: &Vec<DNSZone>) -> (files: Vec<ZoneFile>)
    ensures
        zone_file_views(files@) == zone_files_of(zone_views(zones@)),
{
    let mut files: Vec<ZoneFile> = Vec::new();
    let mut i: usize = 0;
    while i < zones.len()
        invariant
            i <= zones.len(),
            files.len() == i,
            forall|k: int|
                0 <= k < i ==> files@[k]@ == (ZoneFileView {
                    origin: zones@[k]@.origin,
                    content: zone_text(zones@[k]@),
                }),
        decreases zones.len() - i,
    {
        let zone = &zones[i];
        files.push(
            ZoneFile { origin: string_of(zone.origin().as_str()), content: format_dns_zone(zone) },
        );
        i += 1;
    }
    assert(zone_file_views(files@) =~= zone_files_of(zone_views(zones@)));
    files
}

/// The zone files of a cycle, with the given serial number at the heads of the zones: those
/// of the forward zones of the domain objects, then those of the two reverse zones of the
/// network objects.
pub fn zone_files_at(
    dns_records: &[RecordFile],
    inetnum_records: &[RecordFile],
    dns_primary_master: &str,
    dns_responsible_party: &str,
    serial: u32,
) -> (files: Vec<ZoneFile>)
    ensures
        zone_file_views(files@) == zone_files_of(
            all_zones(
                file_views(dns_records@),
                file_views(inetnum_records@),
                dns_primary_master@,
                dns_responsible_party@,
                serial,
            ),
        ),
{
    let mut zones = forward_zones_at(
        dns_records,
        dns_primary_master,
        dns_responsible_party,
        serial,
    );
    let ghost forward = zone_views(zones@);
    let mut reverse = reverse_zones_at(
        inetnum_records,
        dns_primary_master,
        dns_responsible_party,
        serial,
    );
    let ghost back = zone_views(reverse@);
    let v6 = reverse.pop().unwrap();
    let v4 = reverse.pop().unwrap();
    zones.push(v4);
    zones.push(v6);
    assert(zone_views(zones@) =~= forward + seq![back[0], back[1]]);
    format_zones(&zones)
}

/// The zone files of a cycle, with the serial number of the time of the call at the heads of
/// the zones. Whatever the clock says, the files are those of `all_zones` for some serial
/// number.
pub fn generate_zone_files(
    dns_records: &[RecordFile],
    inetnum_records: &[RecordFile],
    dns_primary_master: &str,
    dns_responsible_party: &str,
) -> (files: Vec<ZoneFile>)
    ensures
        exists|serial: u32|
            zone_file_views(files@) == zone_files_of(
                #[trigger] all_zones(
                    file_views(dns_records@),
                    file_views(inetnum_records@),
                    dns_primary_master@,
                    dns_responsible_party@,
                    serial,
                ),
            ),
{
    let serial = current_serial();
    zone_files_at(dns_records, inetnum_records, dns_primary_master, dns_responsible_party, serial)
}


/// What a cycle has to show for the zones: the zone files, what is to be written to the log
/// of the objects and name servers that were left out, and the count of the most specific
/// address blocks by kind.
pub struct ZoneReport {
    pub files: Vec<ZoneFile>,
    pub warnings: Vec<String>,
    pub counter: ReverseRecordCounter,
}

/// The warnings of a cycle: what is wrong with the domain objects that were left out, which
/// records of the domains their zones did not take, what is wrong with the name servers whose
/// names write no address, what is wrong with the network objects that were left out, and
/// which of the most specific IPv6 blocks are not delegated, in this order.
pub open spec fn zone_warnings(dns: Seq<RecordFileView>, inetnum: Seq<RecordFileView>) -> Seq<
    Seq<char>,
> {
    domain_faults(dns) + forward_rejections(dns) + registry_sync_faults(dns) + network_faults(
        inetnum,
    ) + unaligned_warnings(reverse_leaves(inetnum, true))
}

/// Puts the texts of `more` at the end of `texts`.
fn append_texts(texts: &mut Vec<String>, more: Vec<String>)
    ensures
        string_views(final(texts)@) == string_views(old(texts)@) + string_views(more@),
{
    let mut i: usize = 0;
    assert(string_views(texts@) =~= string_views(old(texts)@) + string_views(more@).subrange(0, 0));
    while i < more.len()
        invariant
            i <= more.len(),
            string_views(texts@) == string_views(old(texts)@) + string_views(more@).subrange(
                0,
                i as int,
            ),
        decreases more.len() - i,
    {
        let ghost before = string_views(texts@);
        texts.push(more[i].clone());
        assert(string_views(texts@) =~= before.push(more@[i as int]@));
        assert(string_views(more@).subrange(0, i + 1) =~= string_views(more@).subrange(
            0,
            i as int,
        ).push(more@[i as int]@));
        i += 1;
    }
    assert(string_views(more@).subrange(0, more.len() as int) == string_views(more@));
}

/// The zone files of a cycle with the given serial number, the warnings of the cycle, and
/// the count of the most specific address blocks.
pub fn zone_report_at(
    dns_records: &[RecordFile],
    inetnum_records: &[RecordFile],
    dns_primary_master: &str,
    dns_responsible_party: &str,
    serial: u32,
) -> (report: ZoneReport)
    ensures
        zone_file_views(report.files@) == zone_files_of(
            all_zones(
                file_views(dns_records@),
                file_views(inetnum_records@),
                dns_primary_master@,
                dns_responsible_party@,
                serial,
            ),
        ),
        string_views(report.warnings@) == zone_warnings(
            file_views(dns_records@),
            file_views(inetnum_records@),
        ),
        report.counter == reverse_counter(file_views(inetnum_records@)),
{
    let mut zones = forward_zones_at(
        dns_records,
        dns_primary_master,
        dns_responsible_party,
        serial,
    );
    let ghost forward = zone_views(zones@);
    let (mut reverse, counter) = reverse_zones_counted_at(
        inetnum_records,
        dns_primary_master,
        dns_responsible_party,
        serial,
    );
    let ghost back = zone_views(reverse@);
    let v6 = reverse.pop().unwrap();
    let v4 = reverse.pop().unwrap();
    zones.push(v4);
    zones.push(v6);
    assert(zone_views(zones@) =~= forward + seq![back[0], back[1]]);
    let mut warnings = domain_fault_texts(dns_records);
    append_texts(&mut warnings, forward_rejection_texts(dns_records));
    append_texts(&mut warnings, registry_sync_fault_texts(dns_records));
    append_texts(&mut warnings, network_fault_texts(inetnum_records));
    append_texts(&mut warnings, unaligned_block_texts(inetnum_records));
    ZoneReport { files: format_zones(&zones), warnings, counter }
}

/// The zone files of a cycle with the serial number of the time of the call, the warnings of
/// the cycle, and the count of the most specific address blocks. Whatever the clock says, the
/// files are those of `all_zones` for some serial number.
pub fn generate_zone_report(
    dns_records: &[RecordFile],
    inetnum_records: &[RecordFile],
    dns_primary_master: &str,
    dns_responsible_party: &str,
) -> (report: ZoneReport)
    ensures
        exists|serial: u32|
            zone_file_views(report.files@) == zone_files_of(
                #[trigger] all_zones(
                    file_views(dns_records@),
                    file_views(inetnum_records@),
                    dns_primary_master@,
                    dns_responsible_party@,
                    serial,
                ),
            ),
        string_views(report.warnings@) == zone_warnings(
            file_views(dns_records@),
            file_views(inetnum_records@),
        ),
        report.counter == reverse_counter(file_views(inetnum_records@)),
{
    let serial = current_serial();
    zone_report_at(dns_records, inetnum_records, dns_primary_master, dns_responsible_party, serial)
}

} // verus!
