//! The settings of the service and their defaults.
use crate::text::string_of;
use vstd::prelude::*;

verus! {

/// The settings of the service.
#[derive(Debug)]
pub struct AppConfig {
    pub listen_address: String,
    pub roa_endpoint: String,
    pub dns_content_endpoint_directory: String,
    pub do_git_pull: bool,
    pub git_repo_url: String,
    pub git_repo_local_path: String,
    pub git_repo_ipv4_route_relative_path: String,
    pub git_repo_ipv6_route_relative_path: String,
    pub git_repo_dns_relative_path: String,
    pub git_repo_inetnum_relative_path: String,
    pub git_repo_inet6num_relative_path: String,
    pub update_interval_seconds: u64,
    pub dns_primary_master: String,
    pub dns_responsible_party: String,
}

impl Clone for AppConfig {
    fn clone(&self) -> (r: Self)
        ensures
            r.listen_address@ == self.listen_address@,
            r.roa_endpoint@ == self.roa_endpoint@,
            r.dns_content_endpoint_directory@ == self.dns_content_endpoint_directory@,
            r.do_git_pull == self.do_git_pull,
            r.git_repo_url@ == self.git_repo_url@,
            r.git_repo_local_path@ == self.git_repo_local_path@,
            r.git_repo_ipv4_route_relative_path@ == self.git_repo_ipv4_route_relative_path@,
            r.git_repo_ipv6_route_relative_path@ == self.git_repo_ipv6_route_relative_path@,
            r.git_repo_dns_relative_path@ == self.git_repo_dns_relative_path@,
            r.git_repo_inetnum_relative_path@ == self.git_repo_inetnum_relative_path@,
            r.git_repo_inet6num_relative_path@ == self.git_repo_inet6num_relative_path@,
            r.update_interval_seconds == self.update_interval_seconds,
            r.dns_primary_master@ == self.dns_primary_master@,
            r.dns_responsible_party@ == self.dns_responsible_party@,
    {
        AppConfig {
            listen_address: self.listen_address.clone(),
            roa_endpoint: self.roa_endpoint.clone(),
            dns_content_endpoint_directory: self.dns_content_endpoint_directory.clone(),
            do_git_pull: self.do_git_pull,
            git_repo_url: self.git_repo_url.clone(),
            git_repo_local_path: self.git_repo_local_path.clone(),
            git_repo_ipv4_route_relative_path: self.git_repo_ipv4_route_relative_path.clone(),
            git_repo_ipv6_route_relative_path: self.git_repo_ipv6_route_relative_path.clone(),
            git_repo_dns_relative_path: self.git_repo_dns_relative_path.clone(),
            git_repo_inetnum_relative_path: self.git_repo_inetnum_relative_path.clone(),
            git_repo_inet6num_relative_path: self.git_repo_inet6num_relative_path.clone(),
            update_interval_seconds: self.update_interval_seconds,
            dns_primary_master: self.dns_primary_master.clone(),
            dns_responsible_party: self.dns_responsible_party.clone(),
        }
    }
}

impl Default for AppConfig {
    /// The settings that hold where no file of settings is found.
    fn default() -> (r: Self)
        ensures
            r.listen_address@ == "0.0.0.0:8080"@,
            r.roa_endpoint@ == "/roa.json"@,
            r.dns_content_endpoint_directory@ == "/dns"@,
            r.do_git_pull,
            r.git_repo_url@ == "git@git.dn42.dev:dn42/registry.git"@,
            r.git_repo_local_path@ == "./registry"@,
            r.git_repo_ipv4_route_relative_path@ == "data/route"@,
            r.git_repo_ipv6_route_relative_path@ == "data/route6"@,
            r.git_repo_dns_relative_path@ == "data/dns"@,
            r.git_repo_inetnum_relative_path@ == "data/inetnum"@,
            r.git_repo_inet6num_relative_path@ == "data/inet6num"@,
            r.update_interval_seconds == 300,
            r.dns_primary_master@ == "default_not_set"@,
            r.dns_responsible_party@ == "default_not_set"@,
    {
        AppConfig {
            listen_address: string_of("0.0.0.0:8080"),
            roa_endpoint: string_of("/roa.json"),
            dns_content_endpoint_directory: string_of("/dns"),
            do_git_pull: true,
            git_repo_url: string_of("git@git.dn42.dev:dn42/registry.git"),
            git_repo_local_path: string_of("./registry"),
            git_repo_ipv4_route_relative_path: string_of("data/route"),
            git_repo_ipv6_route_relative_path: string_of("data/route6"),
            git_repo_dns_relative_path: string_of("data/dns"),
            git_repo_inetnum_relative_path: string_of("data/inetnum"),
            git_repo_inet6num_relative_path: string_of("data/inet6num"),
            update_interval_seconds: 300,
            dns_primary_master: string_of("default_not_set"),
            dns_responsible_party: string_of("default_not_set"),
        }
    }
}

} // verus!
