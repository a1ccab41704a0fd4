//! Configuration: command-line arguments, the configuration-file overlay
//! and its precedence rules, scan start requests, and the query and
//! response shapes of the read-only interface.

use vstd::prelude::*;
use crate::ports::valid_port_spec;
use crate::store::IpType;

verus! {

/// All recognized options, resolved from command line, environment and
/// configuration file.
pub struct Args {
    pub config_flag: Option<String>,
    pub config_pos: Option<String>,
    pub start_ip: Option<String>,
    pub end_ip: Option<String>,
    pub ports: String,
    pub timeout: u64,
    pub concurrency: usize,
    pub database: String,
    pub verbose: bool,
    pub loop_mode: bool,
    pub ipv4: bool,
    pub ipv6: bool,
    pub only_store_open: bool,
    pub skip_private: bool,
    pub syn: bool,
    pub geoip_db: Option<String>,
    pub no_geo: bool,
    pub worker_threads: Option<usize>,
    pub pipeline_buffer: usize,
    pub result_buffer: usize,
    pub db_batch_size: usize,
    pub flush_interval_ms: u64,
    pub max_rate: u64,
    pub rate_window_secs: u64,
    pub api: bool,
    pub api_only: bool,
    pub no_api: bool,
    pub api_host: String,
    pub api_port: u16,
    pub swagger_ui: bool,
}

/// The `scan` section of a configuration file.
pub struct ScanConfig {
    pub start_ip: Option<String>,
    pub end_ip: Option<String>,
    pub ports: String,
    pub timeout: u64,
    pub concurrency: usize,
    pub database: String,
    pub verbose: bool,
    pub loop_mode: bool,
    pub ipv4: bool,
    pub ipv6: bool,
    pub only_store_open: bool,
    pub skip_private: bool,
}

/// The `rate_limit` section of a configuration file.
pub struct RateLimitConfig {
    pub max_rate: u64,
    pub window_duration: u64,
}

/// A parsed configuration file.
pub struct Config {
    pub scan: ScanConfig,
    pub rate_limit: RateLimitConfig,
}

pub fn default_ports() -> (r: String)
    ensures
        r@ == "21,22,23,25,53,80,110,143,443,445,3306,3389,5432,6379,8080,8443,9200,27017"@,
{
    String::from_str("21,22,23,25,53,80,110,143,443,445,3306,3389,5432,6379,8080,8443,9200,27017")
}

pub fn default_timeout() -> (r: u64)
    ensures
        r == 500,
{
    500
}

pub fn default_concurrency() -> (r: usize)
    ensures
        r == 100,
{
    100
}

pub fn default_database() -> (r: String)
    ensures
        r@ == "scan_results.db"@,
{
    String::from_str("scan_results.db")
}

pub fn default_loop_mode() -> (r: bool)
    ensures
        r == true,
{
    true
}

pub fn default_ipv4() -> (r: bool)
    ensures
        r == true,
{
    true
}

pub fn default_only_store_open() -> (r: bool)
    ensures
        r == true,
{
    true
}

pub fn default_skip_private() -> (r: bool)
    ensures
        r == true,
{
    true
}

pub fn default_max_rate() -> (r: u64)
    ensures
        r == 100000,
{
    100000
}

pub fn default_window_duration() -> (r: u64)
    ensures
        r == 1,
{
    1
}

pub fn default_page() -> (r: usize)
    ensures
        r == 1,
{
    1
}

pub fn default_page_size() -> (r: usize)
    ensures
        r == 50,
{
    50
}

impl Default for ScanConfig {
    /// The built-in scan settings, used where the file has no entry.
    fn default() -> (r: ScanConfig)
        ensures
            r.start_ip is None,
            r.end_ip is None,
            r.ports@
                == "21,22,23,25,53,80,110,143,443,445,3306,3389,5432,6379,8080,8443,9200,27017"@,
            r.timeout == 500,
            r.concurrency == 100,
            r.database@ == "scan_results.db"@,
            !r.verbose,
            r.loop_mode,
            r.ipv4,
            !r.ipv6,
            r.only_store_open,
            r.skip_private,
    {
        ScanConfig {
            start_ip: None,
            end_ip: None,
            ports: default_ports(),
            timeout: default_timeout(),
            concurrency: default_concurrency(),
            database: default_database(),
            verbose: false,
            loop_mode: default_loop_mode(),
            ipv4: default_ipv4(),
            ipv6: false,
            only_store_open: default_only_store_open(),
            skip_private: default_skip_private(),
        }
    }
}

impl Default for RateLimitConfig {
    /// The built-in rate-limit settings.
    fn default() -> (r: RateLimitConfig)
        ensures
            r.max_rate == 100000,
            r.window_duration == 1,
    {
        RateLimitConfig { max_rate: default_max_rate(), window_duration: default_window_duration() }
    }
}

impl Args {
    /// Overlay a configuration file: an option keeps its command-line
    /// value unless that value is still the built-in default, in which
    /// case the file's value is taken. `start_ip` and `end_ip` are taken
    /// from the file only when absent from the command line.
    #[verifier::rlimit(100)]
    pub fn merge_with_config(self, config: Config) -> (r: Args)
        ensures
            r.start_ip == if self.start_ip is None {
                config.scan.start_ip
            } else {
                self.start_ip
            },
            r.end_ip == if self.end_ip is None {
                config.scan.end_ip
            } else {
                self.end_ip
            },
            r.ports == if self.ports@
                == "21,22,23,25,53,80,110,143,443,445,3306,3389,5432,6379,8080,8443,9200,27017"@ {
                config.scan.ports
            } else {
                self.ports
            },
            r.timeout == if self.timeout == 500 {
                config.scan.timeout
            } else {
                self.timeout
            },
            r.concurrency == if self.concurrency == 100 {
                config.scan.concurrency
            } else {
                self.concurrency
            },
            r.database == if self.database@ == "scan_results.db"@ {
                config.scan.database
            } else {
                self.database
            },
            r.verbose == (self.verbose || config.scan.verbose),
            r.loop_mode == if self.loop_mode == true {
                config.scan.loop_mode
            } else {
                self.loop_mode
            },
            r.ipv4 == if self.ipv4 == true {
                config.scan.ipv4
            } else {
                self.ipv4
            },
            r.ipv6 == (self.ipv6 || config.scan.ipv6),
            r.only_store_open == if self.only_store_open == true {
                config.scan.only_store_open
            } else {
                self.only_store_open
            },
            r.skip_private == if self.skip_private == true {
                config.scan.skip_private
            } else {
                self.skip_private
            },
            r.config_flag == self.config_flag,
            r.config_pos == self.config_pos,
            r.syn == self.syn,
            r.geoip_db == self.geoip_db,
            r.no_geo == self.no_geo,
            r.worker_threads == self.worker_threads,
            r.pipeline_buffer == self.pipeline_buffer,
            r.result_buffer == self.result_buffer,
            r.db_batch_size == self.db_batch_size,
            r.flush_interval_ms == self.flush_interval_ms,
            r.max_rate == self.max_rate,
            r.rate_window_secs == self.rate_window_secs,
            r.api == self.api,
            r.api_only == self.api_only,
            r.no_api == self.no_api,
            r.api_host == self.api_host,
            r.api_port == self.api_port,
            r.swagger_ui == self.swagger_ui,
    {
        let ports_is_default = self.ports == default_ports();
        let database_is_default = self.database == default_database();
        let Args {
            config_flag,
            config_pos,
            start_ip,
            end_ip,
            ports,
            timeout,
            concurrency,
            database,
            verbose,
            loop_mode,
            ipv4,
            ipv6,
            only_store_open,
            skip_private,
            syn,
            geoip_db,
            no_geo,
            worker_threads,
            pipeline_buffer,
            result_buffer,
            db_batch_size,
            flush_interval_ms,
            max_rate,
            rate_window_secs,
            api,
            api_only,
            no_api,
            api_host,
            api_port,
            swagger_ui,
        } = self;
        Args {
            config_flag,
            config_pos,
            start_ip: match start_ip {
                None => config.scan.start_ip,
                Some(s) => Some(s),
            },
            end_ip: match end_ip {
                None => config.scan.end_ip,
                Some(e) => Some(e),
            },
            ports: if ports_is_default {
                config.scan.ports
            } else {
                ports
            },
            timeout: if timeout == 500 {
                config.scan.timeout
            } else {
                timeout
            },
            concurrency: if concurrency == 100 {
                config.scan.concurrency
            } else {
                concurrency
            },
            database: if database_is_default {
                config.scan.database
            } else {
                database
            },
            verbose: if !verbose {
                config.scan.verbose
            } else {
                verbose
            },
            loop_mode: if loop_mode {
                config.scan.loop_mode
            } else {
                loop_mode
            },
            ipv4: if ipv4 {
                config.scan.ipv4
            } else {
                ipv4
            },
            ipv6: if !ipv6 {
                config.scan.ipv6
            } else {
                ipv6
            },
            only_store_open: if only_store_open {
                config.scan.only_store_open
            } else {
                only_store_open
            },
            skip_private: if skip_private {
                config.scan.skip_private
            } else {
                skip_private
            },
            syn,
            geoip_db,
            no_geo,
            worker_threads,
            pipeline_buffer,
            result_buffer,
            db_batch_size,
            flush_interval_ms,
            max_rate,
            rate_window_secs,
            api,
            api_only,
            no_api,
            api_host,
            api_port,
            swagger_ui,
        }
    }

    /// Check a configuration before a scan: the port specification must be
    /// well formed and the timeout and concurrency positive.
    pub fn validate(&self) -> (r: Result<(), String>)
        ensures
            match r {
                Ok(()) => valid_port_spec(self.ports@) && self.timeout >= 1 && self.concurrency
                    >= 1,
                Err(_) => !valid_port_spec(self.ports@) || self.timeout < 1 || self.concurrency
                    < 1,
            },
    {
        match crate::ports::parse_port_range(self.ports.as_str()) {
            Ok(_) => {},
            Err(_) => {
                return Err(String::from_str("Invalid port specification"));
            },
        }
        if self.timeout < 1 {
            return Err(String::from_str("Timeout must be at least 1 ms"));
        }
        if self.concurrency < 1 {
            return Err(String::from_str("Concurrency must be at least 1"));
        }
        Ok(())
    }

    /// Overlay a start request: its optional fields override the base
    /// configuration, its scalar fields replace it.
    pub fn apply_request(self, request: &StartScanRequest) -> (r: Args)
        ensures
            r.start_ip == if request.start_ip is Some {
                request.start_ip
            } else {
                self.start_ip
            },
            r.end_ip == if request.end_ip is Some {
                request.end_ip
            } else {
                self.end_ip
            },
            r.ports == match request.ports {
                Some(p) => p,
                None => self.ports,
            },
            r.timeout == request.timeout,
            r.concurrency == request.concurrency,
            r.syn == request.syn,
            r.skip_private == request.skip_private,
            r.database == self.database,
            r.loop_mode == self.loop_mode,
            r.max_rate == self.max_rate,
            r.rate_window_secs == self.rate_window_secs,
            r.db_batch_size == self.db_batch_size,
            r.flush_interval_ms == self.flush_interval_ms,
            r.pipeline_buffer == self.pipeline_buffer,
            r.result_buffer == self.result_buffer,
    {
        let mut args = self;
        if let Some(s) = &request.start_ip {
            args.start_ip = Some(s.clone());
            proof {
                assert(args.start_ip matches Some(v) && v@ == request.start_ip.unwrap()@);
            }
        }
        if let Some(e) = &request.end_ip {
            args.end_ip = Some(e.clone());
        }
        if let Some(p) = &request.ports {
            args.ports = p.clone();
        }
        args.timeout = request.timeout;
        args.concurrency = request.concurrency;
        args.syn = request.syn;
        args.skip_private = request.skip_private;
        args
    }
}

/// A request to start a scan.
pub struct StartScanRequest {
    pub start_ip: Option<String>,
    pub end_ip: Option<String>,
    pub ports: Option<String>,
    pub timeout: u64,
    pub concurrency: usize,
    pub syn: bool,
    pub skip_private: bool,
}

/// One scan result as the read-only interface reports it.
pub struct ScanResult {
    pub ip_address: String,
    pub ip_type: IpType,
    pub port: u16,
    pub scan_round: i64,
    pub first_seen: i64,
    pub last_seen: i64,
}

impl ScanResult {
    /// The mathematical shape of this result, the same as a detail row's.
    pub open spec fn model(self) -> crate::store::DetailModel {
        crate::store::DetailModel {
            ip: self.ip_address@,
            ip_type: self.ip_type,
            port: self.port,
            scan_round: self.scan_round,
            first_seen: self.first_seen,
            last_seen: self.last_seen,
        }
    }
}

/// A page of scan results.
pub struct PaginatedResults {
    pub results: Vec<ScanResult>,
    pub total: usize,
    pub page: usize,
    pub page_size: usize,
    pub total_pages: usize,
}

/// An error reported to a caller of the read-only interface.
pub struct ErrorResponse {
    pub error: String,
    pub code: Option<String>,
}

/// The export encodings the read-only interface offers.
pub enum ExportFormat {
    Csv,
    Json,
    NdJson,
}

/// Pagination of result queries.
pub struct PaginationQuery {
    pub page: usize,
    pub page_size: usize,
}

impl PaginationQuery {
    /// Pages are one-based and a page holds between 1 and 500 rows.
    pub fn validate(&self) -> (r: Result<(), String>)
        ensures
            match r {
                Ok(()) => self.page >= 1 && 1 <= self.page_size <= 500,
                Err(_) => self.page < 1 || self.page_size < 1 || self.page_size > 500,
            },
    {
        if self.page < 1 {
            return Err(String::from_str("Page must be at least 1"));
        }
        if self.page_size < 1 || self.page_size > 500 {
            return Err(String::from_str("Page size must be between 1 and 500"));
        }
        Ok(())
    }
}

/// Filters of result queries.
pub struct FilterQuery {
    pub ip: Option<String>,
    pub port: Option<u16>,
    pub round: Option<i64>,
    pub ip_type: Option<IpType>,
}

/// Pagination and filters together.
pub struct ResultsQuery {
    pub pagination: PaginationQuery,
    pub filter: FilterQuery,
}

/// How many top ports to report.
pub struct TopPortsQuery {
    pub limit: Option<usize>,
}

/// Number of pages a result set spans: the total rounded up to whole
/// pages.
pub fn total_pages(total: usize, page_size: usize) -> (r: usize)
    requires
        page_size >= 1,
    ensures
        r == total / page_size + if total % page_size == 0 {
            0int
        } else {
            1int
        },
{
    let q = total / page_size;
    if total % page_size == 0 {
        q
    } else {
        proof {
            assert(page_size >= 2 && q <= total / 2) by (nonlinear_arith)
                requires
                    page_size >= 1,
                    total % page_size != 0,
                    q == total / page_size,
            ;
        }
        q + 1
    }
}

} // verus!
