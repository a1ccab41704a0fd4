//! The scan lifecycle controller: owns the state machine `Idle → Starting
//! → Running → Stopping → Stopped / Error`, validates start requests,
//! persists lifecycle metadata, and decides where a scan resumes.
//!
//! The controller does not spawn tasks itself: the runtime around it
//! starts the producer, workers and writer when `start_scan` succeeds, and
//! performs the bounded wait when `stop_scan` runs. Whatever that wait
//! observes, `stop_scan` leaves the state `Stopped`.

use vstd::prelude::*;
use crate::config::{Args, StartScanRequest};
use crate::error::ScanError;
use crate::ip::dec_str;
use crate::ip::u64_to_string;
use crate::ports::valid_port_spec;
use crate::store::ScanStore;

verus! {

/// Lifecycle state of the scan.
pub enum ScanStatus {
    Idle,
    Starting,
    Running,
    Stopping,
    Stopped,
    Error(String),
}

impl ScanStatus {
    /// A scan may be started only from these states.
    pub open spec fn can_start(self) -> bool {
        self is Idle || self is Stopped || self is Error
    }

    /// A stop request is honoured only in these states.
    pub open spec fn can_stop(self) -> bool {
        self is Running || self is Starting
    }
}

/// The scan lifecycle controller.
pub struct ScanController {
    pub store: ScanStore,
    pub status: ScanStatus,
    pub running: bool,
    pub scan_id: Option<String>,
}

/// The identifier a scan started at time `now` gets.
pub open spec fn spec_scan_id(now: i64) -> Seq<char> {
    "scan-"@ + dec_str(now as int)
}

impl ScanController {
    pub open spec fn wf(self) -> bool {
        self.store.wf()
    }

    pub fn new(store: ScanStore) -> (r: ScanController)
        ensures
            r.store == store,
            r.status is Idle,
            !r.running,
            r.scan_id is None,
    {
        ScanController { store, status: ScanStatus::Idle, running: false, scan_id: None }
    }

    /// Start a scan: only from `Idle`, `Stopped` or `Error`, and only with
    /// a valid request. On success the state is `Running`, the shared
    /// running flag is set, lifecycle metadata is persisted, and the new
    /// scan id `scan_<now>` is returned.
    pub fn start_scan(&mut self, request: &StartScanRequest, base_args: &Args, now: i64) -> (r:
        Result<String, ScanError>)
        requires
            old(self).wf(),
            now >= 0,
        ensures
            final(self).wf(),
            match r {
                Ok(id) => {
                    &&& old(self).status.can_start()
                    &&& valid_port_spec(old(self).merged_ports(request, base_args))
                    &&& final(self).status is Running
                    &&& final(self).running
                    &&& id@ == spec_scan_id(now)
                    &&& final(self).scan_id matches Some(s) && s@ == spec_scan_id(now)
                    &&& final(self).store.spec_metadata("scan_status"@) == Some("running"@)
                    &&& final(self).store.spec_metadata("last_scan_id"@) == Some(spec_scan_id(now))
                    &&& final(self).store.spec_metadata("last_scan_start_time"@) == Some(
                        dec_str(now as int),
                    )
                    &&& final(self).store.current_round == old(self).store.current_round
                },
                Err(_) => {
                    &&& !old(self).status.can_start() || !valid_port_spec(
                        old(self).merged_ports(request, base_args),
                    )
                    &&& *final(self) == *old(self)
                },
            },
    {
        proof {
            reveal_strlit("scan_status");
            reveal_strlit("last_scan_id");
            reveal_strlit("last_scan_start_time");
            reveal_strlit("starting");
            reveal_strlit("running");
        }
        match self.status {
            ScanStatus::Running => {
                return Err(ScanError::Config(String::from_str("Scan is already running")));
            },
            ScanStatus::Starting => {
                return Err(ScanError::Config(String::from_str("Scan is already running")));
            },
            ScanStatus::Stopping => {
                return Err(ScanError::Config(String::from_str("Scan is stopping")));
            },
            _ => {},
        }
        // Validate the effective port specification of the request.
        let ports = match &request.ports {
            Some(p) => p.clone(),
            None => base_args.ports.clone(),
        };
        match crate::ports::parse_port_range(ports.as_str()) {
            Ok(_) => {},
            Err(_) => {
                return Err(ScanError::Config(String::from_str("Invalid port specification")));
            },
        }
        self.status = ScanStatus::Starting;
        let id = String::from_str("scan-").concat(u64_to_string(now as u64).as_str());
        proof {
            assert(id@ =~= spec_scan_id(now));
        }
        self.scan_id = Some(id.clone());
        self.store.save_metadata(
            &String::from_str("scan_status"),
            &String::from_str("starting"),
            now,
        );
        self.store.save_metadata(&String::from_str("last_scan_id"), &id, now);
        proof {
            reveal_strlit("last_scan_id");
            reveal_strlit("scan_status");
            reveal_strlit("last_scan_start_time");
            assert("last_scan_id"@.len() == 12);
            assert("scan_status"@.len() == 11);
            assert("last_scan_start_time"@.len() == 20);
            assert("last_scan_id"@ != "scan_status"@);
            assert("last_scan_id"@ != "last_scan_start_time"@);
            assert(self.store.spec_metadata("last_scan_id"@) == Some(id@));
        }
        self.store.save_metadata(
            &String::from_str("last_scan_start_time"),
            &u64_to_string(now as u64),
            now,
        );
        proof {
            reveal_strlit("last_scan_id");
            reveal_strlit("last_scan_start_time");
            assert("last_scan_id"@.len() == 12);
            assert("last_scan_start_time"@.len() == 20);
            assert("last_scan_id"@ != "last_scan_start_time"@);
            assert(self.store.spec_metadata("last_scan_id"@) == Some(id@));
            assert(self.store.spec_metadata("last_scan_start_time"@) == Some(dec_str(now as int)));
        }
        // The runtime spawns producer, workers and writer here.
        self.status = ScanStatus::Running;
        self.store.save_metadata(
            &String::from_str("scan_status"),
            &String::from_str("running"),
            now,
        );
        self.running = true;
        proof {
            reveal_strlit("last_scan_id");
            reveal_strlit("scan_status");
            reveal_strlit("last_scan_start_time");
            assert("last_scan_id"@.len() == 12);
            assert("scan_status"@.len() == 11);
            assert("last_scan_start_time"@.len() == 20);
            assert("last_scan_id"@ != "scan_status"@);
            assert("last_scan_start_time"@ != "scan_status"@);
            assert(self.store.spec_metadata("scan_status"@) == Some("running"@));
            assert(self.store.spec_metadata("last_scan_id"@) == Some(id@));
            assert(self.store.spec_metadata("last_scan_start_time"@) == Some(dec_str(now as int)));
        }
        Ok(id)
    }

    /// Stop the scan: only from `Running` or `Starting`. The running flag
    /// is cleared so the producer exits; whatever the bounded wait for the
    /// workers observes, the final state is `Stopped` and the stop is
    /// persisted.
    pub fn stop_scan(&mut self, now: i64) -> (r: Result<(), ScanError>)
        requires
            old(self).wf(),
            now >= 0,
        ensures
            final(self).wf(),
            match r {
                Ok(()) => {
                    &&& old(self).status.can_stop()
                    &&& final(self).status is Stopped
                    &&& !final(self).running
                    &&& final(self).store.spec_metadata("scan_status"@) == Some("stopped"@)
                    &&& final(self).store.spec_metadata("last_scan_stop_time"@) == Some(
                        dec_str(now as int),
                    )
                    &&& final(self).store.current_round == old(self).store.current_round
                },
                Err(_) => {
                    &&& !old(self).status.can_stop()
                    &&& *final(self) == *old(self)
                },
            },
    {
        proof {
            reveal_strlit("scan_status");
            reveal_strlit("last_scan_stop_time");
            reveal_strlit("stopping");
            reveal_strlit("stopped");
        }
        match self.status {
            ScanStatus::Running => {},
            ScanStatus::Starting => {},
            ScanStatus::Idle => {
                return Err(ScanError::Config(String::from_str("No scan is currently running")));
            },
            ScanStatus::Stopping => {
                return Err(ScanError::Config(String::from_str("Scan is already stopping")));
            },
            ScanStatus::Stopped => {
                return Err(ScanError::Config(String::from_str("Scan is already stopped")));
            },
            ScanStatus::Error(_) => {
                return Err(ScanError::Config(String::from_str("Scan is in error state")));
            },
        }
        self.status = ScanStatus::Stopping;
        self.store.save_metadata(
            &String::from_str("scan_status"),
            &String::from_str("stopping"),
            now,
        );
        // The flag makes the producer exit; the runtime waits, bounded,
        // for workers and writer to drain, and the state becomes Stopped
        // even if that wait runs out.
        self.running = false;
        self.status = ScanStatus::Stopped;
        let key_status = String::from_str("scan_status");
        let val_stopped = String::from_str("stopped");
        self.store.save_metadata(&key_status, &val_stopped, now);
        proof {
            assert(key_status@ == "scan_status"@);
            assert(val_stopped@ == "stopped"@);
            assert(self.store.spec_metadata(key_status@) == Some::<Seq<char>>(val_stopped@));
            assert(self.store.spec_metadata("scan_status"@) == self.store.spec_metadata(
                key_status@,
            ));
            assert(Some::<Seq<char>>("stopped"@) == Some::<Seq<char>>(val_stopped@));
            assert(self.store.spec_metadata("scan_status"@) == Some::<Seq<char>>("stopped"@));
        }
        self.store.save_metadata(
            &String::from_str("last_scan_stop_time"),
            &u64_to_string(now as u64),
            now,
        );
        proof {
            reveal_strlit("scan_status");
            reveal_strlit("last_scan_stop_time");
            assert("scan_status"@.len() == 11);
            assert("last_scan_stop_time"@.len() == 19);
            assert("scan_status"@ != "last_scan_stop_time"@);
            assert(self.store.spec_metadata("scan_status"@) == Some("stopped"@));
            assert(self.store.spec_metadata("last_scan_stop_time"@) == Some(dec_str(now as int)));
        }
        Ok(())
    }

    /// The port specification the scan would run with: the request's, or
    /// the base configuration's.
    pub open spec fn merged_ports(self, request: &StartScanRequest, base_args: &Args) -> Seq<char> {
        match request.ports {
            Some(p) => p@,
            None => base_args.ports@,
        }
    }

    /// A record of a failed worker or producer.
    pub fn report_error(&mut self, message: String)
        ensures
            final(self).status matches ScanStatus::Error(m) && m == message,
            final(self).store == old(self).store,
            final(self).running == old(self).running,
            final(self).scan_id == old(self).scan_id,
    {
        self.status = ScanStatus::Error(message);
    }

    /// Current lifecycle state.
    pub fn get_status(&self) -> (r: &ScanStatus)
        ensures
            r == self.status,
    {
        &self.status
    }

    /// The current scan id, if a scan was ever started.
    pub fn get_scan_id(&self) -> (r: Option<String>)
        ensures
            match r {
                Some(s) => self.scan_id matches Some(c) && c@ == s@,
                None => self.scan_id is None,
            },
    {
        match &self.scan_id {
            Some(s) => Some(s.clone()),
            None => None,
        }
    }

    /// Whether the shared running flag is set.
    pub fn is_running(&self) -> (r: bool)
        ensures
            r == self.running,
    {
        self.running
    }
}

/// Where a scan begins: a caller-supplied start address wins, then the
/// persisted resume cursor, then the configured or default start.
pub fn resume_start(override_start: Option<String>, progress_ip: Option<String>, default_start:
    String) -> (r: String)
    ensures
        match override_start {
            Some(s) => r == s,
            None => match progress_ip {
                Some(p) => r == p,
                None => r == default_start,
            },
        },
{
    match override_start {
        Some(s) => s,
        None => match progress_ip {
            Some(p) => p,
            None => default_start,
        },
    }
}

/// The default full IPv4 sweep.
pub fn get_default_ipv4_range() -> (r: (String, String))
    ensures
        r.0@ == "0.0.0.0"@,
        r.1@ == "255.255.255.255"@,
{
    (String::from_str("0.0.0.0"), String::from_str("255.255.255.255"))
}

} // verus!
