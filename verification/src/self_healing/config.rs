use vstd::prelude::*;

use crate::kv::{keys_of, string_keyed, texts};
use crate::text::{decimal, decimal_string};

verus! {

/// How a service's health is checked.
#[derive(Debug, Clone)]
pub enum HealthCheckType {
    Tcp { host: String, port: u16 },
    Http { url: String },
    Dummy,
}

/// Monitoring settings of one service.
#[derive(Debug, Clone)]
pub struct ServiceConfig {
    pub interval_sec: u64,
    pub health: HealthCheckType,
    pub escalation_webhook: Option<String>,
}

/// The watchdog's settings: the monitored services by name.
#[derive(Debug, Clone)]
pub struct WatchdogConfig {
    pub services: Vec<(String, ServiceConfig)>,
}

impl WatchdogConfig {
    /// The service names, in configuration order.
    pub open spec fn service_names(&self) -> Seq<Seq<char>> {
        keys_of(string_keyed(self.services@))
    }

    /// No service is configured twice.
    pub open spec fn wf(&self) -> bool {
        self.service_names().no_duplicates()
    }
}

/// The services that may be restarted: exactly the configured ones.
pub fn extract_whitelist(config: &WatchdogConfig) -> (res: Vec<String>)
    ensures
        texts(res@) == config.service_names(),
{
    let mut out: Vec<String> = Vec::new();
    let n = config.services.len();
    let mut i: usize = 0;
    while i < n
        invariant
            n == config.services@.len(),
            i <= n,
            texts(out@) == config.service_names().take(i as int),
        decreases n - i,
    {
        let ghost before = texts(out@);
        let name = config.services[i].0.clone();
        let ghost nv = name@;
        assert(nv == config.service_names()[i as int]);
        out.push(name);
        assert(texts(out@) =~= before.push(nv));
        assert(texts(out@) =~= config.service_names().take(i + 1));
        i = i + 1;
    }
    assert(config.service_names().take(n as int) =~= config.service_names());
    out
}

/// The start-up line announcing one configured service.
pub open spec fn service_line(name: Seq<char>, interval_sec: u64) -> Seq<char> {
    "Service '"@ + name + "' konfiguriert mit "@ + decimal(interval_sec as nat) + "s-Intervall"@
}

/// The start-up lines announcing the configured services, in order.
pub open spec fn service_lines(services: Seq<(String, ServiceConfig)>) -> Seq<Seq<char>> {
    services.map_values(|p: (String, ServiceConfig)| service_line(p.0@, p.1.interval_sec))
}

/// The lines that announce each configured service and its check interval
/// (the caller writes them to the log).
pub fn print_loaded_services(config: &WatchdogConfig) -> (res: Vec<String>)
    ensures
        texts(res@) == service_lines(config.services@),
{
    let mut out: Vec<String> = Vec::new();
    let n = config.services.len();
    let mut i: usize = 0;
    while i < n
        invariant
            n == config.services@.len(),
            i <= n,
            texts(out@) == service_lines(config.services@).take(i as int),
        decreases n - i,
    {
        let ghost before = texts(out@);
        let mut line = String::from_str("Service '");
        line.append(config.services[i].0.as_str());
        line.append("' konfiguriert mit ");
        line.append(decimal_string(config.services[i].1.interval_sec).as_str());
        line.append("s-Intervall");
        let ghost lv = line@;
        assert(lv == service_lines(config.services@)[i as int]);
        out.push(line);
        assert(texts(out@) =~= before.push(lv));
        assert(texts(out@) =~= service_lines(config.services@).take(i + 1));
        i = i + 1;
    }
    assert(service_lines(config.services@).take(n as int) =~= service_lines(config.services@));
    out
}

} // verus!
