//! HTTP(S) probe: RTT = full request → body downloaded. Any HTTP response
//! counts as a reply — a 500 still proves the path to the server; loss means
//! no response.
use crate::config::HttpConfig;
use crate::probe::{ProbeError, Round};
use crate::text;
use crate::text::{has_prefix, replace, same, to_upper};
use crate::time::Duration;
use vstd::prelude::*;
use vstd::string::*;

verus! {

#[derive(Clone, Copy, Debug, PartialEq, Eq, Structural)]
pub enum Method {
    Get,
    Head,
}

#[derive(Debug)]
pub struct HttpProbe {
    pub url: String,
    pub method: Method,
    pub timeout: Duration,
    pub interval: Duration,
}

/// The method that a name stands for, in any case.
pub open spec fn method_of(s: Seq<char>) -> Option<Method> {
    if text::uppercased(s) == "GET"@ {
        Some(Method::Get)
    } else if text::uppercased(s) == "HEAD"@ {
        Some(Method::Head)
    } else {
        None
    }
}

/// What is wrong with the parameters, the method first.
pub open spec fn config_error(method: Seq<char>, url: Seq<char>) -> Option<ProbeError> {
    if method_of(method) is None {
        Some(ProbeError::Method)
    } else if !text::starts_with(url, "http://"@) && !text::starts_with(url, "https://"@) {
        Some(ProbeError::Url)
    } else {
        None
    }
}

impl HttpProbe {
    /// The probe was made from these parameters.
    pub open spec fn of(self, cfg: HttpConfig) -> bool {
        &&& self.url@ == cfg.url@
        &&& method_of(cfg.method@) == Some(self.method)
        &&& self.timeout.nanos == cfg.timeout_ms * 1_000_000
        &&& self.interval.nanos == cfg.interval_ms * 1_000_000
    }

    pub fn new(cfg: &HttpConfig) -> (r: Result<HttpProbe, ProbeError>)
        ensures
            match r {
                Ok(p) => config_error(cfg.method@, cfg.url@) is None && p.of(*cfg),
                Err(e) => config_error(cfg.method@, cfg.url@) == Some(e),
            },
    {
        let name = to_upper(cfg.method.as_str());
        let method = if same(name.as_str(), "GET") {
            Method::Get
        } else if same(name.as_str(), "HEAD") {
            Method::Head
        } else {
            return Err(ProbeError::Method);
        };
        if !has_prefix(cfg.url.as_str(), "http://") && !has_prefix(cfg.url.as_str(), "https://") {
            return Err(ProbeError::Url);
        }
        Ok(
            HttpProbe {
                url: cfg.url.clone(),
                method,
                timeout: cfg.timeout(),
                interval: cfg.interval(),
            },
        )
    }

    /// The URL to fetch for a host.
    pub fn url_for(&self, host: &str) -> (r: String)
        ensures
            r@ == text::replaced(self.url@, "%host%"@, host@),
    {
        proof {
            reveal_strlit("%host%");
        }
        replace(self.url.as_str(), "%host%", host)
    }

    /// A round of `pings` requests.
    pub fn begin(&self, pings: u32) -> (r: Round)
        ensures
            r.wf(),
            r.pings == pings,
            r.seq == 0,
            r.phase == crate::probe::Phase::Idle,
            !r.over,
            r.rtts@.len() == 0,
            r.timeout == self.timeout,
            r.interval == self.interval,
    {
        Round::new(pings, self.timeout, self.interval)
    }
}

} // verus!
