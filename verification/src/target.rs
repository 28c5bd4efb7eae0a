//! Where each target kind sends its requests.
use vstd::prelude::*;
use crate::config::{kind_label, BenchConfig, TargetKind};
use crate::record::{classify_status, status_class, ERR_NETWORK, ERR_OK, ERR_SCHEMA, ERR_TIMEOUT};
use crate::text::owned;

verus! {

/// One endpoint that a run measures.
#[derive(Debug, Clone)]
pub struct Target {
    pub name: String,
    pub endpoint: String,
    pub model: String,
    pub api_key: Option<String>,
    pub paced: bool,
}

/// `s` without the slashes at its end.
pub open spec fn strip_slashes(s: Seq<char>) -> Seq<char>
    decreases s.len(),
{
    if s.len() > 0 && s.last() == '/' {
        strip_slashes(s.drop_last())
    } else {
        s
    }
}

/// The system-one endpoint under a base URL.
pub open spec fn systemone_url(base: Seq<char>) -> Seq<char> {
    strip_slashes(base) + "/v1/systemone"@
}

/// `base` with the slashes at its end removed, then `/v1/systemone`.
fn endpoint_under(base: &str) -> (r: String)
    ensures
        r@ == systemone_url(base@),
{
    let mut j = base.unicode_len();
    proof {
        assert(base@.subrange(0, j as int) =~= base@);
    }
    while j > 0 && base.get_char(j - 1) == '/'
        invariant
            j <= base@.len(),
            strip_slashes(base@) == strip_slashes(base@.subrange(0, j as int)),
        decreases j,
    {
        proof {
            assert(base@.subrange(0, j as int).drop_last() =~= base@.subrange(0, j as int - 1));
        }
        j = j - 1;
    }
    proof {
        assert(base@.subrange(0, base@.len() as int) =~= base@);
        let core = base@.subrange(0, j as int);
        assert(core.len() == 0 || core.last() != '/');
    }
    let mut r = owned(base.substring_char(0, j));
    r.append("/v1/systemone");
    r
}

impl Target {
    /// The target of `kind`: the local server, one of the two in-process
    /// solvers, or the gateway, which is only available with an API key.
    pub fn from_config(kind: TargetKind, config: &BenchConfig) -> (r: Option<Self>)
        ensures
            match kind {
                TargetKind::Local => r matches Some(t) && t.name@ == kind_label(kind)
                    && t.endpoint@ == systemone_url(config.local_base_url@) && t.model == config.local_model
                    && t.api_key is None && !t.paced,
                TargetKind::FloodFill => r matches Some(t) && t.name@ == kind_label(kind)
                    && t.endpoint@ == "in-process"@ && t.model@ == "online-flood-fill"@ && t.api_key is None
                    && !t.paced,
                TargetKind::MemoryRules => r matches Some(t) && t.name@ == kind_label(kind)
                    && t.endpoint@ == "in-process"@ && t.model@ == "spatial-v2-rules"@ && t.api_key is None
                    && !t.paced,
                _ => match config.gateway_api_key {
                    None => r is None,
                    Some(key) => r matches Some(t) && t.name@ == kind_label(kind)
                        && t.endpoint@ == systemone_url(config.gateway_base_url@) && t.model == config.gateway_model
                        && t.api_key == Some(key) && t.paced,
                },
            },
    {
        match kind {
            TargetKind::Local => Some(Target {
                name: owned(kind.as_str()),
                endpoint: endpoint_under(config.local_base_url.as_str()),
                model: config.local_model.clone(),
                api_key: None,
                paced: false,
            }),
            TargetKind::FloodFill => Some(Target {
                name: owned(kind.as_str()),
                endpoint: owned("in-process"),
                model: owned("online-flood-fill"),
                api_key: None,
                paced: false,
            }),
            TargetKind::MemoryRules => Some(Target {
                name: owned(kind.as_str()),
                endpoint: owned("in-process"),
                model: owned("spatial-v2-rules"),
                api_key: None,
                paced: false,
            }),
            _ => match &config.gateway_api_key {
                None => None,
                Some(key) => Some(Target {
                    name: owned(kind.as_str()),
                    endpoint: endpoint_under(config.gateway_base_url.as_str()),
                    model: config.gateway_model.clone(),
                    api_key: Some(key.clone()),
                    paced: true,
                }),
            },
        }
    }
}

/// The error code of an answered request: the status class when it is not
/// a success, a schema error when the body did not parse, else success.
pub fn response_error(status: u16, parsed: bool) -> (r: u8)
    ensures
        r == (if !(200 <= status && status < 300) {
            status_class(status)
        } else if !parsed {
            ERR_SCHEMA
        } else {
            ERR_OK
        }),
{
    if !(200 <= status && status < 300) {
        classify_status(status)
    } else if !parsed {
        ERR_SCHEMA
    } else {
        ERR_OK
    }
}

/// The error code of a request that got no answer.
pub fn transport_error(timed_out: bool) -> (r: u8)
    ensures
        r == (if timed_out { ERR_TIMEOUT } else { ERR_NETWORK }),
{
    if timed_out {
        ERR_TIMEOUT
    } else {
        ERR_NETWORK
    }
}

} // verus!
