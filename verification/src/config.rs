//! Benchmark targets and settings.
use vstd::prelude::*;
use crate::text::{ascii_lowercase, join3, lower, owned, same_text, split_on, text_of, trim, trim_text};

verus! {

/// A strategy that a benchmark run can walk a maze with, or measure.
#[derive(Debug, Clone, Copy, PartialEq, Eq, Structural)]
pub enum TargetKind {
    Local,
    Jev,
    JevMemory,
    JevFloodFill,
    FloodFill,
    MemoryRules,
    JevMemoryLong,
    JevMemoryFree,
    JevMemoryNoDistance,
}

/// The name of a target kind.
pub open spec fn kind_label(k: TargetKind) -> Seq<char> {
    match k {
        TargetKind::Local => "local"@,
        TargetKind::Jev => "jev"@,
        TargetKind::JevMemory => "jev-memory"@,
        TargetKind::JevFloodFill => "jev-flood-fill"@,
        TargetKind::FloodFill => "flood-fill"@,
        TargetKind::MemoryRules => "memory-rules"@,
        TargetKind::JevMemoryLong => "jev-memory-v1-long"@,
        TargetKind::JevMemoryFree => "jev-memory-v1-free"@,
        TargetKind::JevMemoryNoDistance => "jev-memory-no-distance"@,
    }
}

/// The kind that a lower-case name selects.
pub open spec fn target_named(item: Seq<char>) -> Option<TargetKind> {
    if item == "local"@ {
        Some(TargetKind::Local)
    } else if item == "jev"@ || item == "gateway"@ || item == "remote"@ {
        Some(TargetKind::Jev)
    } else if item == "jev-memory"@ {
        Some(TargetKind::JevMemory)
    } else if item == "jev-flood-fill"@ {
        Some(TargetKind::JevFloodFill)
    } else if item == "flood-fill"@ {
        Some(TargetKind::FloodFill)
    } else if item == "memory-rules"@ {
        Some(TargetKind::MemoryRules)
    } else if item == "jev-memory-v1-long"@ {
        Some(TargetKind::JevMemoryLong)
    } else if item == "jev-memory-v1-free"@ {
        Some(TargetKind::JevMemoryFree)
    } else if item == "jev-memory-no-distance"@ {
        Some(TargetKind::JevMemoryNoDistance)
    } else {
        None
    }
}

/// The message for a name that selects no target.
pub open spec fn unknown_target_message(item: Seq<char>) -> Seq<char> {
    "unknown target '"@ + item + "' (use local,jev,flood-fill,memory-rules,jev-memory,jev-flood-fill,jev-memory-v1-long,jev-memory-v1-free,jev-memory-no-distance)"@
}

/// What one comma-separated piece contributes: nothing when it is blank,
/// else its kind, or the error for an unknown name.
pub open spec fn piece_outcome(piece: Seq<char>) -> Result<Option<TargetKind>, Seq<char>> {
    let item = lower(trim(piece));
    if item.len() == 0 {
        Ok(None)
    } else {
        match target_named(item) {
            Some(k) => Ok(Some(k)),
            None => Err(unknown_target_message(item)),
        }
    }
}

/// The kinds of the pieces in order, or the error of the first bad piece.
pub open spec fn parse_targets(pieces: Seq<Seq<char>>) -> Result<Seq<TargetKind>, Seq<char>>
    decreases pieces.len(),
{
    if pieces.len() == 0 {
        Ok(Seq::empty())
    } else {
        match parse_targets(pieces.drop_last()) {
            Err(e) => Err(e),
            Ok(kinds) => match piece_outcome(pieces.last()) {
                Err(e) => Err(e),
                Ok(None) => Ok(kinds),
                Ok(Some(k)) => Ok(kinds.push(k)),
            },
        }
    }
}

/// The targets of a comma-separated list; at least one is required.
pub open spec fn target_list(raw: Seq<char>) -> Result<Seq<TargetKind>, Seq<char>> {
    match parse_targets(split_on(raw, ',')) {
        Err(e) => Err(e),
        Ok(kinds) => if kinds.len() == 0 {
            Err("at least one target is required"@)
        } else {
            Ok(kinds)
        },
    }
}

fn parse_piece(piece: &str) -> (r: Result<Option<TargetKind>, String>)
    ensures
        match r {
            Ok(o) => piece_outcome(piece@) == Ok::<Option<TargetKind>, Seq<char>>(o),
            Err(e) => piece_outcome(piece@) == Err::<Option<TargetKind>, Seq<char>>(e@),
        },
{
    let folded = ascii_lowercase(trim_text(piece));
    let item = folded.as_str();
    if item.unicode_len() == 0 {
        Ok(None)
    } else if same_text(item, "local") {
        Ok(Some(TargetKind::Local))
    } else if same_text(item, "jev") || same_text(item, "gateway") || same_text(item, "remote") {
        Ok(Some(TargetKind::Jev))
    } else if same_text(item, "jev-memory") {
        Ok(Some(TargetKind::JevMemory))
    } else if same_text(item, "jev-flood-fill") {
        Ok(Some(TargetKind::JevFloodFill))
    } else if same_text(item, "flood-fill") {
        Ok(Some(TargetKind::FloodFill))
    } else if same_text(item, "memory-rules") {
        Ok(Some(TargetKind::MemoryRules))
    } else if same_text(item, "jev-memory-v1-long") {
        Ok(Some(TargetKind::JevMemoryLong))
    } else if same_text(item, "jev-memory-v1-free") {
        Ok(Some(TargetKind::JevMemoryFree))
    } else if same_text(item, "jev-memory-no-distance") {
        Ok(Some(TargetKind::JevMemoryNoDistance))
    } else {
        Err(join3("unknown target '", item, "' (use local,jev,flood-fill,memory-rules,jev-memory,jev-flood-fill,jev-memory-v1-long,jev-memory-v1-free,jev-memory-no-distance)"))
    }
}

impl TargetKind {
    pub fn as_str(self) -> (r: &'static str)
        ensures
            r@ == kind_label(self),
    {
        match self {
            TargetKind::Local => "local",
            TargetKind::Jev => "jev",
            TargetKind::JevMemory => "jev-memory",
            TargetKind::JevFloodFill => "jev-flood-fill",
            TargetKind::FloodFill => "flood-fill",
            TargetKind::MemoryRules => "memory-rules",
            TargetKind::JevMemoryLong => "jev-memory-v1-long",
            TargetKind::JevMemoryFree => "jev-memory-v1-free",
            TargetKind::JevMemoryNoDistance => "jev-memory-no-distance",
        }
    }

    /// The targets of a comma-separated list: each piece is trimmed and
    /// folded to lower case, blank pieces are skipped, and the first unknown
    /// name is an error; an empty result is an error too.
    pub fn parse_list(raw: &str) -> (r: Result<Vec<TargetKind>, String>)
        ensures
            match r {
                Ok(v) => target_list(raw@) == Ok::<Seq<TargetKind>, Seq<char>>(v@),
                Err(e) => target_list(raw@) == Err::<Seq<TargetKind>, Seq<char>>(e@),
            },
    {
        let n = raw.unicode_len();
        let mut kinds: Vec<TargetKind> = Vec::new();
        let mut failure: Option<String> = None;
        let mut start: usize = 0;
        let mut i: usize = 0;
        let ghost mut done: Seq<Seq<char>> = Seq::empty();
        proof {
            assert(raw@.take(0) =~= Seq::<char>::empty());
            assert(raw@.subrange(0, 0) =~= Seq::<char>::empty());
            assert(split_on(raw@.take(0), ',') =~= done.push(raw@.subrange(0, 0)));
        }
        while i < n
            invariant
                n == raw@.len(),
                start <= i <= n,
                split_on(raw@.take(i as int), ',') == done.push(raw@.subrange(start as int, i as int)),
                match failure {
                    None => parse_targets(done) == Ok::<Seq<TargetKind>, Seq<char>>(kinds@),
                    Some(e) => parse_targets(done) == Err::<Seq<TargetKind>, Seq<char>>(e@),
                },
            decreases n - i,
        {
            let c = raw.get_char(i);
            let ghost before = split_on(raw@.take(i as int), ',');
            proof {
                assert(raw@.take(i as int + 1).drop_last() =~= raw@.take(i as int));
                assert(raw@.take(i as int + 1).last() == c);
            }
            if c == ',' {
                let piece = raw.substring_char(start, i);
                let ghost old_done = done;
                proof {
                    done = done.push(piece@);
                    assert(done.drop_last() =~= old_done);
                }
                if failure.is_none() {
                    match parse_piece(piece) {
                        Ok(Some(k)) => kinds.push(k),
                        Ok(None) => {},
                        Err(e) => failure = Some(e),
                    }
                }
                start = i + 1;
                proof {
                    assert(raw@.subrange(start as int, i as int + 1) =~= Seq::<char>::empty());
                    assert(split_on(raw@.take(i as int + 1), ',') =~= done.push(raw@.subrange(start as int, i as int + 1)));
                }
            } else {
                proof {
                    assert(raw@.subrange(start as int, i as int + 1) =~= raw@.subrange(start as int, i as int).push(c));
                    assert(split_on(raw@.take(i as int + 1), ',') =~= done.push(raw@.subrange(start as int, i as int + 1)));
                }
            }
            i = i + 1;
        }
        let last = raw.substring_char(start, n);
        let ghost old_done = done;
        proof {
            assert(raw@.take(n as int) =~= raw@);
            done = done.push(last@);
            assert(done.drop_last() =~= old_done);
            assert(done =~= split_on(raw@, ','));
        }
        if failure.is_none() {
            match parse_piece(last) {
                Ok(Some(k)) => kinds.push(k),
                Ok(None) => {},
                Err(e) => failure = Some(e),
            }
        }
        match failure {
            Some(e) => Err(e),
            None => {
                if kinds.len() == 0 {
                    Err(owned("at least one target is required"))
                } else {
                    Ok(kinds)
                }
            },
        }
    }
}

/// `name` must be > 0.
pub fn require_positive(name: &str, value: usize) -> (r: Result<(), String>)
    ensures
        value != 0 ==> r is Ok,
        value == 0 ==> r is Err && r->Err_0@ == name@ + " must be > 0"@,
{
    if value == 0 {
        let mut m = owned(name);
        m.append(" must be > 0");
        return Err(m);
    }
    Ok(())
}

/// The endpoints and models that a run talks to, and where it writes reports.
#[derive(Debug, Clone)]
pub struct BenchConfig {
    pub local_base_url: String,
    pub local_model: String,
    pub gateway_base_url: String,
    pub gateway_model: String,
    pub gateway_api_key: Option<String>,
    pub report_output_dir: String,
}

impl BenchConfig {
    /// A one-line description that shows whether a key is set, never the key.
    pub fn describe(&self) -> (r: String)
        ensures
            r@ == "local="@ + self.local_base_url@ + " model="@ + self.local_model@ + " | gateway="@
                + self.gateway_base_url@ + " model="@ + self.gateway_model@ + " key="@ + (if self.gateway_api_key is Some {
                "configured"@
            } else {
                "missing"@
            }),
    {
        let mut r = owned("local=");
        r.append(self.local_base_url.as_str());
        r.append(" model=");
        r.append(self.local_model.as_str());
        r.append(" | gateway=");
        r.append(self.gateway_base_url.as_str());
        r.append(" model=");
        r.append(self.gateway_model.as_str());
        r.append(" key=");
        match &self.gateway_api_key {
            Some(_) => r.append("configured"),
            None => r.append("missing"),
        }
        r
    }
}


/// A setting as read: the trimmed text, or `default` when it is unset or
/// blank.
pub open spec fn setting_value(raw: Option<Seq<char>>, default: Seq<char>) -> Seq<char> {
    match raw {
        Some(t) => if trim(t).len() > 0 {
            trim(t)
        } else {
            default
        },
        None => default,
    }
}

/// A secret as read: the trimmed text, or none when it is unset or blank.
pub open spec fn secret_value(raw: Option<Seq<char>>) -> Option<Seq<char>> {
    match raw {
        Some(t) => if trim(t).len() > 0 {
            Some(trim(t))
        } else {
            None
        },
        None => None,
    }
}

/// The trimmed setting, or `default` when it is unset or blank.
pub fn setting_or(raw: Option<String>, default: &str) -> (r: String)
    ensures
        r@ == setting_value(text_of(raw), default@),
{
    match raw {
        Some(t) => {
            let core = trim_text(t.as_str());
            if core.unicode_len() > 0 {
                owned(core)
            } else {
                owned(default)
            }
        },
        None => owned(default),
    }
}

/// The trimmed secret, or none when it is unset or blank.
pub fn secret_setting(raw: Option<String>) -> (r: Option<String>)
    ensures
        text_of(r) == secret_value(text_of(raw)),
{
    match raw {
        Some(t) => {
            let core = trim_text(t.as_str());
            if core.unicode_len() > 0 {
                Some(owned(core))
            } else {
                None
            }
        },
        None => None,
    }
}

/// The settings as the environment gives them, each possibly unset.
#[derive(Debug, Clone)]
pub struct RawSettings {
    pub local_base_url: Option<String>,
    pub local_model: Option<String>,
    pub gateway_base_url: Option<String>,
    pub gateway_model: Option<String>,
    pub gateway_api_key: Option<String>,
    pub report_output_dir: Option<String>,
}

/// What the command line sets over the environment.
#[derive(Debug, Clone)]
pub struct ConfigOverrides {
    pub local_base_url: Option<String>,
    pub local_model: Option<String>,
    pub gateway_base_url: Option<String>,
    pub gateway_model: Option<String>,
    pub output: Option<String>,
}

/// The override if there is one, else the current value.
pub open spec fn overridden(o: Option<String>, current: Seq<char>) -> Seq<char> {
    match o {
        Some(v) => v@,
        None => current,
    }
}

fn pick(o: &Option<String>, current: String) -> (r: String)
    ensures
        r@ == overridden(*o, current@),
{
    match o {
        Some(v) => v.clone(),
        None => current,
    }
}

impl BenchConfig {
    /// The settings with their defaults filled in.
    pub fn from_settings(raw: RawSettings) -> (r: BenchConfig)
        ensures
            r.local_base_url@ == setting_value(text_of(raw.local_base_url), "http://127.0.0.1:3000"@),
            r.local_model@ == setting_value(text_of(raw.local_model), "jev-quantum-latest"@),
            r.gateway_base_url@ == setting_value(text_of(raw.gateway_base_url), "https://api.typesafe.ai"@),
            r.gateway_model@ == setting_value(text_of(raw.gateway_model), "jev-latest"@),
            text_of(r.gateway_api_key) == secret_value(text_of(raw.gateway_api_key)),
            r.report_output_dir@ == setting_value(text_of(raw.report_output_dir), "reports"@),
    {
        BenchConfig {
            local_base_url: setting_or(raw.local_base_url, "http://127.0.0.1:3000"),
            local_model: setting_or(raw.local_model, "jev-quantum-latest"),
            gateway_base_url: setting_or(raw.gateway_base_url, "https://api.typesafe.ai"),
            gateway_model: setting_or(raw.gateway_model, "jev-latest"),
            gateway_api_key: secret_setting(raw.gateway_api_key),
            report_output_dir: setting_or(raw.report_output_dir, "reports"),
        }
    }

    /// Put each setting that the command line gives over the current one;
    /// the key stays.
    pub fn apply_overrides(&mut self, o: &ConfigOverrides)
        ensures
            final(self).local_base_url@ == overridden(o.local_base_url, old(self).local_base_url@),
            final(self).local_model@ == overridden(o.local_model, old(self).local_model@),
            final(self).gateway_base_url@ == overridden(o.gateway_base_url, old(self).gateway_base_url@),
            final(self).gateway_model@ == overridden(o.gateway_model, old(self).gateway_model@),
            final(self).gateway_api_key == old(self).gateway_api_key,
            final(self).report_output_dir@ == overridden(o.output, old(self).report_output_dir@),
    {
        let local_base_url = pick(&o.local_base_url, self.local_base_url.clone());
        let local_model = pick(&o.local_model, self.local_model.clone());
        let gateway_base_url = pick(&o.gateway_base_url, self.gateway_base_url.clone());
        let gateway_model = pick(&o.gateway_model, self.gateway_model.clone());
        let report_output_dir = pick(&o.output, self.report_output_dir.clone());
        self.local_base_url = local_base_url;
        self.local_model = local_model;
        self.gateway_base_url = gateway_base_url;
        self.gateway_model = gateway_model;
        self.report_output_dir = report_output_dir;
    }
}

} // verus!
