//! Configuration of the gateway and how a configuration file is chosen.
use vstd::prelude::*;

verus! {

/// Serial link settings.
pub struct SerialConfig {
    /// Port to use; `None` detects it automatically.
    pub port: Option<String>,
    pub baud_rate: u32,
}

/// Sealing settings.
pub struct SecurityConfig {
    /// HMAC-SHA256 secret key.
    pub hmac_key: String,
}

/// HTTP server settings.
pub struct ServerConfig {
    pub http_port: u16,
    pub event_buffer_size: usize,
}

/// Keyboard (wedge) mode settings.
pub struct WedgeConfig {
    /// Types weights into the focused application when set.
    pub enabled: bool,
    /// Written after the weight: "tab", "enter" or "tab_enter".
    pub separator: String,
    /// Only stable readings are typed when set.
    pub stable_only: bool,
    /// The weight is also copied to the clipboard when set.
    pub clipboard: bool,
    /// Minimum milliseconds between two typed weights.
    pub min_interval_ms: u64,
}

/// CSV export settings.
pub struct ExportConfig {
    /// Directory exports are written to.
    pub output_dir: String,
}

/// Whole configuration.
pub struct Config {
    pub serial: SerialConfig,
    pub security: SecurityConfig,
    pub server: ServerConfig,
    pub wedge: WedgeConfig,
    pub export: ExportConfig,
}

/// The built-in defaults.
pub open spec fn is_default_config(c: Config) -> bool {
    &&& c.serial.port is None
    &&& c.serial.baud_rate == 9600
    &&& c.security.hmac_key@ == "weighflow-change-in-production"@
    &&& c.server.http_port == 8080
    &&& c.server.event_buffer_size == 1000
    &&& !c.wedge.enabled
    &&& c.wedge.separator@ == "tab"@
    &&& c.wedge.stable_only
    &&& !c.wedge.clipboard
    &&& c.wedge.min_interval_ms == 500
    &&& c.export.output_dir@ == "."@
}

impl Default for Config {
    fn default() -> (r: Config)
        ensures
            is_default_config(r),
    {
        Config {
            serial: SerialConfig { port: None, baud_rate: 9600 },
            security: SecurityConfig { hmac_key: "weighflow-change-in-production".to_owned() },
            server: ServerConfig { http_port: 8080, event_buffer_size: 1000 },
            wedge: WedgeConfig {
                enabled: false,
                separator: "tab".to_owned(),
                stable_only: true,
                clipboard: false,
                min_interval_ms: 500,
            },
            export: ExportConfig { output_dir: ".".to_owned() },
        }
    }
}

/// A candidate configuration path: a path as given, or a relative path to be
/// joined onto a base directory taken from the environment.
pub enum ConfigPath {
    File(String),
    Under(String, String),
}

/// A candidate path as text.
pub enum PathModel {
    File(Seq<char>),
    Under(Seq<char>, Seq<char>),
}

impl View for ConfigPath {
    type V = PathModel;

    open spec fn view(&self) -> PathModel {
        match self {
            ConfigPath::File(p) => PathModel::File(p@),
            ConfigPath::Under(b, r) => PathModel::Under(b@, r@),
        }
    }
}

/// The text of an optional string.
pub open spec fn opt_text(o: Option<&str>) -> Option<Seq<char>> {
    match o {
        Some(s) => Some(s@),
        None => None,
    }
}

/// `rel` under the directory `base`, when the environment gave one.
pub open spec fn opt_under(base: Option<Seq<char>>, rel: Seq<char>) -> Seq<PathModel> {
    match base {
        Some(b) => seq![PathModel::Under(b, rel)],
        None => Seq::empty(),
    }
}

/// Configuration paths tried, in order: the explicit path alone when one is
/// given; otherwise `weighflow.toml` in the working directory, then on
/// Windows `WeighFlow\weighflow.toml` under PROGRAMDATA and then under
/// APPDATA (each when set), elsewhere `/etc/weighflow/weighflow.toml` and
/// then `.config/weighflow/weighflow.toml` under HOME (when set).
pub open spec fn candidates_spec(
    explicit: Option<Seq<char>>,
    windows: bool,
    program_data: Option<Seq<char>>,
    app_data: Option<Seq<char>>,
    home: Option<Seq<char>>,
) -> Seq<PathModel> {
    match explicit {
        Some(p) => seq![PathModel::File(p)],
        None => seq![PathModel::File("weighflow.toml"@)] + if windows {
            opt_under(program_data, "WeighFlow\\weighflow.toml"@) + opt_under(
                app_data,
                "WeighFlow\\weighflow.toml"@,
            )
        } else {
            seq![PathModel::File("/etc/weighflow/weighflow.toml"@)] + opt_under(
                home,
                ".config/weighflow/weighflow.toml"@,
            )
        },
    }
}

fn push_under(out: &mut Vec<ConfigPath>, base: Option<&str>, rel: &str)
    ensures
        final(out)@.len() == old(out)@.len() + opt_under(opt_text(base), rel@).len(),
        forall|i: int| 0 <= i < old(out)@.len() ==> #[trigger] final(out)@[i]@ == old(out)@[i]@,
        forall|i: int|
            0 <= i < opt_under(opt_text(base), rel@).len() ==> final(out)@[old(out)@.len() + i]@
                == #[trigger] opt_under(opt_text(base), rel@)[i],
{
    match base {
        Some(b) => out.push(ConfigPath::Under(b.to_owned(), rel.to_owned())),
        None => {},
    }
}

/// The configuration paths to try, in order (see [`candidates_spec`]);
/// `windows` selects the platform's locations, and the other arguments are
/// the values of PROGRAMDATA, APPDATA and HOME where set.
pub fn config_candidates(
    explicit: Option<&str>,
    windows: bool,
    program_data: Option<&str>,
    app_data: Option<&str>,
    home: Option<&str>,
) -> (r: Vec<ConfigPath>)
    ensures
        r@.len() == candidates_spec(
            opt_text(explicit),
            windows,
            opt_text(program_data),
            opt_text(app_data),
            opt_text(home),
        ).len(),
        forall|i: int|
            0 <= i < r@.len() ==> #[trigger] r@[i]@ == candidates_spec(
                opt_text(explicit),
                windows,
                opt_text(program_data),
                opt_text(app_data),
                opt_text(home),
            )[i],
{
    let mut out: Vec<ConfigPath> = Vec::new();
    match explicit {
        Some(p) => {
            out.push(ConfigPath::File(p.to_owned()));
        },
        None => {
            out.push(ConfigPath::File("weighflow.toml".to_owned()));
            if windows {
                push_under(&mut out, program_data, "WeighFlow\\weighflow.toml");
                push_under(&mut out, app_data, "WeighFlow\\weighflow.toml");
            } else {
                out.push(ConfigPath::File("/etc/weighflow/weighflow.toml".to_owned()));
                push_under(&mut out, home, ".config/weighflow/weighflow.toml");
            }
        },
    }
    out
}

/// What was found at one candidate configuration path.
pub enum CandidateOutcome {
    /// No file at the path.
    Missing,
    /// The file exists but could not be read.
    Unreadable,
    /// The file was read and parsed.
    Parsed(Config),
    /// The file was read but is not a valid configuration.
    Invalid,
}

/// Decision on one candidate path, tried in order: a missing or unreadable
/// file moves on to the next candidate (`None`); a parsed file is used; an
/// invalid file ends the search with the defaults.
pub fn resolve_candidate(outcome: CandidateOutcome) -> (r: Option<Config>)
    ensures
        match outcome {
            CandidateOutcome::Missing => r is None,
            CandidateOutcome::Unreadable => r is None,
            CandidateOutcome::Parsed(c) => r == Some(c),
            CandidateOutcome::Invalid => r matches Some(c) && is_default_config(c),
        },
{
    match outcome {
        CandidateOutcome::Missing => None,
        CandidateOutcome::Unreadable => None,
        CandidateOutcome::Parsed(c) => Some(c),
        CandidateOutcome::Invalid => Some(Config::default()),
    }
}

} // verus!
