//! The client's configuration and how a TOML configuration text changes it.

use vstd::prelude::*;
use vstd::string::*;

verus! {

/// A random number in `low..high` (`fastrand::u16`, which panics on an empty
/// range and otherwise returns a number of the range).
#[verifier::external_body]
fn random_u16_in(low: u16, high: u16) -> (r: u16)
    requires
        low < high,
    ensures
        low <= r < high,
{
    fastrand::u16(low..high)
}

/// The client's configuration.
#[derive(Debug, Clone)]
pub struct Config {
    /// torrent port
    pub port: u16,
    pub min_upload_rate: u32,
    pub max_upload_rate: u32,
    pub use_pid_file: bool,
    /// To set the number of peers we want
    pub numwant: Option<u16>,
    pub client: String,
    /// Directory where torrents are saved. Default is in the working directory.
    pub torrent_dir: String,
    /// Output file path for the JSON file.
    pub output_stats: Option<String>,
}

/// The configuration with its texts as character sequences.
pub struct ConfigView {
    pub port: u16,
    pub min_upload_rate: u32,
    pub max_upload_rate: u32,
    pub use_pid_file: bool,
    pub numwant: Option<u16>,
    pub client: Seq<char>,
    pub torrent_dir: Seq<char>,
    pub output_stats: Option<Seq<char>>,
}

impl View for Config {
    type V = ConfigView;

    open spec fn view(&self) -> ConfigView {
        ConfigView {
            port: self.port,
            min_upload_rate: self.min_upload_rate,
            max_upload_rate: self.max_upload_rate,
            use_pid_file: self.use_pid_file,
            numwant: self.numwant,
            client: self.client@,
            torrent_dir: self.torrent_dir@,
            output_stats: match self.output_stats {
                Some(s) => Some(s@),
                None => None,
            },
        }
    }
}

/// The default configuration, with the given port.
pub open spec fn default_config(port: u16) -> ConfigView {
    ConfigView {
        port,
        min_upload_rate: 8192,
        max_upload_rate: 2097152,
        use_pid_file: false,
        numwant: None,
        client: "Transmission_3_00"@,
        torrent_dir: "."@,
        output_stats: None,
    }
}

/// The upload rates are in order.
pub open spec fn rates_ordered(c: ConfigView) -> bool {
    c.min_upload_rate <= c.max_upload_rate
}

impl Default for Config {
    /// The default configuration, on a random port in `49152..65534`.
    fn default() -> (r: Config)
        ensures
            49152 <= r.port < 65534,
            r@ == default_config(r.port),
            rates_ordered(r@),
    {
        Config {
            port: random_u16_in(49152, 65534),
            min_upload_rate: 8192,
            max_upload_rate: 2097152,
            use_pid_file: false,
            numwant: None,
            torrent_dir: String::from_str("."),
            client: String::from_str("Transmission_3_00"),
            output_stats: None,
        }
    }
}

impl Config {
    /// The minimum upload rate is not above the maximum.
    pub fn speeds_ok(&self) -> (r: bool)
        ensures
            r == rates_ordered(self@),
    {
        self.min_upload_rate <= self.max_upload_rate
    }
}

/// A top-level setting of a TOML text, as far as the configuration reads it.
pub enum TomlField {
    /// The text is not TOML.
    Unparsable,
    /// The document is not a table.
    NotATable,
    /// The key is absent.
    Missing,
    Text(String),
    Integer(i64),
    Boolean(bool),
    /// A float, an array or a table.
    OtherType,
}

/// `TomlField` with its text as a character sequence.
pub enum TomlFieldView {
    Unparsable,
    NotATable,
    Missing,
    Text(Seq<char>),
    Integer(i64),
    Boolean(bool),
    OtherType,
}

impl View for TomlField {
    type V = TomlFieldView;

    open spec fn view(&self) -> TomlFieldView {
        match self {
            TomlField::Unparsable => TomlFieldView::Unparsable,
            TomlField::NotATable => TomlFieldView::NotATable,
            TomlField::Missing => TomlFieldView::Missing,
            TomlField::Text(s) => TomlFieldView::Text(s@),
            TomlField::Integer(i) => TomlFieldView::Integer(*i),
            TomlField::Boolean(b) => TomlFieldView::Boolean(*b),
            TomlField::OtherType => TomlFieldView::OtherType,
        }
    }
}

/// What `toml_span` reads for `key` at the top level of the TOML text `content`.
pub uninterp spec fn toml_field_of(content: Seq<char>, key: Seq<char>) -> TomlFieldView;

/// Parses `content` with `toml_span::parse` and reads the top-level `key`:
/// `as_str`, then `as_integer`, then `as_bool`. The result depends on the two
/// texts alone and is named `toml_field_of`.
#[verifier::external_body]
fn toml_field(content: &str, key: &str) -> (r: TomlField)
    ensures
        r@ == toml_field_of(content@, key@),
{
    match toml_span::parse(content) {
        Err(_) => TomlField::Unparsable,
        Ok(doc) => match doc.as_table() {
            None => TomlField::NotATable,
            Some(table) => match table.get(key) {
                None => TomlField::Missing,
                Some(v) => match (v.as_str(), v.as_integer(), v.as_bool()) {
                    (Some(s), _, _) => TomlField::Text(s.to_string()),
                    (_, Some(i), _) => TomlField::Integer(i),
                    (_, _, Some(b)) => TomlField::Boolean(b),
                    _ => TomlField::OtherType,
                },
            },
        },
    }
}

/// The setting is there, with a value of some type.
pub open spec fn present(f: TomlFieldView) -> bool {
    f is Text || f is Integer || f is Boolean || f is OtherType
}

pub open spec fn with_client(c: ConfigView, f: TomlFieldView) -> ConfigView {
    match f {
        TomlFieldView::Text(s) => ConfigView { client: s, ..c },
        _ => c,
    }
}

/// A port is taken when it is an integer in `1..=65535`.
pub open spec fn with_port(c: ConfigView, f: TomlFieldView) -> ConfigView {
    match f {
        TomlFieldView::Integer(p) => if 1 <= p <= 65535 {
            ConfigView { port: p as u16, ..c }
        } else {
            c
        },
        _ => c,
    }
}

/// A peer count is taken when it is an integer in `1..=65535`.
pub open spec fn with_numwant(c: ConfigView, f: TomlFieldView) -> ConfigView {
    match f {
        TomlFieldView::Integer(n) => if 1 <= n <= 65535 {
            ConfigView { numwant: Some(n as u16), ..c }
        } else {
            c
        },
        _ => c,
    }
}

pub open spec fn with_pid_file(c: ConfigView, f: TomlFieldView) -> ConfigView {
    match f {
        TomlFieldView::Boolean(b) => ConfigView { use_pid_file: b, ..c },
        _ => c,
    }
}

/// A rate is any integer, cut down to its low 32 bits.
pub open spec fn with_min_rate(c: ConfigView, f: TomlFieldView) -> ConfigView {
    match f {
        TomlFieldView::Integer(v) => ConfigView { min_upload_rate: v as u32, ..c },
        _ => c,
    }
}

pub open spec fn with_max_rate(c: ConfigView, f: TomlFieldView) -> ConfigView {
    match f {
        TomlFieldView::Integer(v) => ConfigView { max_upload_rate: v as u32, ..c },
        _ => c,
    }
}

pub open spec fn with_torrent_dir(c: ConfigView, f: TomlFieldView) -> ConfigView {
    match f {
        TomlFieldView::Text(s) => ConfigView { torrent_dir: s, ..c },
        _ => c,
    }
}

pub open spec fn with_output_stats(c: ConfigView, f: TomlFieldView) -> ConfigView {
    match f {
        TomlFieldView::Text(s) => ConfigView { output_stats: Some(s), ..c },
        _ => c,
    }
}

/// The upload rates put in order.
pub open spec fn ordered_rates(c: ConfigView) -> ConfigView {
    if rates_ordered(c) {
        c
    } else {
        ConfigView { min_upload_rate: c.max_upload_rate, max_upload_rate: c.min_upload_rate, ..c }
    }
}

/// The configuration `base` changed by the TOML text `content`. Settings are
/// read in a fixed order; an unreadable text leaves `base`; a rate that is
/// not an integer ends the reading there, rates left as they are.
pub open spec fn toml_config(base: ConfigView, content: Seq<char>) -> ConfigView {
    let first = toml_field_of(content, "client"@);
    if first is Unparsable || first is NotATable {
        base
    } else {
        let c = with_pid_file(
            with_numwant(
                with_port(with_client(base, first), toml_field_of(content, "port"@)),
                toml_field_of(content, "numwant"@),
            ),
            toml_field_of(content, "use_pid_file"@),
        );
        let min = toml_field_of(content, "min_upload_rate"@);
        if present(min) && !(min is Integer) {
            c
        } else {
            let c = with_min_rate(c, min);
            let max = toml_field_of(content, "max_upload_rate"@);
            if present(max) && !(max is Integer) {
                c
            } else {
                let c = with_output_stats(
                    with_torrent_dir(with_max_rate(c, max), toml_field_of(content, "torrent_dir"@)),
                    toml_field_of(content, "output_stats"@),
                );
                ordered_rates(c)
            }
        }
    }
}

impl Config {
    /// Changes `base` by the TOML configuration text `content` (see `toml_config`).
    pub fn apply_toml(base: Config, content: &str) -> (r: Config)
        ensures
            r@ == toml_config(base@, content@),
    {
        let mut config = base;
        match toml_field(content, "client") {
            TomlField::Unparsable | TomlField::NotATable => {
                return config;
            },
            TomlField::Text(s) => {
                config.client = s;
            },
            _ => {},
        }
        match toml_field(content, "port") {
            TomlField::Integer(port) => {
                if 1 <= port && port <= 65535 {
                    config.port = port as u16;
                }
            },
            _ => {},
        }
        match toml_field(content, "numwant") {
            TomlField::Integer(numwant) => {
                if 1 <= numwant && numwant <= 65535 {
                    config.numwant = Some(numwant as u16);
                }
            },
            _ => {},
        }
        match toml_field(content, "use_pid_file") {
            TomlField::Boolean(b) => {
                config.use_pid_file = b;
            },
            _ => {},
        }
        match toml_field(content, "min_upload_rate") {
            TomlField::Integer(value) => {
                config.min_upload_rate = value as u32;
            },
            TomlField::Text(_) | TomlField::Boolean(_) | TomlField::OtherType => {
                return config;
            },
            _ => {},
        }
        match toml_field(content, "max_upload_rate") {
            TomlField::Integer(value) => {
                config.max_upload_rate = value as u32;
            },
            TomlField::Text(_) | TomlField::Boolean(_) | TomlField::OtherType => {
                return config;
            },
            _ => {},
        }
        match toml_field(content, "torrent_dir") {
            TomlField::Text(s) => {
                config.torrent_dir = s;
            },
            _ => {},
        }
        match toml_field(content, "output_stats") {
            TomlField::Text(s) => {
                config.output_stats = Some(s);
            },
            _ => {},
        }
        if !config.speeds_ok() {
            let low = config.max_upload_rate;
            config.max_upload_rate = config.min_upload_rate;
            config.min_upload_rate = low;
        }
        config
    }

    /// The configuration that the TOML text `content` gives: the default
    /// configuration (on a random port in `49152..65534`) changed by it.
    pub fn from_toml_str(content: &str) -> (r: Config)
        ensures
            exists|port: u16|
                49152 <= port < 65534 && r@ == toml_config(#[trigger] default_config(port), content@),
    {
        let base = Config::default();
        let ghost port = base.port;
        let r = Config::apply_toml(base, content);
        assert(r@ == toml_config(default_config(port), content@));
        r
    }
}

/// After a configuration text is read, the minimum upload rate is not above
/// the maximum, unless a rate setting is there with a value that is not an
/// integer (the reading then stops before the rates are put in order).
pub proof fn lemma_toml_config_rates_ordered(base: ConfigView, content: Seq<char>)
    requires
        rates_ordered(base),
        !(present(toml_field_of(content, "min_upload_rate"@)) && !(toml_field_of(
            content,
            "min_upload_rate"@,
        ) is Integer)),
        !(present(toml_field_of(content, "max_upload_rate"@)) && !(toml_field_of(
            content,
            "max_upload_rate"@,
        ) is Integer)),
    ensures
        rates_ordered(toml_config(base, content)),
{
}

/// A configuration text never sets the port to 0.
pub proof fn lemma_toml_config_port(base: ConfigView, content: Seq<char>)
    requires
        base.port != 0,
    ensures
        toml_config(base, content).port != 0,
{
}

/// A configuration text never sets the wanted number of peers to 0.
pub proof fn lemma_toml_config_numwant(base: ConfigView, content: Seq<char>)
    requires
        base.numwant != Some(0u16),
    ensures
        toml_config(base, content).numwant != Some(0u16),
{
}

/// When a readable configuration text sets `use_pid_file` to a boolean, the
/// configuration uses a pid file exactly when that boolean is true; when it
/// does not set it to a boolean, the setting stays as it was.
pub proof fn lemma_toml_config_pid_file(base: ConfigView, content: Seq<char>)
    requires
        !(toml_field_of(content, "client"@) is Unparsable),
        !(toml_field_of(content, "client"@) is NotATable),
    ensures
        toml_field_of(content, "use_pid_file"@) matches TomlFieldView::Boolean(b) ==> toml_config(
            base,
            content,
        ).use_pid_file == b,
        !(toml_field_of(content, "use_pid_file"@) is Boolean) ==> toml_config(
            base,
            content,
        ).use_pid_file == base.use_pid_file,
{
}

} // verus!
