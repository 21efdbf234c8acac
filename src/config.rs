//! The proxy's configuration, derived from a TOML document whose `stream`
//! key holds the URL of the real server's stream.

use crate::command::fits_long_string;
use vstd::prelude::*;

verus! {

/// The configuration of the proxy: where it listens, the real server, and
/// the names that rewritten commands carry.
pub struct Config {
    /// The address that the proxy listens on.
    pub listen: String,
    /// The `host:port` of the real server.
    pub server: String,
    /// The URL that `connect` names as `tcUrl` and `swfUrl`.
    pub play_url: String,
    /// The application name that `connect` names as `app`.
    pub app_name: String,
    /// The stream name that `releaseStream`, `FCPublish` and `publish` carry.
    pub stream_name: String,
}

/// Whether the names that rewritten commands carry fit AMF0 strings.
pub open spec fn config_writable(c: Config) -> bool {
    &&& fits_long_string(c.play_url@)
    &&& fits_long_string(c.app_name@)
    &&& fits_long_string(c.stream_name@)
}

impl Config {
    /// Whether the names that rewritten commands carry fit AMF0 strings, of
    /// at most `u32::MAX` bytes.
    pub fn is_writable(&self) -> (r: bool)
        ensures
            r == config_writable(*self),
    {
        self.play_url.as_str().as_bytes().len() <= 0xFFFF_FFFF
            && self.app_name.as_str().as_bytes().len() <= 0xFFFF_FFFF
            && self.stream_name.as_str().as_bytes().len() <= 0xFFFF_FFFF
    }
}

/// The listen address where the document names none.
pub const DEFAULT_LISTEN: &'static str = "0.0.0.0:1935";

/// The RTMP port where the stream URL names none.
pub const DEFAULT_PORT: u16 = 1935;

/// Why a configuration cannot be derived.
#[derive(Clone, Copy, Debug, PartialEq, Eq)]
pub enum ConfigError {
    /// The document is no TOML.
    BadToml,
    /// The document has no string `stream`.
    MissingStream,
    /// The stream URL does not parse.
    BadUrl,
    /// The stream URL names no host.
    MissingHost,
}

/// What looking up a string under a key of a TOML document found.
pub enum TomlString {
    Malformed,
    Absent,
    Found(String),
}

/// The model of a `TomlString`.
pub enum TomlStringModel {
    Malformed,
    Absent,
    Found(Seq<char>),
}

impl View for TomlString {
    type V = TomlStringModel;

    open spec fn view(&self) -> TomlStringModel {
        match self {
            TomlString::Malformed => TomlStringModel::Malformed,
            TomlString::Absent => TomlStringModel::Absent,
            TomlString::Found(s) => TomlStringModel::Found(s@),
        }
    }
}

/// The parts of a URL that the configuration uses.
pub struct UrlParts {
    pub host: Option<String>,
    pub port: Option<u16>,
    pub path: String,
    pub query: Option<String>,
}

/// The model of `UrlParts`.
pub struct UrlModel {
    pub host: Option<Seq<char>>,
    pub port: Option<u16>,
    pub path: Seq<char>,
    pub query: Option<Seq<char>>,
}

/// The model of an optional string.
pub open spec fn text_model(s: Option<String>) -> Option<Seq<char>> {
    match s {
        Some(x) => Some(x@),
        None => None,
    }
}

/// The model of optional `UrlParts`.
pub open spec fn url_model(u: Option<UrlParts>) -> Option<UrlModel> {
    match u {
        Some(p) => Some(
            UrlModel {
                host: text_model(p.host),
                port: p.port,
                path: p.path@,
                query: text_model(p.query),
            },
        ),
        None => None,
    }
}

/// The configuration as plain sequences.
pub struct ConfigModel {
    pub listen: Seq<char>,
    pub server: Seq<char>,
    pub play_url: Seq<char>,
    pub app_name: Seq<char>,
    pub stream_name: Seq<char>,
}

/// The model of a `Config`.
pub open spec fn config_model(c: Config) -> ConfigModel {
    ConfigModel {
        listen: c.listen@,
        server: c.server@,
        play_url: c.play_url@,
        app_name: c.app_name@,
        stream_name: c.stream_name@,
    }
}

/// What the TOML parser finds under a key of a document.
pub uninterp spec fn toml_string_of(text: Seq<char>, key: Seq<char>) -> TomlStringModel;

/// The parts of a URL as the URL parser gives them, or `None` where it
/// does not parse.
pub uninterp spec fn url_parts_of(s: Seq<char>) -> Option<UrlModel>;

/// Relies on `toml::from_str` into a `toml::Table`, `Table::get` and
/// `toml::Value::as_str`: the string under the key of a document that
/// parses.
#[verifier::external_body]
fn toml_string(text: &str, key: &str) -> (r: TomlString)
    ensures
        r@ == toml_string_of(text@, key@),
{
    match toml::from_str::<toml::Table>(text) {
        Err(_) => TomlString::Malformed,
        Ok(t) => match t.get(key).and_then(toml::Value::as_str) {
            Some(s) => TomlString::Found(s.to_string()),
            None => TomlString::Absent,
        },
    }
}

/// Relies on `url::Url::parse` and on `Url::host_str`, `Url::port`,
/// `Url::path` and `Url::query` of the parsed URL.
#[verifier::external_body]
fn parse_url(s: &str) -> (r: Option<UrlParts>)
    ensures
        url_model(r) == url_parts_of(s@),
{
    url::Url::parse(s).ok().map(|u| UrlParts {
        host: u.host_str().map(str::to_string),
        port: u.port(),
        path: u.path().to_string(),
        query: u.query().map(str::to_string),
    })
}

/// `s` without its leading `/` characters.
pub open spec fn without_leading_slashes(s: Seq<char>) -> Seq<char>
    decreases s.len(),
{
    if s.len() > 0 && s[0] == '/' {
        without_leading_slashes(s.subrange(1, s.len() as int))
    } else {
        s
    }
}

/// `s` without its trailing `/` characters.
pub open spec fn without_trailing_slashes(s: Seq<char>) -> Seq<char>
    decreases s.len(),
{
    if s.len() > 0 && s.last() == '/' {
        without_trailing_slashes(s.drop_last())
    } else {
        s
    }
}

/// `s` without its leading and trailing `/` characters.
pub open spec fn trim_slashes(s: Seq<char>) -> Seq<char> {
    without_trailing_slashes(without_leading_slashes(s))
}

/// Relies on `str::trim_matches` with the pattern `'/'`: every leading and
/// every trailing `/` removed.
#[verifier::external_body]
fn trimmed_of_slashes(s: &str) -> (r: String)
    ensures
        r@ == trim_slashes(s@),
{
    s.trim_matches('/').to_string()
}

/// The character of a decimal digit.
pub open spec fn digit_char(d: nat) -> char {
    if d == 0 {
        '0'
    } else if d == 1 {
        '1'
    } else if d == 2 {
        '2'
    } else if d == 3 {
        '3'
    } else if d == 4 {
        '4'
    } else if d == 5 {
        '5'
    } else if d == 6 {
        '6'
    } else if d == 7 {
        '7'
    } else if d == 8 {
        '8'
    } else {
        '9'
    }
}

/// The decimal digits of `n`, without leading zeros.
pub open spec fn decimal(n: nat) -> Seq<char>
    decreases n,
{
    if n < 10 {
        seq![digit_char(n)]
    } else {
        decimal(n / 10) + seq![digit_char(n % 10)]
    }
}

fn digit_str(d: u16) -> (r: &'static str)
    requires
        d < 10,
    ensures
        r@ == seq![digit_char(d as nat)],
{
    proof {
        reveal_strlit("0");
        reveal_strlit("1");
        reveal_strlit("2");
        reveal_strlit("3");
        reveal_strlit("4");
        reveal_strlit("5");
        reveal_strlit("6");
        reveal_strlit("7");
        reveal_strlit("8");
        reveal_strlit("9");
    }
    let r = if d == 0 {
        "0"
    } else if d == 1 {
        "1"
    } else if d == 2 {
        "2"
    } else if d == 3 {
        "3"
    } else if d == 4 {
        "4"
    } else if d == 5 {
        "5"
    } else if d == 6 {
        "6"
    } else if d == 7 {
        "7"
    } else if d == 8 {
        "8"
    } else {
        "9"
    };
    assert(r@ =~= seq![digit_char(d as nat)]);
    r
}

fn push_decimal(n: u16, out: &mut String)
    ensures
        final(out)@ == old(out)@ + decimal(n as nat),
    decreases n,
{
    if n >= 10 {
        push_decimal(n / 10, out);
    }
    out.append(digit_str(n % 10));
    assert(final(out)@ =~= old(out)@ + decimal(n as nat));
}

/// The configuration that a document gives: the server is the stream URL's
/// host and port (1935 where it names none), the application name its path
/// without surrounding `/`, the play URL `rtmp://<host>/<app>`, and the
/// stream name its query behind a `?` (empty where it has none).
pub open spec fn derived_config(text: Seq<char>) -> Result<ConfigModel, ConfigError> {
    match toml_string_of(text, "stream"@) {
        TomlStringModel::Malformed => Err(ConfigError::BadToml),
        TomlStringModel::Absent => Err(ConfigError::MissingStream),
        TomlStringModel::Found(url) => match url_parts_of(url) {
            None => Err(ConfigError::BadUrl),
            Some(u) => match u.host {
                None => Err(ConfigError::MissingHost),
                Some(host) => {
                    let port = match u.port {
                        Some(p) => p,
                        None => DEFAULT_PORT,
                    };
                    let app = trim_slashes(u.path);
                    Ok(
                        ConfigModel {
                            listen: match toml_string_of(text, "listen"@) {
                                TomlStringModel::Found(l) => l,
                                _ => DEFAULT_LISTEN@,
                            },
                            server: host + ":"@ + decimal(port as nat),
                            play_url: "rtmp://"@ + host + "/"@ + app,
                            app_name: app,
                            stream_name: match u.query {
                                Some(q) => "?"@ + q,
                                None => Seq::empty(),
                            },
                        },
                    )
                },
            },
        },
    }
}

/// Derives the configuration from the text of a TOML document.
pub fn config_from(text: &str) -> (r: Result<Config, ConfigError>)
    ensures
        match derived_config(text@) {
            Ok(m) => r matches Ok(c) && config_model(c) == m,
            Err(e) => r matches Err(x) && x == e,
        },
{
    let stream_url = match toml_string(text, "stream") {
        TomlString::Malformed => return Err(ConfigError::BadToml),
        TomlString::Absent => return Err(ConfigError::MissingStream),
        TomlString::Found(s) => s,
    };
    let parts = match parse_url(stream_url.as_str()) {
        Some(p) => p,
        None => return Err(ConfigError::BadUrl),
    };
    let host = match parts.host {
        Some(h) => h,
        None => return Err(ConfigError::MissingHost),
    };
    let port = match parts.port {
        Some(p) => p,
        None => DEFAULT_PORT,
    };
    let listen = match toml_string(text, "listen") {
        TomlString::Found(l) => l,
        _ => DEFAULT_LISTEN.to_owned(),
    };
    let app_name = trimmed_of_slashes(parts.path.as_str());
    let mut server = host.clone();
    server.append(":");
    push_decimal(port, &mut server);
    let mut play_url = "rtmp://".to_owned();
    play_url.append(host.as_str());
    play_url.append("/");
    play_url.append(app_name.as_str());
    let stream_name = match parts.query {
        Some(q) => {
            let mut s = "?".to_owned();
            s.append(q.as_str());
            s
        },
        None => String::new(),
    };
    let c = Config { listen, server, play_url, app_name, stream_name };
    proof {
        let m = derived_config(text@)->Ok_0;
        assert(config_model(c).server =~= m.server);
        assert(config_model(c).play_url =~= m.play_url);
        assert(config_model(c).stream_name =~= m.stream_name);
    }
    Ok(c)
}

} // verus!
