use rtmpproxy::config::{config_from, ConfigError};

#[test]
fn config_from_stream_url() {
    let c = config_from("stream = \"rtmp://example.com:1936/live/?key=abc\"\nlisten = \"127.0.0.1:19350\"\n").unwrap();
    assert_eq!(c.listen, "127.0.0.1:19350");
    assert_eq!(c.server, "example.com:1936");
    assert_eq!(c.app_name, "live");
    assert_eq!(c.play_url, "rtmp://example.com/live");
    assert_eq!(c.stream_name, "?key=abc");
}

#[test]
fn config_defaults() {
    let c = config_from("stream = \"rtmp://10.0.0.1/app\"\n").unwrap();
    assert_eq!(c.listen, "0.0.0.0:1935");
    assert_eq!(c.server, "10.0.0.1:1935");
    assert_eq!(c.app_name, "app");
    assert_eq!(c.play_url, "rtmp://10.0.0.1/app");
    assert_eq!(c.stream_name, "");
}

#[test]
fn config_port_digits() {
    assert_eq!(config_from("stream = \"rtmp://h:7/a\"").unwrap().server, "h:7");
    assert_eq!(config_from("stream = \"rtmp://h:65535/a\"").unwrap().server, "h:65535");
    assert_eq!(config_from("stream = \"rtmp://h:10/a\"").unwrap().server, "h:10");
}

#[test]
fn config_errors() {
    assert_eq!(config_from("stream = ").err(), Some(ConfigError::BadToml));
    assert_eq!(config_from("listen = \"x\"").err(), Some(ConfigError::MissingStream));
    assert_eq!(config_from("stream = 5").err(), Some(ConfigError::MissingStream));
    assert_eq!(config_from("stream = \"not a url\"").err(), Some(ConfigError::BadUrl));
    assert_eq!(config_from("stream = \"unix:/run/sock\"").err(), Some(ConfigError::MissingHost));
}
