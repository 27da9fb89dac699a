use tremor_runtime::http::{dflt_host, dflt_port, Config, Http, HttpMethod, RestConfig};

#[test]
fn config_defaults_are_explicit() {
    let c = Config::default();
    assert_eq!(c.host, "0.0.0.0");
    assert_eq!(c.port, 8000);
    assert!(c.resources.is_empty());
    assert_eq!(dflt_host(), "0.0.0.0");
    assert_eq!(dflt_port(), 8000);
}

#[test]
fn onramp_names_its_default_codec() {
    let h = Http {
        config: Config {
            host: "127.0.0.1".to_string(),
            port: 9000,
            resources: vec![RestConfig {
                method: vec![HttpMethod::GET, HttpMethod::POST],
                path: "/write".to_string(),
                params: None,
            }],
        },
    };
    assert_eq!(h.default_codec(), "binary");
    assert_eq!(h.config.resources[0].method[0], HttpMethod::GET);
}
