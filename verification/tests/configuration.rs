use chat_backend::configuration::{BackendConfig, Config, Environment};

#[test]
fn environment_names() {
    assert_eq!(Environment::Local.as_str(), "local");
    assert_eq!(Environment::Production.as_str(), "prod");
}

#[test]
fn environment_parses_case_insensitively() {
    assert_eq!(Environment::try_from("local"), Ok(Environment::Local));
    assert_eq!(Environment::try_from("LOCAL"), Ok(Environment::Local));
    assert_eq!(Environment::try_from("Prod"), Ok(Environment::Production));
    assert_eq!(Environment::try_from("prod"), Ok(Environment::Production));
}

#[test]
fn unknown_environment_is_rejected() {
    let e = Environment::try_from("staging").unwrap_err();
    assert_eq!(
        e,
        "staging is not a supported environment. Use either `local` or `prod`."
    );
}

#[test]
fn environment_config_filenames() {
    assert_eq!(Environment::Local.config_filename(), "local.yaml");
    assert_eq!(Environment::Production.config_filename(), "prod.yaml");
}

#[test]
fn config_holds_host_and_ports() {
    let c = Config {
        host: "127.0.0.1".to_string(),
        backend: BackendConfig {
            rest_port: 8000,
            ws_port: 9000,
        },
    };
    assert_eq!(c.backend.rest_port, 8000);
    assert_eq!(c.clone(), c);
}
