use rsahp::config::{client, server};

#[test]
fn server_command_line_overrides_the_file() {
    let cli = server::CliArgs { config: None, database_url: Some("sqlite://x.db".to_string()), port: None };
    assert_eq!(cli.config_file(), "config.json");
    let file = server::AppConfig { database_url: Some("sqlite://file.db".to_string()), port: Some(8080) };
    let c = file.with_overrides(&cli);
    assert_eq!(c.database_url.as_deref(), Some("sqlite://x.db"));
    assert_eq!(c.listen_port(), 8080);
    let d = server::AppConfig::default();
    assert_eq!(d.listen_port(), 3001);
    assert_eq!(d.database(), "sqlite://rsahp.db?mode=rwc");
    let cli2 = server::CliArgs { config: Some("my.json".to_string()), database_url: None, port: Some(9) };
    assert_eq!(cli2.config_file(), "my.json");
    assert_eq!(server::AppConfig::default().with_overrides(&cli2).listen_port(), 9);
}

#[test]
fn client_settings() {
    let mut c = client::AppConfig::loaded_from(None, "/etc/rsahp.json".to_string());
    assert_eq!(c.save_path(), "/etc/rsahp.json");
    assert!(!c.gpu_requested());
    let cli = client::CliArgs { config: None, api_url: Some("http://x/api/documents".to_string()), enable_gpu: false };
    c.apply_cli(&cli);
    assert_eq!(c.api_url.as_deref(), Some("http://x/api/documents"));
    c.use_gpu = Some(true);
    assert!(c.gpu_requested());
    assert_eq!(client::AppConfig::default().save_path(), "config.json");
    assert_eq!(cli.config_file(), "config.json");
}
