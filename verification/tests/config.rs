use ratioup::config::Config;

#[test]
fn test_speed_ok() {
    let mut cfg = Config::default();
    assert!(cfg.speeds_ok());

    cfg.min_upload_rate = 8192;
    cfg.max_upload_rate = 8192;
    assert!(cfg.speeds_ok());

    cfg.min_upload_rate = 8192;
    cfg.max_upload_rate = 4096;
    assert!(!cfg.speeds_ok());
}

#[test]
fn default_values() {
    let cfg = Config::default();
    assert!((49152..65534).contains(&cfg.port));
    assert_eq!(cfg.min_upload_rate, 8192);
    assert_eq!(cfg.max_upload_rate, 2097152);
    assert!(!cfg.use_pid_file);
    assert_eq!(cfg.numwant, None);
    assert_eq!(cfg.client, "Transmission_3_00");
    assert_eq!(cfg.torrent_dir, ".");
    assert_eq!(cfg.output_stats, None);
}

#[test]
fn toml_valid_fields() {
    let cfg = Config::from_toml_str("port = 51413\nmin_upload_rate = 8192\nmax_upload_rate = 1048576\n");
    assert_eq!(cfg.port, 51413);
    assert_eq!(cfg.min_upload_rate, 8192);
    assert_eq!(cfg.max_upload_rate, 1_048_576);
}

#[test]
fn toml_invalid_text_gives_default() {
    let cfg = Config::from_toml_str("this is ::: not valid toml !!!");
    assert!(cfg.speeds_ok());
    assert_eq!(cfg.client, "Transmission_3_00");
}

#[test]
fn toml_swapped_rates_are_corrected() {
    let cfg = Config::from_toml_str("min_upload_rate = 2097152\nmax_upload_rate = 8192\n");
    assert!(cfg.min_upload_rate <= cfg.max_upload_rate);
    assert_eq!(cfg.min_upload_rate, 8192);
    assert_eq!(cfg.max_upload_rate, 2097152);
}

#[test]
fn toml_invalid_port_rejected() {
    let cfg = Config::from_toml_str("port = 0\n");
    assert_ne!(cfg.port, 0);
    let cfg = Config::from_toml_str("port = 70000\n");
    assert!((49152..65534).contains(&cfg.port));
}

#[test]
fn toml_numwant_pid_file_paths_client() {
    let cfg = Config::from_toml_str("numwant = 50\nuse_pid_file = true\ntorrent_dir = \"/tmp/torrents\"\noutput_stats = \"/tmp/stats.json\"\nclient = \"qBittorrent_4_60\"\n");
    assert_eq!(cfg.numwant, Some(50));
    assert!(cfg.use_pid_file);
    assert_eq!(cfg.torrent_dir, "/tmp/torrents");
    assert_eq!(cfg.output_stats, Some(String::from("/tmp/stats.json")));
    assert_eq!(cfg.client, "qBittorrent_4_60");
}

#[test]
fn toml_wrong_types_are_ignored() {
    let cfg = Config::from_toml_str("client = 3\nport = \"x\"\nnumwant = 0\nuse_pid_file = 1\n");
    assert_eq!(cfg.client, "Transmission_3_00");
    assert_eq!(cfg.numwant, None);
    assert!(!cfg.use_pid_file);
}

#[test]
fn toml_non_integer_rate_stops_reading() {
    let cfg = Config::from_toml_str("min_upload_rate = \"fast\"\ntorrent_dir = \"/x\"\n");
    assert_eq!(cfg.torrent_dir, ".");
    // min is read, then max is not an integer: reading stops before the rates are put in order
    let cfg = Config::from_toml_str("min_upload_rate = 9999999\nmax_upload_rate = 1.5\n");
    assert_eq!(cfg.min_upload_rate, 9999999);
    assert_eq!(cfg.max_upload_rate, 2097152);
    assert!(!cfg.speeds_ok());
}

#[test]
fn toml_rates_are_cut_to_32_bits() {
    let cfg = Config::from_toml_str("min_upload_rate = -1\nmax_upload_rate = 4294967297\n");
    // -1 becomes u32::MAX and 4294967297 becomes 1; then they are put in order
    assert_eq!(cfg.min_upload_rate, 1);
    assert_eq!(cfg.max_upload_rate, u32::MAX);
}

#[test]
fn apply_toml_keeps_base_on_unreadable_text() {
    let mut base = Config::default();
    base.port = 1234;
    let cfg = Config::apply_toml(base, "[[[");
    assert_eq!(cfg.port, 1234);
}
