use ratioup::config::Config;
use ratioup::torrent::{Torrent, TorrentError};
use ratioup::bencode::BencodeDecoderError;

fn make_torrent(info_hash: [u8; 20], urls: Vec<String>) -> Torrent {
    Torrent {
        name: String::from("Test torrent"),
        length: 262144,
        private: false,
        uploaded: 512,
        last_announce: std::time::Instant::now(),
        info_hash,
        info_hash_urlencoded: String::new(),
        seeders: 3,
        leechers: 7,
        next_upload_speed: 1024,
        interval: 1800,
        urls,
        error_count: 0,
        encoding: None,
        min_interval: None,
        tracker_id: None,
        source_path: None,
    }
}

fn make_torrent_with_interval(interval: u64, min_interval: Option<u64>) -> Torrent {
    let mut t = make_torrent(
        [0u8; 20],
        vec![String::from("http://t.example.com/announce")],
    );
    t.interval = interval;
    t.min_interval = min_interval;
    t
}

#[test]
fn test_can_download_or_upload() {
    let mut t = Torrent {
        name: String::from("Test torrent"),
        length: 262144,
        private: false,
        uploaded: 0,
        last_announce: std::time::Instant::now(),
        info_hash: [0; 20],
        info_hash_urlencoded: String::from("01234567"),
        seeders: 0,
        leechers: 1,
        next_upload_speed: 0,
        interval: 1800,
        urls: Vec::with_capacity(0),
        error_count: 0,
        encoding: None,
        min_interval: None,
        tracker_id: None,
        source_path: None,
    };
    assert!(!t.can_upload());
    t.leechers = 5;
    assert!(t.can_upload());
    t.leechers = 0;
    t.seeders = 1;
    assert!(!t.can_upload());
    t.seeders = 4;
    t.leechers = 8;
    assert!(t.can_upload());
}

#[test]
fn test_effective_interval_no_min() {
    let t = make_torrent_with_interval(1800, None);
    assert_eq!(t.effective_interval(), 1800);
}

#[test]
fn test_effective_interval_min_less_than_interval() {
    let t = make_torrent_with_interval(1800, Some(900));
    assert_eq!(t.effective_interval(), 1800);
}

#[test]
fn test_effective_interval_min_greater_than_interval() {
    let t = make_torrent_with_interval(900, Some(1800));
    assert_eq!(t.effective_interval(), 1800);
}

#[test]
fn test_effective_interval_min_equals_interval() {
    let t = make_torrent_with_interval(1800, Some(1800));
    assert_eq!(t.effective_interval(), 1800);
}

#[test]
fn test_effective_interval_min_zero() {
    let t = make_torrent_with_interval(1800, Some(0));
    assert_eq!(t.effective_interval(), 1800);
}

#[test]
fn test_should_announce_blocked_by_min_interval() {
    let t = make_torrent_with_interval(0, Some(1800));
    assert!(
        !t.should_announce(),
        "min_interval must block a zero interval"
    );
}

#[test]
fn test_should_announce_zero_interval_no_min() {
    let t = make_torrent_with_interval(0, None);
    assert!(t.should_announce());
}

#[test]
fn test_should_announce_lenient_min_interval() {
    let t = make_torrent_with_interval(1800, Some(900));
    assert!(!t.should_announce());
}

#[test]
fn test_to_json_info_hash_all_zeros() {
    let t = make_torrent(
        [0u8; 20],
        vec![String::from("http://tracker.example.com/announce")],
    );
    let json = t.to_json();
    assert!(
        json.contains("\"info_hash\": \"0000000000000000000000000000000000000000\""),
        "unexpected json: {json}"
    );
}

#[test]
fn test_to_json_info_hash_known_value() {
    let hash = [
        0xb5, 0x07, 0xc6, 0x96, 0x4f, 0xfa, 0x3f, 0xaa, 0xaa, 0x1a, 0xa3, 0xac, 0x2d, 0x42,
        0x2d, 0x39, 0xa9, 0xc9, 0xe2, 0x46,
    ];
    let t = make_torrent(
        hash,
        vec![String::from("http://tracker.example.com/announce")],
    );
    let json = t.to_json();
    assert!(
        json.contains("\"info_hash\": \"b507c6964ffa3faaaa1aa3ac2d422d39a9c9e246\""),
        "unexpected json: {json}"
    );
}

#[test]
fn test_to_json_contains_all_scalar_fields() {
    let t = make_torrent(
        [0u8; 20],
        vec![String::from("http://tracker.example.com/announce")],
    );
    let json = t.to_json();
    assert!(json.contains("\"name\": \"Test torrent\""), "{json}");
    assert!(json.contains("\"length\": 262144"), "{json}");
    assert!(json.contains("\"private\": false"), "{json}");
    assert!(json.contains("\"uploaded\": 512"), "{json}");
    assert!(json.contains("\"seeders\": 3"), "{json}");
    assert!(json.contains("\"leechers\": 7"), "{json}");
    assert!(json.contains("\"next_upload_speed\": 1024"), "{json}");
}

#[test]
fn test_to_json_multiple_urls() {
    let urls = vec![
        String::from("http://tracker1.example.com/announce"),
        String::from("udp://tracker2.example.com:6969"),
    ];
    let t = make_torrent([0u8; 20], urls);
    let json = t.to_json();
    assert!(
        json.contains("\"http://tracker1.example.com/announce\""),
        "{json}"
    );
    assert!(
        json.contains("\"udp://tracker2.example.com:6969\""),
        "{json}"
    );
}

#[test]
fn test_to_json_name_with_quotes() {
    let mut t = make_torrent(
        [0u8; 20],
        vec![String::from("http://t.example.com/announce")],
    );
    t.name = String::from("My \"Quoted\" Torrent");
    let json = t.to_json();
    assert!(
        json.contains(r#""name": "My \"Quoted\" Torrent""#),
        "{json}"
    );
}

#[test]
fn test_get_average_speeds() {
    let mut t = Torrent {
        name: String::from("Test torrent"),
        length: 262144,
        private: false,
        uploaded: 0,
        last_announce: std::time::Instant::now(),
        info_hash: [0; 20],
        info_hash_urlencoded: String::from("01234567"),
        seeders: 4,
        leechers: 16,
        next_upload_speed: 0,
        interval: 1800,
        urls: Vec::with_capacity(0),
        error_count: 0,
        encoding: None,
        min_interval: None,
        tracker_id: None,
        source_path: None,
    };
    let speed = t.uploaded(16, 64);
    assert!(speed > 0);
    t.interval = 1;
    assert!((16..=64).contains(&speed));
    let speed = t.uploaded(16, 64);
    assert!((16..=64).contains(&speed));
}

// --- beyond the original's own tests ---

#[test]
fn to_json_exact_line() {
    let t = make_torrent([0xab; 20], vec![String::from("http://a/"), String::from("udp://b:1")]);
    assert_eq!(
        t.to_json(),
        "\t{\"name\": \"Test torrent\", \"length\": 262144, \"private\": false, \"uploaded\": 512, \"seeders\": 3, \"leechers\": 7, \"next_upload_speed\": 1024, \"info_hash\": \"abababababababababababababababababababab\", \"urls\": [\"http://a/\", \"udp://b:1\"]}\n"
    );
}

#[test]
fn to_json_no_urls() {
    let t = make_torrent([0; 20], vec![]);
    assert!(t.to_json().ends_with("\"urls\": []}\n"));
}

#[test]
fn uploaded_without_leechers_is_zero_and_keeps_speed() {
    let mut t = make_torrent([0; 20], vec![]);
    t.seeders = 10;
    t.leechers = 0;
    assert_eq!(t.uploaded(16, 64), 0);
    assert_eq!(t.next_upload_speed, 1024);
}

#[test]
fn uploaded_with_zero_min_is_zero() {
    let mut t = make_torrent([0; 20], vec![]);
    assert_eq!(t.uploaded(0, 64), 0);
    assert_eq!(t.uploaded(65, 64), 0);
    assert_eq!(t.next_upload_speed, 1024);
}

#[test]
fn uploaded_stores_the_speed() {
    let mut t = make_torrent([0; 20], vec![]);
    let s = t.uploaded(100, 101);
    assert_eq!(s, 100);
    assert_eq!(t.next_upload_speed, 100);
}

#[test]
fn compute_speeds_uses_the_configured_rates() {
    let mut t = make_torrent([0; 20], vec![]);
    let mut config = Config::default();
    config.min_upload_rate = 500;
    config.max_upload_rate = 501;
    t.compute_speeds(&config);
    assert_eq!(t.next_upload_speed, 500);
}

#[test]
fn announce_due_compares_with_effective_interval() {
    let t = make_torrent_with_interval(900, Some(1800));
    assert!(!t.announce_due(1799));
    assert!(t.announce_due(1800));
}

fn single_file_torrent() -> Vec<u8> {
    b"d8:announce35:http://tracker.example.com/announce4:infod6:lengthi1024e4:name8:file.txt12:piece lengthi16384e6:pieces0:ee".to_vec()
}

#[test]
fn from_bencode_single_file() {
    let t = Torrent::from_bencode_bytes(&single_file_torrent()).unwrap();
    assert_eq!(t.name, "file.txt");
    assert_eq!(t.length, 1024);
    assert_eq!(t.urls, vec![String::from("http://tracker.example.com/announce")]);
    assert!(!t.private);
    assert_eq!(t.uploaded, 0);
    assert_eq!(t.seeders, 0);
    assert_eq!(t.interval, 0);
    assert!(t.encoding.is_none());
    assert!(t.source_path.is_none());
    // SHA-1 of the info dictionary "d6:lengthi1024e4:name8:file.txt12:piece lengthi16384e6:pieces0:e"
    let expected = sha1_smol::Sha1::from(
        &b"d6:lengthi1024e4:name8:file.txt12:piece lengthi16384e6:pieces0:e"[..],
    )
    .digest()
    .bytes();
    assert_eq!(t.info_hash, expected);
    assert_ne!(t.info_hash, [0u8; 20]);
    assert_eq!(t.info_hash_urlencoded.len() >= 20, true);
}

#[test]
fn from_bencode_info_hash_of_reordered_info() {
    // keys out of order in the file: the hash is taken over the sorted re-encoding
    let data = b"d8:announce9:http://a/4:infod4:name1:x6:lengthi5eee";
    let t = Torrent::from_bencode_bytes(data).unwrap();
    let expected = sha1_smol::Sha1::from(&b"d6:lengthi5e4:name1:xe"[..]).digest().bytes();
    assert_eq!(t.info_hash, expected);
}

#[test]
fn from_bencode_multi_file_private_with_announce_list() {
    let data = b"d8:announce9:http://a/13:announce-listll9:http://a/6:udp://el8:wss://x/9:https://bee8:encoding5:UTF-84:infod5:filesld6:lengthi3eed6:lengthi4eee4:name3:dir7:privatei1eee";
    let t = Torrent::from_bencode_bytes(data).unwrap();
    assert_eq!(t.name, "dir");
    assert_eq!(t.length, 7);
    assert!(t.private);
    assert_eq!(
        t.urls,
        vec![String::from("http://a/"), String::from("udp://"), String::from("https://b")]
    );
    assert_eq!(t.encoding, Some(String::from("UTF-8")));
}

#[test]
fn from_bencode_errors() {
    match Torrent::from_bencode_bytes(b"i1e") {
        Err(TorrentError::InvalidFieldType(f)) => assert_eq!(f, "Top-level is not a dictionary"),
        other => panic!("{other:?}"),
    }
    match Torrent::from_bencode_bytes(b"d4:infodee") {
        Err(TorrentError::MissingField(f)) => assert_eq!(f, "announce or announce-list"),
        other => panic!("{other:?}"),
    }
    match Torrent::from_bencode_bytes(b"d8:announce9:http://a/e") {
        Err(TorrentError::MissingField(f)) => assert_eq!(f, "info"),
        other => panic!("{other:?}"),
    }
    match Torrent::from_bencode_bytes(b"d8:announce9:http://a/4:infoi1ee") {
        Err(TorrentError::InvalidFieldType(f)) => assert_eq!(f, "info is not a dictionary"),
        other => panic!("{other:?}"),
    }
    match Torrent::from_bencode_bytes(b"d8:announce9:http://a/4:infodee") {
        Err(TorrentError::MissingField(f)) => assert_eq!(f, "info.name"),
        other => panic!("{other:?}"),
    }
    match Torrent::from_bencode_bytes(b"d8:announce9:http://a/4:infod4:namei1eee") {
        Err(TorrentError::InvalidFieldType(f)) => assert_eq!(f, "info.name"),
        other => panic!("{other:?}"),
    }
    match Torrent::from_bencode_bytes(b"d8:announce9:http://a/4:infod6:lengthi-1e4:name1:xee") {
        Err(TorrentError::ParseError(m)) => assert_eq!(m, "info.length is negative"),
        other => panic!("{other:?}"),
    }
    match Torrent::from_bencode_bytes(b"d8:announce9:http://a/4:infod5:filesli1ee4:name1:xee") {
        Err(TorrentError::InvalidFieldType(f)) => assert_eq!(f, "file entry in multi-file torrent"),
        other => panic!("{other:?}"),
    }
    match Torrent::from_bencode_bytes(b"d8:announce9:http://a/4:infod5:filesldee4:name1:xee") {
        Err(TorrentError::MissingField(f)) => assert_eq!(f, "file.length in multi-file torrent"),
        other => panic!("{other:?}"),
    }
    match Torrent::from_bencode_bytes(b"d8:announce9:http://a/4:infod5:filesld6:lengthi-2eee4:name1:xee") {
        Err(TorrentError::ParseError(m)) => assert_eq!(m, "file.length is negative"),
        other => panic!("{other:?}"),
    }
    match Torrent::from_bencode_bytes(b"d8:announce2:\xff\xfe4:infodee") {
        Err(TorrentError::Utf8ConversionError(f)) => assert_eq!(f, "announce URL"),
        other => panic!("{other:?}"),
    }
    match Torrent::from_bencode_bytes(b"d13:announce-listll1:\xffee4:infodee") {
        Err(TorrentError::Utf8ConversionError(f)) => assert_eq!(f, "announce-list URL"),
        other => panic!("{other:?}"),
    }
    match Torrent::from_bencode_bytes(b"d8:announce9:http://a/4:infod4:name1:\xffee") {
        Err(TorrentError::Utf8ConversionError(f)) => assert_eq!(f, "info.name"),
        other => panic!("{other:?}"),
    }
    match Torrent::from_bencode_bytes(b"d8:announce9:http://a/8:encoding1:\xff4:infod4:name1:xee") {
        Err(TorrentError::Utf8ConversionError(f)) => assert_eq!(f, "encoding"),
        other => panic!("{other:?}"),
    }
    match Torrent::from_bencode_bytes(b"d8:announce") {
        Err(TorrentError::BencodeError(e)) => assert_eq!(e, BencodeDecoderError::UnexpectedEof),
        other => panic!("{other:?}"),
    }
}

#[test]
fn unsupported_announce_is_missing() {
    match Torrent::from_bencode_bytes(b"d8:announce8:wss://x/4:infod4:name1:xee") {
        Err(TorrentError::MissingField(f)) => assert_eq!(f, "announce or announce-list"),
        other => panic!("{other:?}"),
    }
}

#[test]
fn overflowing_lengths_are_reported() {
    let data = b"d8:announce9:http://a/4:infod5:filesld6:lengthi9223372036854775807eed6:lengthi9223372036854775807eed6:lengthi9223372036854775807eee4:name1:xee";
    assert!(Torrent::checked_from_bencode_bytes(data).is_none());
    let fits = b"d8:announce9:http://a/4:infod5:filesld6:lengthi9223372036854775807eed6:lengthi9223372036854775807eee4:name1:xee";
    let t = Torrent::checked_from_bencode_bytes(fits).unwrap().unwrap();
    assert_eq!(t.length, 18446744073709551614);
}

#[test]
fn error_messages() {
    assert_eq!(
        TorrentError::MissingField("info").message(),
        "Missing required field: info"
    );
    assert_eq!(
        TorrentError::InvalidFieldType("info.name").message(),
        "Invalid type for field: info.name"
    );
    assert_eq!(
        TorrentError::ParseError(String::from("bad")).message(),
        "Parsing error: bad"
    );
    assert_eq!(
        TorrentError::Utf8ConversionError("encoding").message(),
        "UTF-8 conversion error for field: encoding"
    );
    assert_eq!(
        TorrentError::BencodeError(BencodeDecoderError::UnexpectedByte(120)).message(),
        "Bencode decoding error: UnexpectedByte(120)"
    );
    assert_eq!(
        TorrentError::BencodeError(BencodeDecoderError::UnexpectedEof).message(),
        format!("Bencode decoding error: {:?}", BencodeDecoderError::UnexpectedEof)
    );
    let io = TorrentError::IoError(std::io::Error::new(std::io::ErrorKind::Other, "boom"));
    assert_eq!(io.message(), "IO error: boom");
    assert!(matches!(TorrentError::from(BencodeDecoderError::NonStringKey), TorrentError::BencodeError(BencodeDecoderError::NonStringKey)));
}

#[test]
fn from_metainfo_uses_the_given_hash() {
    let mut d = ratioup::bencode::BencodeDecoder::new(b"d8:announce9:http://a/4:infod4:name1:xee");
    let top = d.decode().unwrap();
    let t = Torrent::from_metainfo(&top, [0xff; 20]).unwrap();
    assert_eq!(t.info_hash, [0xff; 20]);
    assert_eq!(t.info_hash_urlencoded, "%FF".repeat(20));
}
