use jav_launcher::jav_config::{parse, split_key_value, BinaryType, ClientFile, ConfigError, JavConfig};
use jav_launcher::launch::launch_arguments;
use jav_launcher::table::KeyValues;
use jav_launcher::text::{decimal_string, parse_count};

fn get<'a>(table: &'a KeyValues, key: &str) -> Option<&'a String> {
    table.get(&key.to_string())
}

fn config_with(codebase: Option<&str>, binary_type: BinaryType) -> JavConfig {
    let mut properties = KeyValues::new();
    if let Some(c) = codebase {
        properties.insert("codebase".to_string(), c.to_string());
    }
    JavConfig {
        binary_type,
        properties,
        messages: KeyValues::new(),
        params: KeyValues::new(),
        files: Vec::new(),
    }
}

#[test]
fn split_key_value_splits_at_first_equals() {
    let (k, v) = split_key_value("a=b=c").unwrap();
    assert_eq!(k, "a");
    assert_eq!(v, "b=c");
    let (k, v) = split_key_value("=").unwrap();
    assert_eq!(k, "");
    assert_eq!(v, "");
    assert!(split_key_value("abc").is_none());
}

#[test]
fn manifest_entries_move_to_files() {
    let raw = "binary_count=2\ndownload_name_0=a.dat\ndownload_crc_0=111\ndownload_hash_0=h0\n\
               download_name_1=b.dat\ndownload_crc_1=222\ndownload_hash_1=h1\n";
    let config = parse(raw).unwrap();
    assert_eq!(config.files.len(), 2);
    assert_eq!(config.files[0].name, "a.dat");
    assert_eq!(config.files[0].crc, "111");
    assert_eq!(config.files[0].hash, "h0");
    assert_eq!(config.files[1].name, "b.dat");
    assert_eq!(config.files[1].crc, "222");
    assert_eq!(config.files[1].hash, "h1");
    for key in [
        "download_name_0",
        "download_crc_0",
        "download_hash_0",
        "download_name_1",
        "download_crc_1",
        "download_hash_1",
    ] {
        assert!(get(&config.properties, key).is_none());
    }
    assert_eq!(get(&config.properties, "binary_count").unwrap(), "2");
    assert_eq!(config.binary_type, BinaryType::Unspecified);
}

#[test]
fn prefixes_choose_the_mapping() {
    let config = parse("msg=foo=bar\nparam=-host=example\ncodebase=http://x/").unwrap();
    assert_eq!(get(&config.messages, "foo").unwrap(), "bar");
    assert_eq!(get(&config.params, "-host").unwrap(), "example");
    assert_eq!(get(&config.properties, "codebase").unwrap(), "http://x/");
    assert!(get(&config.properties, "msg").is_none());
    assert!(get(&config.properties, "foo").is_none());
    assert!(config.files.is_empty());
}

#[test]
fn missing_manifest_field_is_an_error() {
    let r = parse("binary_count=1\ndownload_name_0=a.dat\ndownload_hash_0=h0");
    match r {
        Err(ConfigError::MissingField { key }) => assert_eq!(key, "download_crc_0"),
        _ => panic!("expected a missing field"),
    }
}

#[test]
fn line_without_equals_is_malformed() {
    let r = parse("a=1\n\nnot a pair\nb=2");
    match r {
        Err(ConfigError::MalformedLine { line }) => assert_eq!(line, 2),
        _ => panic!("expected a malformed line"),
    }
    assert!(matches!(parse("msg=novalue"), Err(ConfigError::MalformedLine { line: 0 })));
}

#[test]
fn parse_skips_empty_lines_and_carriage_returns() {
    let config = parse("a=1\r\n\r\n\nb=2\r\n").unwrap();
    assert_eq!(get(&config.properties, "a").unwrap(), "1");
    assert_eq!(get(&config.properties, "b").unwrap(), "2");
    assert_eq!(config.properties.entries().len(), 2);
    let empty = parse("").unwrap();
    assert!(empty.files.is_empty());
    assert!(empty.properties.entries().is_empty());
}

#[test]
fn later_line_replaces_earlier_value() {
    let config = parse("param=x=1\nparam=y=2\nparam=x=3").unwrap();
    let entries = config.params.entries();
    assert_eq!(entries.len(), 2);
    assert_eq!(entries[0], ("x".to_string(), "3".to_string()));
    assert_eq!(entries[1], ("y".to_string(), "2".to_string()));
}

#[test]
fn parse_is_deterministic() {
    let raw = "binary_count=1\ndownload_name_0=g.dat\ndownload_crc_0=5\ndownload_hash_0=h\nparam=p=q\nmsg=m=n";
    let a = parse(raw).unwrap();
    let b = parse(raw).unwrap();
    assert_eq!(a.properties.entries(), b.properties.entries());
    assert_eq!(a.messages.entries(), b.messages.entries());
    assert_eq!(a.params.entries(), b.params.entries());
    assert_eq!(a.files.len(), b.files.len());
    for (x, y) in a.files.iter().zip(b.files.iter()) {
        assert_eq!((&x.name, &x.crc, &x.hash), (&y.name, &y.crc, &y.hash));
    }
}

#[test]
fn unreadable_count_means_no_files() {
    for count in ["abc", "-1", "", "99999999999", "1x"] {
        let raw = format!("binary_count={}\ndownload_name_0=a\ndownload_crc_0=1\ndownload_hash_0=h", count);
        let config = parse(&raw).unwrap();
        assert!(config.files.is_empty());
        assert_eq!(get(&config.properties, "download_name_0").unwrap(), "a");
    }
    let config = parse("binary_count=+1\ndownload_name_0=a\ndownload_crc_0=1\ndownload_hash_0=h").unwrap();
    assert_eq!(config.files.len(), 1);
}

#[test]
fn count_parsing() {
    assert_eq!(parse_count("0"), 0);
    assert_eq!(parse_count("12"), 12);
    assert_eq!(parse_count("+7"), 7);
    assert_eq!(parse_count("2147483647"), 2147483647);
    assert_eq!(parse_count("2147483648"), 0);
    assert_eq!(parse_count("-3"), 0);
    assert_eq!(parse_count("+"), 0);
    assert_eq!(parse_count(""), 0);
    assert_eq!(parse_count(" 1"), 0);
}

#[test]
fn decimal_forms() {
    assert_eq!(decimal_string(0), "0");
    assert_eq!(decimal_string(7), "7");
    assert_eq!(decimal_string(10), "10");
    assert_eq!(decimal_string(4294967295), "4294967295");
}

#[test]
fn base_url_from_codebase_and_code() {
    let config = config_with(Some("http://cdn/"), BinaryType::Windows64);
    assert_eq!(config.get_base_url().unwrap(), "http://cdn/client?binaryType=2");
    let config = config_with(Some("http://cdn/"), BinaryType::WindowsCompat64);
    assert_eq!(config.get_base_url().unwrap(), "http://cdn/client?binaryType=6");
    let config = config_with(None, BinaryType::Linux);
    assert!(config.get_base_url().is_none());
}

#[test]
fn binary_type_codes() {
    let all = [
        BinaryType::Unspecified,
        BinaryType::Windows32,
        BinaryType::Windows64,
        BinaryType::Linux,
        BinaryType::OSX,
        BinaryType::WindowsCompat32,
        BinaryType::WindowsCompat64,
    ];
    for (i, t) in all.iter().enumerate() {
        assert_eq!(t.code() as usize, i);
    }
}

#[test]
fn key_values_insert_get_remove() {
    let mut t = KeyValues::new();
    t.insert("a".to_string(), "1".to_string());
    t.insert("b".to_string(), "2".to_string());
    t.insert("a".to_string(), "3".to_string());
    assert_eq!(get(&t, "a").unwrap(), "3");
    assert_eq!(t.remove(&"a".to_string()).unwrap(), "3");
    assert!(t.remove(&"a".to_string()).is_none());
    assert!(get(&t, "a").is_none());
    assert_eq!(t.entries().len(), 1);
    let f = ClientFile { name: "n".to_string(), crc: "1".to_string(), hash: "h".to_string() };
    assert_eq!(f.clone().name, "n");
}

#[test]
fn launch_arguments_flatten_params_in_order() {
    let config = parse("param=-host=example\nbinary_name=client.exe\nparam=-port=43594").unwrap();
    assert_eq!(launch_arguments(&config), vec!["-host", "example", "-port", "43594"]);
    let empty = parse("a=b").unwrap();
    assert!(launch_arguments(&empty).is_empty());
}
