use jav_launcher::jav_config::{parse, BinaryType, ClientFile};
use jav_launcher::sync::{crc_matches, decode_response, download_url, get_crc, plan_fetch, plan_for_crc, FetchError, SyncAction};

fn file(name: &str, crc: &str) -> ClientFile {
    ClientFile { name: name.to_string(), crc: crc.to_string(), hash: "h".to_string() }
}

fn compress(data: &[u8]) -> Vec<u8> {
    let mut out = Vec::new();
    lzma_rs::lzma_compress(&mut &data[..], &mut out).unwrap();
    out
}

#[test]
fn crc_of_known_input() {
    assert_eq!(get_crc(b"123456789"), 0xCBF43926);
    assert_eq!(get_crc(b""), 0);
}

#[test]
fn crc_text_comparison() {
    let f = file("a", "3421780262");
    assert!(crc_matches(&f, 0xCBF43926));
    assert!(!crc_matches(&f, 0));
    assert!(!crc_matches(&file("a", "03421780262"), 0xCBF43926));
}

#[test]
fn mismatching_checksum_triggers_download() {
    let f = file("game.dat", "1");
    match plan_fetch(&f, "http://cdn/client?binaryType=2", Some(b"123456789")) {
        SyncAction::Download { url } => {
            assert_eq!(url, "http://cdn/client?binaryType=2&fileName=game.dat&crc=1")
        }
        SyncAction::Skip => panic!("expected a download"),
    }
}

#[test]
fn matching_checksum_skips() {
    let f = file("game.dat", "3421780262");
    assert!(matches!(plan_fetch(&f, "http://cdn/client?binaryType=2", Some(b"123456789")), SyncAction::Skip));
    assert!(matches!(plan_for_crc(&f, "base", Some(3421780262)), SyncAction::Skip));
    assert!(matches!(plan_for_crc(&f, "base", Some(1)), SyncAction::Download { .. }));
}

#[test]
fn second_run_on_current_cache_downloads_nothing() {
    let contents: Vec<Vec<u8>> = vec![b"alpha".to_vec(), b"beta".to_vec()];
    let files: Vec<ClientFile> = contents
        .iter()
        .enumerate()
        .map(|(i, c)| file(&format!("f{}", i), &get_crc(c).to_string()))
        .collect();
    let mut downloads = 0;
    for _run in 0..2 {
        for (f, c) in files.iter().zip(contents.iter()) {
            if let SyncAction::Download { .. } = plan_fetch(f, "http://cdn/client?binaryType=2", Some(c)) {
                downloads += 1;
            }
        }
    }
    assert_eq!(downloads, 0);
}

#[test]
fn end_to_end_missing_file_is_downloaded_once() {
    let raw = "codebase=http://cdn/\nbinary_count=1\ndownload_name_0=game.dat\ndownload_crc_0=12345\ndownload_hash_0=h";
    let mut config = parse(raw).unwrap();
    config.binary_type = BinaryType::Windows64;
    let base = config.get_base_url().unwrap();
    let mut urls = Vec::new();
    for f in config.files.iter() {
        if let SyncAction::Download { url } = plan_fetch(f, &base, None) {
            urls.push(url);
        }
    }
    assert_eq!(urls, vec!["http://cdn/client?binaryType=2&fileName=game.dat&crc=12345".to_string()]);
    let payload = b"game bytes".to_vec();
    let body = compress(&payload);
    assert_eq!(decode_response(200, &body).unwrap(), payload);
}

#[test]
fn download_url_format() {
    assert_eq!(download_url(&file("dir/x.bin", "9"), "B"), "B&fileName=dir/x.bin&crc=9");
}

#[test]
fn decode_response_errors() {
    assert!(matches!(decode_response(404, b""), Err(FetchError::HttpStatus { status: 404 })));
    assert!(matches!(decode_response(500, b""), Err(FetchError::HttpStatus { status: 500 })));
    assert!(matches!(decode_response(200, b"not lzma"), Err(FetchError::Decompress)));
    let body = compress(b"");
    assert_eq!(decode_response(204, &body).unwrap(), Vec::<u8>::new());
    let body = compress(b"xyz");
    assert_eq!(decode_response(200, &body).unwrap(), b"xyz".to_vec());
    assert!(matches!(decode_response(304, &body), Err(FetchError::HttpStatus { status: 304 })));
    assert!(matches!(decode_response(101, &body), Err(FetchError::HttpStatus { status: 101 })));
    assert!(matches!(decode_response(600, &body), Err(FetchError::HttpStatus { status: 600 })));
    assert_eq!(decode_response(299, &body).unwrap(), b"xyz".to_vec());
}
