use deploy_server::archive::{build_chain_archive, chain_archive_names_fit, entry_name_fits, zip_files};
use std::io::Read;

fn entries(bytes: &[u8]) -> Vec<(String, Vec<u8>)> {
    let mut archive = zip::ZipArchive::new(std::io::Cursor::new(bytes.to_vec())).unwrap();
    let mut out = Vec::new();
    for i in 0..archive.len() {
        let mut f = archive.by_index(i).unwrap();
        let mut data = Vec::new();
        f.read_to_end(&mut data).unwrap();
        out.push((f.name().to_string(), data));
    }
    out
}

#[test]
fn chain_archive_holds_its_files_in_order() {
    let seeds = vec![
        ("val_000.seed".to_string(), vec![1u8, 2, 3]),
        ("val_001.seed".to_string(), vec![4u8]),
    ];
    let bytes = build_chain_archive("net", &b"{}\n".to_vec(), &b"spec".to_vec(), &seeds, &Some(vec![9u8; 10]))
        .ok()
        .unwrap();
    let got = entries(&bytes);
    let names: Vec<&str> = got.iter().map(|(n, _)| n.as_str()).collect();
    assert_eq!(names, vec!["net_config.json", "spec.json", "keys/val_000.seed", "keys/val_001.seed", "polkajam"]);
    assert_eq!(got[0].1, b"{}\n".to_vec());
    assert_eq!(got[1].1, b"spec".to_vec());
    assert_eq!(got[2].1, vec![1u8, 2, 3]);
    assert_eq!(got[4].1, vec![9u8; 10]);
}

#[test]
fn chain_archive_without_binary() {
    let bytes = build_chain_archive("n", &vec![], &vec![], &vec![], &None).ok().unwrap();
    let got = entries(&bytes);
    let names: Vec<&str> = got.iter().map(|(n, _)| n.as_str()).collect();
    assert_eq!(names, vec!["n_config.json", "spec.json"]);
}

#[test]
fn zip_refuses_a_repeated_name() {
    let files = vec![("a".to_string(), vec![1u8]), ("a".to_string(), vec![2u8])];
    assert!(zip_files(&files).is_err());
    let same = zip_files(&vec![("x".to_string(), vec![7u8])]).ok().unwrap();
    let again = zip_files(&vec![("x".to_string(), vec![7u8])]).ok().unwrap();
    assert_eq!(same, again);
}

#[test]
fn chain_archive_refuses_repeated_seed_names() {
    let seeds = vec![("s".to_string(), vec![1u8]), ("s".to_string(), vec![2u8])];
    assert!(build_chain_archive("n", &vec![], &vec![], &seeds, &None).is_err());
}

#[test]
fn entry_names_fit_up_to_65535_utf8_bytes() {
    assert!(entry_name_fits(""));
    assert!(entry_name_fits(&"a".repeat(65535)));
    assert!(!entry_name_fits(&"a".repeat(65536)));
    // Two bytes each in UTF-8.
    assert!(entry_name_fits(&"\u{e9}".repeat(32767)));
    assert!(!entry_name_fits(&"\u{e9}".repeat(32768)));
    // Four bytes each.
    assert!(!entry_name_fits(&"\u{1F600}".repeat(16384)));
    assert!(entry_name_fits(&"\u{1F600}".repeat(16383)));
}

#[test]
fn chain_archive_names_fit_checks_config_and_key_names() {
    let seeds = vec![("val_000.seed".to_string(), vec![1u8])];
    // `_config.json` adds 12 bytes to the chain id.
    assert!(chain_archive_names_fit(&"c".repeat(65535 - 12), &seeds));
    assert!(!chain_archive_names_fit(&"c".repeat(65536 - 12), &seeds));
    // `keys/` adds 5 bytes to a seed's name.
    let long_seed = vec![("s".repeat(65535 - 5), vec![1u8])];
    assert!(chain_archive_names_fit("net", &long_seed));
    let too_long = vec![("s".repeat(65536 - 5), vec![1u8])];
    assert!(!chain_archive_names_fit("net", &too_long));
}
