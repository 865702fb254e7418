use dateifinder::paths::{file_name, name_extension, path_starts_with_exec};
use dateifinder::{classify, file_entry, stable_id};
use std::collections::hash_map::DefaultHasher;
use std::hash::{Hash, Hasher};
use std::path::Path;

#[test]
fn classification_is_case_insensitive() {
    assert_eq!(classify("JPG"), "image");
    assert_eq!(classify("Pdf"), "document");
    assert_eq!(classify("MP3"), "audio");
}

#[test]
fn classification_covers_each_kind_and_falls_back_to_text() {
    for ext in ["jpg", "jpeg", "png", "gif", "webp", "bmp", "tif", "tiff", "svg"] {
        assert_eq!(classify(ext), "image");
    }
    for ext in ["mp3", "wav", "flac", "ogg", "m4a", "aac"] {
        assert_eq!(classify(ext), "audio");
    }
    for ext in ["pdf", "doc", "docx", "odt", "xls", "xlsx", "ods", "ppt", "pptx"] {
        assert_eq!(classify(ext), "document");
    }
    for ext in ["", "txt", "rs", "jpgx", "JPEG2", "ＪＰＧ", "ÄPDF"] {
        assert_eq!(classify(ext), "text");
    }
}

#[test]
fn stable_id_is_sixteen_lowercase_hex_digits_and_deterministic() {
    let a = stable_id("/home/user/Urlaub/bild.jpg");
    let b = stable_id("/home/user/Urlaub/bild.jpg");
    let c = stable_id("/home/user/Urlaub/bild2.jpg");
    assert_eq!(a, b);
    assert_ne!(a, c);
    assert_eq!(a.len(), 16);
    assert!(a.chars().all(|ch| ch.is_ascii_digit() || ('a'..='f').contains(&ch)));
}

#[test]
fn stable_id_matches_default_hasher_formatting() {
    for path in ["", "/", "/tmp/a.txt", "Grüße_日本_ß Datei.txt"] {
        let mut hasher = DefaultHasher::new();
        path.hash(&mut hasher);
        assert_eq!(stable_id(path), format!("{:016x}", hasher.finish()));
    }
}

const SAMPLE_PATHS: [&str; 24] = [
    "", "/", ".", "..", "./", "a", "a/", "a/.", "a/..", "/a/b.txt", "/a/b.tar.gz", "/a/.bashrc",
    "/a/.config.toml", "/a/file.", "a//b", "./a/b", "/./a", "/a/./", "..a", "a..", "x/..b.c",
    "/tmp/Grüße_日本_ß Datei.txt", "//", "a/b/../c",
];

#[test]
fn file_name_agrees_with_std_path() {
    for p in SAMPLE_PATHS {
        let expected = Path::new(p).file_name().map(|n| n.as_encoded_bytes().to_vec());
        assert_eq!(file_name(p.as_bytes()), expected, "{p:?}");
    }
}

#[test]
fn extension_agrees_with_std_path() {
    for p in SAMPLE_PATHS {
        let expected = Path::new(p).extension().map(|n| n.as_encoded_bytes().to_vec());
        let got = file_name(p.as_bytes()).and_then(|n| name_extension(&n));
        assert_eq!(got, expected, "{p:?}");
    }
}

#[test]
fn starts_with_agrees_with_std_path() {
    for child in SAMPLE_PATHS {
        for base in SAMPLE_PATHS {
            assert_eq!(
                path_starts_with_exec(child.as_bytes(), base.as_bytes()),
                Path::new(child).starts_with(base),
                "{child:?} {base:?}"
            );
        }
    }
}

#[test]
fn file_entry_reports_name_extension_kind_and_metadata() {
    let e = file_entry(b"/data/Urlaub/Strand.JPG", 1234, Some(1_700_000_000_000));
    assert_eq!(e.display_name, "Strand.JPG");
    assert_eq!(e.extension, "JPG");
    assert_eq!(e.kind, "image");
    assert_eq!(e.path, "/data/Urlaub/Strand.JPG");
    assert_eq!(e.size_bytes, 1234);
    assert_eq!(e.modified_at, Some(1_700_000_000_000));
    assert_eq!(e.id, stable_id("/data/Urlaub/Strand.JPG"));
}

#[test]
fn file_entry_without_extension_is_text() {
    let e = file_entry(b"/data/.bashrc", 0, None);
    assert_eq!(e.display_name, ".bashrc");
    assert_eq!(e.extension, "");
    assert_eq!(e.kind, "text");
    assert_eq!(e.modified_at, None);
}

#[test]
fn containment_is_transitive_and_component_wise() {
    assert!(path_starts_with_exec(b"/a/b/c/d.txt", b"/a/b"));
    assert!(path_starts_with_exec(b"/a/b", b"/a"));
    assert!(path_starts_with_exec(b"/a/b/c/d.txt", b"/a"));
    assert!(path_starts_with_exec(b"/a/b/", b"/a/b"));
    assert!(path_starts_with_exec(b"/a//b/./c", b"/a/b/c"));
    assert!(!path_starts_with_exec(b"/a/bc", b"/a/b"));
    assert!(!path_starts_with_exec(b"/a", b"/a/b"));
    assert!(!path_starts_with_exec(b"a/b", b"/a"));
    assert!(!path_starts_with_exec(b"./a", b"a"));
}

#[test]
fn file_entry_decodes_invalid_bytes_with_replacement() {
    let e = file_entry(b"/data/caf\xe9.TXT", 7, None);
    assert_eq!(e.display_name, "caf\u{FFFD}.TXT");
    assert_eq!(e.path, "/data/caf\u{FFFD}.TXT");
    assert_eq!(e.extension, "TXT");
    assert_eq!(e.kind, "text");
    assert_eq!(e.id, stable_id("/data/caf\u{FFFD}.TXT"));
}

#[test]
fn file_name_keeps_bytes_that_are_not_text() {
    assert_eq!(file_name(b"/d/\xff\xfe"), Some(b"\xff\xfe".to_vec()));
    assert_eq!(name_extension(b"a.\xff"), Some(b"\xff".to_vec()));
    assert!(!path_starts_with_exec(b"/data/\xef\xbf\xbd/x", b"/data/\xff"));
    assert!(path_starts_with_exec(b"/data/\xff/x", b"/data/\xff"));
}
