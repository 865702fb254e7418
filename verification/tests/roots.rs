use dateifinder::{admit_search_root, canonical_child, validated_allowed_file, AllowedRoots};

fn bytes(s: &str) -> Vec<u8> {
    s.as_bytes().to_vec()
}

fn ok(s: &str) -> Result<Vec<u8>, String> {
    Ok(bytes(s))
}

fn gone(e: &str) -> Result<Vec<u8>, String> {
    Err(e.to_string())
}

#[test]
fn canonical_child_accepts_child_below_root() {
    assert_eq!(canonical_child(ok("/srv/root"), ok("/srv/root/a/b.txt")), ok("/srv/root/a/b.txt"));
    assert_eq!(canonical_child(ok("/srv/root"), ok("/srv/root")), ok("/srv/root"));
    assert_eq!(canonical_child(ok("/"), ok("/etc/passwd")), ok("/etc/passwd"));
}

#[test]
fn canonical_child_compares_whole_components() {
    assert_eq!(
        canonical_child(ok("/srv/root"), ok("/srv/rootkit/x.txt")),
        Err("Die Datei liegt außerhalb des freigegebenen Suchorts.".to_string())
    );
    assert!(canonical_child(ok("/srv/root"), ok("/srv/x.txt")).is_err());
    assert!(canonical_child(ok("/srv/root/a"), ok("/srv/root")).is_err());
}

#[test]
fn canonical_child_reports_unavailable_root_before_file() {
    assert_eq!(
        canonical_child(gone("No such file or directory (os error 2)"), gone("other")),
        Err("Suchort ist nicht verfügbar: No such file or directory (os error 2)".to_string())
    );
    assert_eq!(
        canonical_child(ok("/srv/root"), gone("No such file or directory (os error 2)")),
        Err("Datei ist nicht verfügbar: No such file or directory (os error 2)".to_string())
    );
}

#[test]
fn unicode_child_inside_root_is_accepted() {
    let root = "/tmp/unicode-root";
    let child = "/tmp/unicode-root/Ünicode 日本 😀 mit leerzeichen.txt";
    assert_eq!(canonical_child(ok(root), ok(child)), ok(child));
}

#[test]
fn allowed_roots_register_and_refuse_beyond_limit() {
    let mut roots = AllowedRoots::new();
    assert!(!roots.contains(&bytes("/a")));
    assert_eq!(roots.register(bytes("/a")), Ok(()));
    assert_eq!(roots.register(bytes("/a")), Ok(()));
    assert_eq!(roots.len(), 1);
    assert!(roots.contains(&bytes("/a")));
    for i in 1..64 {
        assert_eq!(roots.register(format!("/r{i}").into_bytes()), Ok(()));
    }
    assert_eq!(roots.len(), 64);
    assert_eq!(
        roots.register(bytes("/one-too-many")),
        Err("Zu viele Suchorte in dieser Sitzung. Bitte DateiFinder neu starten.".to_string())
    );
    assert_eq!(roots.register(bytes("/r7")), Ok(()));
    assert_eq!(roots.len(), 64);
    assert!(!roots.contains(&bytes("/one-too-many")));
}

fn registry_with(root: &str) -> AllowedRoots {
    let mut roots = AllowedRoots::new();
    roots.register(bytes(root)).unwrap();
    roots
}

#[test]
fn validated_allowed_file_rejects_foreign_root() {
    let roots = registry_with("/tmp/allowed");
    assert_eq!(
        validated_allowed_file(
            &roots,
            ok("/tmp/foreign"),
            ok("/tmp/foreign"),
            ok("/tmp/foreign/secret.txt"),
            true
        ),
        Err("Der Suchort wurde in dieser Sitzung nicht freigegeben.".to_string())
    );
}

#[test]
fn validated_allowed_file_accepts_released_file() {
    let roots = registry_with("/tmp/allowed");
    assert_eq!(
        validated_allowed_file(
            &roots,
            ok("/tmp/allowed"),
            ok("/tmp/allowed"),
            ok("/tmp/allowed/inside.txt"),
            true
        ),
        ok("/tmp/allowed/inside.txt")
    );
}

#[test]
fn validated_allowed_file_fails_closed_on_each_step() {
    let roots = registry_with("/tmp/allowed");
    let r = validated_allowed_file(&roots, gone("gone"), ok("x"), ok("y"), true);
    assert_eq!(r, Err("Suchort ist nicht verfügbar: gone".to_string()));
    let r = validated_allowed_file(&roots, ok("/tmp/allowed"), ok("/tmp/allowed"), gone("gone"), true);
    assert_eq!(r, Err("Datei ist nicht verfügbar: gone".to_string()));
    let r = validated_allowed_file(
        &roots,
        ok("/tmp/allowed"),
        ok("/tmp/allowed"),
        ok("/tmp/elsewhere/file.txt"),
        true,
    );
    assert_eq!(r, Err("Die Datei liegt außerhalb des freigegebenen Suchorts.".to_string()));
    let r = validated_allowed_file(
        &roots,
        ok("/tmp/allowed"),
        ok("/tmp/allowed"),
        ok("/tmp/allowed/dir"),
        false,
    );
    assert_eq!(r, Err("Die ausgewählte Datei ist nicht mehr vorhanden.".to_string()));
}

#[test]
fn admit_search_root_releases_canonical_folder() {
    let mut roots = AllowedRoots::new();
    assert_eq!(
        admit_search_root(&mut roots, "/home/u/Alias".to_string(), ok("/home/u/Real"), true),
        Ok("/home/u/Alias".to_string())
    );
    assert!(roots.contains(&bytes("/home/u/Real")));
    assert!(!roots.contains(&bytes("/home/u/Alias")));
    assert_eq!(
        admit_search_root(&mut roots, "f".to_string(), ok("/home/u/f.txt"), false),
        Err("Der gewählte Suchort ist kein Ordner.".to_string())
    );
    assert_eq!(
        admit_search_root(&mut roots, "g".to_string(), gone("denied"), true),
        Err("Suchort kann nicht geöffnet werden: denied".to_string())
    );
    assert_eq!(roots.len(), 1);
}

#[test]
fn roots_are_compared_byte_for_byte() {
    let invalid: Vec<u8> = b"/data/\xff".to_vec();
    let replaced = bytes("/data/\u{FFFD}");
    let mut roots = AllowedRoots::new();
    assert_eq!(roots.register(invalid.clone()), Ok(()));
    assert!(roots.contains(&invalid));
    assert!(!roots.contains(&replaced));
    assert_eq!(
        validated_allowed_file(
            &roots,
            Ok(replaced.clone()),
            Ok(replaced.clone()),
            ok("/data/\u{FFFD}/secret.txt"),
            true
        ),
        Err("Der Suchort wurde in dieser Sitzung nicht freigegeben.".to_string())
    );
    assert_eq!(
        canonical_child(Ok(invalid.clone()), ok("/data/\u{FFFD}/secret.txt")),
        Err("Die Datei liegt außerhalb des freigegebenen Suchorts.".to_string())
    );
    let mut inside = invalid.clone();
    inside.extend_from_slice(b"/secret.txt");
    assert_eq!(
        validated_allowed_file(&roots, Ok(invalid.clone()), Ok(invalid.clone()), Ok(inside.clone()), true),
        Ok(inside)
    );
}

#[test]
fn admitting_adds_at_most_one_root_and_refusals_change_nothing() {
    let mut roots = AllowedRoots::new();
    for i in 0..64 {
        let before = roots.len();
        let r = admit_search_root(&mut roots, format!("p{i}"), Ok(format!("/r{i}").into_bytes()), true);
        assert_eq!(r, Ok(format!("p{i}")));
        assert_eq!(roots.len(), before + 1);
    }
    assert_eq!(
        admit_search_root(&mut roots, "q".to_string(), ok("/r64"), true),
        Err("Zu viele Suchorte in dieser Sitzung. Bitte DateiFinder neu starten.".to_string())
    );
    assert_eq!(roots.len(), 64);
    assert!(!roots.contains(&bytes("/r64")));
    assert_eq!(admit_search_root(&mut roots, "again".to_string(), ok("/r5"), true), Ok("again".to_string()));
    assert_eq!(roots.len(), 64);
}

#[test]
fn released_roots_are_compared_as_paths() {
    let samples = ["/a/b", "/a/b/", "/a//b", "/a/./b", "/a/b/c", "/a", "a/b", "/a/bc", "/"];
    for registered in samples {
        let mut roots = AllowedRoots::new();
        roots.register(bytes(registered)).unwrap();
        let mut expected = std::collections::HashSet::new();
        expected.insert(std::path::PathBuf::from(registered));
        for probe in samples {
            assert_eq!(
                roots.contains(&bytes(probe)),
                expected.contains(&std::path::PathBuf::from(probe)),
                "{registered:?} {probe:?}"
            );
        }
    }
    let mut roots = AllowedRoots::new();
    assert_eq!(roots.register(bytes("/a/b")), Ok(()));
    assert_eq!(roots.register(bytes("/a/b/")), Ok(()));
    assert_eq!(roots.len(), 1);
    assert_eq!(
        validated_allowed_file(&roots, ok("/a/b/"), ok("/a/b/"), ok("/a/b/f.txt"), true),
        ok("/a/b/f.txt")
    );
}
