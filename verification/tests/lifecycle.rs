use uhpm::archive::{packer, unpack_archive, ArchiveEntry};
use uhpm::catalog::Catalog;
use uhpm::engine::{check_for_update, World};
use uhpm::fsmodel::{FsNode, FsState};
use uhpm::manifest::{serialize_package_string, Package, Source};
use uhpm::paths::Env;
use uhpm::version::{parse_version_str, Version};

fn test_env() -> Env {
    Env::new(
        "/home/u".to_string(),
        "/home/u/.local/share".to_string(),
        "/home/u/.config".to_string(),
        "/home/u/.local/bin".to_string(),
    )
}

fn fresh_world() -> World {
    World {
        root: "/home/u/.uhpm".to_string(),
        env: test_env(),
        catalog: Catalog::new(),
        fs: FsState::new(),
    }
}

fn entry(path: &str, data: &[u8]) -> ArchiveEntry {
    ArchiveEntry { path: path.to_string(), data: data.to_vec(), is_dir: false }
}

fn hello_archive(version: &str, payload: &[u8]) -> Vec<u8> {
    let pkg = Package::new(
        "hello".to_string(),
        parse_version_str(version).unwrap(),
        "Tester".to_string(),
        Source::Raw("test://package".to_string()),
        "test-checksum".to_string(),
        vec![],
    );
    let manifest = serialize_package_string(&pkg);
    let entries = vec![
        entry("uhp.manifest", manifest.as_bytes()),
        entry("symlist", b"bin/hello $XDG_BIN_HOME/hello\n"),
        entry("bin/hello", payload),
    ];
    packer(&entries).unwrap()
}

fn install_archive_bytes(world: &mut World, bytes: &[u8]) {
    let entries = unpack_archive(&bytes.to_vec()).unwrap();
    world.install_entries(&entries, false).unwrap();
}

#[test]
fn test_pack_unpack_roundtrip() {
    let entries = vec![
        entry("uhp.manifest", b"ignored"),
        entry("symlist", b""),
        entry("bin/tool", b"\x7fELF payload bytes"),
    ];
    let bytes = packer(&entries).unwrap();
    let out = unpack_archive(&bytes).unwrap();
    assert_eq!(out.len(), 3);
    for (a, b) in entries.iter().zip(out.iter()) {
        assert_eq!(a.path, b.path);
        assert_eq!(a.data, b.data);
        assert_eq!(a.is_dir, b.is_dir);
    }
}

#[test]
fn test_packer_refuses_escaping_entry() {
    let entries = vec![entry("../etc/passwd", b"x")];
    match packer(&entries) {
        Err(uhpm::UhpmError::UnsafePath(_)) => {}
        other => panic!("expected an unsafe-path refusal, got {:?}", other),
    }
    let entries = vec![entry("/abs/path", b"x")];
    assert!(matches!(packer(&entries), Err(uhpm::UhpmError::UnsafePath(_))));
}

fn raw_tar_record(path: &str, data: &[u8]) -> Vec<u8> {
    // A single hand-built ustar record, for entry names the tar builder
    // itself refuses to write.
    let mut h = [0u8; 512];
    h[..path.len()].copy_from_slice(path.as_bytes());
    h[100..107].copy_from_slice(b"0000644");
    h[108..115].copy_from_slice(b"0000000");
    h[116..123].copy_from_slice(b"0000000");
    let size = format!("{:011o}", data.len());
    h[124..135].copy_from_slice(size.as_bytes());
    h[136..147].copy_from_slice(b"00000000000");
    h[156] = b'0';
    h[257..262].copy_from_slice(b"ustar");
    h[263..265].copy_from_slice(b"00");
    for b in h[148..156].iter_mut() {
        *b = b' ';
    }
    let sum: u32 = h.iter().map(|b| *b as u32).sum();
    let cks = format!("{:06o}\0 ", sum);
    h[148..156].copy_from_slice(cks.as_bytes());
    let mut out = h.to_vec();
    out.extend_from_slice(data);
    let padded = 512 * ((data.len() + 511) / 512);
    out.resize(512 + padded, 0);
    out.extend_from_slice(&[0u8; 1024]);
    out
}

#[test]
fn test_archive_escape_rejected() {
    // An archive naming `../etc/passwd` fails extraction with no effect.
    let tar_bytes = raw_tar_record("../etc/passwd", b"evil");
    let mut enc = flate2::write::GzEncoder::new(Vec::new(), flate2::Compression::default());
    std::io::Write::write_all(&mut enc, &tar_bytes).unwrap();
    let bytes = enc.finish().unwrap();
    match unpack_archive(&bytes) {
        Err(uhpm::UhpmError::UnsafePath(_)) => {}
        other => panic!("expected an unsafe-path refusal, got {:?}", other),
    }
}

#[test]
fn test_install_list_remove() {
    let mut world = fresh_world();
    let bytes = hello_archive("1.0.0", b"#!/bin/sh\necho hello");
    install_archive_bytes(&mut world, &bytes);

    let rows = world.catalog.list_packages();
    assert_eq!(rows.len(), 1);
    assert_eq!(rows[0].0, "hello");
    assert_eq!(rows[0].1, "1.0.0");
    assert!(rows[0].2);

    // The activation link points into the owning package tree.
    match world.fs.get(&"/home/u/.local/bin/hello".to_string()) {
        Some(FsNode::Symlink { target }) => {
            assert_eq!(target, "/home/u/.uhpm/packages/hello-1.0.0/bin/hello");
        }
        other => panic!("expected a symlink, got {:?}", other),
    }

    world.remove(&"hello".to_string(), false).unwrap();
    assert!(world.catalog.list_packages().is_empty());
    assert!(world.fs.get(&"/home/u/.local/bin/hello".to_string()).is_none());
    assert!(world
        .fs
        .get(&"/home/u/.uhpm/packages/hello-1.0.0".to_string())
        .is_none());
    assert!(world
        .fs
        .get(&"/home/u/.uhpm/packages/hello-1.0.0/bin/hello".to_string())
        .is_none());
}

#[test]
fn test_install_twice_is_noop() {
    let mut world = fresh_world();
    let bytes = hello_archive("1.0.0", b"payload");
    install_archive_bytes(&mut world, &bytes);
    let rows_before = world.catalog.list_packages();
    let fs_len_before = world.fs.entries.len();
    install_archive_bytes(&mut world, &bytes);
    assert_eq!(world.catalog.list_packages(), rows_before);
    assert_eq!(world.fs.entries.len(), fs_len_before);
}

#[test]
fn test_install_with_empty_activation_map() {
    let pkg = Package::new(
        "quiet".to_string(),
        Version::new(1, 0, 0),
        "Tester".to_string(),
        Source::Raw("r".to_string()),
        "c".to_string(),
        vec![],
    );
    let manifest = serialize_package_string(&pkg);
    let entries = vec![
        entry("uhp.manifest", manifest.as_bytes()),
        entry("symlist", b"# nothing to activate\n"),
        entry("data/readme", b"text"),
    ];
    let bytes = packer(&entries).unwrap();
    let mut world = fresh_world();
    install_archive_bytes(&mut world, &bytes);
    let files = world
        .catalog
        .get_installed_files(&"quiet".to_string(), &Version::new(1, 0, 0));
    assert!(files.is_empty());
    assert_eq!(world.catalog.list_packages().len(), 1);
}

#[test]
fn test_install_creates_target_parent() {
    let mut world = fresh_world();
    let bytes = hello_archive("1.0.0", b"payload");
    install_archive_bytes(&mut world, &bytes);
    match world.fs.get(&"/home/u/.local/bin".to_string()) {
        Some(FsNode::Dir) => {}
        other => panic!("expected the target's parent directory, got {:?}", other),
    }
}

#[test]
fn test_install_replaces_user_file_remove_spares_foreign() {
    // A pre-placed user file at the target is replaced by the link.
    let mut world = fresh_world();
    world.fs.set(
        "/home/u/.local/bin/hello".to_string(),
        FsNode::Regular { data: b"user data".to_vec() },
    );
    let bytes = hello_archive("1.0.0", b"payload");
    install_archive_bytes(&mut world, &bytes);
    assert!(matches!(
        world.fs.get(&"/home/u/.local/bin/hello".to_string()),
        Some(FsNode::Symlink { .. })
    ));

    // A foreign link planted at the recorded path survives the removal.
    world.fs.set(
        "/home/u/.local/bin/hello".to_string(),
        FsNode::Symlink { target: "/somewhere/else".to_string() },
    );
    world.remove(&"hello".to_string(), false).unwrap();
    match world.fs.get(&"/home/u/.local/bin/hello".to_string()) {
        Some(FsNode::Symlink { target }) => assert_eq!(target, "/somewhere/else"),
        other => panic!("the foreign link should survive, got {:?}", other),
    }
}

#[test]
fn test_switch_between_versions() {
    let mut world = fresh_world();
    install_archive_bytes(&mut world, &hello_archive("1.0.0", b"one"));
    install_archive_bytes(&mut world, &hello_archive("2.0.0", b"two"));

    // The second install overwrote the first version's link.
    match world.fs.get(&"/home/u/.local/bin/hello".to_string()) {
        Some(FsNode::Symlink { target }) => {
            assert_eq!(target, "/home/u/.uhpm/packages/hello-2.0.0/bin/hello");
        }
        other => panic!("expected a symlink, got {:?}", other),
    }
    let rows = world.catalog.list_packages();
    assert_eq!(rows.len(), 2);
    for row in &rows {
        assert_eq!(row.2, row.1 == "2.0.0");
    }

    world
        .switch_version(&"hello".to_string(), &Version::new(1, 0, 0), false)
        .unwrap();
    match world.fs.get(&"/home/u/.local/bin/hello".to_string()) {
        Some(FsNode::Symlink { target }) => {
            assert_eq!(target, "/home/u/.uhpm/packages/hello-1.0.0/bin/hello");
        }
        other => panic!("expected a symlink, got {:?}", other),
    }
    for row in &world.catalog.list_packages() {
        assert_eq!(row.2, row.1 == "1.0.0");
    }
}

#[test]
fn test_switch_round_trip_restores_links() {
    let mut world = fresh_world();
    install_archive_bytes(&mut world, &hello_archive("1.0.0", b"one"));
    install_archive_bytes(&mut world, &hello_archive("2.0.0", b"two"));
    world
        .switch_version(&"hello".to_string(), &Version::new(1, 0, 0), false)
        .unwrap();
    let link_before = match world.fs.get(&"/home/u/.local/bin/hello".to_string()) {
        Some(FsNode::Symlink { target }) => target.clone(),
        other => panic!("expected a symlink, got {:?}", other),
    };
    world
        .switch_version(&"hello".to_string(), &Version::new(2, 0, 0), false)
        .unwrap();
    world
        .switch_version(&"hello".to_string(), &Version::new(1, 0, 0), false)
        .unwrap();
    match world.fs.get(&"/home/u/.local/bin/hello".to_string()) {
        Some(FsNode::Symlink { target }) => assert_eq!(*target, link_before),
        other => panic!("expected a symlink, got {:?}", other),
    }
}

#[test]
fn test_switch_missing_tree_fails() {
    let mut world = fresh_world();
    install_archive_bytes(&mut world, &hello_archive("1.0.0", b"one"));
    match world.switch_version(&"hello".to_string(), &Version::new(9, 9, 9), false) {
        Err(uhpm::UhpmError::MissingPackageDir(_)) => {}
        other => panic!("expected a missing-package-dir failure, got {:?}", other),
    }
}

#[test]
fn test_remove_current_elects_remaining_max() {
    let mut world = fresh_world();
    install_archive_bytes(&mut world, &hello_archive("1.0.0", b"one"));
    install_archive_bytes(&mut world, &hello_archive("1.5.0", b"mid"));
    install_archive_bytes(&mut world, &hello_archive("2.0.0", b"two"));
    world.remove(&"hello".to_string(), false).unwrap();
    let rows = world.catalog.list_packages();
    assert_eq!(rows.len(), 2);
    for row in &rows {
        assert_eq!(row.2, row.1 == "1.5.0");
    }
    // The re-elected version is activated again.
    match world.fs.get(&"/home/u/.local/bin/hello".to_string()) {
        Some(FsNode::Symlink { target }) => {
            assert_eq!(target, "/home/u/.uhpm/packages/hello-1.5.0/bin/hello");
        }
        other => panic!("expected a symlink, got {:?}", other),
    }
}

#[test]
fn test_remove_then_install_restores_state() {
    let mut world = fresh_world();
    let bytes = hello_archive("1.0.0", b"payload");
    install_archive_bytes(&mut world, &bytes);
    let rows_once = world.catalog.list_packages();
    let files_once = world
        .catalog
        .get_installed_files(&"hello".to_string(), &Version::new(1, 0, 0));
    world.remove(&"hello".to_string(), false).unwrap();
    install_archive_bytes(&mut world, &bytes);
    assert_eq!(world.catalog.list_packages(), rows_once);
    assert_eq!(
        world
            .catalog
            .get_installed_files(&"hello".to_string(), &Version::new(1, 0, 0)),
        files_once
    );
    match world.fs.get(&"/home/u/.local/bin/hello".to_string()) {
        Some(FsNode::Symlink { target }) => {
            assert_eq!(target, "/home/u/.uhpm/packages/hello-1.0.0/bin/hello");
        }
        other => panic!("expected a symlink, got {:?}", other),
    }
}

#[test]
fn test_sequential_install_of_fetched_archives() {
    // Three archives, fetched in any order, install sequentially; each name
    // ends with its own current version.
    let mut world = fresh_world();
    let mut archives: Vec<Vec<u8>> = Vec::new();
    for name in ["a", "b", "c"] {
        let pkg = Package::new(
            name.to_string(),
            Version::new(1, 0, 0),
            "Tester".to_string(),
            Source::Url(format!("https://example.com/{}.uhp", name)),
            "c".to_string(),
            vec![],
        );
        let manifest = serialize_package_string(&pkg);
        let entries = vec![
            entry("uhp.manifest", manifest.as_bytes()),
            entry("symlist", format!("bin/{} $XDG_BIN_HOME/{}\n", name, name).as_bytes()),
            entry(&format!("bin/{}", name), b"payload"),
        ];
        archives.push(packer(&entries).unwrap());
    }
    world.install_fetched_packages(&archives, false).unwrap();
    let rows = world.catalog.list_packages();
    assert_eq!(rows.len(), 3);
    for row in &rows {
        assert!(row.2, "each package's own version is current");
    }
}

#[test]
fn test_check_for_update() {
    let installed = Version::new(1, 0, 0);
    let index = vec![
        ("hello".to_string(), "1.0.0".to_string(), "u1".to_string()),
        ("hello".to_string(), "1.2.0".to_string(), "u2".to_string()),
        ("other".to_string(), "9.0.0".to_string(), "u3".to_string()),
    ];
    let url = check_for_update(&"hello".to_string(), &installed, &index).unwrap();
    assert_eq!(url, "u2");

    // Installed equals the repository maximum: no new version.
    let installed = parse_version_str("1.2.0").unwrap();
    match check_for_update(&"hello".to_string(), &installed, &index) {
        Err(uhpm::UhpmError::NoNewVersion(_)) => {}
        other => panic!("expected no new version, got {:?}", other),
    }
}

#[test]
fn test_repo_lookup_and_latest() {
    let index = vec![
        ("hello".to_string(), "1.0.0".to_string(), "u1".to_string()),
        ("hello".to_string(), "2.0.0".to_string(), "u2".to_string()),
        ("hello".to_string(), "not-a-version".to_string(), "u3".to_string()),
    ];
    let url =
        uhpm::repo::get_package_url(&index, &"hello".to_string(), &"1.0.0".to_string()).unwrap();
    assert_eq!(url, "u1");
    assert!(
        uhpm::repo::get_package_url(&index, &"absent".to_string(), &"1.0.0".to_string()).is_err()
    );
    let (v, url) = uhpm::repo::latest_package(&index, &"hello".to_string()).unwrap();
    assert_eq!(uhpm::version::version_to_string(&v), "2.0.0");
    assert_eq!(url, "u2");
    assert!(uhpm::repo::latest_package(&index, &"absent".to_string()).is_none());
}

#[test]
fn test_plan_fetch() {
    match uhpm::fetcher::plan_fetch("file:///srv/repo/pkg.uhp").unwrap() {
        uhpm::fetcher::FetchPlan::Local(p) => assert_eq!(p, "/srv/repo/pkg.uhp"),
        other => panic!("expected a local plan, got {:?}", other),
    }
    match uhpm::fetcher::plan_fetch("https://example.com/dl/pkg.uhp").unwrap() {
        uhpm::fetcher::FetchPlan::Remote(f) => assert_eq!(f, "pkg.uhp"),
        other => panic!("expected a remote plan, got {:?}", other),
    }
    match uhpm::fetcher::plan_fetch("/plain/path.uhp").unwrap() {
        uhpm::fetcher::FetchPlan::Local(p) => assert_eq!(p, "/plain/path.uhp"),
        other => panic!("expected a local plan, got {:?}", other),
    }
    assert!(uhpm::fetcher::plan_fetch("file:///srv/../etc/passwd").is_err());
}

#[test]
fn test_direct_mode_copies_bytes() {
    let mut world = fresh_world();
    let pkg = Package::new(
        "hello".to_string(),
        Version::new(1, 0, 0),
        "Tester".to_string(),
        Source::Raw("r".to_string()),
        "c".to_string(),
        vec![],
    );
    let manifest = serialize_package_string(&pkg);
    let entries = vec![
        entry("uhp.manifest", manifest.as_bytes()),
        entry("symlist", b"bin/hello $XDG_BIN_HOME/hello\n"),
        entry("bin/hello", b"the payload"),
    ];
    let bytes = packer(&entries).unwrap();
    let unpacked = unpack_archive(&bytes).unwrap();
    world.install_entries(&unpacked, true).unwrap();
    match world.fs.get(&"/home/u/.local/bin/hello".to_string()) {
        Some(FsNode::Regular { data }) => assert_eq!(data, b"the payload"),
        other => panic!("expected a byte copy, got {:?}", other),
    }
}

#[test]
fn test_unpack_garbage_is_io_error() {
    match unpack_archive(&b"not a gzip stream".to_vec()) {
        Err(uhpm::UhpmError::Io(_)) => {}
        other => panic!("expected an I/O failure, got {:?}", other),
    }
}

#[test]
fn test_install_rejects_invalid_name() {
    let pkg = Package::new(
        "bad/name".to_string(),
        Version::new(1, 0, 0),
        "Tester".to_string(),
        Source::Raw("r".to_string()),
        "c".to_string(),
        vec![],
    );
    let manifest = serialize_package_string(&pkg);
    let entries = vec![entry("uhp.manifest", manifest.as_bytes())];
    let mut world = fresh_world();
    let unpacked = unpack_archive(&packer(&entries).unwrap()).unwrap();
    match world.install_entries(&unpacked, false) {
        Err(uhpm::UhpmError::Validation(_)) => {}
        other => panic!("expected a validation failure, got {:?}", other),
    }
}

#[test]
fn test_install_rejects_relative_target() {
    let pkg = Package::new(
        "rel".to_string(),
        Version::new(1, 0, 0),
        "Tester".to_string(),
        Source::Raw("r".to_string()),
        "c".to_string(),
        vec![],
    );
    let manifest = serialize_package_string(&pkg);
    let entries = vec![
        entry("uhp.manifest", manifest.as_bytes()),
        entry("symlist", b"bin/x not-an-absolute-target\n"),
        entry("bin/x", b"x"),
    ];
    let mut world = fresh_world();
    let unpacked = unpack_archive(&packer(&entries).unwrap()).unwrap();
    match world.install_entries(&unpacked, false) {
        Err(uhpm::UhpmError::Validation(_)) => {}
        other => panic!("expected a validation failure, got {:?}", other),
    }
    // Nothing was written.
    assert!(world.fs.entries.is_empty());
    assert!(world.catalog.list_packages().is_empty());
}

#[test]
fn test_install_rejects_malformed_activation_map() {
    let pkg = Package::new(
        "badmap".to_string(),
        Version::new(1, 0, 0),
        "Tester".to_string(),
        Source::Raw("r".to_string()),
        "c".to_string(),
        vec![],
    );
    let manifest = serialize_package_string(&pkg);
    let entries = vec![
        entry("uhp.manifest", manifest.as_bytes()),
        entry("symlist", b"only-one-field\n"),
    ];
    let mut world = fresh_world();
    let unpacked = unpack_archive(&packer(&entries).unwrap()).unwrap();
    match world.install_entries(&unpacked, false) {
        Err(uhpm::UhpmError::Parse(_)) => {}
        other => panic!("expected a parse failure, got {:?}", other),
    }
}

#[test]
fn test_set_current_absent_version_is_not_found() {
    let mut catalog = Catalog::new();
    match catalog.set_current_version(&"ghost".to_string(), &Version::new(1, 0, 0)) {
        Err(uhpm::UhpmError::NotFound(_)) => {}
        other => panic!("expected a not-found failure, got {:?}", other),
    }
}

#[test]
fn test_catalog_records_dependencies() {
    let mut world = fresh_world();
    let pkg = Package::new(
        "leaf".to_string(),
        Version::new(1, 0, 0),
        "Tester".to_string(),
        Source::Raw("r".to_string()),
        "c".to_string(),
        vec![
            ("base".to_string(), Version::new(2, 0, 0)),
            ("extra".to_string(), Version::new(3, 1, 4)),
        ],
    );
    let manifest = serialize_package_string(&pkg);
    let entries = vec![entry("uhp.manifest", manifest.as_bytes())];
    let unpacked = unpack_archive(&packer(&entries).unwrap()).unwrap();
    world.install_entries(&unpacked, false).unwrap();
    let stored = world
        .catalog
        .get_current_package(&"leaf".to_string())
        .unwrap();
    let deps = stored.dependencies();
    assert_eq!(deps.len(), 2);
    assert_eq!(deps[0].0, "base");
    assert_eq!(uhpm::version::version_to_string(&deps[1].1), "3.1.4");
}

#[test]
fn test_check_all_updates() {
    let installed = vec![
        ("hello".to_string(), Version::new(1, 0, 0)),
        ("stale".to_string(), Version::new(2, 0, 0)),
    ];
    let index = vec![
        ("hello".to_string(), "1.2.0".to_string(), "u-hello".to_string()),
        ("stale".to_string(), "2.0.0".to_string(), "u-stale".to_string()),
    ];
    let updates = uhpm::engine::check_all_updates(&installed, &index);
    assert_eq!(updates.len(), 1);
    assert_eq!(updates[0].0, "hello");
    assert_eq!(updates[0].1, "1.0.0");
    assert_eq!(updates[0].2, "1.2.0");
    assert_eq!(updates[0].3, "u-hello");
}

#[test]
fn test_packer_refuses_nul_in_name() {
    let entries = vec![entry("bad\u{0}name", b"x")];
    match packer(&entries) {
        Err(uhpm::UhpmError::Validation(_)) => {}
        other => panic!("expected a validation refusal, got {:?}", other),
    }
}

#[test]
fn test_catalog_invariant_check() {
    let mut world = fresh_world();
    install_archive_bytes(&mut world, &hello_archive("1.0.0", b"payload"));
    assert!(world.catalog.check_invariant());
    // A duplicated current flag for one name violates the invariant.
    let mut row = world.catalog.packages[0].clone();
    row.version = Version::new(9, 9, 9);
    row.current = true;
    world.catalog.packages.push(row);
    assert!(!world.catalog.check_invariant());
}

#[test]
fn test_present_pair_wins_over_later_validation() {
    // Once the exact pair is recorded, a second archive for it returns
    // success before its activation map is even examined.
    let mut world = fresh_world();
    install_archive_bytes(&mut world, &hello_archive("1.0.0", b"payload"));
    let pkg = Package::new(
        "hello".to_string(),
        Version::new(1, 0, 0),
        "Tester".to_string(),
        Source::Raw("test://package".to_string()),
        "test-checksum".to_string(),
        vec![],
    );
    let manifest = serialize_package_string(&pkg);
    let entries = vec![
        entry("uhp.manifest", manifest.as_bytes()),
        entry("symlist", b"only-one-field\n"),
    ];
    let bytes = packer(&entries).unwrap();
    let unpacked = unpack_archive(&bytes).unwrap();
    let rows_before = world.catalog.list_packages();
    world.install_entries(&unpacked, false).unwrap();
    assert_eq!(world.catalog.list_packages(), rows_before);
}
