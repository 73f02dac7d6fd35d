use engine::vfs::{Vfs, VfsError};

#[test]
fn test_path_normalization() {
    assert_eq!(Vfs::normalize_path("/a/b/c"), "/a/b/c");
    assert_eq!(Vfs::normalize_path("/a/../b/c"), "/b/c");
    assert_eq!(Vfs::normalize_path("a/./b/../c"), "a/c");
    assert_eq!(Vfs::normalize_path("///a//b"), "/a/b");
    assert_eq!(Vfs::normalize_path("/"), "/");
    assert_eq!(Vfs::normalize_path(""), ".");
}

#[test]
fn test_resolve_path() {
    let mut vfs = Vfs::new();
    assert_eq!(vfs.resolve_path("a/b"), "/a/b");
    vfs.set_cwd("/home");
    assert_eq!(vfs.resolve_path("docs"), "/home/docs");
    assert_eq!(vfs.resolve_path("../etc"), "/etc");
    assert_eq!(vfs.resolve_path("/tmp"), "/tmp");
}

#[test]
fn test_memory_vfs() {
    let mut vfs = Vfs::new();
    vfs.write_file_mem("/tmp/test.txt", b"hello".to_vec());
    let content = vfs.read_file_sync("/tmp/test.txt", 0, 5).unwrap();
    assert_eq!(content, b"hello");

    vfs.write_file_sync("/tmp/test.txt", b" world", 5).unwrap();
    let content = vfs.read_file_sync("/tmp/test.txt", 0, 11).unwrap();
    assert_eq!(content, b"hello world");

    assert_eq!(vfs.read_file_sync("/dev/null", 0, 100).unwrap(), Vec::<u8>::new());
    assert_eq!(vfs.read_file_sync("/dev/zero", 0, 10).unwrap(), vec![0; 10]);
    assert_eq!(vfs.write_file_sync("/dev/null", b"data", 0).unwrap(), 4);
}

#[test]
fn normalize_is_idempotent_on_examples() {
    for p in ["/a/../b/./c/", "x/../../y", "", "/", "..", "./a//b/", "/../.."] {
        let once = Vfs::normalize_path(p);
        assert_eq!(Vfs::normalize_path(&once), once);
    }
}

#[test]
fn normalize_edge_cases() {
    assert_eq!(Vfs::normalize_path("/.."), "/");
    assert_eq!(Vfs::normalize_path("a/.."), ".");
    assert_eq!(Vfs::normalize_path("../x"), "x");
    assert_eq!(Vfs::normalize_path("a/b/"), "a/b");
}

#[test]
fn resolve_with_trailing_slash_cwd() {
    let mut vfs = Vfs::new();
    vfs.set_cwd("/tmp/");
    assert_eq!(vfs.get_cwd(), "/tmp");
    assert_eq!(vfs.resolve_path("x"), "/tmp/x");
    assert_eq!(vfs.resolve_path("."), "/tmp");
}

#[test]
fn persistent_paths() {
    let vfs = Vfs::new();
    assert!(vfs.is_opfs_path("/home/a"));
    assert!(vfs.is_opfs_path("/tmp"));
    assert!(!vfs.is_opfs_path("/tmp/a"));
    assert!(!vfs.is_opfs_path("/dev/null"));
}

#[test]
fn read_errors() {
    let vfs = Vfs::new();
    assert_eq!(vfs.read_file_sync("/tmp/missing", 0, 3), Err(VfsError::NotFound));
    assert_eq!(vfs.read_file_sync("/home/file", 0, 3), Err(VfsError::Persistent));
}

#[test]
fn read_window_and_random() {
    let mut vfs = Vfs::new();
    vfs.write_file_mem("/tmp/f", b"abcdef".to_vec());
    assert_eq!(vfs.read_file_sync("/tmp/f", 2, 3).unwrap(), b"cde");
    assert_eq!(vfs.read_file_sync("/tmp/f", 4, 10).unwrap(), b"ef");
    assert_eq!(vfs.read_file_sync("/tmp/f", 6, 1).unwrap(), Vec::<u8>::new());
    assert_eq!(vfs.read_file_sync("/tmp//./f", 0, 1).unwrap(), b"a");
    assert_eq!(vfs.read_file_sync("/dev/random", 254, 4).unwrap(), vec![254, 255, 0, 1]);
}

#[test]
fn write_pads_with_zeros() {
    let mut vfs = Vfs::new();
    assert_eq!(vfs.write_file_sync("/tmp/g", b"xy", 3), Ok(2));
    assert_eq!(vfs.read_file_sync("/tmp/g", 0, 10).unwrap(), vec![0, 0, 0, b'x', b'y']);
    assert_eq!(vfs.write_file_sync("/home/g", b"xy", 0), Err(VfsError::Persistent));
}

#[test]
fn write_then_read_gives_back_the_bytes() {
    let mut vfs = Vfs::new();
    vfs.write_file_mem("/tmp/h", b"0123456789".to_vec());
    vfs.write_file_sync("/tmp/h", b"abc", 4).unwrap();
    assert_eq!(vfs.read_file_sync("/tmp/h", 4, 3).unwrap(), b"abc");
    assert_eq!(vfs.read_file_sync("/tmp/h", 0, 10).unwrap(), b"0123abc789");
}

#[test]
fn truncate_and_sizes() {
    let mut vfs = Vfs::new();
    vfs.write_file_mem("/tmp/t", b"hello".to_vec());
    assert_eq!(vfs.get_file_size("/tmp/t"), 5);
    assert_eq!(vfs.truncate("/tmp/t", 2), Ok(()));
    assert_eq!(vfs.read_file_sync("/tmp/t", 0, 10).unwrap(), b"he");
    assert_eq!(vfs.truncate("/tmp/t", 4), Ok(()));
    assert_eq!(vfs.read_file_sync("/tmp/t", 0, 10).unwrap(), vec![b'h', b'e', 0, 0]);
    assert_eq!(vfs.truncate("/tmp/none", 1), Err(VfsError::NotFound));
    assert_eq!(vfs.truncate("/home/x", 1), Err(VfsError::Persistent));
    assert_eq!(vfs.get_file_size("/dev/null"), 0);
    assert_eq!(vfs.get_file_size("/dev/zero"), u64::MAX);
    assert_eq!(vfs.get_file_size("/dev/random"), u64::MAX);
    assert_eq!(vfs.get_file_size("/tmp/none"), 0);
}

#[test]
fn listing_and_unlink() {
    let mut vfs = Vfs::new();
    vfs.write_file_mem("/tmp/a", b"1".to_vec());
    vfs.write_file_mem("/tmp/b", b"2".to_vec());
    vfs.remember_stored("/docs/x");
    vfs.remember_stored("/tmp/a");
    vfs.remember_stored("/docs/x");
    assert_eq!(vfs.list_files(), vec!["/tmp/a", "/tmp/b", "/docs/x"]);
    assert_eq!(vfs.unlink("/tmp/a"), Ok(()));
    assert_eq!(vfs.unlink("/docs/x"), Err(VfsError::Persistent));
    assert_eq!(vfs.list_files(), vec!["/tmp/b", "/docs/x", "/tmp/a"]);
    vfs.forget_stored("/docs", true);
    assert_eq!(vfs.list_files(), vec!["/tmp/b", "/tmp/a"]);
    vfs.forget_stored("/tmp/a", false);
    assert_eq!(vfs.list_files(), vec!["/tmp/b"]);
}

#[test]
fn unlink_then_read_is_not_found() {
    let mut vfs = Vfs::new();
    vfs.write_file_mem("/tmp/z", b"z".to_vec());
    assert_eq!(vfs.unlink("/tmp/./z"), Ok(()));
    assert_eq!(vfs.read_file_sync("/tmp/z", 0, 1), Err(VfsError::NotFound));
}

#[test]
fn truncate_then_size() {
    let mut vfs = Vfs::new();
    vfs.write_file_mem("/tmp/s", b"12345".to_vec());
    vfs.truncate("/tmp/s", 3).unwrap();
    assert_eq!(vfs.get_file_size("/tmp/s"), 3);
    vfs.truncate("/tmp/s", 8).unwrap();
    assert_eq!(vfs.get_file_size("/tmp/s"), 8);
}

#[test]
fn resolved_paths_are_absolute_and_normal() {
    let mut vfs = Vfs::new();
    vfs.set_cwd("a/../b//c/.");
    assert_eq!(vfs.get_cwd(), "/b/c");
    for p in ["x", "../../..", "./y/", "/q/../r"] {
        let r = vfs.resolve_path(p);
        assert!(r.starts_with('/'));
        assert_eq!(Vfs::normalize_path(&r), r);
    }
}

#[test]
fn normal_forms_keep_only_ordinary_components() {
    for p in ["/a/../b/./c/", "x/../../y", "", "/", "..", "./a//b/", "/../.."] {
        let r = Vfs::normalize_path(p);
        assert!(!r.is_empty());
        assert_eq!(r.starts_with('/'), p.starts_with('/'));
        let body = r.strip_prefix('/').unwrap_or(&r);
        assert!(r == "/" || r == "." || body.split('/').all(|c| !c.is_empty() && c != "." && c != ".."));
    }
}

#[test]
fn whole_reads_and_device_writes() {
    let mut vfs = Vfs::new();
    vfs.write_file_mem("/tmp/w", b"hello".to_vec());
    assert_eq!(vfs.read_whole("/tmp/./w"), Ok(b"hello".to_vec()));
    assert_eq!(vfs.read_whole("/dev/zero"), Ok(Vec::new()));
    assert_eq!(vfs.read_whole("/dev/random"), Ok(Vec::new()));
    assert_eq!(vfs.read_whole("/tmp/none"), Err(VfsError::NotFound));
    assert_eq!(vfs.read_whole("/docs/s"), Err(VfsError::Persistent));
    vfs.load_stored("/docs/s", b"stored".to_vec());
    assert_eq!(vfs.read_whole("/docs/s"), Ok(b"stored".to_vec()));
    assert_eq!(vfs.write_file_sync("/dev/null", b"x", u64::MAX), Ok(1));
    assert_eq!(vfs.write_file_sync("/docs/s", b"x", u64::MAX), Err(VfsError::Persistent));
}

#[test]
fn environment_can_be_set_and_unset() {
    let mut vfs = Vfs::new();
    vfs.set_env_var("EDITOR", "vi");
    assert_eq!(vfs.env_var("EDITOR"), Some("vi".to_string()));
    vfs.set_env_var("HOME", "/home");
    assert_eq!(vfs.env_var("HOME"), Some("/home".to_string()));
    vfs.remove_env_var("PATH");
    assert_eq!(vfs.env_var("PATH"), None);
}

#[test]
fn listing_puts_memory_files_first() {
    let mut vfs = Vfs::new();
    vfs.remember_stored("/docs/a");
    vfs.write_file_mem("/tmp/z", b"1".to_vec());
    vfs.remember_stored("/docs/b");
    vfs.write_file_mem("/tmp/y", b"2".to_vec());
    assert_eq!(vfs.list_files(), vec!["/tmp/z", "/tmp/y", "/docs/a", "/docs/b"]);
}
