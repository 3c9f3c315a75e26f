use zeronix::fs::ramfs::{FsError, RamFs};

#[test]
fn creates_required_directories() {
    let fs = RamFs::new();
    let root = fs.list("/").unwrap();

    assert!(root.contains(&"bin".to_string()));
    assert!(root.contains(&"lib".to_string()));
    assert!(root.contains(&"home".to_string()));
}

#[test]
fn file_lifecycle_works() {
    let mut fs = RamFs::new();

    fs.write("/home/a.txt", b"hello").unwrap();
    assert_eq!(fs.read("/home/a.txt").unwrap(), b"hello");

    fs.copy("/home/a.txt", "/home/b.txt").unwrap();
    assert_eq!(fs.read("/home/b.txt").unwrap(), b"hello");

    fs.rename("/home/b.txt", "/home/c.txt").unwrap();
    assert_eq!(fs.read("/home/c.txt").unwrap(), b"hello");

    fs.remove("/home/c.txt").unwrap();
    assert_eq!(fs.read("/home/c.txt"), Err(FsError::NotFound));
}

#[test]
fn refuses_to_remove_non_empty_directory() {
    let mut fs = RamFs::new();

    fs.mkdir("/home/demo").unwrap();
    fs.touch("/home/demo/file").unwrap();

    assert_eq!(fs.remove("/home/demo"), Err(FsError::DirectoryNotEmpty));
}

#[test]
fn fresh_root_lists_exactly_the_standard_directories_in_order() {
    let fs = RamFs::default();
    assert_eq!(fs.list("/").unwrap(), vec!["bin", "home", "lib", "tmp"]);
    assert_eq!(fs.list("/tmp").unwrap(), Vec::<String>::new());
}

#[test]
fn paths_must_be_absolute() {
    let mut fs = RamFs::new();
    assert_eq!(fs.mkdir("home/x"), Err(FsError::InvalidPath));
    assert_eq!(fs.read(""), Err(FsError::InvalidPath));
    assert_eq!(fs.write("/", b"x"), Err(FsError::InvalidPath));
    assert_eq!(fs.mkdir("/"), Err(FsError::AlreadyExists));
}

#[test]
fn dots_and_repeated_slashes_are_ignored() {
    let mut fs = RamFs::new();
    fs.write("//home/./a", b"x").unwrap();
    assert_eq!(fs.read("/home/a").unwrap(), b"x");
}

#[test]
fn errors_name_the_reason() {
    let mut fs = RamFs::new();
    fs.write("/home/f", b"data").unwrap();
    assert_eq!(fs.read("/home"), Err(FsError::IsDirectory));
    assert_eq!(fs.read("/home/f/g"), Err(FsError::NotDirectory));
    assert_eq!(fs.read("/nope/g"), Err(FsError::NotFound));
    assert_eq!(fs.list("/home/f"), Err(FsError::NotDirectory));
    assert_eq!(fs.write("/home", b"x"), Err(FsError::IsDirectory));
    assert_eq!(fs.touch("/home"), Err(FsError::IsDirectory));
    assert_eq!(fs.mkdir("/home/f"), Err(FsError::AlreadyExists));
    assert_eq!(fs.mkdir("/missing/dir"), Err(FsError::NotFound));
    assert_eq!(fs.remove("/home/none"), Err(FsError::NotFound));
    assert_eq!(fs.rename("/home/none", "/home/x"), Err(FsError::NotFound));
}

#[test]
fn write_replaces_and_append_extends() {
    let mut fs = RamFs::new();
    fs.write("/tmp/log", b"first").unwrap();
    fs.write("/tmp/log", b"ab").unwrap();
    assert_eq!(fs.read("/tmp/log").unwrap(), b"ab");
    fs.append("/tmp/log", b"cd").unwrap();
    assert_eq!(fs.read("/tmp/log").unwrap(), b"abcd");
    fs.append("/tmp/new", b"z").unwrap();
    assert_eq!(fs.read("/tmp/new").unwrap(), b"z");
}

#[test]
fn touch_keeps_existing_contents() {
    let mut fs = RamFs::new();
    fs.write("/tmp/a", b"keep").unwrap();
    fs.touch("/tmp/a").unwrap();
    assert_eq!(fs.read("/tmp/a").unwrap(), b"keep");
    fs.touch("/tmp/b").unwrap();
    assert_eq!(fs.read("/tmp/b").unwrap(), b"");
}

#[test]
fn rename_moves_a_whole_directory() {
    let mut fs = RamFs::new();
    fs.mkdir("/home/d").unwrap();
    fs.mkdir("/home/d/e").unwrap();
    fs.write("/home/d/e/f", b"deep").unwrap();
    fs.rename("/home/d", "/tmp/moved").unwrap();
    assert_eq!(fs.read("/tmp/moved/e/f").unwrap(), b"deep");
    assert_eq!(fs.read("/home/d/e/f"), Err(FsError::NotFound));
    assert_eq!(fs.list("/home").unwrap(), Vec::<String>::new());
}

#[test]
fn rename_onto_an_existing_entry_loses_the_source() {
    let mut fs = RamFs::new();
    fs.write("/tmp/a", b"a").unwrap();
    fs.write("/tmp/b", b"b").unwrap();
    assert_eq!(fs.rename("/tmp/a", "/tmp/b"), Err(FsError::AlreadyExists));
    assert_eq!(fs.read("/tmp/a"), Err(FsError::NotFound));
    assert_eq!(fs.read("/tmp/b").unwrap(), b"b");
}

#[test]
fn removing_an_empty_directory_works() {
    let mut fs = RamFs::new();
    fs.mkdir("/tmp/d").unwrap();
    fs.remove("/tmp/d").unwrap();
    assert_eq!(fs.list("/tmp/d"), Err(FsError::NotFound));
}
