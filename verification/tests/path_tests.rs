use wasm_source_map::path::Path;

#[test]
pub fn test_path_unix() {
    let mut path = Path::new("/");
    path.push("etc");
    path.push("passwd");
    assert_eq!(path.to_string(), "/etc/passwd");

    let mut path = Path::new("/etc");
    path.push("passwd");
    path.push("/etc/hosts");
    assert_eq!(path.to_string(), "/etc/hosts");
}

#[test]
pub fn test_path_windows() {
    let mut path = Path::new("C:\\");
    path.push("Windows");
    path.push("System32");
    assert_eq!(path.to_string(), "C:/Windows/System32");

    let mut path = Path::new("\\\\");
    path.push("Server");
    path.push("Share");
    assert_eq!(path.to_string(), "/Server/Share");
}

#[test]
pub fn test_path_rustc() {
    let path = Path::new("/rustc/folder/file.rs");
    assert_eq!(path.to_string(), "/rustc/folder/file.rs");
}

#[test]
fn absolute_fragment_overrides_accumulated_path() {
    let mut path = Path::new("/a/b");
    path.push("/c/d");
    assert_eq!(path.to_string(), "/c/d");
}

#[test]
fn uri_fragment_overrides_accumulated_path() {
    let mut path = Path::new("work");
    path.push("https://example.com/src/lib.rs");
    assert_eq!(path.to_string(), "https://example.com/src/lib.rs");
}

#[test]
fn normalization_is_idempotent_on_samples() {
    for seed in ["C:\\", "\\\\", "a\\b\\\\c", "/already/normal", "", "."] {
        let once = Path::new(seed).to_string();
        let twice = Path::new(once.as_str()).to_string();
        assert_eq!(once, twice);
    }
}

#[test]
fn relative_fragments_join_with_single_slash() {
    let mut path = Path::new("dir/");
    path.push("file.rs");
    assert_eq!(path.to_string(), "dir/file.rs");

    let mut path = Path::new("dir");
    path.push("file.rs");
    assert_eq!(path.to_string(), "dir/file.rs");

    let mut path = Path::new("");
    path.push("file.rs");
    assert_eq!(path.to_string(), "/file.rs");
}
