use symposium_rust_analyzer::paths::file_path_to_uri;
use symposium_rust_analyzer::proxy::RustAnalyzerProxy;

#[test]
fn plain_path_gets_file_scheme() {
    assert_eq!(file_path_to_uri("/tmp/project/src/main.rs"), "file:///tmp/project/src/main.rs");
    assert_eq!(file_path_to_uri(""), "file://");
    assert_eq!(file_path_to_uri("file:/x"), "file://file:/x");
    assert_eq!(file_path_to_uri("/h\u{e9}/\u{1f980}.rs"), "file:///h\u{e9}/\u{1f980}.rs");
}

#[test]
fn file_uri_is_kept() {
    assert_eq!(file_path_to_uri("file:///tmp/a.rs"), "file:///tmp/a.rs");
    assert_eq!(file_path_to_uri("file://"), "file://");
}

#[test]
fn proxy_defaults_to_no_workspace() {
    let proxy = RustAnalyzerProxy::default();
    assert_eq!(proxy.workspace_path, None);
}
