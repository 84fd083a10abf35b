use std::path::Path;

use vive_file_viewer::config::Config;
use vive_file_viewer::editor::{Editor, Resolution};

fn probe(path: &Path) -> Result<(), String> {
    let resolution = match path.canonicalize() {
        Ok(real) => Resolution::Resolved {
            real_path: real.display().to_string(),
            real_exists: real.exists(),
        },
        Err(e) => Resolution::Failed(e.to_string()),
    };
    Editor::validate_path(&path.display().to_string(), path.exists(), resolution)
}

#[test]
fn test_validate_path_nonexistent_file() {
    let result = probe(Path::new("/nonexistent/path/to/file.txt"));
    assert!(result.is_err());
    assert!(result.unwrap_err().contains("does not exist"));
}

#[test]
fn test_validate_path_existing_directory() {
    let temp_dir = tempfile::TempDir::new().unwrap();
    let result = probe(temp_dir.path());
    assert!(result.is_ok());
}

#[test]
fn test_validate_path_existing_file() {
    let temp_dir = tempfile::TempDir::new().unwrap();
    let file = tempfile::Builder::new()
        .prefix("test")
        .suffix(".txt")
        .rand_bytes(0)
        .tempfile_in(temp_dir.path())
        .unwrap();
    assert!(file.path().ends_with("test.txt"));
    let result = probe(file.path());
    assert!(result.is_ok());
}

#[test]
fn validate_path_missing_message() {
    let r = Editor::validate_path("/a/b.txt", false, Resolution::Failed("x".to_string()));
    assert_eq!(r, Err("File does not exist: /a/b.txt".to_string()));
}

#[test]
fn validate_path_dangling_target_message() {
    let r = Editor::validate_path(
        "/a/link",
        true,
        Resolution::Resolved { real_path: "/a/gone".to_string(), real_exists: false },
    );
    assert_eq!(r, Err("Symlink target does not exist: /a/gone".to_string()));
}

#[test]
fn validate_path_resolution_failure_message() {
    let r = Editor::validate_path("/a/loop", true, Resolution::Failed("too many links".to_string()));
    assert_eq!(r, Err("Failed to resolve path: too many links".to_string()));
}

#[test]
fn validate_path_resolved_ok() {
    let r = Editor::validate_path(
        "/a/file",
        true,
        Resolution::Resolved { real_path: "/a/file".to_string(), real_exists: true },
    );
    assert_eq!(r, Ok(()));
}

#[test]
fn test_editor_new() {
    let config = Config {
        editor: "nvim".to_string(),
        editor_args: vec!["-c".to_string(), "startinsert".to_string()],
        ..Config::default()
    };
    let editor = Editor::new(&config);
    assert_eq!(editor.command, "nvim");
    assert_eq!(editor.args, vec!["-c", "startinsert"]);
}
