use vive_file_viewer::config::{
    default_editor, default_editor_args, default_preview_max_lines, default_show_hidden,
    default_theme, Config,
};

#[test]
fn test_default_config() {
    let config = Config::default();
    assert_eq!(config.editor, "vim");
    assert!(config.editor_args.is_empty());
    assert!(!config.show_hidden);
    assert_eq!(config.preview_max_lines, 1000);
    assert_eq!(config.theme, "base16-ocean.dark");
}

#[test]
fn default_field_functions() {
    assert_eq!(default_editor(), "vim");
    assert!(default_editor_args().is_empty());
    assert!(!default_show_hidden());
    assert_eq!(default_preview_max_lines(), 1000);
    assert_eq!(default_theme(), "base16-ocean.dark");
}
