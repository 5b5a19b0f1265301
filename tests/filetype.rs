use rtext::{FileType, HighLightingOptions, Size};

#[test]
fn rust_suffix_enables_all_classes() {
    let ft = FileType::from("src/main.rs");
    assert_eq!(ft.name(), "Rust");
    let opts = ft.highlighting_options();
    assert!(opts.numbers());
    assert!(opts.strings());
    assert!(opts.characters());
}

#[test]
fn other_names_get_default_type() {
    for name in ["notes.txt", "rs", "main.rsx", ""] {
        let ft = FileType::from(name);
        assert_eq!(ft.name(), "No filetype");
        let opts = ft.highlighting_options();
        assert!(!opts.numbers());
        assert!(!opts.strings());
        assert!(!opts.characters());
    }
}

#[test]
fn default_type_and_options() {
    assert_eq!(FileType::default().name(), "No filetype");
    assert!(!HighLightingOptions::default().numbers());
}

#[test]
fn size_holds_dimensions() {
    let size = Size { width: 80, height: 22 };
    assert_eq!(size.width, 80);
    assert_eq!(size.height, 22);
}
