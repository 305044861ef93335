use imageviewer::pictures::is_picture;

#[test]
fn picture_extensions_any_case() {
    assert!(is_picture("a.png"));
    assert!(is_picture("a.PNG"));
    assert!(is_picture("b.jpeg"));
    assert!(is_picture("c.JpG"));
    assert!(is_picture("d.gif"));
}

#[test]
fn non_picture_extensions() {
    assert!(!is_picture("e.txt"));
    assert!(!is_picture("f.tar.gz"));
    assert!(!is_picture("g.jpegx"));
    assert!(!is_picture("h.pn"));
}

#[test]
fn extension_after_last_dot_counts() {
    assert!(is_picture("photo.1.jpg"));
    assert!(is_picture("x.tar.png"));
}

#[test]
fn names_without_extension() {
    assert!(!is_picture("png"));
    assert!(!is_picture(""));
    assert!(!is_picture("noext"));
}

#[test]
fn hidden_files_and_bare_dots() {
    assert!(!is_picture(".png"));
    assert!(!is_picture("foo."));
    assert!(!is_picture("."));
}

#[test]
fn non_ascii_stem_still_counts() {
    assert!(is_picture("\u{e4}bild.png"));
    assert!(!is_picture("bild.p\u{e4}g"));
}
