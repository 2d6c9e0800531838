use gib2sgf::files::normalize_file_name;

#[test]
fn test_normalize_file_name() {
    assert_eq!(normalize_file_name(""), "");
    assert_eq!(normalize_file_name("foo"), "foo");
    assert_eq!(normalize_file_name("foo.gib"), "foo.gib");
    assert_eq!(normalize_file_name("foo.gib.gib"), "foo.gib");
    assert_eq!(normalize_file_name("foo.gib.dll"), "foo.gib");
    assert_eq!(normalize_file_name("foo.gib.dll.gib"), "foo.gib");
    assert_eq!(normalize_file_name("foo.gib..gib"), "foo.gib");
}

#[test]
fn other_endings_stay() {
    assert_eq!(normalize_file_name("foo.dll"), "foo.dll");
    assert_eq!(normalize_file_name("foo.gib.dll.txt"), "foo.gib.dll.txt");
    assert_eq!(normalize_file_name("foo."), "foo.");
    assert_eq!(normalize_file_name("foo.gib."), "foo.gib.");
    assert_eq!(normalize_file_name("foo.GIB"), "foo.GIB");
    assert_eq!(normalize_file_name("gib"), "gib");
    assert_eq!(normalize_file_name("foo.sgf.dll"), "foo.sgf.dll");
}

#[test]
fn endings_are_taken_as_often_as_they_stand() {
    assert_eq!(normalize_file_name(".gib"), ".gib");
    assert_eq!(normalize_file_name("...gib"), ".gib");
    assert_eq!(normalize_file_name("a.dll.dll..gib.dll.gib"), "a.gib");
    assert_eq!(normalize_file_name("a.dll.gib"), "a.gib");
    assert_eq!(normalize_file_name("a.gibx.gib"), "a.gibx.gib");
    assert_eq!(normalize_file_name("바둑.gib.gib"), "바둑.gib");
    assert_eq!(normalize_file_name("a b.gib.dll.dll"), "a b.gib.dll.dll");
    assert_eq!(normalize_file_name("a b.dll.dll.gib.dll"), "a b.gib");
}

#[test]
fn cleaning_twice_changes_nothing() {
    for name in ["", "foo", "foo.gib", "foo.gib.dll.gib", "foo.gib..gib", ".gib", "a.dll", "a.gib.dll.dll", "..gib.dll"] {
        let once = normalize_file_name(name);
        assert_eq!(normalize_file_name(&once), once);
    }
}
