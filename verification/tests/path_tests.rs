use ftg::header::Header;
use ftg::path::Path;
use ftg::project::Project;

#[test]
fn path_name_is_the_part_after_the_last_separator() {
    assert_eq!(Path::new("/a/b/c.txt".to_string(), false).name().unwrap(), "c.txt");
    assert_eq!(Path::new("plain".to_string(), false).name().unwrap(), "plain");
}

#[test]
fn path_name_skips_trailing_separators() {
    assert_eq!(Path::new("/a/b/".to_string(), true).name().unwrap(), "b");
    assert_eq!(Path::new("/a/b///".to_string(), true).name().unwrap(), "b");
    assert_eq!(Path::new("plain/".to_string(), true).name().unwrap(), "plain");
}

#[test]
fn path_name_rejects_empty_and_relative_suffixes() {
    assert!(Path::new("/".to_string(), true).name().is_none());
    assert!(Path::new("/a/..".to_string(), true).name().is_none());
    assert!(Path::new("/a/.".to_string(), true).name().is_none());
    assert!(Path::new("".to_string(), false).name().is_none());
}

#[test]
fn header_title_is_path_or_placeholder() {
    let named = Header::new(Some(Path::new("/x/y.rs".to_string(), false)));
    assert_eq!(named.title(), "/x/y.rs");
    assert_eq!(named.name(), "y.rs");
    let untitled = Header::new(None);
    assert_eq!(untitled.title(), "Untitled");
    assert_eq!(untitled.name(), "Untitled");
}

#[test]
fn header_name_falls_back_on_unusable_paths() {
    let odd = Header::new(Some(Path::new("/x/..".to_string(), false)));
    assert_eq!(odd.name(), "Untitled");
}

#[test]
fn project_title_joins_directory_names() {
    let mut p = Project::new();
    assert!(p.title().is_none());
    p.add_dirpath(Path::new("/home/user/alpha".to_string(), true));
    assert_eq!(p.title().unwrap(), "alpha");
    p.add_dirpath(Path::new("/srv/beta".to_string(), true));
    assert_eq!(p.title().unwrap(), "alpha, beta");
}

#[test]
fn re_adding_a_directory_changes_nothing() {
    let mut p = Project::new();
    p.add_dirpath(Path::new("/srv/dir".to_string(), true));
    p.add_dirpath(Path::new("/srv/dir".to_string(), true));
    assert_eq!(p.title().unwrap(), "dir");
    p.add_dirpath(Path::new("/srv/other".to_string(), true));
    p.add_dirpath(Path::new("/srv/dir".to_string(), true));
    assert_eq!(p.title().unwrap(), "dir, other");
}

#[test]
fn project_title_falls_back_to_full_text() {
    let mut p = Project::new();
    p.add_dirpath(Path::new("/a/..".to_string(), true));
    assert_eq!(p.title().unwrap(), "/a/..");
}
