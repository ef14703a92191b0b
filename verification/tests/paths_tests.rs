use kvs::paths::{cask_path, current_dir, is_cask, next_dir};

#[test]
fn cask_path_zero_pads_to_five_digits() {
    assert_eq!(cask_path("dir", 3), "dir/00003.cask");
    assert_eq!(cask_path("dir", 0), "dir/00000.cask");
    assert_eq!(cask_path("dir", 12345), "dir/12345.cask");
    assert_eq!(cask_path("/tmp/db", 99999), "/tmp/db/99999.cask");
}

#[test]
fn cask_path_names_sort_in_generation_order() {
    let mut names: Vec<String> = vec![
        cask_path("d", 10),
        cask_path("d", 2),
        cask_path("d", 30000),
        cask_path("d", 0),
    ];
    names.sort();
    assert_eq!(names, vec![
        "d/00000.cask".to_string(),
        "d/00002.cask".to_string(),
        "d/00010.cask".to_string(),
        "d/30000.cask".to_string(),
    ]);
}

#[test]
fn is_cask_accepts_the_naming_convention() {
    assert!(is_cask("00003.cask"));
    assert!(is_cask("x.cask"));
    assert!(is_cask("a..cask"));
}

#[test]
fn is_cask_rejects_other_names() {
    assert!(!is_cask("foo.txt"));
    assert!(!is_cask(".cask"));
    assert!(!is_cask("cask"));
    assert!(!is_cask("a.cask.txt"));
    assert!(!is_cask(""));
}

#[test]
fn data_directories_hang_off_the_root() {
    assert_eq!(current_dir("root"), "root/current");
    assert_eq!(next_dir("root"), "root/next");
}
