use wikarden::path::relativise_path;

#[test]
fn relativise_path_same_dir() {
    let base = String::from("/srv/wikarden/");
    let targ = String::from("/srv/wikarden/testfile.md");

    assert_eq!(
        String::from("testfile.md"),
        relativise_path(&base, &targ).unwrap()
    )
}

#[test]
fn relativise_path_below() {
    let base = String::from("/srv/wikarden/higher/tree");
    let targ = String::from("/srv/wikarden/testfile.md");

    assert_eq!(
        String::from("../../testfile.md"),
        relativise_path(&base, &targ).unwrap()
    )
}

#[test]
fn relativise_path_above() {
    let base = String::from("/srv/wikarden/");
    let targ = String::from("/srv/wikarden/testdir/testfile.md");

    assert_eq!(
        String::from("testdir/testfile.md"),
        relativise_path(&base, &targ).unwrap()
    )
}

#[test]
fn relativise_path_nothing() {
    let base = String::from("/opt/usr");
    let targ = String::from("/srv/testfile.md");

    assert_eq!(
        String::from("../../srv/testfile.md"),
        relativise_path(&base, &targ).unwrap()
    )
}

#[test]
fn relativise_path_needs_absolute_inputs() {
    assert_eq!(None, relativise_path("relative/base", "/srv/x.md"));
    assert_eq!(None, relativise_path("/srv", "relative/target.md"));
    assert_eq!(None, relativise_path("", ""));
}

#[test]
fn parent_of_absolute_path() {
    assert_eq!(
        Some(String::from("/srv/wikarden")),
        wikarden::path::path_parent("/srv/wikarden/testfile.md")
    );
    assert_eq!(Some(String::from("/")), wikarden::path::path_parent("/srv"));
    assert_eq!(None, wikarden::path::path_parent("relative/path"));
}

#[test]
fn extension_handling() {
    let v: Vec<char> = "/a/b/name.md".chars().collect();
    let e: Vec<char> = "html".chars().collect();
    let r: String = wikarden::path::set_ext_chars(&v, &e).into_iter().collect();
    assert_eq!("/a/b/name.html", r);

    let ext: String = wikarden::path::ext_of_chars(&v).into_iter().collect();
    assert_eq!("md", ext);

    let hidden: Vec<char> = "/a/.git".chars().collect();
    let hext: String = wikarden::path::ext_of_chars(&hidden).into_iter().collect();
    assert_eq!("", hext);

    let noext: Vec<char> = "/a/b/name.md".chars().collect();
    let stripped: String = wikarden::path::strip_ext_chars(&noext).into_iter().collect();
    assert_eq!("/a/b/name", stripped);
}

#[test]
fn relativise_path_to_the_base_itself_is_empty() {
    assert_eq!(
        Some(String::new()),
        relativise_path("/srv/wikarden", "/srv/wikarden")
    );
}
