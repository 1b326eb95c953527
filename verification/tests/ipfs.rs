use nftrout_indexer::ipfs::Cid;

#[test]
fn cid_join() {
    assert_eq!(
        Cid::from("bafyab").join("cd/ef").to_string(),
        "bafyab/cd/ef"
    );
    assert_eq!(
        Cid::from("bafyab").join("cd/ef/").to_string(),
        "bafyab/cd/ef/"
    );
    assert_eq!(
        Cid::from("bafyab").join("/cd/ef").to_string(),
        "bafyab/cd/ef"
    );
    assert_eq!(
        Cid::from("bafyab/").join("cd/ef").to_string(),
        "bafyab/cd/ef"
    );
    assert_eq!(
        Cid::from("bafyab/").join("/cd/ef").to_string(),
        "bafyab/cd/ef"
    );
}

#[test]
fn cid_join_collapses_to_one_slash() {
    assert_eq!(Cid::from("a/").join("/b").to_string(), "a/b");
    assert_eq!(Cid::from("a").join("b").to_string(), "a/b");
    assert_eq!(Cid::from("a/").join("b").to_string(), "a/b");
    assert_eq!(Cid::from("a").join("/b").to_string(), "a/b");
    assert_eq!(Cid::from("abc").join("d").to_string(), "abc/d");
}

#[test]
fn cid_join_with_empty_sides() {
    assert_eq!(Cid::from("").join("b").to_string(), "/b");
    assert_eq!(Cid::from("a").join("").to_string(), "a/");
    assert_eq!(Cid::from("a/").join("/").to_string(), "a/");
}
