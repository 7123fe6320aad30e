use laplace::vault::{classify_entry, misplaced, split_frontmatter, stem, EntryAction};

#[test]
fn frontmatter_split() {
    let (fm, body) = split_frontmatter("---\ntags: [a]\n---\nbody here").unwrap();
    assert_eq!(fm, "tags: [a]");
    assert_eq!(body, "body here");
    let (fm, body) = split_frontmatter("no fence").unwrap();
    assert_eq!(fm, "");
    assert_eq!(body, "no fence");
    let (fm, body) = split_frontmatter("---\n---\nempty fm").unwrap();
    assert_eq!(fm, "");
    assert_eq!(body, "empty fm");
    assert!(split_frontmatter("---\nnever closed").is_err());
}

#[test]
fn stems_drop_the_extension() {
    assert_eq!(stem("孙悟空.md"), "孙悟空");
    assert_eq!(stem("a.b.md"), "a.b");
}

#[test]
fn listing_decides_per_entry() {
    assert_eq!(classify_entry(".git", true, true), EntryAction::Skip);
    assert_eq!(classify_entry("character", true, true), EntryAction::Descend);
    assert_eq!(classify_entry("孙悟空.md", false, false), EntryAction::Read);
    assert_eq!(classify_entry("README.md", false, true), EntryAction::Misplaced);
    assert_eq!(classify_entry("schema.yaml", false, true), EntryAction::Skip);
    assert_eq!(classify_entry("md", false, false), EntryAction::Skip);
    let d = misplaced("README.md");
    assert_eq!(d.render(), "README.md\n  error[bad-layout]: markdown at the vault root: entities live under <kind>/");
}
