use doksnet::docs::select_documentation_files;

fn names(v: &[&str]) -> Vec<String> {
    v.iter().map(|s| s.to_string()).collect()
}

#[test]
fn test_file_discovery() {
    let found = select_documentation_files(&names(&[
        "README.md",
        "DOCS.md",
        "guide.txt",
        "random.rs",
    ]));
    assert_eq!(found, names(&["README.md", "DOCS.md"]));
    assert!(!found.contains(&"guide.txt".to_string()));
    assert!(!found.contains(&"random.rs".to_string()));
}

#[test]
fn documentation_order_puts_readme_first() {
    let found = select_documentation_files(&names(&[
        "zeta.md",
        "Guide.MD",
        "notes.txt",
        "ReadMe.rst",
        "alpha.md",
        "readme-extra.md",
        "MANUAL.md",
        "Cargo.toml",
    ]));
    assert_eq!(
        found,
        names(&["ReadMe.rst", "readme-extra.md", "Guide.MD", "MANUAL.md", "alpha.md", "zeta.md"])
    );
}

#[test]
fn documentation_selection_edge_cases() {
    assert!(select_documentation_files(&Vec::new()).is_empty());
    assert!(select_documentation_files(&names(&["md", ".MD", "x.mdx", "READMEx"])).is_empty());
    assert_eq!(select_documentation_files(&names(&[".md", "README"])), names(&["README", ".md"]));
    assert_eq!(
        select_documentation_files(&names(&["b.md", "b.md", "readme", "readme"])),
        names(&["readme", "readme", "b.md"])
    );
}
