use diffame::languages::{
    language_name_for_ext, profile_for_ext, profile_for_filename, supported_extensions, Grammar,
};

#[test]
fn every_supported_extension_resolves_to_a_profile() {
    for ext in supported_extensions() {
        assert!(
            profile_for_ext(ext).is_some(),
            "supported_extensions() lists {:?} but profile_for_ext returns None",
            ext,
        );
    }
}

#[test]
fn profile_for_filename_handles_dockerfile_and_makefile() {
    assert!(profile_for_filename("Dockerfile").is_some());
    assert!(profile_for_filename("Makefile").is_some());
    assert!(profile_for_filename("GNUmakefile").is_some());
    assert!(profile_for_filename("Containerfile").is_some());
    assert!(profile_for_filename("random.txt").is_none());
}

#[test]
fn ambiguous_extensions_are_not_in_default_map() {
    assert!(profile_for_ext("conf").is_none(), ".conf is ambiguous");
    assert!(
        profile_for_ext("m").is_none(),
        ".m is ambiguous (MATLAB vs Objective-C)"
    );
}

#[test]
fn extensions_map_to_their_grammar() {
    assert_eq!(profile_for_ext("rs"), Some(Grammar::Rust));
    assert_eq!(profile_for_ext("py"), Some(Grammar::Python));
    assert_eq!(profile_for_ext("h"), Some(Grammar::C));
    assert_eq!(profile_for_ext("tsx"), Some(Grammar::Tsx));
    assert_eq!(profile_for_ext("RS"), None);
    assert_eq!(profile_for_filename("DOCKERFILE"), Some(Grammar::Dockerfile));
    assert_eq!(profile_for_filename("gnuMakefile"), Some(Grammar::Make));
}

#[test]
fn language_names_cover_extensions_without_a_grammar() {
    assert_eq!(language_name_for_ext("rs"), Some("Rust"));
    assert_eq!(language_name_for_ext("ml"), Some("OCaml"));
    assert_eq!(language_name_for_ext("R"), Some("R"));
    assert_eq!(language_name_for_ext("plist"), Some("XML"));
    assert_eq!(language_name_for_ext("conf"), None);
    assert_eq!(profile_for_ext("ml"), None);
}

#[test]
fn supported_extensions_lists_linked_grammars_only() {
    let list = supported_extensions();
    assert!(list.contains(&"rs"));
    assert!(list.contains(&"dockerfile"));
    assert!(list.contains(&"mk"));
    assert!(!list.contains(&"ml"));
    assert!(!list.contains(&"conf"));
}
