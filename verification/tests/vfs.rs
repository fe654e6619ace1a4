use std::path::PathBuf;
use world_smith::vfs::{collect_found, is_safe_relative_path, ParadoxPathResolver, ResolveError};

#[test]
fn safe_relative_paths() {
    assert!(is_safe_relative_path("map/definition.csv"));
    assert!(is_safe_relative_path("./map/x.txt"));
    assert!(!is_safe_relative_path("../secret.txt"));
    assert!(!is_safe_relative_path("map/../../x"));
    assert!(!is_safe_relative_path("/etc/passwd"));
}

#[test]
fn the_mod_wins_over_the_game() {
    let resolver = ParadoxPathResolver::with_mod(PathBuf::from("/m"), PathBuf::from("/g"));
    assert_eq!(resolver.search_paths().len(), 2);
    let found = vec![Some(PathBuf::from("/m/map/a.txt")), Some(PathBuf::from("/g/map/a.txt"))];
    assert_eq!(resolver.resolve("map/a.txt", found), Some(PathBuf::from("/m/map/a.txt")));
    let only_game = vec![None, Some(PathBuf::from("/g/map/a.txt"))];
    assert_eq!(resolver.pick_resolved(only_game), Some(PathBuf::from("/g/map/a.txt")));
}

#[test]
fn resolve_refuses_a_path_that_leaves_its_base() {
    let resolver = ParadoxPathResolver::vanilla_only(PathBuf::from("/g"));
    assert_eq!(resolver.search_paths(), &[PathBuf::from("/g")]);
    let found = vec![Some(PathBuf::from("/x"))];
    assert_eq!(resolver.resolve("../x", found), None);
    let all = vec![Some(PathBuf::from("/x"))];
    assert!(resolver.resolve_all("../x", all).is_empty());
}

#[test]
fn resolve_required_names_the_missing_file() {
    let resolver = ParadoxPathResolver::new(vec![PathBuf::from("/a"), PathBuf::from("/b")]);
    match resolver.resolve_required("map/none.txt", vec![None, None]) {
        Err(ResolveError::NotFound { relative_path }) => assert_eq!(relative_path, "map/none.txt"),
        Ok(p) => panic!("found {:?}", p),
    }
    assert_eq!(
        resolver.resolve_required("map/b.txt", vec![None, Some(PathBuf::from("/b/map/b.txt"))]),
        Ok(PathBuf::from("/b/map/b.txt"))
    );
}

#[test]
fn resolve_all_lists_every_place_in_order() {
    let resolver = ParadoxPathResolver::new(vec![PathBuf::from("/a"), PathBuf::from("/b"), PathBuf::from("/c")]);
    let found = vec![Some(PathBuf::from("/a/f")), None, Some(PathBuf::from("/c/f"))];
    assert_eq!(resolver.resolve_all("f", found), vec![PathBuf::from("/a/f"), PathBuf::from("/c/f")]);
    assert_eq!(collect_found(vec![None, None]), Vec::<PathBuf>::new());
}
