use flash_launch::index_roots::SEARCH_DEPTH_ALL;
use flash_launch::items::launch_item_from_path_with_type;
use flash_launch::root_ownership::{
    build_plan, normalized_root_path_key, path_is_in_excluded_subtree, path_is_within_root,
    path_key_is_within, path_key_relative_depth,
};
use flash_launch::types::IndexRoot;

const HERE: &str = r"C:\Work";

fn root(raw: &str, path: &str, enabled: bool, score: i32) -> IndexRoot {
    IndexRoot {
        raw: raw.to_string(),
        path: Some(path.to_string()),
        enabled,
        score,
        max_depth: SEARCH_DEPTH_ALL,
        label: String::new(),
        keywords: Vec::new(),
    }
}

#[test]
fn plan_keeps_first_duplicate_and_deepest_owner() {
    let parent = r"C:\Tests\duplicates";
    let child = r"C:\Tests\duplicates\child";
    let roots = vec![
        root("parent-first", parent, true, 10),
        root("parent-duplicate", r"C:\Tests\duplicates\.", true, 20),
        root("child", child, true, 30),
    ];

    let plan = build_plan(&roots, &[true, true, true], HERE);

    assert_eq!(plan.entries().len(), 2);
    assert_eq!(
        plan.owner(r"C:\Tests\duplicates\file.txt", HERE).unwrap().root.raw,
        "parent-first"
    );
    assert_eq!(
        plan.owner(r"C:\Tests\duplicates\child\file.txt", HERE).unwrap().root.raw,
        "child"
    );
    assert_eq!(
        plan.entries()[0].exclusions.as_slice(),
        &[normalized_root_path_key(child, HERE)]
    );
}

#[test]
fn disabled_and_missing_roots_do_not_participate() {
    let existing = r"C:\Tests\enabled-duplicate";
    let missing = r"C:\Tests\enabled-duplicate\missing";
    let roots = vec![
        root("disabled", existing, false, 10),
        root("enabled", existing, true, 20),
        root("missing", missing, true, 30),
    ];

    let plan = build_plan(&roots, &[true, true, false], HERE);

    assert_eq!(plan.entries().len(), 1);
    assert_eq!(plan.entries()[0].root.raw, "enabled");
}

#[test]
fn lexical_containment_needs_no_existing_filesystem_path() {
    let root = r"C:\Mixed\Root\.\Folder";
    let child = r"c:/mixed/root/folder/sub/../file.txt";
    let sibling = r"C:\Mixed\Root\FolderElsewhere\file.txt";

    assert!(path_is_within_root(child, root, HERE));
    assert!(!path_is_within_root(sibling, root, HERE));
}

#[test]
fn launch_item_depth_is_relative_to_deepest_owning_root() {
    let parent = r"C:\Tests\relative-depth";
    let child = r"C:\Tests\relative-depth\games";
    let plan = build_plan(
        &[root("parent", parent, true, 10), root("child", child, true, 20)],
        &[true, true],
        HERE,
    );
    let owner = plan
        .owner(r"C:\Tests\relative-depth\games\arcade\run.exe", HERE)
        .unwrap();
    let depth = |path: &str, is_dir: bool| {
        launch_item_from_path_with_type(path, is_dir, &owner.root, None, HERE)
            .unwrap()
            .relative_depth
    };

    assert_eq!(owner.root.raw, "child");
    assert_eq!(depth(r"C:\Tests\relative-depth\games\run.exe", false), 0);
    assert_eq!(depth(r"C:\Tests\relative-depth\games\arcade\run.exe", false), 1);
    assert_eq!(depth(r"C:\Tests\relative-depth\games\arcade", true), 1);
    assert_eq!(depth(r"C:\Tests\relative-depth\games\arcade\retro", true), 2);
}

#[test]
fn paths_outside_root_use_zero_relative_depth() {
    let root = root("root", r"C:\ROOT", true, 0);
    let item =
        launch_item_from_path_with_type(r"D:\Other\run.exe", false, &root, None, HERE).unwrap();
    assert_eq!(item.relative_depth, 0);
}

#[test]
fn keys_nest_by_whole_names() {
    assert!(path_key_is_within(r"c:\a\b", r"c:\a"));
    assert!(path_key_is_within(r"c:\a", r"c:\a"));
    assert!(!path_key_is_within(r"c:\ab", r"c:\a"));
    assert_eq!(path_key_relative_depth(r"c:\a\b\c", r"c:\a"), Some(2));
    assert_eq!(path_key_relative_depth(r"c:\a", r"c:\a"), Some(0));
    assert_eq!(path_key_relative_depth(r"c:\x", r"c:\a"), None);
    assert_eq!(
        normalized_root_path_key("sub", HERE),
        normalized_root_path_key(r"C:\WORK\SUB", HERE)
    );
    assert!(path_is_in_excluded_subtree(
        r"C:\A\B\file",
        &[normalized_root_path_key(r"c:\a\b", HERE)],
        HERE
    ));
    assert!(!path_is_in_excluded_subtree(
        r"C:\A\Bx",
        &[normalized_root_path_key(r"c:\a\b", HERE)],
        HERE
    ));
}
