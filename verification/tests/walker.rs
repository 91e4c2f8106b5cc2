use package_usage::find::find_files;
use package_usage::names::{join_path, source_name};
use package_usage::tree::Entry;
use package_usage::error::UsageError;
use package_usage::walker::{default_ignored, DirEntry, Listing, Walker};

fn file(name: &str) -> Entry {
    Entry::File(name.to_string())
}

fn dir(name: &str, entries: Vec<Entry>) -> Entry {
    Entry::Directory(name.to_string(), entries)
}

fn listed_file(name: &str) -> DirEntry {
    DirEntry { name: name.to_string(), is_dir: false }
}

fn listed_dir(name: &str) -> DirEntry {
    DirEntry { name: name.to_string(), is_dir: true }
}

fn entries(list: Vec<DirEntry>) -> Listing {
    Listing::Entries(list)
}

fn names(list: &[&str]) -> Vec<String> {
    list.iter().map(|name| name.to_string()).collect()
}

fn project() -> Vec<Entry> {
    vec![
        file("index.js"),
        file("README.md"),
        dir(
            "src",
            vec![
                file("app.ts"),
                file("style.css"),
                dir("components", vec![file("button.ts"), file("list.js")]),
                file("main.js"),
            ],
        ),
        dir("node_modules", vec![dir("react", vec![file("index.js")]), file("cache.js")]),
        dir("build", vec![file("bundle.js")]),
        file("config.ts"),
    ]
}

#[test]
fn find_all_files() {
    let files = find_files(".", &project(), default_ignored());

    assert_eq!(files.len(), 6);
}

#[test]
fn finds_files_depth_first_in_listed_order() {
    let files = find_files(".", &project(), default_ignored());
    assert_eq!(
        files,
        names(&[
            "./index.js",
            "./src/app.ts",
            "./src/components/button.ts",
            "./src/components/list.js",
            "./src/main.js",
            "./config.ts",
        ])
    );
}

#[test]
fn files_under_ignored_directories_never_appear() {
    let tree = vec![
        dir("node_modules", vec![file("d.js"), dir("deep", vec![file("e.ts")])]),
        dir(
            "lib",
            vec![
                dir("build", vec![file("out.js")]),
                dir("node_modules", vec![dir("x", vec![dir("y", vec![file("z.ts")])])]),
                file("kept.js"),
            ],
        ),
        dir("build", vec![]),
    ];
    let files = find_files("root", &tree, default_ignored());
    assert_eq!(files, names(&["root/lib/kept.js"]));
}

#[test]
fn emptying_ignored_directories_changes_nothing() {
    let full = project();
    let emptied = vec![
        file("index.js"),
        file("README.md"),
        dir(
            "src",
            vec![
                file("app.ts"),
                file("style.css"),
                dir("components", vec![file("button.ts"), file("list.js")]),
                file("main.js"),
            ],
        ),
        dir("node_modules", vec![]),
        dir("build", vec![]),
        file("config.ts"),
    ];
    assert_eq!(
        find_files(".", &full, default_ignored()),
        find_files(".", &emptied, default_ignored())
    );
}

#[test]
fn files_with_other_extensions_never_appear() {
    let tree = vec![
        file("a.tsx"),
        file("b.jsx"),
        file("c.json"),
        file("d.js.map"),
        file("e.ts.bak"),
        file("f"),
        file("ts"),
        file("js"),
        file("g.TS"),
        file("h.Js"),
        file("its"),
        file("i."),
        file("import React from \"react\".txt"),
        dir("sub", vec![file("k.mjs"), file("l.cjs"), file("m.d.ts")]),
    ];
    let files = find_files("r", &tree, default_ignored());
    assert_eq!(files, names(&["r/sub/m.d.ts"]));
    for path in &files {
        assert!(source_name(path));
    }
}

#[test]
fn extension_is_what_follows_the_last_dot() {
    assert!(source_name("a.ts"));
    assert!(source_name("a.js"));
    assert!(source_name(".ts"));
    assert!(source_name(".js"));
    assert!(source_name("a.b.js"));
    assert!(source_name("a.test.ts"));
    assert!(!source_name("ts"));
    assert!(!source_name("js"));
    assert!(!source_name(""));
    assert!(!source_name("."));
    assert!(!source_name("a.ts."));
    assert!(!source_name("a.js.map"));
    assert!(!source_name("a.tsx"));
    assert!(!source_name("ats"));
    assert!(!source_name("a.t"));
    assert!(!source_name("é.t"));
    assert!(source_name("é.ts"));
}

#[test]
fn path_is_directory_slash_name() {
    assert_eq!(join_path(".", "a.ts"), "./a.ts");
    assert_eq!(join_path("/abs/dir", "b.js"), "/abs/dir/b.js");
    assert_eq!(join_path("", "c"), "/c");
    assert_eq!(join_path("d/", ""), "d//");
    assert_eq!(join_path("with \"quote\"", "x.ts"), "with \"quote\"/x.ts");
}

#[test]
fn directory_with_source_extension_is_entered_not_reported() {
    let tree = vec![dir("pkg.js", vec![file("inner.ts")]), dir("empty.ts", vec![])];
    let files = find_files(".", &tree, default_ignored());
    assert_eq!(files, names(&["./pkg.js/inner.ts"]));
}

#[test]
fn file_with_an_ignored_name_is_only_a_file() {
    let tree = vec![file("build"), file("node_modules"), file("build.js")];
    let files = find_files(".", &tree, default_ignored());
    assert_eq!(files, names(&["./build.js"]));
}

#[test]
fn ignored_names_match_whole_base_names_only() {
    let tree = vec![
        dir("builds", vec![file("a.js")]),
        dir("Build", vec![file("b.js")]),
        dir("node_modules2", vec![file("c.js")]),
        dir("my-build", vec![file("d.js")]),
        dir("build", vec![file("e.js")]),
    ];
    let files = find_files(".", &tree, default_ignored());
    assert_eq!(
        files,
        names(&["./builds/a.js", "./Build/b.js", "./node_modules2/c.js", "./my-build/d.js"])
    );
}

#[test]
fn root_is_walked_whatever_its_name() {
    let tree = vec![file("a.js")];
    assert_eq!(find_files("build", &tree, default_ignored()), names(&["build/a.js"]));
    assert_eq!(
        find_files("/x/node_modules", &tree, default_ignored()),
        names(&["/x/node_modules/a.js"])
    );
}

#[test]
fn ignored_names_can_be_chosen() {
    let tree = vec![
        dir("node_modules", vec![file("a.js")]),
        dir("vendor", vec![file("b.js")]),
        dir("src", vec![file("c.js")]),
    ];
    assert_eq!(
        find_files(".", &tree, names(&["vendor", "src"])),
        names(&["./node_modules/a.js"])
    );
    assert_eq!(
        find_files(".", &tree, Vec::new()),
        names(&["./node_modules/a.js", "./vendor/b.js", "./src/c.js"])
    );
}

#[test]
fn default_ignored_names() {
    assert_eq!(default_ignored(), names(&["node_modules", "build"]));
}

#[test]
fn empty_tree_has_no_files() {
    assert_eq!(find_files(".", &Vec::new(), default_ignored()), Vec::<String>::new());
    let tree = vec![dir("a", vec![dir("b", vec![dir("c", vec![])])])];
    assert_eq!(find_files(".", &tree, default_ignored()), Vec::<String>::new());
}

#[test]
fn deep_tree_is_walked_to_the_bottom() {
    let mut tree = vec![file("leaf.ts")];
    let mut expected = String::from("leaf.ts");
    for level in 0..200 {
        let name = format!("d{}", level);
        expected = format!("{}/{}", name, expected);
        tree = vec![dir(&name, tree)];
    }
    let files = find_files(".", &tree, default_ignored());
    assert_eq!(files, vec![format!("./{}", expected)]);
}

#[test]
fn walker_asks_for_the_root_first() {
    let walker = Walker::new("some/root", default_ignored());
    assert!(!walker.is_finished());
    assert_eq!(walker.next_directory(), Some(&"some/root".to_string()));
    assert_eq!(walker.found(), &Vec::<String>::new());
}

#[test]
fn walker_goes_through_listings_step_by_step() {
    let walker = Walker::new(".", default_ignored());
    let walker = walker.supply_listing(entries(vec![
        listed_file("first.js"),
        listed_dir("lib"),
        listed_file("between.ts"),
        listed_dir("node_modules"),
        listed_dir("test"),
        listed_file("last.js"),
        listed_file("notes.txt"),
    ])).unwrap();
    assert_eq!(walker.found(), &names(&["./first.js"]));
    assert_eq!(walker.next_directory(), Some(&"./lib".to_string()));
    assert!(!walker.is_finished());

    let walker = walker.supply_listing(entries(vec![listed_file("in_lib.ts"), listed_dir("deep")])).unwrap();
    assert_eq!(walker.found(), &names(&["./first.js", "./lib/in_lib.ts"]));
    assert_eq!(walker.next_directory(), Some(&"./lib/deep".to_string()));

    let walker = walker.supply_listing(entries(vec![])).unwrap();
    assert_eq!(walker.found(), &names(&["./first.js", "./lib/in_lib.ts", "./between.ts"]));
    assert_eq!(walker.next_directory(), Some(&"./test".to_string()));

    let walker = walker.supply_listing(entries(vec![listed_file("t.js")])).unwrap();
    assert!(walker.is_finished());
    assert_eq!(walker.next_directory(), None);
    assert_eq!(
        walker.into_found(),
        names(&["./first.js", "./lib/in_lib.ts", "./between.ts", "./test/t.js", "./last.js"])
    );
}

#[test]
fn walker_never_asks_for_an_ignored_directory() {
    let mut walker = Walker::new(".", default_ignored());
    let mut asked = Vec::new();
    let mut round = 0;
    while let Some(dir) = walker.next_directory() {
        asked.push(dir.clone());
        let listing = if round < 3 {
            vec![listed_dir("node_modules"), listed_dir("build"), listed_dir("ok"), listed_file("f.js")]
        } else {
            vec![listed_dir("build")]
        };
        round += 1;
        walker = walker.supply_listing(entries(listing)).unwrap();
    }
    assert_eq!(asked, names(&[".", "./ok", "./ok/ok", "./ok/ok/ok"]));
    assert!(walker.ignores(&"build".to_string()));
    assert!(walker.ignores(&"node_modules".to_string()));
    assert!(!walker.ignores(&"ok".to_string()));
    assert_eq!(
        walker.into_found(),
        names(&["./ok/ok/f.js", "./ok/f.js", "./f.js"])
    );
}

#[test]
fn finished_walker_takes_no_listing() {
    let walker = Walker::new(".", default_ignored());
    let walker = walker.supply_listing(entries(vec![listed_file("a.js")])).unwrap();
    assert!(walker.is_finished());
    let walker = walker.supply_listing(entries(vec![listed_file("b.js"), listed_dir("c")])).unwrap();
    assert!(walker.is_finished());
    assert_eq!(walker.next_directory(), None);
    assert_eq!(walker.into_found(), names(&["./a.js"]));
}

#[test]
fn walker_and_tree_walk_agree() {
    let walker = Walker::new(".", default_ignored());
    let walker = walker.supply_listing(entries(vec![
        listed_file("index.js"),
        listed_file("README.md"),
        listed_dir("src"),
        listed_dir("node_modules"),
        listed_dir("build"),
        listed_file("config.ts"),
    ])).unwrap();
    let walker = walker.supply_listing(entries(vec![
        listed_file("app.ts"),
        listed_file("style.css"),
        listed_dir("components"),
        listed_file("main.js"),
    ])).unwrap();
    let walker = walker.supply_listing(entries(vec![listed_file("button.ts"), listed_file("list.js")])).unwrap();
    assert!(walker.is_finished());
    assert_eq!(walker.into_found(), find_files(".", &project(), default_ignored()));
}

#[test]
fn unreadable_directory_ends_the_walk() {
    let walker = Walker::new(".", default_ignored());
    let walker = walker
        .supply_listing(entries(vec![listed_file("a.js"), listed_dir("locked"), listed_file("b.js")]))
        .unwrap();
    assert_eq!(walker.found(), &names(&["./a.js"]));
    let result = walker.supply_listing(Listing::Unreadable("permission denied".to_string()));
    match result {
        Err(UsageError::DirectoryUnreadable { path, reason }) => {
            assert_eq!(path, "./locked");
            assert_eq!(reason, "permission denied");
        }
        other => panic!("{:?}", other.map(|walker| walker.into_found())),
    }
}

#[test]
fn unreadable_root_ends_the_walk() {
    let walker = Walker::new("/gone", default_ignored());
    let error = match walker.supply_listing(Listing::Unreadable("no such directory".to_string())) {
        Err(error) => error,
        Ok(_) => panic!("the walk went on"),
    };
    assert_eq!(error.message(), "cannot list directory /gone: no such directory");
}

#[test]
fn finished_walker_has_no_directory_to_fail_on() {
    let walker = Walker::new(".", default_ignored());
    let walker = walker.supply_listing(entries(vec![listed_file("a.js")])).unwrap();
    let walker = walker.supply_listing(Listing::Unreadable("late".to_string())).unwrap();
    assert!(walker.is_finished());
    assert_eq!(walker.into_found(), names(&["./a.js"]));
}
