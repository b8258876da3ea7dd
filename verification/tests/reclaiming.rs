use brunch::farm::link_desktop_assets;
use brunch::farm::link_files;
use brunch::farm::plan_links;
use brunch::farm::LinkRequest;
use brunch::reclaim::cleanup_files;
use brunch::reclaim::owned_by;
use brunch::reclaim::removal_candidates;
use brunch::reclaim::ReclaimCheck;
use brunch::swap::LinkState;

fn path(parts: &[&str]) -> Vec<String> {
    parts.iter().map(|s| s.to_string()).collect()
}

fn tree(entries: &[&[&str]]) -> Vec<Vec<String>> {
    entries.iter().map(|e| path(e)).collect()
}

#[test]
fn candidates_are_old_minus_new() {
    let old = tree(&[&[".config", "a.conf"], &[".config", "b.conf"], &["bin", "x"]]);
    let new = tree(&[&[".config", "b.conf"]]);
    assert_eq!(
        removal_candidates(&old, &new),
        tree(&[&[".config", "a.conf"], &["bin", "x"]])
    );
}

#[test]
fn same_generation_yields_no_candidates() {
    // Switching current to the generation that is already current compares
    // its entries against themselves: nothing is removed.
    let entries = tree(&[&[".config", "a.conf"], &["bin", "x"]]);
    assert_eq!(removal_candidates(&entries, &entries), Vec::<Vec<String>>::new());
}

#[test]
fn ownership_requires_exact_link_value() {
    let expected = path(&["state", "current", "files", "home", ".config", "a.conf"]);
    assert!(owned_by(&LinkState::Symlink(expected.clone()), &expected));
    // A symlink the user has re-pointed is not owned.
    let foreign = path(&["somewhere", "else"]);
    assert!(!owned_by(&LinkState::Symlink(foreign), &expected));
    // A link to the literal generation path is not owned either: managed
    // links route through the current pointer.
    let literal = path(&["state", "generations", "1", "files", "home", ".config", "a.conf"]);
    assert!(!owned_by(&LinkState::Symlink(literal), &expected));
}

#[test]
fn foreign_content_is_never_owned() {
    // Reclaim safety: a plain file or an absent path at a candidate's target
    // fails the ownership test and is left alone.
    let expected = path(&["state", "current", "files", "home", ".config", "a.conf"]);
    assert!(!owned_by(&LinkState::Other, &expected));
    assert!(!owned_by(&LinkState::Absent, &expected));
}

#[test]
fn link_farm_routes_through_current_pointer() {
    let current = path(&["home", "user", ".local", "state", "brunch", "current"]);
    let home = path(&["home", "user"]);
    let root_entries = tree(&[&["etc", "app", "sys.conf"]]);
    let home_entries = tree(&[&[".config", "app.conf"]]);
    let reqs = link_files(&current, &home, &root_entries, &home_entries);
    assert_eq!(
        reqs,
        vec![
            LinkRequest {
                link_at: path(&["etc", "app", "sys.conf"]),
                value: path(&[
                    "home", "user", ".local", "state", "brunch", "current", "files", "root",
                    "etc", "app", "sys.conf",
                ]),
            },
            LinkRequest {
                link_at: path(&["home", "user", ".config", "app.conf"]),
                value: path(&[
                    "home", "user", ".local", "state", "brunch", "current", "files", "home",
                    ".config", "app.conf",
                ]),
            },
        ]
    );
}

#[test]
fn absent_trees_are_skipped() {
    let current = path(&["state", "current"]);
    let home = path(&["home", "user"]);
    let none: Vec<Vec<String>> = Vec::new();
    assert_eq!(link_files(&current, &home, &none, &none), Vec::<LinkRequest>::new());
}

#[test]
fn plan_links_maps_each_entry() {
    let source = path(&["state", "current", "files", "home"]);
    let target = path(&["home", "user"]);
    let rels = tree(&[&[".config", "a"], &[".vimrc"]]);
    let reqs = plan_links(&source, &target, &rels);
    assert_eq!(reqs.len(), 2);
    assert_eq!(reqs[1].link_at, path(&["home", "user", ".vimrc"]));
    assert_eq!(reqs[1].value, path(&["state", "current", "files", "home", ".vimrc"]));
}

#[test]
fn desktop_assets_link_one_level() {
    let current = path(&["state", "current"]);
    let bin_dir = path(&["home", "user", ".local", "bin"]);
    let apps_dir = path(&["home", "user", ".local", "share", "applications"]);
    let icons_dir = path(&[
        "home", "user", ".local", "share", "icons", "hicolor", "scalable", "apps",
    ]);
    let reqs = link_desktop_assets(
        &current,
        &bin_dir,
        &apps_dir,
        &icons_dir,
        &path(&["foo"]),
        &path(&["foo.desktop"]),
        &path(&["foo.svg"]),
    );
    assert_eq!(
        reqs,
        vec![
            LinkRequest {
                link_at: path(&["home", "user", ".local", "bin", "foo"]),
                value: path(&["state", "current", "bin", "foo"]),
            },
            LinkRequest {
                link_at: path(&["home", "user", ".local", "share", "applications", "foo.desktop"]),
                value: path(&["state", "current", "share", "applications", "foo.desktop"]),
            },
            LinkRequest {
                link_at: path(&[
                    "home", "user", ".local", "share", "icons", "hicolor", "scalable", "apps",
                    "foo.svg",
                ]),
                value: path(&[
                    "state", "current", "share", "icons", "hicolor", "scalable", "apps",
                    "foo.svg",
                ]),
            },
        ]
    );
}

#[test]
fn switching_generations_reclaims_dropped_entry() {
    // Scenario: generation 1 has files/home/.config/app.conf; generation 2
    // omits it but adds files/home/.config/app2.conf.  Switching 1 -> 2 links
    // app2.conf into the new generation and removes the app.conf link,
    // because its value still routes through `current` to the old relative
    // path.
    let current = path(&["home", "user", ".local", "state", "brunch", "current"]);
    let home = path(&["home", "user"]);
    let gen1_home = tree(&[&[".config", "app.conf"]]);
    let gen2_home = tree(&[&[".config", "app2.conf"]]);
    let none: Vec<Vec<String>> = Vec::new();

    // Activation of generation 2 creates the new link.
    let reqs = link_files(&current, &home, &none, &gen2_home);
    assert_eq!(reqs.len(), 1);
    assert_eq!(reqs[0].link_at, path(&["home", "user", ".config", "app2.conf"]));
    assert_eq!(
        reqs[0].value,
        path(&[
            "home", "user", ".local", "state", "brunch", "current", "files", "home", ".config",
            "app2.conf",
        ])
    );

    // Reclaim over (old = gen 1, new = gen 2) checks exactly the dropped
    // entry, expecting the value generation 1's activation produced.
    let checks = cleanup_files(&current, &home, &none, &none, &gen1_home, &gen2_home);
    assert_eq!(
        checks,
        vec![ReclaimCheck {
            target: path(&["home", "user", ".config", "app.conf"]),
            expected: path(&[
                "home", "user", ".local", "state", "brunch", "current", "files", "home",
                ".config", "app.conf",
            ]),
        }]
    );

    // The link generation 1 placed still routes through `current`, so the
    // ownership test passes and the link is removed.
    let on_disk = LinkState::Symlink(checks[0].expected.clone());
    assert!(owned_by(&on_disk, &checks[0].expected));

    // A file the user placed at the same path is not removed.
    assert!(!owned_by(&LinkState::Other, &checks[0].expected));
}

#[test]
fn switching_to_current_generation_reclaims_nothing() {
    let current = path(&["state", "current"]);
    let home = path(&["home", "user"]);
    let entries = tree(&[&[".config", "app.conf"], &[".vimrc"]]);
    let checks = cleanup_files(&current, &home, &entries, &entries, &entries, &entries);
    assert_eq!(checks, Vec::<ReclaimCheck>::new());
}
