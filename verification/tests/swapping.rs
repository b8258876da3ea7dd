use brunch::swap::bak_sibling;
use brunch::swap::symlink_atomic;
use brunch::swap::symlink_atomic_actions;
use brunch::swap::tmp_sibling;
use brunch::swap::FsAction;
use brunch::swap::LinkState;
use brunch::swap::SwapPlan;

fn path(parts: &[&str]) -> Vec<String> {
    parts.iter().map(|s| s.to_string()).collect()
}

#[test]
fn swap_is_noop_on_correct_value() {
    let target = path(&["state", "current", "bin", "foo"]);
    let observed = LinkState::Symlink(path(&["state", "current", "bin", "foo"]));
    assert_eq!(symlink_atomic(&observed, &target), SwapPlan::NoOp);
}

#[test]
fn swap_replaces_wrong_value() {
    let target = path(&["state", "current", "bin", "foo"]);
    let observed = LinkState::Symlink(path(&["state", "generations", "1", "bin", "foo"]));
    assert_eq!(symlink_atomic(&observed, &target), SwapPlan::Swap);
}

#[test]
fn swap_creates_absent_link() {
    let target = path(&["state", "current", "bin", "foo"]);
    assert_eq!(symlink_atomic(&LinkState::Absent, &target), SwapPlan::Swap);
}

#[test]
fn swap_backs_up_foreign_content() {
    let target = path(&["state", "current", "bin", "foo"]);
    assert_eq!(symlink_atomic(&LinkState::Other, &target), SwapPlan::BackupThenSwap);
}

#[test]
fn second_activation_plans_noop() {
    // Idempotence on one link: after the first swap the link holds the
    // target, and the second run plans a no-op — zero writes.
    let target = path(&["state", "current", "bin", "foo"]);
    let first = symlink_atomic(&LinkState::Absent, &target);
    assert_eq!(first, SwapPlan::Swap);
    // The swap leaves the link holding the target; observing it again:
    let second = symlink_atomic(&LinkState::Symlink(target.clone()), &target);
    assert_eq!(second, SwapPlan::NoOp);
}

#[test]
fn sibling_names() {
    let link = path(&["home", "user", ".local", "bin", "foo"]);
    assert_eq!(tmp_sibling(&link), path(&["home", "user", ".local", "bin", "foo.tmp"]));
    assert_eq!(
        bak_sibling(&link, 1700000000),
        path(&["home", "user", ".local", "bin", "foo.bak-1700000000"])
    );
}

#[test]
fn swap_actions_go_through_temporary_sibling() {
    // Atomicity: only the final rename touches the link path itself; the new
    // link is prepared at a sibling, so an interruption leaves the link at
    // its old state or absent, never half-written.
    let link = path(&["home", "user", ".config", "app.conf"]);
    let target = path(&["state", "current", "files", "home", ".config", "app.conf"]);
    let actions = symlink_atomic_actions(&link, &target, &LinkState::Absent, 99);
    assert_eq!(
        actions,
        vec![
            FsAction::EnsureDirs { path: path(&["home", "user", ".config"]) },
            FsAction::CreateSymlink {
                at: path(&["home", "user", ".config", "app.conf.tmp"]),
                value: target.clone(),
            },
            FsAction::Rename {
                from: path(&["home", "user", ".config", "app.conf.tmp"]),
                to: link.clone(),
            },
        ]
    );
}

#[test]
fn swap_actions_noop_only_ensures_directories() {
    let link = path(&["home", "user", ".config", "app.conf"]);
    let target = path(&["state", "current", "files", "home", ".config", "app.conf"]);
    let observed = LinkState::Symlink(target.clone());
    let actions = symlink_atomic_actions(&link, &target, &observed, 99);
    assert_eq!(
        actions,
        vec![FsAction::EnsureDirs { path: path(&["home", "user", ".config"]) }]
    );
}

#[test]
fn interrupted_swap_retry_completes() {
    // A retry after an interruption between temporary-link creation and the
    // final rename: the link path is still absent, and the fresh plan swaps
    // it into place completely.
    let link = path(&["home", "user", ".config", "app.conf"]);
    let target = path(&["state", "current", "files", "home", ".config", "app.conf"]);
    let retry = symlink_atomic_actions(&link, &target, &LinkState::Absent, 100);
    assert_eq!(retry.len(), 3);
    assert_eq!(
        retry[2],
        FsAction::Rename {
            from: path(&["home", "user", ".config", "app.conf.tmp"]),
            to: link.clone(),
        }
    );
}

#[test]
fn plain_file_is_backed_up_before_swap() {
    // Scenario: $HOME/.local/bin/foo exists as a plain file before
    // activation; generation 1 provides bin/foo.  The file is renamed to
    // foo.bak-<timestamp> and foo becomes a symlink into the generation.
    let link = path(&["home", "user", ".local", "bin", "foo"]);
    let target = path(&["state", "current", "bin", "foo"]);
    let actions = symlink_atomic_actions(&link, &target, &LinkState::Other, 1700000000);
    assert_eq!(
        actions,
        vec![
            FsAction::EnsureDirs { path: path(&["home", "user", ".local", "bin"]) },
            FsAction::Rename {
                from: link.clone(),
                to: path(&["home", "user", ".local", "bin", "foo.bak-1700000000"]),
            },
            FsAction::CreateSymlink {
                at: path(&["home", "user", ".local", "bin", "foo.tmp"]),
                value: target.clone(),
            },
            FsAction::Rename {
                from: path(&["home", "user", ".local", "bin", "foo.tmp"]),
                to: link.clone(),
            },
        ]
    );
}
