use sooth::cli::Preset;
use sooth::gate::{choose_base, is_test_file, needs_version, phpunit_major, resolve, version_check, VersionCheck};

#[test]
fn an_explicit_base_wins_then_upstream_then_origin_head() {
    assert_eq!(choose_base(Some("main"), Some("up".to_owned()), None), Ok("main".to_owned()));
    assert_eq!(choose_base(None, Some("up".to_owned()), Some("origin/main".to_owned())), Ok("up".to_owned()));
    assert_eq!(choose_base(None, None, Some("origin/main".to_owned())), Ok("origin/main".to_owned()));
    assert!(choose_base(None, None, None).unwrap_err().contains("found no base"));
}

#[test]
fn test_files_follow_each_runners_naming() {
    assert!(is_test_file(Preset::Phpunit, "tests/Unit/CaféTest.php"));
    assert!(!is_test_file(Preset::Phpunit, "src/Café.php"));
    assert!(is_test_file(Preset::Pytest, "tests/test_math.py"));
    assert!(is_test_file(Preset::Pytest, "pkg/math_test.py"));
    assert!(!is_test_file(Preset::Pytest, "test_dir/helpers.py"));
    assert!(is_test_file(Preset::Jest, "src/sum.test.ts"));
    assert!(is_test_file(Preset::Jest, "src/sum.spec.js"));
    assert!(!is_test_file(Preset::Jest, "src/sum.ts"));
    assert!(is_test_file(Preset::Go, "calc/calc_test.go"));
    assert!(!is_test_file(Preset::Go, "calc/calc.go"));
}

#[test]
fn the_selection_is_sorted_deduplicated_and_only_tests() {
    let sel = resolve(
        "HEAD".to_owned(),
        Some("abc".to_owned()),
        Some("b/BTest.php\nsrc/A.php\na/ATest.php".to_owned()),
        Some("a/ATest.php\nNewTest.php".to_owned()),
        Preset::Phpunit,
    )
    .unwrap();
    assert_eq!(sel.base, "HEAD");
    assert_eq!(sel.files, ["NewTest.php", "a/ATest.php", "b/BTest.php"]);
}

#[test]
fn a_failed_git_listing_is_an_error_never_an_empty_selection() {
    let unknown = resolve("nope".to_owned(), None, None, None, Preset::Phpunit);
    assert_eq!(unknown.unwrap_err(), "`--changed=nope` is not a ref git knows here");
    let no_diff = resolve("HEAD".to_owned(), Some("abc".to_owned()), None, None, Preset::Phpunit);
    assert!(no_diff.unwrap_err().contains("could not diff against HEAD"));
    let no_untracked = resolve("HEAD".to_owned(), Some("abc".to_owned()), Some(String::new()), None, Preset::Phpunit);
    assert!(no_untracked.unwrap_err().contains("could not list untracked files"));
}

#[test]
fn the_phpunit_major_version_is_read_from_its_banner() {
    assert_eq!(
        phpunit_major("PHPUnit 9.6.11 by Sebastian Bergmann and contributors."),
        Some(9)
    );
    assert_eq!(
        phpunit_major("PHPUnit 13.2.4 by Sebastian Bergmann and contributors.\n"),
        Some(13)
    );
    assert_eq!(phpunit_major("Pest 2.34.1"), None);
    assert_eq!(phpunit_major("PHPUnit dev"), None);
    assert_eq!(phpunit_major(""), None);
}

#[test]
fn only_a_multi_file_phpunit_gate_asks_for_the_version() {
    assert!(needs_version(Preset::Phpunit, 2));
    assert!(!needs_version(Preset::Phpunit, 1));
    assert!(!needs_version(Preset::Pytest, 5));
    assert!(!needs_version(Preset::Go, 3));
}

#[test]
fn an_old_phpunit_refuses_a_new_one_proceeds_an_unknown_one_warns() {
    match version_check(Some("PHPUnit 9.6.11 by Sebastian Bergmann and contributors."), "./runner.sh", 2) {
        VersionCheck::Refuse(message) => {
            assert!(message.contains("PHPUnit 9") && message.contains("first path"), "{message}");
            assert_eq!(
                message,
                "PHPUnit 9 runs only the first path it is given, so gating 2 changed test files would prove \
                 nothing about the rest — gate with PHPUnit 10 or later, or one file at a time"
            );
        }
        other => panic!("expected a refusal, got {other:?}"),
    }
    assert_eq!(
        version_check(Some("PHPUnit 13.2.4 by Sebastian Bergmann and contributors."), "./runner.sh", 2),
        VersionCheck::Proceed
    );
    assert_eq!(
        version_check(Some("PHPUnit 10.0.0"), "vendor/bin/phpunit", 3),
        VersionCheck::Proceed
    );
    assert_eq!(
        version_check(Some("Pest 2.34.1"), "./runner.sh", 2),
        VersionCheck::Warn(
            "could not read a PHPUnit version from `./runner.sh --version` — gating 2 changed test files \
             assumes PHPUnit 10 or later, which runs every path it is given"
                .to_owned()
        )
    );
    assert!(matches!(version_check(None, "./runner.sh", 4), VersionCheck::Warn(_)));
}
