use rsahp::release::{bump, detect_version, format_version, manifest_line, parse_semver, rewrite_version, BumpLevel};

#[test]
fn the_version_is_read_from_the_first_version_line() {
    let toml = "[package]\nname = \"frontend\"\n  version = \"0.4.2\"\r\nedition = \"2021\"\nversion = \"9.9.9\"\n";
    assert_eq!(detect_version(toml), "0.4.2");
    assert_eq!(detect_version("[package]\nname = \"x\"\n"), "");
    assert_eq!(detect_version(""), "");
    assert_eq!(detect_version("version = \"1.0.0\""), "1.0.0");
}

#[test]
fn semver_parts_skip_unreadable_pieces() {
    assert_eq!(parse_semver("1.2.3"), Some((1, 2, 3)));
    assert_eq!(parse_semver("1.2"), None);
    assert_eq!(parse_semver("1.x.2.3"), Some((1, 2, 3)));
    assert_eq!(parse_semver("1.2.3.4"), None);
}

#[test]
fn bumps_reset_the_lower_numbers() {
    assert_eq!(bump((1, 2, 3), BumpLevel::Patch), Some((1, 2, 4)));
    assert_eq!(bump((1, 2, 3), BumpLevel::Minor), Some((1, 3, 0)));
    assert_eq!(bump((1, 2, 3), BumpLevel::Major), Some((2, 0, 0)));
    assert_eq!(bump((1, 2, 3), BumpLevel::Cancel), None);
    assert_eq!(format_version((2, 0, 10)), "2.0.10");
}

#[test]
fn manifests_are_rewritten_once() {
    let old = manifest_line("0.1.0");
    let new = manifest_line("0.2.0");
    assert_eq!(old, "version = \"0.1.0\"");
    let content = "version = \"0.1.0\"\ndep = { version = \"0.1.0\" }\n";
    assert_eq!(
        rewrite_version(content, &old, &new).as_deref(),
        Some("version = \"0.2.0\"\ndep = { version = \"0.1.0\" }\n")
    );
    assert_eq!(rewrite_version("name = \"x\"", &old, &new), None);
}

#[test]
fn a_written_version_reads_back() {
    for parts in [(0, 0, 0), (1, 20, 300), (4294967295, 7, 4294967295)] {
        assert_eq!(parse_semver(&format_version(parts)), Some(parts));
    }
}
