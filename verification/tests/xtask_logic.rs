//! What the packaging commands read and compute.

use rustscreen::xtask::logic::{
    dmg_filename, fill_version_template, parse_command, plist_short_version, workspace_version,
    Command, UsageError,
};

fn s(v: &str) -> String {
    v.to_string()
}

#[test]
fn workspace_version_reads_the_metadata_section() {
    let toml = "\
[workspace]
members = [\"a\"]

[workspace.metadata.rustscreen]
app-name = \"RustScreen\"
version = \"0.1.0\"
";
    assert_eq!(workspace_version(toml), Some(s("0.1.0")));
}

#[test]
fn workspace_version_ignores_a_version_before_the_section() {
    let toml = "\
[package]
version = \"9.9.9\"

[workspace.metadata.rustscreen]
version = \"0.1.0\"
";
    assert_eq!(workspace_version(toml), Some(s("0.1.0")));
}

#[test]
fn workspace_version_is_none_when_the_section_is_absent() {
    let toml = "[workspace]\nmembers = []\n";
    assert_eq!(workspace_version(toml), None);
}

#[test]
fn fill_version_template_replaces_every_occurrence() {
    let tpl = "<key>CFBundleVersion</key><string>__VERSION__</string>\
<key>CFBundleShortVersionString</key><string>__VERSION__</string>";
    assert_eq!(
        fill_version_template(tpl, "1.2.3"),
        "<key>CFBundleVersion</key><string>1.2.3</string>\
<key>CFBundleShortVersionString</key><string>1.2.3</string>"
    );
}

#[test]
fn fill_version_template_no_placeholder_is_unchanged() {
    assert_eq!(
        fill_version_template("no marker here", "1.2.3"),
        "no marker here"
    );
}

#[test]
fn dmg_filename_joins_name_and_version() {
    assert_eq!(dmg_filename("RustScreen", "0.1.0"), "RustScreen-0.1.0.dmg");
}

#[test]
fn plist_short_version_picks_the_short_version_key_not_an_earlier_one() {
    let plist = "\
<dict>
    <key>CFBundleVersion</key>
    <string>9.9.9</string>
    <key>CFBundleShortVersionString</key>
    <string>0.1.0</string>
</dict>";
    assert_eq!(plist_short_version(plist), Some(s("0.1.0")));
}

#[test]
fn plist_short_version_is_none_when_key_absent() {
    let plist = "<dict><key>CFBundleName</key><string>RustScreen</string></dict>";
    assert_eq!(plist_short_version(plist), None);
}

#[test]
fn parse_build_apk() {
    assert_eq!(parse_command(&[s("build-apk")]), Ok(Command::BuildApk));
}

#[test]
fn parse_make_app_without_features() {
    assert_eq!(
        parse_command(&[s("make-app")]),
        Ok(Command::MakeApp { features: None })
    );
}

#[test]
fn parse_make_app_with_features() {
    assert_eq!(
        parse_command(&[s("make-app"), s("--features"), s("live-capture,live-usb")]),
        Ok(Command::MakeApp {
            features: Some(s("live-capture,live-usb"))
        })
    );
}

#[test]
fn parse_make_app_features_without_value_is_an_error() {
    assert!(parse_command(&[s("make-app"), s("--features")]).is_err());
}

#[test]
fn parse_make_dmg_with_optional_bundle_path() {
    assert_eq!(
        parse_command(&[s("make-dmg")]),
        Ok(Command::MakeDmg { bundle: None })
    );
    assert_eq!(
        parse_command(&[s("make-dmg"), s("/tmp/RustScreen.app")]),
        Ok(Command::MakeDmg {
            bundle: Some(s("/tmp/RustScreen.app"))
        })
    );
}

#[test]
fn parse_sign_notarize() {
    assert_eq!(
        parse_command(&[s("sign-notarize")]),
        Ok(Command::SignNotarize { bundle: None })
    );
}

#[test]
fn parse_help_variants() {
    assert_eq!(parse_command(&[]), Ok(Command::Help));
    assert_eq!(parse_command(&[s("help")]), Ok(Command::Help));
    assert_eq!(parse_command(&[s("-h")]), Ok(Command::Help));
    assert_eq!(parse_command(&[s("--help")]), Ok(Command::Help));
}

#[test]
fn parse_unknown_command_is_an_error() {
    assert!(parse_command(&[s("frobnicate")]).is_err());
}

#[test]
fn workspace_version_takes_the_first_one_of_its_table() {
    let toml = "[workspace.metadata.rustscreen]\r\nname = \"x\"\r\n version=\"1.2\" # 3\r\nversion = \"9\"";
    assert_eq!(workspace_version(toml), Some(s("1.2")));
    // A version without quotes decides too, and there is none.
    let toml = "[workspace.metadata.rustscreen]\nversion = 1\nversion = \"9\"\n";
    assert_eq!(workspace_version(toml), None);
    // Another table ends the section.
    let toml = "[workspace.metadata.rustscreen]\n[other]\nversion = \"9\"\n";
    assert_eq!(workspace_version(toml), None);
    assert_eq!(workspace_version(""), None);
}

#[test]
fn placeholders_that_overlap_are_filled_from_the_start() {
    assert_eq!(fill_version_template("__VERSION____VERSION__", "1"), "11");
    assert_eq!(fill_version_template("__VERSION__VERSION__", "1"), "1VERSION__");
    assert_eq!(fill_version_template("", "1"), "");
}

#[test]
fn plist_values_are_trimmed() {
    let plist = "<key>CFBundleShortVersionString</key><string> 2.0\n</string>";
    assert_eq!(plist_short_version(plist), Some(s("2.0")));
    assert_eq!(plist_short_version("<key>CFBundleShortVersionString</key><string>2.0"), None);
}

#[test]
fn usage_errors_say_what_is_wrong() {
    assert_eq!(
        parse_command(&[s("frobnicate")]),
        Err(UsageError::UnknownCommand(s("frobnicate")))
    );
    assert_eq!(
        parse_command(&[s("make-app"), s("--features")]),
        Err(UsageError::FeaturesWithoutValue)
    );
    assert_eq!(
        parse_command(&[s("make-app"), s("x"), s("y")]),
        Err(UsageError::UnexpectedArguments(vec![s("x"), s("y")]))
    );
}

#[test]
fn a_header_with_a_comment_is_a_header() {
    let other = "[workspace.metadata.rustscreen]\napp-name = \"RustScreen\"\n[package] # other table\nversion = \"9.9.9\"\n";
    assert_eq!(workspace_version(other), None);
    let own = "[package]\nversion = \"9.9.9\"\n [workspace.metadata.rustscreen] # [ours]\nversion = \"1.2.3\"\n";
    assert_eq!(workspace_version(own), Some(s("1.2.3")));
    let array = "[workspace.metadata.rustscreen]\n[[bin]] # more\nversion = \"9.9.9\"\n";
    assert_eq!(workspace_version(array), None);
    let quoted = "[workspace.metadata.rustscreen]\n[\"a]b\".c]\nversion = \"9.9.9\"\n";
    assert_eq!(workspace_version(quoted), None);
    let value = "[workspace.metadata.rustscreen]\n[x] = 1\nversion = \"1.0.0\"\n";
    assert_eq!(workspace_version(value), Some(s("1.0.0")));
}

#[test]
fn a_line_between_brackets_is_a_header() {
    for other in ["[a] [b]", "[it's]", "[[bin]]", "[a\"b]"] {
        let toml = format!(
            "[workspace.metadata.rustscreen]\napp-name = \"x\"\n{other}\nversion = \"9.9.9\"\n"
        );
        assert_eq!(workspace_version(&toml), None, "{other}");
    }
    let toml = "[it's]\n[workspace.metadata.rustscreen] # ours\nversion = \"1.0.0\"\n";
    assert_eq!(workspace_version(toml), Some("1.0.0".to_string()));
}

#[test]
fn the_short_version_stands_right_behind_its_key() {
    let key = "<key>CFBundleShortVersionString</key>";
    let plist = |between: &str| format!("<dict>{key}{between}<string> 1.2.3 </string></dict>");
    assert_eq!(plist_short_version(&plist("")), Some("1.2.3".to_string()));
    assert_eq!(plist_short_version(&plist(" \n\t")), Some("1.2.3".to_string()));
    assert_eq!(plist_short_version(&plist("<true/><key>Other</key>")), None);
}
