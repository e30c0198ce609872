//! The steps of the packaging commands.

use rustscreen::xtask::plan::{
    apk_path, binary_path, build_apk, bundle_path, make_app_assemble, make_app_build,
    make_app_place, make_dmg, sign_notarize, Action, Mode, PlanRun, Step,
};

fn program(step: &Step) -> (String, Vec<String>) {
    match &step.action {
        Action::Run { program, args, .. } => (program.clone(), args.clone()),
        other => panic!("not a run: {other:?}"),
    }
}

#[test]
fn the_package_is_cross_compiled_and_assembled() {
    let plan = build_apk("/repo");
    assert_eq!(plan.len(), 2);
    let (name, args) = program(&plan[0]);
    assert_eq!(name, "cargo");
    assert_eq!(
        args.join(" "),
        "ndk -t arm64-v8a -o /repo/android/app/src/main/jniLibs build --profile dist -p \
         android-client --features live-decode"
    );
    match &plan[1].action {
        Action::Run { program, dir, .. } => {
            assert_eq!(program, "./gradlew");
            assert_eq!(dir.as_deref(), Some("/repo/android"));
        }
        other => panic!("not a run: {other:?}"),
    }
    assert!(apk_path("/repo").ends_with("/release/app-release.apk"));
}

#[test]
fn the_bundle_is_assembled_with_its_version() {
    assert_eq!(program(&make_app_build("/r", None)).1.last().unwrap(), "live-capture,live-usb");
    assert_eq!(program(&make_app_build("/r", Some("x"))).1.last().unwrap(), "x");
    let toml = "[workspace.metadata.rustscreen]\nversion = \"1.2.3\"\n";
    let place = make_app_place("/r");
    assert_eq!(place.len(), 3);
    assert_eq!(place[0].action, Action::RemoveTree(bundle_path("/r")));
    assert_eq!(
        place[1].action,
        Action::MakeDirs("/r/dist/RustScreen.app/Contents/MacOS".to_string())
    );
    assert_eq!(
        place[2].action,
        Action::MakeDirs("/r/dist/RustScreen.app/Contents/Resources".to_string())
    );
    let plan = make_app_assemble("/r", toml, "<string>__VERSION__</string>", true);
    assert_eq!(plan.len(), 5);
    assert_eq!(
        plan[0].action,
        Action::WriteFile {
            path: "/r/dist/RustScreen.app/Contents/Info.plist".to_string(),
            contents: "<string>1.2.3</string>".to_string(),
        }
    );
    assert_eq!(
        plan[1].action,
        Action::CopyFile {
            from: binary_path("/r"),
            to: "/r/dist/RustScreen.app/Contents/MacOS/rustscreen".to_string(),
        }
    );
    let plain = make_app_assemble("/r", "", "__VERSION__", false);
    assert_eq!(plain.len(), 4);
    assert_eq!(
        plain[0].action,
        Action::WriteFile {
            path: "/r/dist/RustScreen.app/Contents/Info.plist".to_string(),
            contents: "0.0.0".to_string(),
        }
    );
}

#[test]
fn the_image_is_named_after_the_bundle() {
    let plist = "<key>CFBundleShortVersionString</key><string>0.1.0</string>";
    let (plan, dmg) = make_dmg("/r", &bundle_path("/r"), plist, "/tmp/stage");
    assert_eq!(dmg, "/r/dist/RustScreen-0.1.0.dmg");
    assert_eq!(plan.len(), 7);
    assert_eq!(
        program(&plan[5]).1.join(" "),
        "create -volname RustScreen -srcfolder /tmp/stage -ov -format UDZO \
         /r/dist/RustScreen-0.1.0.dmg"
    );
    assert_eq!(plan[6].mode, Mode::Always);
    assert_eq!(plan[6].action, Action::RemoveTree("/tmp/stage".to_string()));
}

#[test]
fn the_bundle_is_signed_before_it_is_submitted() {
    let plan = sign_notarize("/r", "/r/dist/RustScreen.app", "ID", "profile");
    let labels: Vec<&str> = plan
        .iter()
        .map(|s| match &s.action {
            Action::Run { label, .. } => label.as_str(),
            _ => "-",
        })
        .collect();
    assert_eq!(
        labels,
        vec![
            "codesign",
            "codesign --verify",
            "-",
            "ditto",
            "notarytool submit",
            "stapler staple",
            "stapler validate",
            "spctl",
            "-",
        ]
    );
    assert_eq!(plan[7].mode, Mode::Advisory);
    assert_eq!(
        program(&plan[4]).1.join(" "),
        "notarytool submit /r/dist/RustScreen-notarize.zip --keychain-profile profile --wait"
    );
}

/// Carry out a plan whose steps fail where they are told to.
fn carry_out(plan: &Vec<Step>, failing: &[usize]) -> (Vec<usize>, Option<usize>) {
    let mut run = PlanRun::new();
    let mut done = Vec::new();
    while let Some(i) = run.next(plan) {
        done.push(i);
        run.finished(plan, !failing.contains(&i));
    }
    (done, run.failed)
}

#[test]
fn a_failure_skips_all_but_what_always_has_to_be_done() {
    let (plan, _) = make_dmg("/r", "/b", "", "/s");
    assert_eq!(carry_out(&plan, &[]), (vec![0, 1, 2, 3, 4, 5, 6], None));
    assert_eq!(carry_out(&plan, &[4]), (vec![0, 1, 2, 3, 4, 5, 6], None));
    assert_eq!(carry_out(&plan, &[2]), (vec![0, 1, 2, 6], Some(2)));
    assert_eq!(carry_out(&plan, &[5, 6]), (vec![0, 1, 2, 3, 4, 5, 6], Some(6)));
    assert_eq!(carry_out(&plan, &[6]), (vec![0, 1, 2, 3, 4, 5, 6], Some(6)));
    assert_eq!(carry_out(&plan, &[2, 6]), (vec![0, 1, 2, 6], Some(6)));
}
