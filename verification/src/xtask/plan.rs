//! What the packaging commands do, as lists of steps, and how a list of steps is carried out.

use vstd::prelude::*;
use crate::path::{join, joined};
use crate::text::{option_view, replaced};
use super::logic::{dmg_filename, fill_version_template, plist_short_version, workspace_version};
use super::logic::{short_version_of, strings_view, version_in};

verus! {

/// The features that the application is built with where none are named.
pub const MAKE_APP_DEFAULT_FEATURES: &'static str = "live-capture,live-usb";

/// One thing to do.
#[derive(Debug, PartialEq, Eq)]
pub enum Action {
    /// Run a program in a directory.
    Run { label: String, program: String, args: Vec<String>, dir: Option<String> },
    /// Remove a directory with all it holds, if it is there.
    RemoveTree(String),
    /// Remove a file.
    RemoveFile(String),
    /// Make a directory and those above it.
    MakeDirs(String),
    /// Write a file.
    WriteFile { path: String, contents: String },
    /// Copy a file.
    CopyFile { from: String, to: String },
    /// Let a file be run.
    MakeExecutable(String),
    /// Make a symbolic link.
    Symlink { target: String, at: String },
}

/// What a step's failure means.
#[derive(Clone, Copy, Debug, PartialEq, Eq, Structural)]
pub enum Mode {
    /// The command has failed.
    Required,
    /// Nothing.
    Advisory,
    /// The command has failed; the step itself is carried out even if it had failed before.
    Always,
}

/// One step of a command.
#[derive(Debug, PartialEq, Eq)]
pub struct Step {
    pub action: Action,
    pub mode: Mode,
}

/// An action by its values.
pub enum ActionView {
    Run {
        label: Seq<char>,
        program: Seq<char>,
        args: Seq<Seq<char>>,
        dir: Option<Seq<char>>,
    },
    RemoveTree(Seq<char>),
    RemoveFile(Seq<char>),
    MakeDirs(Seq<char>),
    WriteFile { path: Seq<char>, contents: Seq<char> },
    CopyFile { from: Seq<char>, to: Seq<char> },
    MakeExecutable(Seq<char>),
    Symlink { target: Seq<char>, at: Seq<char> },
}

/// A step by its values.
pub struct StepView {
    pub action: ActionView,
    pub mode: Mode,
}

impl View for Step {
    type V = StepView;

    open spec fn view(&self) -> StepView {
        StepView {
            action: match self.action {
                Action::Run { label, program, args, dir } => ActionView::Run {
                    label: label@,
                    program: program@,
                    args: strings_view(args@),
                    dir: option_view(dir),
                },
                Action::RemoveTree(path) => ActionView::RemoveTree(path@),
                Action::RemoveFile(path) => ActionView::RemoveFile(path@),
                Action::MakeDirs(path) => ActionView::MakeDirs(path@),
                Action::WriteFile { path, contents } => ActionView::WriteFile {
                    path: path@,
                    contents: contents@,
                },
                Action::CopyFile { from, to } => ActionView::CopyFile { from: from@, to: to@ },
                Action::MakeExecutable(path) => ActionView::MakeExecutable(path@),
                Action::Symlink { target, at } => ActionView::Symlink { target: target@, at: at@ },
            },
            mode: self.mode,
        }
    }
}

/// A list of steps by its values.
pub open spec fn steps_view(steps: Seq<Step>) -> Seq<StepView> {
    Seq::new(steps.len(), |i: int| steps[i]@)
}

/// A run of a program that has to succeed.
pub open spec fn run_of(
    label: Seq<char>,
    program: Seq<char>,
    args: Seq<Seq<char>>,
    dir: Option<Seq<char>>,
) -> StepView {
    StepView { action: ActionView::Run { label, program, args, dir }, mode: Mode::Required }
}

/// A step that has to succeed.
pub open spec fn required(action: ActionView) -> StepView {
    StepView { action, mode: Mode::Required }
}

/// A step that may fail.
pub open spec fn advisory(action: ActionView) -> StepView {
    StepView { action, mode: Mode::Advisory }
}

fn run(label: &str, program: &str, args: Vec<String>, dir: Option<String>) -> (r: Step)
    ensures
        r@ == run_of(label@, program@, strings_view(args@), option_view(dir)),
{
    Step {
        action: Action::Run { label: label.to_owned(), program: program.to_owned(), args, dir },
        mode: Mode::Required,
    }
}

fn must(action: Action) -> (r: Step)
    ensures
        r.action == action,
        r.mode == Mode::Required,
{
    Step { action, mode: Mode::Required }
}

fn may(action: Action) -> (r: Step)
    ensures
        r.action == action,
        r.mode == Mode::Advisory,
{
    Step { action, mode: Mode::Advisory }
}

fn owned(s: &str) -> (r: String)
    ensures
        r@ == s@,
{
    s.to_owned()
}

/// Add a text to a list of arguments.
fn arg(args: &mut Vec<String>, s: &str)
    ensures
        strings_view(final(args)@) == strings_view(old(args)@).push(s@),
{
    args.push(s.to_owned());
    proof {
        assert(strings_view(args@) =~= strings_view(old(args)@).push(s@));
    }
}

/// Add a step to a plan.
fn step(plan: &mut Vec<Step>, s: Step)
    ensures
        steps_view(final(plan)@) == steps_view(old(plan)@).push(s@),
{
    plan.push(s);
    proof {
        assert(steps_view(plan@) =~= steps_view(old(plan)@).push(s@));
    }
}

fn no_args() -> (r: Vec<String>)
    ensures
        strings_view(r@) == Seq::<Seq<char>>::empty(),
{
    let r: Vec<String> = Vec::new();
    proof {
        assert(strings_view(r@) =~= Seq::<Seq<char>>::empty());
    }
    r
}

fn no_steps() -> (r: Vec<Step>)
    ensures
        steps_view(r@) == Seq::<StepView>::empty(),
{
    let r: Vec<Step> = Vec::new();
    proof {
        assert(steps_view(r@) =~= Seq::<StepView>::empty());
    }
    r
}

/// The arguments that cross-compile the client library into a directory.
pub open spec fn ndk_args_of(libs: Seq<char>) -> Seq<Seq<char>> {
    seq![
        "ndk"@,
        "-t"@,
        "arm64-v8a"@,
        "-o"@,
        libs,
        "build"@,
        "--profile"@,
        "dist"@,
        "-p"@,
        "android-client"@,
        "--features"@,
        "live-decode"@,
    ]
}

fn ndk_args(libs: &str) -> (args: Vec<String>)
    ensures
        strings_view(args@) == ndk_args_of(libs@),
{
    let mut args: Vec<String> = no_args();
    arg(&mut args, "ndk");
    arg(&mut args, "-t");
    arg(&mut args, "arm64-v8a");
    arg(&mut args, "-o");
    arg(&mut args, libs);
    arg(&mut args, "build");
    arg(&mut args, "--profile");
    arg(&mut args, "dist");
    arg(&mut args, "-p");
    arg(&mut args, "android-client");
    arg(&mut args, "--features");
    arg(&mut args, "live-decode");
    proof {
        assert(strings_view(args@) =~= ndk_args_of(libs@));
    }
    args
}

/// The arguments that assemble the package.
pub open spec fn gradle_args_of() -> Seq<Seq<char>> {
    seq![
        "assembleRelease"@,
    ]
}

fn gradle_args() -> (args: Vec<String>)
    ensures
        strings_view(args@) == gradle_args_of(),
{
    let mut args: Vec<String> = no_args();
    arg(&mut args, "assembleRelease");
    proof {
        assert(strings_view(args@) =~= gradle_args_of());
    }
    args
}

/// The arguments that build the host with some features.
pub open spec fn host_args_of(features: Seq<char>) -> Seq<Seq<char>> {
    seq![
        "build"@,
        "--profile"@,
        "dist"@,
        "-p"@,
        "macos-host"@,
        "--bin"@,
        "rustscreen"@,
        "--features"@,
        features,
    ]
}

fn host_args(features: &str) -> (args: Vec<String>)
    ensures
        strings_view(args@) == host_args_of(features@),
{
    let mut args: Vec<String> = no_args();
    arg(&mut args, "build");
    arg(&mut args, "--profile");
    arg(&mut args, "dist");
    arg(&mut args, "-p");
    arg(&mut args, "macos-host");
    arg(&mut args, "--bin");
    arg(&mut args, "rustscreen");
    arg(&mut args, "--features");
    arg(&mut args, features);
    proof {
        assert(strings_view(args@) =~= host_args_of(features@));
    }
    args
}

/// The arguments that copy a bundle.
pub open spec fn copy_args_of(bundle: Seq<char>, to: Seq<char>) -> Seq<Seq<char>> {
    seq![
        "-R"@,
        bundle,
        to,
    ]
}

fn copy_args(bundle: &str, to: &str) -> (args: Vec<String>)
    ensures
        strings_view(args@) == copy_args_of(bundle@, to@),
{
    let mut args: Vec<String> = no_args();
    arg(&mut args, "-R");
    arg(&mut args, bundle);
    arg(&mut args, to);
    proof {
        assert(strings_view(args@) =~= copy_args_of(bundle@, to@));
    }
    args
}

/// The arguments that wrap a stage in a disk image.
pub open spec fn image_args_of(stage: Seq<char>, dmg: Seq<char>) -> Seq<Seq<char>> {
    seq![
        "create"@,
        "-volname"@,
        "RustScreen"@,
        "-srcfolder"@,
        stage,
        "-ov"@,
        "-format"@,
        "UDZO"@,
        dmg,
    ]
}

fn image_args(stage: &str, dmg: &str) -> (args: Vec<String>)
    ensures
        strings_view(args@) == image_args_of(stage@, dmg@),
{
    let mut args: Vec<String> = no_args();
    arg(&mut args, "create");
    arg(&mut args, "-volname");
    arg(&mut args, "RustScreen");
    arg(&mut args, "-srcfolder");
    arg(&mut args, stage);
    arg(&mut args, "-ov");
    arg(&mut args, "-format");
    arg(&mut args, "UDZO");
    arg(&mut args, dmg);
    proof {
        assert(strings_view(args@) =~= image_args_of(stage@, dmg@));
    }
    args
}

/// The arguments that sign a bundle for the hardened runtime.
pub open spec fn sign_args_of(
    entitlements: Seq<char>,
    identity: Seq<char>,
    bundle: Seq<char>,
) -> Seq<Seq<char>> {
    seq![
        "--force"@,
        "--options"@,
        "runtime"@,
        "--timestamp"@,
        "--entitlements"@,
        entitlements,
        "--sign"@,
        identity,
        bundle,
    ]
}

fn sign_args(entitlements: &str, identity: &str, bundle: &str) -> (args: Vec<String>)
    ensures
        strings_view(args@) == sign_args_of(entitlements@, identity@, bundle@),
{
    let mut args: Vec<String> = no_args();
    arg(&mut args, "--force");
    arg(&mut args, "--options");
    arg(&mut args, "runtime");
    arg(&mut args, "--timestamp");
    arg(&mut args, "--entitlements");
    arg(&mut args, entitlements);
    arg(&mut args, "--sign");
    arg(&mut args, identity);
    arg(&mut args, bundle);
    proof {
        assert(strings_view(args@) =~= sign_args_of(entitlements@, identity@, bundle@));
    }
    args
}

/// The arguments that check a signature.
pub open spec fn verify_args_of(bundle: Seq<char>) -> Seq<Seq<char>> {
    seq![
        "--verify"@,
        "--strict"@,
        "--verbose=2"@,
        bundle,
    ]
}

fn verify_args(bundle: &str) -> (args: Vec<String>)
    ensures
        strings_view(args@) == verify_args_of(bundle@),
{
    let mut args: Vec<String> = no_args();
    arg(&mut args, "--verify");
    arg(&mut args, "--strict");
    arg(&mut args, "--verbose=2");
    arg(&mut args, bundle);
    proof {
        assert(strings_view(args@) =~= verify_args_of(bundle@));
    }
    args
}

/// The arguments that pack a bundle for its submission.
pub open spec fn pack_args_of(bundle: Seq<char>, zip: Seq<char>) -> Seq<Seq<char>> {
    seq![
        "-c"@,
        "-k"@,
        "--keepParent"@,
        bundle,
        zip,
    ]
}

fn pack_args(bundle: &str, zip: &str) -> (args: Vec<String>)
    ensures
        strings_view(args@) == pack_args_of(bundle@, zip@),
{
    let mut args: Vec<String> = no_args();
    arg(&mut args, "-c");
    arg(&mut args, "-k");
    arg(&mut args, "--keepParent");
    arg(&mut args, bundle);
    arg(&mut args, zip);
    proof {
        assert(strings_view(args@) =~= pack_args_of(bundle@, zip@));
    }
    args
}

/// The arguments that have a bundle notarized.
pub open spec fn submit_args_of(zip: Seq<char>, profile: Seq<char>) -> Seq<Seq<char>> {
    seq![
        "notarytool"@,
        "submit"@,
        zip,
        "--keychain-profile"@,
        profile,
        "--wait"@,
    ]
}

fn submit_args(zip: &str, profile: &str) -> (args: Vec<String>)
    ensures
        strings_view(args@) == submit_args_of(zip@, profile@),
{
    let mut args: Vec<String> = no_args();
    arg(&mut args, "notarytool");
    arg(&mut args, "submit");
    arg(&mut args, zip);
    arg(&mut args, "--keychain-profile");
    arg(&mut args, profile);
    arg(&mut args, "--wait");
    proof {
        assert(strings_view(args@) =~= submit_args_of(zip@, profile@));
    }
    args
}

/// The arguments that staple a ticket, or check that it is there.
pub open spec fn stapler_args_of(what: Seq<char>, bundle: Seq<char>) -> Seq<Seq<char>> {
    seq![
        "stapler"@,
        what,
        bundle,
    ]
}

fn stapler_args(what: &str, bundle: &str) -> (args: Vec<String>)
    ensures
        strings_view(args@) == stapler_args_of(what@, bundle@),
{
    let mut args: Vec<String> = no_args();
    arg(&mut args, "stapler");
    arg(&mut args, what);
    arg(&mut args, bundle);
    proof {
        assert(strings_view(args@) =~= stapler_args_of(what@, bundle@));
    }
    args
}

/// The arguments that assess a bundle.
pub open spec fn assess_args_of(bundle: Seq<char>) -> Seq<Seq<char>> {
    seq![
        "--assess"@,
        "--type"@,
        "execute"@,
        "--verbose=4"@,
        bundle,
    ]
}

fn assess_args(bundle: &str) -> (args: Vec<String>)
    ensures
        strings_view(args@) == assess_args_of(bundle@),
{
    let mut args: Vec<String> = no_args();
    arg(&mut args, "--assess");
    arg(&mut args, "--type");
    arg(&mut args, "execute");
    arg(&mut args, "--verbose=4");
    arg(&mut args, bundle);
    proof {
        assert(strings_view(args@) =~= assess_args_of(bundle@));
    }
    args
}

/// The steps of `build-apk`: cross-compile the client library, then assemble the package.
pub open spec fn apk_plan(root: Seq<char>) -> Seq<StepView> {
    seq![
        run_of(
            "cargo ndk build"@,
            "cargo"@,
            ndk_args_of(joined(root, "android/app/src/main/jniLibs"@)),
            Some(root),
        ),
        run_of(
            "gradlew assembleRelease"@,
            "./gradlew"@,
            gradle_args_of(),
            Some(joined(root, "android"@)),
        ),
    ]
}

/// Plan `build-apk`.
pub fn build_apk(root: &str) -> (r: Vec<Step>)
    ensures
        steps_view(r@) == apk_plan(root@),
{
    let libs: String = join(root, "android/app/src/main/jniLibs");
    let mut plan: Vec<Step> = no_steps();
    step(&mut plan, run("cargo ndk build", "cargo", ndk_args(libs.as_str()), Some(owned(root))));
    step(
        &mut plan,
        run("gradlew assembleRelease", "./gradlew", gradle_args(), Some(join(root, "android"))),
    );
    proof {
        assert(steps_view(plan@) =~= apk_plan(root@));
    }
    plan
}

/// Where the package ends up.
pub fn apk_path(root: &str) -> (r: String)
    ensures
        r@ == joined(root@, "android/app/build/outputs/apk/release/app-release.apk"@),
{
    join(root, "android/app/build/outputs/apk/release/app-release.apk")
}

/// Where the bundle is made.
pub open spec fn bundle_of(root: Seq<char>) -> Seq<char> {
    joined(joined(root, "dist"@), "RustScreen.app"@)
}

/// Where the bundle is made.
pub fn bundle_path(root: &str) -> (r: String)
    ensures
        r@ == bundle_of(root@),
{
    let dist: String = join(root, "dist");
    join(dist.as_str(), "RustScreen.app")
}

/// Where the built host is.
pub fn binary_path(root: &str) -> (r: String)
    ensures
        r@ == joined(root@, "target/dist/rustscreen"@),
{
    join(root, "target/dist/rustscreen")
}

/// The first step of `make-app`: build the host.
pub open spec fn app_build_step(root: Seq<char>, features: Option<Seq<char>>) -> StepView {
    run_of(
        "cargo build"@,
        "cargo"@,
        host_args_of(
            match features {
                Some(features) => features,
                None => MAKE_APP_DEFAULT_FEATURES@,
            },
        ),
        Some(root),
    )
}

/// Plan the build of `make-app`.
pub fn make_app_build(root: &str, features: Option<&str>) -> (r: Step)
    ensures
        r@ == app_build_step(
            root@,
            match features {
                Some(features) => Some(features@),
                None => None,
            },
        ),
{
    let features: &str = match features {
        Some(features) => features,
        None => MAKE_APP_DEFAULT_FEATURES,
    };
    run("cargo build", "cargo", host_args(features), Some(owned(root)))
}

/// A version that was read, or the one that stands in for none.
pub open spec fn version_or_default(version: Option<Seq<char>>) -> Seq<char> {
    match version {
        Some(version) => version,
        None => "0.0.0"@,
    }
}

fn or_default(version: Option<String>) -> (r: String)
    ensures
        r@ == version_or_default(option_view(version)),
{
    match version {
        Some(version) => version,
        None => owned("0.0.0"),
    }
}

/// The steps of `make-app` behind the build: clear the place of the bundle.
pub open spec fn app_place_plan(root: Seq<char>) -> Seq<StepView> {
    let bundle = bundle_of(root);
    seq![
        required(ActionView::RemoveTree(bundle)),
        required(ActionView::MakeDirs(joined(bundle, "Contents/MacOS"@))),
        required(ActionView::MakeDirs(joined(bundle, "Contents/Resources"@))),
    ]
}

/// Plan the place of the bundle that `make-app` assembles.
pub fn make_app_place(root: &str) -> (r: Vec<Step>)
    ensures
        steps_view(r@) == app_place_plan(root@),
{
    let bundle: String = bundle_path(root);
    let mut plan: Vec<Step> = no_steps();
    step(&mut plan, must(Action::RemoveTree(bundle.clone())));
    step(&mut plan, must(Action::MakeDirs(join(bundle.as_str(), "Contents/MacOS"))));
    step(&mut plan, must(Action::MakeDirs(join(bundle.as_str(), "Contents/Resources"))));
    proof {
        assert(steps_view(plan@) =~= app_place_plan(root@));
    }
    plan
}

/// The last steps of `make-app`: assemble the bundle in its place from the built host, the template
/// of its property list, and the icon if there is one.
pub open spec fn app_plan(
    root: Seq<char>,
    template: Seq<char>,
    version: Seq<char>,
    has_icon: bool,
) -> Seq<StepView> {
    let bundle = bundle_of(root);
    let programs = joined(bundle, "Contents/MacOS"@);
    let resources = joined(bundle, "Contents/Resources"@);
    let icon = joined(joined(root, "packaging/macos"@), "AppIcon.icns"@);
    let steps = seq![
        required(
            ActionView::WriteFile {
                path: joined(bundle, "Contents/Info.plist"@),
                contents: replaced(template, "__VERSION__"@, version),
            },
        ),
        required(
            ActionView::CopyFile {
                from: joined(root, "target/dist/rustscreen"@),
                to: joined(programs, "rustscreen"@),
            },
        ),
        required(ActionView::MakeExecutable(joined(programs, "rustscreen"@))),
        required(
            ActionView::WriteFile {
                path: joined(bundle, "Contents/PkgInfo"@),
                contents: "APPL????"@,
            },
        ),
    ];
    if has_icon {
        steps.push(
            required(
                ActionView::CopyFile { from: icon, to: joined(resources, "AppIcon.icns"@) },
            ),
        )
    } else {
        steps
    }
}

/// Plan the assembly of `make-app`, with the version that the workspace manifest states.
pub fn make_app_assemble(root: &str, cargo_toml: &str, template: &str, has_icon: bool) -> (r: Vec<
    Step,
>)
    ensures
        steps_view(r@) == app_plan(
            root@,
            template@,
            version_or_default(version_in(cargo_toml@, false)),
            has_icon,
        ),
{
    let version: String = or_default(workspace_version(cargo_toml));
    let bundle: String = bundle_path(root);
    let programs: String = join(bundle.as_str(), "Contents/MacOS");
    let resources: String = join(bundle.as_str(), "Contents/Resources");
    let mut plan: Vec<Step> = no_steps();
    step(
        &mut plan,
        must(
            Action::WriteFile {
                path: join(bundle.as_str(), "Contents/Info.plist"),
                contents: fill_version_template(template, version.as_str()),
            },
        ),
    );
    step(
        &mut plan,
        must(
            Action::CopyFile {
                from: binary_path(root),
                to: join(programs.as_str(), "rustscreen"),
            },
        ),
    );
    step(&mut plan, must(Action::MakeExecutable(join(programs.as_str(), "rustscreen"))));
    step(
        &mut plan,
        must(
            Action::WriteFile {
                path: join(bundle.as_str(), "Contents/PkgInfo"),
                contents: owned("APPL????"),
            },
        ),
    );
    if has_icon {
        let packaging: String = join(root, "packaging/macos");
        step(
            &mut plan,
            must(
                Action::CopyFile {
                    from: join(packaging.as_str(), "AppIcon.icns"),
                    to: join(resources.as_str(), "AppIcon.icns"),
                },
            ),
        );
    }
    proof {
        assert(steps_view(plan@) =~= app_plan(root@, template@, version@, has_icon));
    }
    plan
}

/// Where the disk image of a version goes.
pub open spec fn dmg_of(root: Seq<char>, version: Seq<char>) -> Seq<char> {
    joined(joined(root, "dist"@), "RustScreen"@ + "-"@ + version + ".dmg"@)
}

/// The steps of `make-dmg`: stage the bundle beside a link to the applications, wrap the stage in
/// an image, and remove the stage whatever happened.
pub open spec fn dmg_plan(
    root: Seq<char>,
    bundle: Seq<char>,
    version: Seq<char>,
    stage: Seq<char>,
) -> Seq<StepView> {
    let dmg = dmg_of(root, version);
    seq![
        required(ActionView::RemoveTree(stage)),
        required(ActionView::MakeDirs(stage)),
        run_of("cp -R"@, "cp"@, copy_args_of(bundle, joined(stage, "RustScreen.app"@)), None),
        required(
            ActionView::Symlink {
                target: "/Applications"@,
                at: joined(stage, "Applications"@),
            },
        ),
        advisory(ActionView::RemoveFile(dmg)),
        run_of(
            "hdiutil create"@,
            "hdiutil"@,
            image_args_of(stage, dmg),
            None,
        ),
        StepView { action: ActionView::RemoveTree(stage), mode: Mode::Always },
    ]
}

/// Plan `make-dmg` for a bundle whose property list is at hand, staging in a directory.
pub fn make_dmg(root: &str, bundle: &str, plist_xml: &str, stage: &str) -> (r: (Vec<Step>, String))
    ensures
        steps_view(r.0@) == dmg_plan(
            root@,
            bundle@,
            version_or_default(short_version_of(plist_xml@)),
            stage@,
        ),
        r.1@ == dmg_of(root@, version_or_default(short_version_of(plist_xml@))),
{
    let version: String = or_default(plist_short_version(plist_xml));
    let dist: String = join(root, "dist");
    let file: String = dmg_filename("RustScreen", version.as_str());
    let dmg: String = join(dist.as_str(), file.as_str());
    let staged: String = join(stage, "RustScreen.app");
    let mut plan: Vec<Step> = no_steps();
    step(&mut plan, must(Action::RemoveTree(owned(stage))));
    step(&mut plan, must(Action::MakeDirs(owned(stage))));
    step(&mut plan, run("cp -R", "cp", copy_args(bundle, staged.as_str()), None));
    step(
        &mut plan,
        must(Action::Symlink { target: owned("/Applications"), at: join(stage, "Applications") }),
    );
    step(&mut plan, may(Action::RemoveFile(dmg.clone())));
    step(&mut plan, run("hdiutil create", "hdiutil", image_args(stage, dmg.as_str()), None));
    step(&mut plan, Step { action: Action::RemoveTree(owned(stage)), mode: Mode::Always });
    proof {
        assert(steps_view(plan@) =~= dmg_plan(root@, bundle@, version@, stage@));
    }
    (plan, dmg)
}

/// The steps of `sign-notarize`: sign the bundle with the hardened runtime, check the signature,
/// have the bundle notarized, staple the ticket to it, and check that too. The last assessment is
/// advice only.
pub open spec fn sign_plan(
    root: Seq<char>,
    bundle: Seq<char>,
    identity: Seq<char>,
    profile: Seq<char>,
) -> Seq<StepView> {
    let zip = joined(root, "dist/RustScreen-notarize.zip"@);
    seq![
        run_of(
            "codesign"@,
            "codesign"@,
            sign_args_of(joined(root, "packaging/macos/entitlements.plist"@), identity, bundle),
            None,
        ),
        run_of(
            "codesign --verify"@,
            "codesign"@,
            verify_args_of(bundle),
            None,
        ),
        advisory(ActionView::RemoveFile(zip)),
        run_of(
            "ditto"@,
            "/usr/bin/ditto"@,
            pack_args_of(bundle, zip),
            None,
        ),
        run_of(
            "notarytool submit"@,
            "xcrun"@,
            submit_args_of(zip, profile),
            None,
        ),
        run_of("stapler staple"@, "xcrun"@, stapler_args_of("staple"@, bundle), None),
        run_of("stapler validate"@, "xcrun"@, stapler_args_of("validate"@, bundle), None),
        advisory(
            ActionView::Run {
                label: "spctl"@,
                program: "spctl"@,
                args: assess_args_of(bundle),
                dir: None,
            },
        ),
        advisory(ActionView::RemoveFile(zip)),
    ]
}

/// Plan `sign-notarize`.
pub fn sign_notarize(root: &str, bundle: &str, identity: &str, profile: &str) -> (r: Vec<Step>)
    ensures
        steps_view(r@) == sign_plan(root@, bundle@, identity@, profile@),
{
    let zip: String = join(root, "dist/RustScreen-notarize.zip");
    let entitlements: String = join(root, "packaging/macos/entitlements.plist");
    let mut plan: Vec<Step> = no_steps();
    step(
        &mut plan,
        run("codesign", "codesign", sign_args(entitlements.as_str(), identity, bundle), None),
    );
    step(&mut plan, run("codesign --verify", "codesign", verify_args(bundle), None));
    step(&mut plan, may(Action::RemoveFile(zip.clone())));
    step(&mut plan, run("ditto", "/usr/bin/ditto", pack_args(bundle, zip.as_str()), None));
    step(&mut plan, run("notarytool submit", "xcrun", submit_args(zip.as_str(), profile), None));
    step(&mut plan, run("stapler staple", "xcrun", stapler_args("staple", bundle), None));
    step(&mut plan, run("stapler validate", "xcrun", stapler_args("validate", bundle), None));
    step(
        &mut plan,
        may(
            Action::Run {
                label: owned("spctl"),
                program: owned("spctl"),
                args: assess_args(bundle),
                dir: None,
            },
        ),
    );
    step(&mut plan, may(Action::RemoveFile(zip)));
    proof {
        assert(steps_view(plan@) =~= sign_plan(root@, bundle@, identity@, profile@));
    }
    plan
}

/// How far a plan has been carried out.
#[derive(Clone, Copy, Debug, PartialEq, Eq, Structural)]
pub struct PlanRun {
    /// The step to look at next.
    pub at: usize,
    /// The step whose failure is the command's: the first one, or a step that always has to be
    /// carried out and failed after it.
    pub failed: Option<usize>,
}

/// Whether a step is carried out: after a failure only what always has to be.
pub open spec fn carried_out(step: Step, failed: bool) -> bool {
    !failed || step.mode == Mode::Always
}

/// The step whose failure is the command's, once one more step went well or not.
pub open spec fn failed_after(mode: Mode, ok: bool, at: usize, failed: Option<usize>) -> Option<
    usize,
> {
    if ok || mode == Mode::Advisory || (mode == Mode::Required && failed is Some) {
        failed
    } else {
        Some(at)
    }
}

impl PlanRun {
    /// A plan of which nothing has been carried out.
    pub fn new() -> (r: Self)
        ensures
            r == (PlanRun { at: 0, failed: None }),
    {
        PlanRun { at: 0, failed: None }
    }

    /// Find the next step to carry out, from where the run is; `None` if there is none left.
    pub fn next(&mut self, plan: &Vec<Step>) -> (r: Option<usize>)
        requires
            old(self).at <= plan@.len(),
        ensures
            final(self).failed == old(self).failed,
            old(self).at <= final(self).at <= plan@.len(),
            forall|i: int|
                old(self).at <= i < final(self).at ==> !carried_out(
                    #[trigger] plan@[i],
                    old(self).failed is Some,
                ),
            match r {
                Some(i) => i == final(self).at && i < plan@.len() && carried_out(
                    plan@[i as int],
                    old(self).failed is Some,
                ),
                None => final(self).at == plan@.len(),
            },
    {
        while self.at < plan.len()
            invariant
                old(self).at <= self.at <= plan@.len(),
                self.failed == old(self).failed,
                forall|i: int|
                    old(self).at <= i < self.at ==> !carried_out(
                        #[trigger] plan@[i],
                        old(self).failed is Some,
                    ),
            decreases plan.len() - self.at,
        {
            let due: bool = match plan[self.at].mode {
                Mode::Always => true,
                _ => self.failed.is_none(),
            };
            if due {
                return Some(self.at);
            }
            self.at = self.at + 1;
        }
        None
    }

    /// Take note of how the step at hand went.
    pub fn finished(&mut self, plan: &Vec<Step>, ok: bool)
        requires
            old(self).at < plan@.len(),
        ensures
            final(self).at == old(self).at + 1,
            final(self).failed == failed_after(
                plan@[old(self).at as int].mode,
                ok,
                old(self).at,
                old(self).failed,
            ),
    {
        match plan[self.at].mode {
            Mode::Advisory => {},
            Mode::Required => {
                if !ok && self.failed.is_none() {
                    self.failed = Some(self.at);
                }
            },
            Mode::Always => {
                if !ok {
                    self.failed = Some(self.at);
                }
            },
        }
        proof {
            assert(self.at < plan.len());
        }
        self.at = self.at + 1;
    }
}

/// The stage of a disk image is removed whatever happened before: the last step is carried out
/// after a failure too, and removes it.
pub proof fn law_stage_is_always_removed(
    root: Seq<char>,
    bundle: Seq<char>,
    version: Seq<char>,
    stage: Seq<char>,
)
    ensures
        ({
            let last = dmg_plan(root, bundle, version, stage).last();
            &&& last.action == ActionView::RemoveTree(stage)
            &&& last.mode == Mode::Always
        }),
{
}

/// A bundle is submitted only after its signature has been checked, and the ticket is stapled only
/// after the submission.
pub proof fn law_notarization_order(
    root: Seq<char>,
    bundle: Seq<char>,
    identity: Seq<char>,
    profile: Seq<char>,
)
    ensures
        ({
            let plan = sign_plan(root, bundle, identity, profile);
            &&& plan[0].action->label == "codesign"@
            &&& plan[1].action->label == "codesign --verify"@
            &&& plan[4].action->label == "notarytool submit"@
            &&& plan[5].action->label == "stapler staple"@
            &&& forall|i: int| 0 <= i <= 6 && i != 2 ==> (#[trigger] plan[i]).mode == Mode::Required
        }),
{
}

/// Whether an option stands among some arguments with a value right behind it.
pub open spec fn option_set(args: Seq<Seq<char>>, option: Seq<char>, value: Seq<char>) -> bool {
    exists|i: int| 0 <= i < args.len() - 1 && #[trigger] args[i] == option && args[i + 1] == value
}

/// What is signed, checked, packed, stapled and assessed is the bundle; it is signed with the given
/// identity and the project's entitlements, and the packed file that is submitted, with the given
/// profile, is the one that was made of the bundle, and is removed before and after.
pub proof fn law_bundle_is_signed_and_submitted(
    root: Seq<char>,
    bundle: Seq<char>,
    identity: Seq<char>,
    profile: Seq<char>,
)
    ensures
        ({
            let plan = sign_plan(root, bundle, identity, profile);
            let zip = plan[3].action->args.last();
            &&& plan.len() == 9
            &&& option_set(plan[0].action->args, "--sign"@, identity)
            &&& option_set(
                plan[0].action->args,
                "--entitlements"@,
                joined(root, "packaging/macos/entitlements.plist"@),
            )
            &&& option_set(plan[0].action->args, "--options"@, "runtime"@)
            &&& plan[0].action->args.last() == bundle
            &&& plan[1].action->args.last() == bundle
            &&& plan[2].action == ActionView::RemoveFile(zip)
            &&& plan[3].action->args[3] == bundle
            &&& option_set(plan[4].action->args, "submit"@, zip)
            &&& option_set(plan[4].action->args, "--keychain-profile"@, profile)
            &&& plan[4].action->args.last() == "--wait"@
            &&& option_set(plan[5].action->args, "staple"@, bundle)
            &&& option_set(plan[6].action->args, "validate"@, bundle)
            &&& plan[7].action->args.last() == bundle
            &&& plan[7].mode == Mode::Advisory
            &&& plan[8].action == ActionView::RemoveFile(zip)
        }),
{
    let plan = sign_plan(root, bundle, identity, profile);
    let sign = plan[0].action->args;
    assert(sign[1] == "--options"@ && sign[4] == "--entitlements"@ && sign[6] == "--sign"@);
    let submit = plan[4].action->args;
    assert(submit[1] == "submit"@ && submit[3] == "--keychain-profile"@);
    assert(plan[5].action->args[1] == "staple"@);
    assert(plan[6].action->args[1] == "validate"@);
}

/// The disk image is made of a fresh stage that holds a copy of the bundle and a link to the
/// applications, and goes to the place that is named after the version, which is cleared before.
pub proof fn law_image_is_made_of_the_stage(
    root: Seq<char>,
    bundle: Seq<char>,
    version: Seq<char>,
    stage: Seq<char>,
)
    ensures
        ({
            let plan = dmg_plan(root, bundle, version, stage);
            let dmg = plan[5].action->args.last();
            &&& plan.len() == 7
            &&& plan[0].action == ActionView::RemoveTree(stage)
            &&& plan[1].action == ActionView::MakeDirs(stage)
            &&& option_set(plan[2].action->args, bundle, joined(stage, "RustScreen.app"@))
            &&& plan[3].action == (ActionView::Symlink {
                target: "/Applications"@,
                at: joined(stage, "Applications"@),
            })
            &&& plan[4].action == ActionView::RemoveFile(dmg)
            &&& plan[4].mode == Mode::Advisory
            &&& option_set(plan[5].action->args, "-srcfolder"@, stage)
            &&& dmg == dmg_of(root, version)
            &&& dmg == joined(joined(root, "dist"@), "RustScreen-"@ + version + ".dmg"@)
        }),
{
    let plan = dmg_plan(root, bundle, version, stage);
    assert(plan[2].action->args[1] == bundle);
    assert(plan[5].action->args[3] == "-srcfolder"@);
    reveal_strlit("RustScreen-");
    reveal_strlit("RustScreen");
    reveal_strlit("-");
    assert("RustScreen-"@ =~= "RustScreen"@ + "-"@);
}

/// The bundle gets the program that was built, and that very copy is what may be run; its property
/// list is the template with the version filled in. The icon is copied if there is one.
pub proof fn law_bundle_gets_the_program(
    root: Seq<char>,
    template: Seq<char>,
    version: Seq<char>,
    has_icon: bool,
)
    ensures
        ({
            let plan = app_plan(root, template, version, has_icon);
            let place = app_place_plan(root);
            &&& plan.len() == if has_icon {
                5int
            } else {
                4int
            }
            &&& plan[0].action->contents == replaced(template, "__VERSION__"@, version)
            &&& plan[1].action->from == joined(root, "target/dist/rustscreen"@)
            &&& plan[2].action == ActionView::MakeExecutable(plan[1].action->to)
            &&& plan[1].action->to == joined(place[1].action->MakeDirs_0, "rustscreen"@)
            &&& has_icon ==> plan[4].action->to == joined(
                place[2].action->MakeDirs_0,
                "AppIcon.icns"@,
            )
            &&& place[0].action == ActionView::RemoveTree(bundle_of(root))
            &&& forall|i: int| 0 <= i < plan.len() ==> (#[trigger] plan[i]).mode == Mode::Required
            &&& forall|i: int| 0 <= i < place.len() ==> (#[trigger] place[i]).mode == Mode::Required
        }),
{
}

/// The client library is built into the directory that the package is assembled from, and the host
/// with the features that are asked for, or else those of a live host.
pub proof fn law_builds_go_where_they_are_used(root: Seq<char>, features: Option<Seq<char>>)
    ensures
        ({
            let apk = apk_plan(root);
            let host = app_build_step(root, features);
            &&& apk.len() == 2
            &&& option_set(
                apk[0].action->args,
                "-o"@,
                joined(root, "android/app/src/main/jniLibs"@),
            )
            &&& option_set(apk[0].action->args, "-p"@, "android-client"@)
            &&& apk[0].action->dir == Some(root)
            &&& apk[1].action->dir == Some(joined(root, "android"@))
            &&& option_set(
                host.action->args,
                "--features"@,
                match features {
                    Some(features) => features,
                    None => "live-capture,live-usb"@,
                },
            )
            &&& option_set(host.action->args, "-p"@, "macos-host"@)
            &&& host.action->dir == Some(root)
            &&& host.mode == Mode::Required
        }),
{
    let apk = apk_plan(root)[0].action->args;
    assert(apk[3] == "-o"@ && apk[8] == "-p"@);
    let host = app_build_step(root, features).action->args;
    assert(host[3] == "-p"@ && host[7] == "--features"@);
}

/// A command has failed once a required step has, and a failure is never forgotten; advice does not
/// count. The first failure is the one to report, unless a step that is always carried out fails
/// after it.
pub proof fn law_failures_are_kept(mode: Mode, ok: bool, at: usize, failed: Option<usize>)
    ensures
        failed is Some ==> failed_after(mode, ok, at, failed) is Some,
        ok || mode == Mode::Advisory ==> failed_after(mode, ok, at, failed) == failed,
        !ok && mode != Mode::Advisory && failed is None ==> failed_after(mode, ok, at, failed)
            == Some(at),
        !ok && mode == Mode::Required && failed is Some ==> failed_after(mode, ok, at, failed)
            == failed,
        !ok && mode == Mode::Always ==> failed_after(mode, ok, at, failed) == Some(at),
{
}

/// A bundle has the version that the project states, and a version of nothing but zeros where it
/// states none.
pub proof fn law_missing_version_is_zero(version: Option<Seq<char>>)
    ensures
        ({
            let used = version_or_default(version);
            &&& version is Some ==> version == Some(used)
            &&& version is None ==> used.len() == 5 && forall|i: int|
                0 <= i < 5 ==> #[trigger] used[i] == if i % 2 == 0 {
                    '0'
                } else {
                    '.'
                }
        }),
{
    reveal_strlit("0.0.0");
}

} // verus!
