//! What the packaging commands read and compute: versions, templates, names, and the command line.

use vstd::prelude::*;
use crate::text::{after_line, first_at, first_line, lemma_line_shortens};
use crate::text::{law_nothing_to_replace, option_view, replaced, trimmed};
use crate::text::{law_trim_takes_the_space, lemma_found_at, stands, white_space};
use crate::text::{chars_of, find_text, part, push_text, replace, same_text, split_line, string_of};
use crate::text::{same_chars, trim};

verus! {

/// A packaging command.
#[derive(Clone, Debug, PartialEq, Eq)]
pub enum Command {
    /// Build the Android package.
    BuildApk,
    /// Build the host and assemble its application bundle.
    MakeApp { features: Option<String> },
    /// Wrap a bundle in a disk image.
    MakeDmg { bundle: Option<String> },
    /// Sign and notarize a bundle.
    SignNotarize { bundle: Option<String> },
    /// Say how to call this.
    Help,
}

/// A packaging command by its values.
pub enum CommandView {
    BuildApk,
    MakeApp { features: Option<Seq<char>> },
    MakeDmg { bundle: Option<Seq<char>> },
    SignNotarize { bundle: Option<Seq<char>> },
    Help,
}

impl View for Command {
    type V = CommandView;

    open spec fn view(&self) -> CommandView {
        match self {
            Command::BuildApk => CommandView::BuildApk,
            Command::MakeApp { features } => CommandView::MakeApp {
                features: option_view(*features),
            },
            Command::MakeDmg { bundle } => CommandView::MakeDmg { bundle: option_view(*bundle) },
            Command::SignNotarize { bundle } => CommandView::SignNotarize {
                bundle: option_view(*bundle),
            },
            Command::Help => CommandView::Help,
        }
    }
}

/// Why a command line was not understood.
#[derive(Clone, Debug, PartialEq, Eq)]
pub enum UsageError {
    /// There is no such command.
    UnknownCommand(String),
    /// `--features` stands without its value.
    FeaturesWithoutValue,
    /// `make-app` does not take these arguments.
    UnexpectedArguments(Vec<String>),
}

/// A usage error by its values.
pub enum UsageErrorView {
    UnknownCommand(Seq<char>),
    FeaturesWithoutValue,
    UnexpectedArguments(Seq<Seq<char>>),
}

/// A list of strings by their characters.
pub open spec fn strings_view(args: Seq<String>) -> Seq<Seq<char>> {
    Seq::new(args.len(), |i: int| args[i]@)
}

impl View for UsageError {
    type V = UsageErrorView;

    open spec fn view(&self) -> UsageErrorView {
        match self {
            UsageError::UnknownCommand(name) => UsageErrorView::UnknownCommand(name@),
            UsageError::FeaturesWithoutValue => UsageErrorView::FeaturesWithoutValue,
            UsageError::UnexpectedArguments(args) => UsageErrorView::UnexpectedArguments(
                strings_view(args@),
            ),
        }
    }
}

/// The quote that is open behind a character, given the one that is open before it.
pub open spec fn quote_after(quote: Option<char>, c: char) -> Option<char> {
    match quote {
        Some(q) => if c == q {
            None
        } else {
            Some(q)
        },
        None => if c == '"' || c == '\'' {
            Some(c)
        } else {
            None
        },
    }
}

/// How many brackets are open behind a character, given how many are before it.
pub open spec fn depth_after(depth: nat, quote: Option<char>, c: char) -> nat {
    if quote is Some {
        depth
    } else if c == '[' {
        depth + 1
    } else if c == ']' && depth > 0 {
        (depth - 1) as nat
    } else {
        depth
    }
}

/// How many characters it takes until all brackets are closed, with `depth` of them and a quote open
/// at the start; brackets in quotes do not count.
pub open spec fn closing(s: Seq<char>, depth: nat, quote: Option<char>) -> Option<nat>
    decreases s.len(),
{
    if s.len() == 0 {
        None
    } else if depth_after(depth, quote, s[0]) == 0 {
        Some(1)
    } else {
        match closing(s.skip(1), depth_after(depth, quote, s[0]), quote_after(quote, s[0])) {
            Some(n) => Some(n + 1),
            None => None,
        }
    }
}

/// Whether a text says nothing: it is white space, with or without a comment behind it.
pub open spec fn says_nothing(s: Seq<char>) -> bool {
    trimmed(s).len() == 0 || trimmed(s)[0] == '#'
}

/// The table header that a line begins with: a bracket, up to the matching one, with nothing but a
/// comment behind it.
pub open spec fn plain_header_of(line: Seq<char>) -> Option<Seq<char>> {
    if line.len() > 0 && line[0] == '[' {
        match closing(line, 0, None) {
            Some(n) => if says_nothing(line.skip(n as int)) {
                Some(line.take(n as int))
            } else {
                None
            },
            None => None,
        }
    } else {
        None
    }
}

/// The table header that a line is. A line from a bracket to a bracket is one too, whatever stands
/// between the two.
pub open spec fn header_of(line: Seq<char>) -> Option<Seq<char>> {
    match plain_header_of(line) {
        Some(header) => Some(header),
        None => if line.len() > 0 && line[0] == '[' && line.last() == ']' {
            Some(line)
        } else {
            None
        },
    }
}

/// Find the table header that a line is.
fn header(line: &Vec<char>) -> (r: Option<Vec<char>>)
    ensures
        match r {
            Some(h) => header_of(line@) == Some(h@),
            None => header_of(line@) is None,
        },
{
    match plain_header(line) {
        Some(h) => Some(h),
        None => {
            let total: usize = line.len();
            if total > 0 && line[0] == '[' && line[total - 1] == ']' {
                let whole: Vec<char> = part(line, 0, total);
                proof {
                    assert(whole@ =~= line@);
                }
                Some(whole)
            } else {
                None
            }
        },
    }
}

/// Find the table header that a line begins with.
fn plain_header(line: &Vec<char>) -> (r: Option<Vec<char>>)
    ensures
        match r {
            Some(h) => plain_header_of(line@) == Some(h@),
            None => plain_header_of(line@) is None,
        },
{
    if line.len() == 0 || line[0] != '[' {
        return None;
    }
    let total: usize = line.len();
    let mut depth: usize = 0;
    let mut quote: Option<char> = None;
    let mut i: usize = 0;
    proof {
        assert(line@.skip(0) =~= line@);
    }
    while i < line.len()
        invariant
            total == line@.len(),
            i <= total,
            depth <= i,
            line@.len() > 0 && line@[0] == '[',
            match closing(line@.skip(i as int), depth as nat, quote) {
                Some(n) => closing(line@, 0, None) == Some(n + i as nat),
                None => closing(line@, 0, None) is None,
            },
        decreases total - i,
    {
        let c: char = line[i];
        proof {
            assert(line@.skip(i as int)[0] == c);
            assert(line@.skip(i as int).skip(1) =~= line@.skip(i + 1));
        }
        match quote {
            Some(q) => {
                if c == q {
                    quote = None;
                }
            },
            None => {
                if c == '[' {
                    depth = depth + 1;
                } else if c == ']' {
                    if depth > 0 {
                        depth = depth - 1;
                    }
                } else if c == '"' || c == '\'' {
                    quote = Some(c);
                }
            },
        }
        i = i + 1;
        if depth == 0 {
            let rest: Vec<char> = part(line, i, total);
            proof {
                assert(rest@ =~= line@.skip(i as int));
            }
            let rest: Vec<char> = trim(&rest);
            if rest.len() == 0 || rest[0] == '#' {
                let found: Vec<char> = part(line, 0, i);
                proof {
                    assert(found@ =~= line@.take(i as int));
                }
                return Some(found);
            }
            return None;
        }
    }
    None
}

/// The text between the first two double quotes.
pub open spec fn first_quoted_of(s: Seq<char>) -> Option<Seq<char>> {
    match first_at(s, "\""@) {
        None => None,
        Some(start) => {
            let rest = s.skip((start + 1) as int);
            match first_at(rest, "\""@) {
                None => None,
                Some(end) => Some(rest.take(end as int)),
            }
        },
    }
}

/// Whether a line sets the key `version`.
pub open spec fn sets_version(line: Seq<char>) -> bool {
    match first_at(line, "="@) {
        Some(at) => trimmed(line.take(at as int)) == "version"@,
        None => false,
    }
}

/// The quoted value that a line sets.
pub open spec fn value_set(line: Seq<char>) -> Option<Seq<char>> {
    first_quoted_of(line.skip((first_at(line, "="@)->0 + 1) as int))
}

/// The version that the lines of a manifest set in the table of this project's metadata;
/// `in_section` says whether the text starts inside of it. The first line there that sets a
/// version decides.
pub open spec fn version_in(text: Seq<char>, in_section: bool) -> Option<Seq<char>>
    decreases text.len(),
{
    if text.len() == 0 {
        None
    } else {
        proof {
            lemma_line_shortens(text);
        }
        let line = trimmed(first_line(text));
        let rest = after_line(text);
        if header_of(line) is Some {
            version_in(rest, header_of(line) == Some("[workspace.metadata.rustscreen]"@))
        } else if in_section && sets_version(line) {
            value_set(line)
        } else {
            version_in(rest, in_section)
        }
    }
}

/// Return the text between the first two double quotes.
pub fn first_quoted(chars: &Vec<char>) -> (r: Option<Vec<char>>)
    ensures
        match r {
            Some(s) => first_quoted_of(chars@) == Some(s@),
            None => first_quoted_of(chars@) is None,
        },
{
    proof {
        reveal_strlit("\"");
    }
    let total: usize = chars.len();
    let start: usize = match find_text(chars, "\"") {
        Some(start) => start,
        None => {
            return None;
        },
    };
    let rest: Vec<char> = part(chars, start + 1, total);
    proof {
        assert(rest@ =~= chars@.skip(start + 1));
    }
    match find_text(&rest, "\"") {
        Some(end) => {
            let quoted: Vec<char> = part(&rest, 0, end);
            proof {
                assert(quoted@ =~= rest@.take(end as int));
            }
            Some(quoted)
        },
        None => None,
    }
}

/// Read the version of the project from its workspace manifest: the `version` in the table
/// `[workspace.metadata.rustscreen]` and in no other.
pub fn workspace_version(cargo_toml: &str) -> (r: Option<String>)
    ensures
        option_view(r) == version_in(cargo_toml@, false),
{
    let mut rest: Vec<char> = chars_of(cargo_toml);
    let own: Vec<char> = chars_of("[workspace.metadata.rustscreen]");
    let key: Vec<char> = chars_of("version");
    let mut in_section: bool = false;
    while rest.len() > 0
        invariant
            own@ == "[workspace.metadata.rustscreen]"@,
            key@ == "version"@,
            version_in(cargo_toml@, false) == version_in(rest@, in_section),
        decreases rest@.len(),
    {
        proof {
            lemma_line_shortens(rest@);
            reveal_strlit("=");
        }
        let (first, left) = split_line(&rest);
        let line: Vec<char> = trim(&first);
        if let Some(found) = header(&line) {
            in_section = same_chars(&found, &own);
        } else if in_section {
            if let Some(at) = find_text(&line, "=") {
                let name: Vec<char> = part(&line, 0, at);
                proof {
                    assert(name@ =~= line@.take(at as int));
                }
                let name: Vec<char> = trim(&name);
                if same_chars(&name, &key) {
                    let total: usize = line.len();
                    let value: Vec<char> = part(&line, at + 1, total);
                    proof {
                        assert(value@ =~= line@.skip(at + 1));
                    }
                    return match first_quoted(&value) {
                        Some(version) => Some(string_of(&version)),
                        None => None,
                    };
                }
            }
        }
        rest = left;
    }
    None
}

/// Whether some line of a manifest is the header of this project's metadata.
pub open spec fn has_section(text: Seq<char>) -> bool
    decreases text.len(),
{
    if text.len() == 0 {
        false
    } else {
        proof {
            lemma_line_shortens(text);
        }
        header_of(trimmed(first_line(text))) == Some("[workspace.metadata.rustscreen]"@)
            || has_section(after_line(text))
    }
}

/// No version is read from a manifest without the table, whatever its other tables set.
pub proof fn law_no_section_no_version(text: Seq<char>)
    requires
        !has_section(text),
    ensures
        version_in(text, false) is None,
    decreases text.len(),
{
    if text.len() > 0 {
        lemma_line_shortens(text);
        law_no_section_no_version(after_line(text));
    }
}

/// Behind the header of another table no version is picked up, as long as this project's own table
/// does not begin there.
pub proof fn law_other_table_is_skipped(text: Seq<char>, in_section: bool)
    requires
        text.len() > 0,
        header_of(trimmed(first_line(text))) is Some,
        !has_section(text),
    ensures
        version_in(text, in_section) is None,
{
    lemma_line_shortens(text);
    law_no_section_no_version(after_line(text));
}

/// Fill in the version wherever a template has its placeholder.
pub fn fill_version_template(template: &str, version: &str) -> (out: String)
    ensures
        out@ == replaced(template@, "__VERSION__"@, version@),
{
    let text: Vec<char> = chars_of(template);
    let mark: Vec<char> = chars_of("__VERSION__");
    let by: Vec<char> = chars_of(version);
    proof {
        reveal_strlit("__VERSION__");
    }
    let filled: Vec<char> = replace(&text, &mark, &by);
    string_of(&filled)
}

/// A template without the placeholder stays as it is.
pub proof fn law_plain_template_unchanged(template: Seq<char>, version: Seq<char>)
    requires
        first_at(template, "__VERSION__"@) is None,
    ensures
        replaced(template, "__VERSION__"@, version) == template,
{
    law_nothing_to_replace(template, "__VERSION__"@, version);
}

/// The name of the disk image of a version.
pub fn dmg_filename(app_name: &str, version: &str) -> (out: String)
    ensures
        out@ == app_name@ + "-"@ + version@ + ".dmg"@,
{
    let mut chars: Vec<char> = chars_of(app_name);
    push_text(&mut chars, "-");
    push_text(&mut chars, version);
    push_text(&mut chars, ".dmg");
    string_of(&chars)
}

/// The `<string>` behind the key of the short version, with nothing but white space between the two.
pub open spec fn short_version_of(plist: Seq<char>) -> Option<Seq<char>> {
    match first_at(plist, "<key>CFBundleShortVersionString</key>"@) {
        None => None,
        Some(key) => {
            let after = plist.skip((key + "<key>CFBundleShortVersionString</key>"@.len()) as int);
            match first_at(after, "<string>"@) {
                None => None,
                Some(open) => if trimmed(after.take(open as int)).len() > 0 {
                    None
                } else {
                    let rest = after.skip((open + "<string>"@.len()) as int);
                    match first_at(rest, "</string>"@) {
                        None => None,
                        Some(end) => Some(trimmed(rest.take(end as int))),
                    }
                },
            }
        },
    }
}

/// Read the short version of a bundle from its property list, and no other version-like value.
pub fn plist_short_version(plist_xml: &str) -> (r: Option<String>)
    ensures
        option_view(r) == short_version_of(plist_xml@),
{
    let text: Vec<char> = chars_of(plist_xml);
    let total: usize = text.len();
    let key: usize = match find_text(&text, "<key>CFBundleShortVersionString</key>") {
        Some(key) => key,
        None => {
            return None;
        },
    };
    let name: Vec<char> = chars_of("<key>CFBundleShortVersionString</key>");
    let after: Vec<char> = part(&text, key + name.len(), total);
    proof {
        assert(after@ =~= plist_xml@.skip(key + name@.len()));
    }
    let tag: Vec<char> = chars_of("<string>");
    let after_total: usize = after.len();
    let open: usize = match find_text(&after, "<string>") {
        Some(open) => open,
        None => {
            return None;
        },
    };
    let between: Vec<char> = part(&after, 0, open);
    proof {
        assert(between@ =~= after@.take(open as int));
    }
    if trim(&between).len() > 0 {
        return None;
    }
    let rest: Vec<char> = part(&after, open + tag.len(), after_total);
    proof {
        assert(rest@ =~= after@.skip(open + tag@.len()));
    }
    match find_text(&rest, "</string>") {
        Some(end) => {
            let value: Vec<char> = part(&rest, 0, end);
            proof {
                assert(value@ =~= rest@.take(end as int));
            }
            Some(string_of(&trim(&value)))
        },
        None => None,
    }
}

/// The features that the arguments behind `make-app` name.
pub open spec fn features_of(rest: Seq<Seq<char>>) -> Result<Option<Seq<char>>, UsageErrorView> {
    if rest.len() == 0 {
        Ok(None)
    } else if rest.len() == 2 && rest[0] == "--features"@ {
        Ok(Some(rest[1]))
    } else if rest.len() == 1 && rest[0] == "--features"@ {
        Err(UsageErrorView::FeaturesWithoutValue)
    } else {
        Err(UsageErrorView::UnexpectedArguments(rest))
    }
}

/// The first of some arguments.
pub open spec fn first_of(rest: Seq<Seq<char>>) -> Option<Seq<char>> {
    if rest.len() > 0 {
        Some(rest[0])
    } else {
        None
    }
}

/// The command that the arguments name.
pub open spec fn command_of(args: Seq<Seq<char>>) -> Result<CommandView, UsageErrorView> {
    if args.len() == 0 {
        Ok(CommandView::Help)
    } else {
        let name = args[0];
        let rest = args.skip(1);
        if name == "help"@ || name == "-h"@ || name == "--help"@ {
            Ok(CommandView::Help)
        } else if name == "build-apk"@ {
            Ok(CommandView::BuildApk)
        } else if name == "make-app"@ {
            match features_of(rest) {
                Ok(features) => Ok(CommandView::MakeApp { features }),
                Err(e) => Err(e),
            }
        } else if name == "make-dmg"@ {
            Ok(CommandView::MakeDmg { bundle: first_of(rest) })
        } else if name == "sign-notarize"@ {
            Ok(CommandView::SignNotarize { bundle: first_of(rest) })
        } else {
            Err(UsageErrorView::UnknownCommand(name))
        }
    }
}

/// A parsed command line by its values.
pub open spec fn parsed_view(r: Result<Command, UsageError>) -> Result<CommandView, UsageErrorView> {
    match r {
        Ok(command) => Ok(command@),
        Err(e) => Err(e@),
    }
}

/// Copy the arguments from an index on.
fn tail(args: &[String], from: usize) -> (out: Vec<String>)
    requires
        from <= args@.len(),
    ensures
        strings_view(out@) == strings_view(args@).skip(from as int),
{
    let mut out: Vec<String> = Vec::new();
    let mut i: usize = from;
    while i < args.len()
        invariant
            from <= i <= args@.len(),
            out@.len() == i - from,
            forall|j: int| 0 <= j < out@.len() ==> (#[trigger] out@[j])@ == args@[from + j]@,
        decreases args.len() - i,
    {
        out.push(args[i].clone());
        i += 1;
    }
    proof {
        assert(strings_view(out@) =~= strings_view(args@).skip(from as int));
    }
    out
}

/// Read the optional `--features` of `make-app`.
pub fn parse_features(rest: &Vec<String>) -> (r: Result<Option<String>, UsageError>)
    ensures
        match r {
            Ok(features) => features_of(strings_view(rest@)) == Ok::<
                Option<Seq<char>>,
                UsageErrorView,
            >(option_view(features)),
            Err(e) => features_of(strings_view(rest@)) == Err::<Option<Seq<char>>, UsageErrorView>(
                e@,
            ),
        },
{
    let ghost all = strings_view(rest@);
    if rest.len() == 0 {
        return Ok(None);
    }
    let flagged: bool = same_text(rest[0].as_str(), "--features");
    proof {
        assert(all[0] == rest@[0]@);
    }
    if rest.len() == 2 && flagged {
        proof {
            assert(all[1] == rest@[1]@);
        }
        return Ok(Some(rest[1].clone()));
    }
    if rest.len() == 1 && flagged {
        return Err(UsageError::FeaturesWithoutValue);
    }
    let copy: Vec<String> = tail(rest.as_slice(), 0);
    proof {
        assert(all.skip(0) =~= all);
    }
    Err(UsageError::UnexpectedArguments(copy))
}

/// Copy the first argument.
fn first_argument(rest: &Vec<String>) -> (r: Option<String>)
    ensures
        option_view(r) == first_of(strings_view(rest@)),
{
    if rest.len() > 0 {
        Some(rest[0].clone())
    } else {
        None
    }
}

/// Read the arguments of the command line, without the program's name.
pub fn parse_command(args: &[String]) -> (r: Result<Command, UsageError>)
    ensures
        parsed_view(r) == command_of(strings_view(args@)),
{
    if args.len() == 0 {
        return Ok(Command::Help);
    }
    let name: &str = args[0].as_str();
    let rest: Vec<String> = tail(args, 1);
    proof {
        assert(strings_view(args@)[0] == args@[0]@);
    }
    if same_text(name, "help") || same_text(name, "-h") || same_text(name, "--help") {
        Ok(Command::Help)
    } else if same_text(name, "build-apk") {
        Ok(Command::BuildApk)
    } else if same_text(name, "make-app") {
        match parse_features(&rest) {
            Ok(features) => Ok(Command::MakeApp { features }),
            Err(e) => Err(e),
        }
    } else if same_text(name, "make-dmg") {
        Ok(Command::MakeDmg { bundle: first_argument(&rest) })
    } else if same_text(name, "sign-notarize") {
        Ok(Command::SignNotarize { bundle: first_argument(&rest) })
    } else {
        Err(UsageError::UnknownCommand(name.to_owned()))
    }
}

/// The line that opens this project's table.
pub open spec fn own_header() -> Seq<char> {
    "[workspace.metadata.rustscreen]"@
}

/// A text from a bracket to the matching one, with neither brackets nor quotes in between, closes
/// with its last character.
proof fn lemma_closing(inner: Seq<char>, depth: nat)
    requires
        depth == 1,
        forall|i: int|
            0 <= i < inner.len() ==> #[trigger] inner[i] != '[' && inner[i] != ']' && inner[i]
                != '"' && inner[i] != '\'',
    ensures
        closing(inner + seq![']'], depth, None) == Some(inner.len() + 1),
    decreases inner.len(),
{
    let s = inner + seq![']'];
    if inner.len() == 0 {
        assert(s[0] == ']');
    } else {
        let rest = inner.skip(1);
        assert(s[0] == inner[0]);
        assert(s.skip(1) =~= rest + seq![']']);
        assert forall|i: int| 0 <= i < rest.len() implies #[trigger] rest[i] != '[' && rest[i]
            != ']' && rest[i] != '"' && rest[i] != '\'' by {
            assert(rest[i] == inner[i + 1]);
        }
        lemma_closing(rest, depth);
    }
}

/// The line that opens this project's table is a header, whatever white space surrounds it.
proof fn lemma_own_header()
    ensures
        header_of(own_header()) == Some(own_header()),
        own_header().len() > 0,
        own_header()[0] == '[',
        own_header()[own_header().len() - 1] == ']',
        !own_header().contains('\n'),
{
    reveal_strlit("[workspace.metadata.rustscreen]");
    let line = own_header();
    let inner = line.subrange(1, line.len() - 1);
    assert forall|i: int| 0 <= i < inner.len() implies #[trigger] inner[i] != '[' && inner[i] != ']'
        && inner[i] != '"' && inner[i] != '\'' by {
        assert(inner[i] == line[i + 1]);
    }
    lemma_closing(inner, 1);
    assert(line.skip(1) =~= inner + seq![']']);
    assert(closing(line, 0, None) == Some(line.len()));
    assert(line.skip(line.len() as int) =~= Seq::<char>::empty());
    assert(trimmed(Seq::<char>::empty()) =~= Seq::<char>::empty());
    assert(line.take(line.len() as int) =~= line);
}

/// Where a text begins with a line and its line feed.
proof fn lemma_first_line_is(line: Seq<char>, rest: Seq<char>)
    requires
        !line.contains('\n'),
    ensures
        first_line(line + seq!['\n'] + rest) == line,
        after_line(line + seq!['\n'] + rest) == rest,
{
    let s = line + seq!['\n'] + rest;
    let feed = seq!['\n'];
    let at = line.len() as int;
    assert(s.subrange(at, at + 1) =~= feed);
    assert forall|j: int| 0 <= j < at implies !#[trigger] stands(s, feed, j) by {
        if stands(s, feed, j) {
            assert(s.subrange(j, j + 1)[0] == s[j]);
            assert(line[j] == '\n');
        }
    }
    lemma_found_at(s, feed, at);
    assert(s.take(at) =~= line);
    assert(s.skip(at + 1) =~= rest);
}

/// Lines that do not open this project's table have no say in what is read behind them.
proof fn lemma_lines_before(lines: Seq<Seq<char>>, rest: Seq<char>)
    requires
        forall|i: int|
            0 <= i < lines.len() ==> !(#[trigger] lines[i]).contains('\n') && header_of(
                trimmed(lines[i]),
            ) != Some(own_header()),
    ensures
        version_in(lines_of(lines) + rest, false) == version_in(rest, false),
    decreases lines.len(),
{
    if lines.len() == 0 {
        assert(lines_of(lines) + rest =~= rest);
    } else {
        let others = lines.skip(1);
        let behind = lines_of(others) + rest;
        assert forall|i: int| 0 <= i < others.len() implies !(#[trigger] others[i]).contains('\n')
            && header_of(trimmed(others[i])) != Some(own_header()) by {
            assert(others[i] == lines[i + 1]);
        }
        lemma_lines_before(others, rest);
        assert(lines_of(lines) + rest =~= lines[0] + seq!['\n'] + behind);
        lemma_first_line_is(lines[0], behind);
        let text = lines[0] + seq!['\n'] + behind;
        assert(text.len() > 0);
        assert(version_in(text, false) == version_in(behind, false));
    }
}

/// Some lines, each with its line feed.
pub open spec fn lines_of(lines: Seq<Seq<char>>) -> Seq<char>
    decreases lines.len(),
{
    if lines.len() == 0 {
        Seq::empty()
    } else {
        lines[0] + seq!['\n'] + lines_of(lines.skip(1))
    }
}

/// The line that sets a version.
pub open spec fn version_line(version: Seq<char>) -> Seq<char> {
    "version = \""@ + version + "\""@
}

proof fn lemma_version_line(version: Seq<char>)
    requires
        !version.contains('"'),
    ensures
        trimmed(version_line(version)) == version_line(version),
        header_of(version_line(version)) is None,
        sets_version(version_line(version)),
        value_set(version_line(version)) == Some(version),
{
    let line = version_line(version);
    let n = line.len() as int;
    reveal_strlit("version = \"");
    reveal_strlit("\"");
    reveal_strlit("=");
    reveal_strlit("version");
    assert(line[0] == 'v');
    assert(line[n - 1] == '"');
    let none = Seq::<char>::empty();
    assert(none + line + none =~= line);
    law_trim_takes_the_space(none, line, none);
    let equals = "="@;
    assert(line.subrange(8, 9) =~= equals);
    assert forall|j: int| 0 <= j < 8 implies !#[trigger] stands(line, equals, j) by {
        assert(line.subrange(j, j + 1)[0] == line[j]);
        assert(line[j] == "version = \""@[j]);
        if stands(line, equals, j) {
            assert(line[j] == '=');
        }
    }
    lemma_found_at(line, equals, 8);
    let name = line.take(8);
    assert(name =~= none + "version"@ + seq![' ']);
    law_trim_takes_the_space(none, "version"@, seq![' ']);
    let value = line.skip(9);
    let quote = "\""@;
    assert(value =~= seq![' '] + quote + version + quote);
    assert(value.subrange(1, 2) =~= quote);
    assert forall|j: int| 0 <= j < 1 implies !#[trigger] stands(value, quote, j) by {
        assert(value.subrange(j, j + 1)[0] == value[j]);
        assert(value[0] == ' ');
    }
    lemma_found_at(value, quote, 1);
    let rest = value.skip(2);
    assert(rest =~= version + quote);
    let at = version.len() as int;
    assert(rest.subrange(at, at + 1) =~= quote);
    assert forall|j: int| 0 <= j < at implies !#[trigger] stands(rest, quote, j) by {
        if stands(rest, quote, j) {
            assert(rest.subrange(j, j + 1)[0] == rest[j]);
            assert(version[j] == '"');
        }
    }
    lemma_found_at(rest, quote, at);
    assert(rest.take(at) =~= version);
}

/// Lines of the table that set no version, and open no other table, have no say in it.
proof fn lemma_lines_inside(lines: Seq<Seq<char>>, rest: Seq<char>)
    requires
        forall|i: int|
            0 <= i < lines.len() ==> !(#[trigger] lines[i]).contains('\n') && header_of(
                trimmed(lines[i]),
            ) is None && !sets_version(trimmed(lines[i])),
    ensures
        version_in(lines_of(lines) + rest, true) == version_in(rest, true),
    decreases lines.len(),
{
    if lines.len() == 0 {
        assert(lines_of(lines) + rest =~= rest);
    } else {
        let others = lines.skip(1);
        let behind = lines_of(others) + rest;
        assert forall|i: int| 0 <= i < others.len() implies !(#[trigger] others[i]).contains('\n')
            && header_of(trimmed(others[i])) is None && !sets_version(trimmed(others[i])) by {
            assert(others[i] == lines[i + 1]);
        }
        lemma_lines_inside(others, rest);
        assert(lines_of(lines) + rest =~= lines[0] + seq!['\n'] + behind);
        lemma_first_line_is(lines[0], behind);
        let text = lines[0] + seq!['\n'] + behind;
        assert(text.len() > 0);
        assert(version_in(text, true) == version_in(behind, true));
    }
}

/// The version is read where it is written: in the first line that sets it behind the header of this
/// project's table, whatever lines stand before the table, whatever other lines in it, and whatever
/// text behind that line.
pub proof fn law_version_is_read(
    before: Seq<Seq<char>>,
    inside: Seq<Seq<char>>,
    version: Seq<char>,
    behind: Seq<char>,
)
    requires
        forall|i: int|
            0 <= i < inside.len() ==> !(#[trigger] inside[i]).contains('\n') && header_of(
                trimmed(inside[i]),
            ) is None && !sets_version(trimmed(inside[i])),
        forall|i: int|
            0 <= i < before.len() ==> !(#[trigger] before[i]).contains('\n') && header_of(
                trimmed(before[i]),
            ) != Some(own_header()),
        !version.contains('"'),
        !version.contains('\n'),
    ensures
        version_in(
            lines_of(before) + (own_header() + seq!['\n'] + (lines_of(inside) + (version_line(
                version,
            ) + seq!['\n'] + behind))),
            false,
        ) == Some(version),
{
    let none = Seq::<char>::empty();
    let line = version_line(version) + seq!['\n'] + behind;
    let rest = lines_of(inside) + line;
    let table = own_header() + seq!['\n'] + rest;
    lemma_lines_before(before, table);
    lemma_own_header();
    lemma_first_line_is(own_header(), rest);
    lemma_lines_inside(inside, line);
    assert(none + own_header() + none =~= own_header());
    law_trim_takes_the_space(none, own_header(), none);
    assert(version_in(table, false) == version_in(rest, true));
    assert(!version_line(version).contains('\n')) by {
        reveal_strlit("version = \"");
        reveal_strlit("\"");
        let line = version_line(version);
        if line.contains('\n') {
            let i = choose|i: int| 0 <= i < line.len() && line[i] == '\n';
            if i >= 11 && i < 11 + version.len() {
                assert(version[i - 11] == '\n');
            }
        }
    }
    lemma_first_line_is(version_line(version), behind);
    lemma_version_line(version);
}

/// The version of a bundle is read where its property list has it: in the string behind the key of
/// the short version, without the white space around it.
pub proof fn law_short_version_is_read(
    before: Seq<char>,
    between: Seq<char>,
    pad: Seq<char>,
    version: Seq<char>,
    tail: Seq<char>,
    behind: Seq<char>,
)
    requires
        ({
            let key = "<key>CFBundleShortVersionString</key>"@;
            let value = "<string>"@ + (pad + version + tail) + "</string>"@ + behind;
            &&& forall|j: int|
                0 <= j < before.len() ==> !#[trigger] stands(before + key + (between + value), key, j)
            &&& forall|j: int|
                0 <= j < (pad + version + tail).len() ==> !#[trigger] stands(
                    (pad + version + tail) + "</string>"@ + behind,
                    "</string>"@,
                    j,
                )
        }),
        forall|i: int| 0 <= i < between.len() ==> white_space(#[trigger] between[i]),
        forall|i: int| 0 <= i < pad.len() ==> white_space(#[trigger] pad[i]),
        forall|i: int| 0 <= i < tail.len() ==> white_space(#[trigger] tail[i]),
        version.len() > 0,
        !white_space(version[0]),
        !white_space(version[version.len() - 1]),
    ensures
        short_version_of(
            before + "<key>CFBundleShortVersionString</key>"@ + (between + ("<string>"@ + (pad
                + version + tail) + "</string>"@ + behind)),
        ) == Some(version),
{
    let key = "<key>CFBundleShortVersionString</key>"@;
    let open = "<string>"@;
    let close = "</string>"@;
    let inner = pad + version + tail;
    let value = open + inner + close + behind;
    let after = between + value;
    let plist = before + key + after;
    let rest = inner + close + behind;
    let at = before.len() as int;
    let gap = between.len() as int;
    let end = inner.len() as int;
    assert(first_at(plist, key) == Some(at as nat)) by {
        assert(plist.subrange(at, at + key.len()) =~= key);
        lemma_found_at(plist, key, at);
    }
    assert(plist.skip(at + key.len()) =~= after);
    lemma_opens_behind_space(between, inner + close + behind);
    assert(after =~= between + (open + rest));
    assert(after.take(gap) =~= between);
    lemma_nothing_but_space(between);
    assert(after.skip(gap + open.len()) =~= rest);
    assert(first_at(rest, close) == Some(end as nat)) by {
        assert(rest.subrange(end, end + close.len()) =~= close);
        lemma_found_at(rest, close, end);
    }
    assert(rest.take(end) =~= inner);
    law_trim_takes_the_space(pad, version, tail);
}

/// The first string opens where the white space before it ends.
proof fn lemma_opens_behind_space(between: Seq<char>, rest: Seq<char>)
    requires
        forall|i: int| 0 <= i < between.len() ==> white_space(#[trigger] between[i]),
    ensures
        first_at(between + ("<string>"@ + rest), "<string>"@) == Some(between.len()),
{
    let open = "<string>"@;
    let after = between + (open + rest);
    let gap = between.len() as int;
    reveal_strlit("<string>");
    assert(after.subrange(gap, gap + open.len()) =~= open);
    assert forall|j: int| 0 <= j < gap implies !#[trigger] stands(after, open, j) by {
        if stands(after, open, j) {
            assert(after.subrange(j, j + open.len())[0] == after[j]);
            assert(after[j] == between[j]);
        }
    }
    lemma_found_at(after, open, gap);
}

proof fn lemma_nothing_but_space(s: Seq<char>)
    requires
        forall|i: int| 0 <= i < s.len() ==> white_space(#[trigger] s[i]),
    ensures
        trimmed(s).len() == 0,
    decreases s.len(),
{
    if s.len() > 0 {
        let rest = s.skip(1);
        assert forall|i: int| 0 <= i < rest.len() implies white_space(#[trigger] rest[i]) by {
            assert(rest[i] == s[i + 1]);
        }
        lemma_nothing_but_space(rest);
        assert(trimmed(s) == trimmed(rest));
    }
}

/// The features of a build are the word behind `--features`, and none without it; anything else
/// behind `make-app` is refused.
pub proof fn law_features_are_named(features: Seq<char>, other: Seq<Seq<char>>)
    requires
        other.len() > 2 || (other.len() > 0 && other[0] != "--features"@),
    ensures
        command_of(seq!["make-app"@]) == Ok::<CommandView, UsageErrorView>(
            CommandView::MakeApp { features: None },
        ),
        command_of(seq!["make-app"@, "--features"@, features]) == Ok::<CommandView, UsageErrorView>(
            CommandView::MakeApp { features: Some(features) },
        ),
        command_of(seq!["make-app"@, "--features"@]) == Err::<CommandView, UsageErrorView>(
            UsageErrorView::FeaturesWithoutValue,
        ),
        command_of(seq!["make-app"@] + other) == Err::<CommandView, UsageErrorView>(
            UsageErrorView::UnexpectedArguments(other),
        ),
{
    reveal_strlit("make-app");
    reveal_strlit("help");
    reveal_strlit("-h");
    reveal_strlit("--help");
    reveal_strlit("build-apk");
    assert("make-app"@.len() == 8 && "help"@.len() == 4 && "-h"@.len() == 2 && "--help"@.len() == 6
        && "build-apk"@.len() == 9);
    assert(seq!["make-app"@].skip(1) =~= Seq::<Seq<char>>::empty());
    assert(seq!["make-app"@, "--features"@, features].skip(1) =~= seq!["--features"@, features]);
    assert(seq!["make-app"@, "--features"@].skip(1) =~= seq!["--features"@]);
    assert((seq!["make-app"@] + other).skip(1) =~= other);
}

/// The bundle of `make-dmg` and of `sign-notarize` is the word behind the command, if there is one.
pub proof fn law_bundle_is_named(bundle: Seq<char>, more: Seq<Seq<char>>)
    ensures
        command_of(seq!["make-dmg"@]) == Ok::<CommandView, UsageErrorView>(
            CommandView::MakeDmg { bundle: None },
        ),
        command_of(seq!["make-dmg"@, bundle] + more) == Ok::<CommandView, UsageErrorView>(
            CommandView::MakeDmg { bundle: Some(bundle) },
        ),
        command_of(seq!["sign-notarize"@]) == Ok::<CommandView, UsageErrorView>(
            CommandView::SignNotarize { bundle: None },
        ),
        command_of(seq!["sign-notarize"@, bundle] + more) == Ok::<CommandView, UsageErrorView>(
            CommandView::SignNotarize { bundle: Some(bundle) },
        ),
{
    reveal_strlit("make-app");
    reveal_strlit("make-dmg");
    reveal_strlit("sign-notarize");
    reveal_strlit("help");
    reveal_strlit("-h");
    reveal_strlit("--help");
    reveal_strlit("build-apk");
    assert("make-app"@.len() == 8 && "help"@.len() == 4 && "-h"@.len() == 2 && "--help"@.len() == 6
        && "build-apk"@.len() == 9 && "make-dmg"@.len() == 8 && "sign-notarize"@.len() == 13);
    assert("make-app"@[5] == 'a' && "make-dmg"@[5] == 'd');
    assert((seq!["make-dmg"@, bundle] + more).skip(1)[0] == bundle);
    assert((seq!["sign-notarize"@, bundle] + more).skip(1)[0] == bundle);
}

/// A table header may have white space and a comment behind it, which do not belong to it.
pub proof fn law_header_may_have_a_comment(name: Seq<char>, space: Seq<char>, comment: Seq<char>)
    requires
        forall|i: int|
            0 <= i < name.len() ==> #[trigger] name[i] != '[' && name[i] != ']' && name[i] != '"'
                && name[i] != '\'',
        forall|i: int| 0 <= i < space.len() ==> white_space(#[trigger] space[i]),
    ensures
        header_of(seq!['['] + name + seq![']'] + space) == Some(seq!['['] + name + seq![']']),
        header_of(seq!['['] + name + seq![']'] + (space + (seq!['#'] + comment))) == Some(
            seq!['['] + name + seq![']'],
        ),
{
    lemma_nothing_but_space(space);
    lemma_header_then(name, space);
    lemma_comment(space, comment);
    lemma_header_then(name, space + (seq!['#'] + comment));
}

proof fn lemma_header_then(name: Seq<char>, behind: Seq<char>)
    requires
        forall|i: int|
            0 <= i < name.len() ==> #[trigger] name[i] != '[' && name[i] != ']' && name[i] != '"'
                && name[i] != '\'',
        says_nothing(behind),
    ensures
        header_of(seq!['['] + name + seq![']'] + behind) == Some(seq!['['] + name + seq![']']),
{
    let header = seq!['['] + name + seq![']'];
    let line = header + behind;
    lemma_closing_then(name, behind);
    assert(line.skip(1) =~= name + seq![']'] + behind);
    assert(closing(line, 0, None) == Some(header.len()));
    assert(line.skip(header.len() as int) =~= behind);
    assert(line.take(header.len() as int) =~= header);
}

proof fn lemma_closing_then(inner: Seq<char>, behind: Seq<char>)
    requires
        forall|i: int|
            0 <= i < inner.len() ==> #[trigger] inner[i] != '[' && inner[i] != ']' && inner[i]
                != '"' && inner[i] != '\'',
    ensures
        closing(inner + seq![']'] + behind, 1, None) == Some(inner.len() + 1),
    decreases inner.len(),
{
    let s = inner + seq![']'] + behind;
    if inner.len() == 0 {
        assert(s[0] == ']');
    } else {
        let rest = inner.skip(1);
        assert(s[0] == inner[0]);
        assert(s.skip(1) =~= rest + seq![']'] + behind);
        assert forall|i: int| 0 <= i < rest.len() implies #[trigger] rest[i] != '[' && rest[i]
            != ']' && rest[i] != '"' && rest[i] != '\'' by {
            assert(rest[i] == inner[i + 1]);
        }
        lemma_closing_then(rest, behind);
    }
}

proof fn lemma_comment(space: Seq<char>, comment: Seq<char>)
    requires
        forall|i: int| 0 <= i < space.len() ==> white_space(#[trigger] space[i]),
    ensures
        says_nothing(space + (seq!['#'] + comment)),
    decreases space.len(),
{
    let s = space + (seq!['#'] + comment);
    if space.len() == 0 {
        assert(s =~= seq!['#'] + comment);
        assert(s[0] == '#');
        assert(crate::text::trimmed_start(s) == s);
        lemma_end_keeps_the_first(s);
    } else {
        let rest = space.skip(1);
        assert(s[0] == space[0]);
        assert(s.skip(1) =~= rest + (seq!['#'] + comment));
        assert forall|i: int| 0 <= i < rest.len() implies white_space(#[trigger] rest[i]) by {
            assert(rest[i] == space[i + 1]);
        }
        lemma_comment(rest, comment);
    }
}

proof fn lemma_end_keeps_the_first(s: Seq<char>)
    requires
        s.len() > 0,
        !white_space(s[0]),
    ensures
        crate::text::trimmed_end(s).len() > 0,
        crate::text::trimmed_end(s)[0] == s[0],
    decreases s.len(),
{
    if white_space(s.last()) {
        assert(s.len() > 1);
        lemma_end_keeps_the_first(s.drop_last());
    }
}

} // verus!
