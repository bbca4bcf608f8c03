//! Pre-push gate selection: which test files changed against a base. Which
//! files are tests, and how to hand them to the runner, is preset knowledge.
//! The git listings themselves are read by the caller; everything decided
//! from them is here.

use vstd::prelude::*;

use crate::cli::Preset;
use crate::format::count_text;
use crate::keyed::{insert_key_sorted, keyseq, strictly_sorted};
use crate::report::{line_views, Style};
use crate::history::{find_first, find_from, leading_u64, leading_u64_at, lines_of, split_lines};
use crate::text::{chars_of, copy_string, decimal, push_decimal, push_str, string_of};

verus! {

/// What a `--changed` run repeats: the resolved base and the changed test files.
#[derive(Debug)]
pub struct Selection {
    pub base: String,
    pub files: Vec<String>,
}

/// The message when `--changed` finds no base to compare against.
pub open spec fn no_base_text() -> Seq<char> {
    "`--changed` found no base: no upstream and no origin/HEAD — pass one explicitly (`--changed=origin/main`)"@
}

/// The base `--changed` compares against: the explicit one, else the branch's
/// upstream, else `origin/HEAD`.
pub fn choose_base(explicit: Option<&str>, upstream: Option<String>, origin_head: Option<String>) -> (r: Result<
    String,
    String,
>)
    ensures
        explicit matches Some(b) ==> (r matches Ok(x) && x@ == b@),
        explicit is None ==> match upstream {
            Some(u) => r matches Ok(x) && x@ == u@,
            None => match origin_head {
                Some(o) => r matches Ok(x) && x@ == o@,
                None => r matches Err(m) && m@ == no_base_text(),
            },
        },
{
    match explicit {
        Some(b) => Ok(b.to_string()),
        None => match upstream {
            Some(u) => Ok(u),
            None => match origin_head {
                Some(o) => Ok(o),
                None => Err(
                    "`--changed` found no base: no upstream and no origin/HEAD — pass one explicitly (`--changed=origin/main`)".to_string(),
                ),
            },
        },
    }
}

/// The file name after the last `/`.
pub open spec fn file_name(path: Seq<char>) -> Seq<char>
    decreases path.len(),
{
    if path.len() == 0 {
        path
    } else if path.last() == '/' {
        Seq::empty()
    } else {
        file_name(path.drop_last()).push(path.last())
    }
}

/// `s` ends with `suffix`.
pub open spec fn ends_with(s: Seq<char>, suffix: Seq<char>) -> bool {
    suffix.len() <= s.len() && s.skip(s.len() - suffix.len()) == suffix
}

/// `s` holds `part` somewhere.
pub open spec fn holds(s: Seq<char>, part: Seq<char>) -> bool {
    exists|i: int| 0 <= i <= s.len() - part.len() && #[trigger] s.subrange(i, i + part.len()) == part
}

/// Whether a path names a test file of the preset's runner, by the runner's
/// own naming convention: `test_*.py` or `*_test.py` for pytest, `*Test.php`
/// for PHPUnit, `*.test.*` or `*.spec.*` for Jest, `*_test.go` for Go.
pub open spec fn is_test_path(preset: Preset, path: Seq<char>) -> bool {
    let name = file_name(path);
    match preset {
        Preset::Pytest => ends_with(name, ".py"@) && (crate::text::starts_with(name, "test_"@) || ends_with(
            name,
            "_test.py"@,
        )),
        Preset::Phpunit => ends_with(name, "Test.php"@),
        Preset::Jest => holds(name, ".test."@) || holds(name, ".spec."@),
        Preset::Go => ends_with(name, "_test.go"@),
    }
}

/// The characters after the last `/`.
fn file_name_of(path: &[char]) -> (name: Vec<char>)
    ensures
        name@ == file_name(path@),
{
    let mut start: usize = path.len();
    assert(path@.take(start as int) =~= path@);
    assert(path@.skip(start as int) =~= Seq::<char>::empty());
    while start > 0 && path[start - 1] != '/'
        invariant
            start <= path@.len(),
            file_name(path@) == file_name(path@.take(start as int)) + path@.skip(start as int),
        decreases start,
    {
        assert(path@.take(start as int).drop_last() =~= path@.take(start - 1));
        assert(path@.skip(start - 1) =~= seq![path@[start - 1]] + path@.skip(start as int));
        assert(file_name(path@.take(start as int)) =~= file_name(path@.take(start - 1)).push(path@[start - 1]));
        start -= 1;
    }
    if start > 0 {
        assert(path@.take(start as int).last() == '/');
    } else {
        assert(path@.take(0).len() == 0);
    }
    let mut name: Vec<char> = Vec::new();
    let mut i: usize = start;
    while i < path.len()
        invariant
            start <= i <= path@.len(),
            name@ == path@.subrange(start as int, i as int),
        decreases path.len() - i,
    {
        name.push(path[i]);
        i += 1;
        assert(name@ =~= path@.subrange(start as int, i as int));
    }
    assert(name@ =~= path@.skip(start as int));
    name
}

/// Whether `s` ends with `suffix`.
fn ends_with_chars(s: &[char], suffix: &str) -> (r: bool)
    ensures
        r == ends_with(s@, suffix@),
{
    let t = chars_of(suffix);
    if t.len() > s.len() {
        return false;
    }
    let off = s.len() - t.len();
    let mut i: usize = 0;
    while i < t.len()
        invariant
            i <= t@.len(),
            off + t@.len() == s@.len(),
            off + t.len() == s.len(),
            t@ == suffix@,
            forall|j: int| 0 <= j < i ==> s@[off + j] == t@[j],
        decreases t.len() - i,
    {
        if s[off + i] != t[i] {
            assert(s@.skip(off as int)[i as int] != suffix@[i as int]);
            return false;
        }
        i += 1;
    }
    assert(s@.skip(off as int) =~= suffix@);
    true
}

/// Whether `s` starts with `prefix`.
fn starts_with_chars(s: &[char], prefix: &str) -> (r: bool)
    ensures
        r == crate::text::starts_with(s@, prefix@),
{
    let t = chars_of(prefix);
    if t.len() > s.len() {
        return false;
    }
    let mut i: usize = 0;
    while i < t.len()
        invariant
            i <= t@.len(),
            t@.len() <= s@.len(),
            t@ == prefix@,
            forall|j: int| 0 <= j < i ==> s@[j] == t@[j],
        decreases t.len() - i,
    {
        if s[i] != t[i] {
            assert(s@.take(t@.len() as int)[i as int] != prefix@[i as int]);
            return false;
        }
        i += 1;
    }
    assert(s@.take(t@.len() as int) =~= prefix@);
    true
}

/// Whether `s` holds `part` somewhere.
fn holds_chars(s: &[char], part: &str) -> (r: bool)
    ensures
        r == holds(s@, part@),
{
    let t = chars_of(part);
    if t.len() > s.len() {
        assert forall|i: int| 0 <= i <= s@.len() - part@.len() implies #[trigger] s@.subrange(i, i + part@.len())
            != part@ by {}
        return false;
    }
    let mut at: usize = 0;
    while at <= s.len() - t.len()
        invariant
            t@ == part@,
            t@.len() <= s@.len(),
            at <= s@.len() - t@.len() + 1,
            forall|i: int| 0 <= i < at ==> #[trigger] s@.subrange(i, i + part@.len()) != part@,
        decreases s.len() + 1 - at,
    {
        let mut k: usize = 0;
        let mut same = true;
        while k < t.len()
            invariant
                k <= t@.len(),
                at + t@.len() <= s@.len(),
                at + t.len() <= s.len(),
                same == (forall|j: int| 0 <= j < k ==> s@[at + j] == t@[j]),
            decreases t.len() - k,
        {
            if s[at + k] != t[k] {
                same = false;
            }
            k += 1;
        }
        if same {
            assert(s@.subrange(at as int, at + part@.len()) =~= part@);
            return true;
        }
        assert(s@.subrange(at as int, at + part@.len()) != part@) by {
            let j = choose|j: int| 0 <= j < t@.len() && s@[at + j] != t@[j];
            assert(s@.subrange(at as int, at + part@.len())[j] != part@[j]);
        }
        at += 1;
    }
    false
}

/// Whether `path` names a test file of `preset`'s runner.
pub fn is_test_file(preset: Preset, path: &str) -> (r: bool)
    ensures
        r == is_test_path(preset, path@),
{
    let cs = chars_of(path);
    let name = file_name_of(cs.as_slice());
    let n = name.as_slice();
    match preset {
        Preset::Pytest => ends_with_chars(n, ".py") && (starts_with_chars(n, "test_") || ends_with_chars(
            n,
            "_test.py",
        )),
        Preset::Phpunit => ends_with_chars(n, "Test.php"),
        Preset::Jest => holds_chars(n, ".test.") || holds_chars(n, ".spec."),
        Preset::Go => ends_with_chars(n, "_test.go"),
    }
}

/// The test files among the lines of the diff and of the untracked
/// listing, each once, in increasing order.
pub open spec fn selected(preset: Preset, diffed: Seq<char>, untracked: Seq<char>) -> Set<Seq<char>> {
    (split_lines(diffed) + split_lines(untracked)).to_set().filter(|p: Seq<char>| is_test_path(preset, p))
}

/// The `--changed` selection from git's answers: the merge base with the base,
/// the files changed since (deleted ones excluded), and the untracked
/// files. A failed git listing is an error, never an empty selection.
pub fn resolve(
    base: String,
    merge_base: Option<String>,
    diffed: Option<String>,
    untracked: Option<String>,
    preset: Preset,
) -> (r: Result<Selection, String>)
    ensures
        merge_base is None ==> (r matches Err(m) && m@ == "`--changed="@ + base@ + "` is not a ref git knows here"@),
        merge_base is Some && diffed is None ==> (r matches Err(m) && m@ == "`--changed` could not diff against "@ + base@
            + ": git failed here"@),
        merge_base is Some && diffed is Some && untracked is None ==> (r matches Err(m) && m@
            == "`--changed` could not list untracked files: git failed here"@),
        merge_base is Some && diffed is Some && untracked is Some ==> (r matches Ok(sel) && sel.base@ == base@
            && strictly_sorted(line_views(sel.files@)) && line_views(sel.files@).to_set() == selected(
            preset,
            diffed->0@,
            untracked->0@,
        )),
{
    if merge_base.is_none() {
        let mut m = String::new();
        push_str(&mut m, "`--changed=");
        push_str(&mut m, base.as_str());
        push_str(&mut m, "` is not a ref git knows here");
        return Err(m);
    }
    let diffed = match diffed {
        Some(d) => d,
        None => {
            let mut m = String::new();
            push_str(&mut m, "`--changed` could not diff against ");
            push_str(&mut m, base.as_str());
            push_str(&mut m, ": git failed here");
            return Err(m);
        },
    };
    let untracked = match untracked {
        Some(u) => u,
        None => return Err("`--changed` could not list untracked files: git failed here".to_string()),
    };
    let mut lines = lines_of(diffed.as_str());
    let more = lines_of(untracked.as_str());
    let ghost all_lines = line_views(lines@) + line_views(more@);
    let mut extra = more;
    lines.append(&mut extra);
    assert(line_views(lines@) =~= all_lines);
    let mut keys: Vec<Vec<char>> = Vec::new();
    let mut i: usize = 0;
    while i < lines.len()
        invariant
            i <= lines@.len(),
            strictly_sorted(keyseq(keys@)),
            keyseq(keys@).to_set() == line_views(lines@).take(i as int).to_set().filter(
                |p: Seq<char>| is_test_path(preset, p),
            ),
        decreases lines.len() - i,
    {
        let ghost before = line_views(lines@).take(i as int);
        assert(line_views(lines@).take(i + 1) =~= before.push(line_views(lines@)[i as int]));
        proof {
            before.lemma_push_to_set_commute(line_views(lines@)[i as int]);
        }
        if is_test_file(preset, lines[i].as_str()) {
            insert_key_sorted(&mut keys, chars_of(lines[i].as_str()));
        }
        i += 1;
        assert(keyseq(keys@).to_set() =~= line_views(lines@).take(i as int).to_set().filter(
            |p: Seq<char>| is_test_path(preset, p),
        ));
    }
    assert(line_views(lines@).take(i as int) =~= line_views(lines@));
    let mut files: Vec<String> = Vec::new();
    let mut j: usize = 0;
    while j < keys.len()
        invariant
            j <= keys@.len(),
            line_views(files@) == keyseq(keys@).take(j as int),
        decreases keys.len() - j,
    {
        let f = string_of(keys[j].as_slice());
        let ghost prev = line_views(files@);
        files.push(f);
        assert(line_views(files@) =~= prev.push(keyseq(keys@)[j as int]));
        j += 1;
        assert(line_views(files@) =~= keyseq(keys@).take(j as int));
    }
    assert(keyseq(keys@).take(j as int) =~= keyseq(keys@));
    Ok(Selection { base, files })
}

/// The arguments that hand the selected files to the runner: the paths
/// themselves.
pub fn selected_paths(files: &Vec<String>) -> (args: Vec<String>)
    ensures
        line_views(args@) == line_views(files@),
{
    let mut args: Vec<String> = Vec::new();
    let mut i: usize = 0;
    while i < files.len()
        invariant
            i <= files@.len(),
            line_views(args@) == line_views(files@).take(i as int),
        decreases files.len() - i,
    {
        let f = copy_string(&files[i]);
        let ghost prev = line_views(args@);
        args.push(f);
        assert(line_views(args@) =~= prev.push(files@[i as int]@));
        i += 1;
        assert(line_views(args@) =~= line_views(files@).take(i as int));
    }
    assert(line_views(files@).take(i as int) =~= line_views(files@));
    args
}

/// The selection's lines: how many test files changed against which base, then
/// each file.
pub open spec fn gate_lines_spec(sel: Selection, colored: bool) -> Seq<Seq<char>> {
    seq![
        crate::format::painted(
            colored,
            "2"@,
            "gate: "@ + count_text(sel.files@.len(), "changed test file"@) + " against "@ + sel.base@,
        ),
    ] + line_views(sel.files@).map_values(|f: Seq<char>| "  - "@ + f)
}

/// What `--changed` selected, for the human report.
pub fn gate_lines(sel: &Selection, style: Style) -> (lines: Vec<String>)
    ensures
        line_views(lines@) == gate_lines_spec(*sel, style.colored),
{
    let mut head = String::new();
    push_str(&mut head, "gate: ");
    let c = crate::format::count(sel.files.len(), "changed test file");
    push_str(&mut head, c.as_str());
    push_str(&mut head, " against ");
    push_str(&mut head, sel.base.as_str());
    let mut lines: Vec<String> = Vec::new();
    lines.push(style.dim(head.as_str()));
    let ghost first = line_views(lines@);
    let mut i: usize = 0;
    while i < sel.files.len()
        invariant
            i <= sel.files@.len(),
            line_views(lines@) == first + line_views(sel.files@).take(i as int).map_values(|f: Seq<char>| "  - "@ + f),
        decreases sel.files.len() - i,
    {
        let mut l = String::new();
        push_str(&mut l, "  - ");
        push_str(&mut l, sel.files[i].as_str());
        let ghost prev = line_views(lines@);
        let ghost fresh = l@;
        lines.push(l);
        assert(line_views(lines@) =~= prev.push(fresh));
        i += 1;
        assert(line_views(lines@) =~= first + line_views(sel.files@).take(i as int).map_values(
            |f: Seq<char>| "  - "@ + f,
        ));
    }
    assert(line_views(sel.files@).take(i as int) =~= line_views(sel.files@));
    assert(line_views(lines@) =~= gate_lines_spec(*sel, style.colored));
    lines
}

/// The `--changed` line when nothing changed.
pub open spec fn empty_gate_text(base: Seq<char>) -> Seq<char> {
    "gate: no new or changed tests against "@ + base + " — nothing to prove"@
}

/// The line for a gate that found nothing to run.
pub fn empty_gate_line(sel: &Selection) -> (line: String)
    ensures
        line@ == empty_gate_text(sel.base@),
{
    let mut line = String::new();
    push_str(&mut line, "gate: no new or changed tests against ");
    push_str(&mut line, sel.base.as_str());
    push_str(&mut line, " — nothing to prove");
    line
}

/// Whether a `--changed` run must ask the runner for its version first:
/// PHPUnit before 10 runs only the first path it is given, which matters once
/// it is handed more than one.
pub open spec fn needs_version_spec(preset: Preset, files: nat) -> bool {
    preset == Preset::Phpunit && files >= 2
}

/// Whether a `--changed` run must ask the runner for its version (see
/// `needs_version_spec`).
pub fn needs_version(preset: Preset, files: usize) -> (r: bool)
    ensures
        r == needs_version_spec(preset, files as nat),
{
    match preset {
        Preset::Phpunit => files >= 2,
        _ => false,
    }
}

/// The major version a `--version` banner names: the number right after the
/// first `PHPUnit `.
pub open spec fn phpunit_major_spec(banner: Seq<char>) -> Option<u64> {
    match find_from(banner, "PHPUnit "@, 0) {
        Some(p) => leading_u64(banner.skip(p + "PHPUnit "@.len())),
        None => None,
    }
}

/// The major version a `--version` banner names (see `phpunit_major_spec`).
pub fn phpunit_major(banner: &str) -> (r: Option<u64>)
    ensures
        r == phpunit_major_spec(banner@),
{
    let b = chars_of(banner);
    let m = chars_of("PHPUnit ");
    match find_first(&b, &m) {
        Some(p) => leading_u64_at(&b, p + m.len()),
        None => None,
    }
}

/// What a `--changed` run does about the runner's version before it runs
/// anything.
#[derive(Debug, PartialEq, Eq)]
pub enum VersionCheck {
    /// Go on and run the selection.
    Proceed,
    /// Go on, after saying this on stderr.
    Warn(String),
    /// Run nothing and exit as sooth's own failure, after saying this.
    Refuse(String),
}

/// The refusal for a PHPUnit that would run only the first of the paths.
pub open spec fn old_phpunit_text(major: nat, files: nat) -> Seq<char> {
    "PHPUnit "@ + decimal(major) + " runs only the first path it is given, so gating "@ + count_text(
        files,
        "changed test file"@,
    ) + " would prove nothing about the rest — gate with PHPUnit 10 or later, or one file at a time"@
}

/// The warning when the banner names no PHPUnit version.
pub open spec fn unknown_version_text(program: Seq<char>, files: nat) -> Seq<char> {
    "could not read a PHPUnit version from `"@ + program + " --version` — gating "@ + count_text(
        files,
        "changed test file"@,
    ) + " assumes PHPUnit 10 or later, which runs every path it is given"@
}

/// The decision on a PHPUnit runner's `--version` banner (`None`
/// when the runner could not be asked), for a selection of `files` files:
/// below 10 it refuses, at 10 or later it proceeds, and a banner that names
/// no version is said out loud and does not block.
pub fn version_check(banner: Option<&str>, program: &str, files: usize) -> (r: VersionCheck)
    ensures
        match (match banner {
            Some(b) => phpunit_major_spec(b@),
            None => None,
        }) {
            Some(major) => if major < 10 {
                r matches VersionCheck::Refuse(m) && m@ == old_phpunit_text(major as nat, files as nat)
            } else {
                r is Proceed
            },
            None => r matches VersionCheck::Warn(m) && m@ == unknown_version_text(program@, files as nat),
        },
{
    let major = match banner {
        Some(b) => phpunit_major(b),
        None => None,
    };
    let count = crate::format::count(files, "changed test file");
    match major {
        Some(v) => {
            if v < 10 {
                let mut m = String::new();
                push_str(&mut m, "PHPUnit ");
                push_decimal(&mut m, v as u128);
                push_str(&mut m, " runs only the first path it is given, so gating ");
                push_str(&mut m, count.as_str());
                push_str(
                    &mut m,
                    " would prove nothing about the rest — gate with PHPUnit 10 or later, or one file at a time",
                );
                VersionCheck::Refuse(m)
            } else {
                VersionCheck::Proceed
            }
        },
        None => {
            let mut m = String::new();
            push_str(&mut m, "could not read a PHPUnit version from `");
            push_str(&mut m, program);
            push_str(&mut m, " --version` — gating ");
            push_str(&mut m, count.as_str());
            push_str(&mut m, " assumes PHPUnit 10 or later, which runs every path it is given");
            VersionCheck::Warn(m)
        },
    }
}

} // verus!
