//! Built-in presets: the reporter flags that make a known test runner write
//! a JUnit-XML report sooth can parse, and how to restrict it to a subset of
//! its tests.

use vstd::prelude::*;

use crate::cli::Preset;
use crate::keyed::{insert_key_sorted, keyseq, strictly_sorted};
use crate::text::{strings, chars_of, copy_string, push_char, push_str, string_of};

verus! {

/// A command to spawn plus the environment to add.
pub type Spawn = (Vec<String>, Vec<(String, String)>);

/// What a preset adds to the wrapped command: extra arguments and environment
/// variables for the child process.
pub struct Injection {
    pub args: Vec<String>,
    pub envs: Vec<(String, String)>,
}

/// The characters of a list of variable assignments.
pub open spec fn pairs(v: Seq<(String, String)>) -> Seq<(Seq<char>, Seq<char>)> {
    v.map_values(|p: (String, String)| (p.0@, p.1@))
}

/// The reporter arguments and environment of a preset writing to `report`.
pub open spec fn injection_spec(preset: Preset, report: Seq<char>) -> (Seq<Seq<char>>, Seq<(Seq<char>, Seq<char>)>) {
    match preset {
        Preset::Pytest => (seq!["--junit-xml="@ + report], Seq::empty()),
        Preset::Phpunit => (seq!["--log-junit"@, report], Seq::empty()),
        Preset::Jest => (
            seq!["--reporters=default"@, "--reporters=jest-junit"@],
            seq![("JEST_JUNIT_OUTPUT_FILE"@, report)],
        ),
        Preset::Go => (seq!["--junitfile="@ + report], Seq::empty()),
    }
}

/// The reporter flags and environment for `preset`, writing to `report`.
pub fn injection(preset: Preset, report: &str) -> (i: Injection)
    ensures
        (strings(i.args@), pairs(i.envs@)) == injection_spec(preset, report@),
{
    match preset {
        Preset::Pytest => {
            let mut a = "--junit-xml=".to_owned();
            push_str(&mut a, report);
            let args = vec![a];
            let r = Injection { args, envs: Vec::new() };
            assert(strings(r.args@) =~= seq!["--junit-xml="@ + report@]);
            assert(pairs(r.envs@) =~= Seq::<(Seq<char>, Seq<char>)>::empty());
            r
        },
        Preset::Phpunit => {
            let args = vec!["--log-junit".to_owned(), report.to_owned()];
            let r = Injection { args, envs: Vec::new() };
            assert(strings(r.args@) =~= seq!["--log-junit"@, report@]);
            assert(pairs(r.envs@) =~= Seq::<(Seq<char>, Seq<char>)>::empty());
            r
        },
        Preset::Jest => {
            let args = vec!["--reporters=default".to_owned(), "--reporters=jest-junit".to_owned()];
            let envs = vec![("JEST_JUNIT_OUTPUT_FILE".to_owned(), report.to_owned())];
            let r = Injection { args, envs };
            assert(strings(r.args@) =~= seq!["--reporters=default"@, "--reporters=jest-junit"@]);
            assert(pairs(r.envs@) =~= seq![("JEST_JUNIT_OUTPUT_FILE"@, report@)]);
            r
        },
        Preset::Go => {
            let mut a = "--junitfile=".to_owned();
            push_str(&mut a, report);
            let args = vec![a];
            let r = Injection { args, envs: Vec::new() };
            assert(strings(r.args@) =~= seq!["--junitfile="@ + report@]);
            assert(pairs(r.envs@) =~= Seq::<(Seq<char>, Seq<char>)>::empty());
            r
        },
    }
}

/// Appends copies of `from` to `to`.
fn extend_strings(to: &mut Vec<String>, from: &Vec<String>, start: usize)
    requires
        start <= from.len(),
    ensures
        strings(final(to)@) == strings(old(to)@) + strings(from@).skip(start as int),
{
    let ghost first = strings(to@);
    let mut i: usize = start;
    while i < from.len()
        invariant
            start <= i <= from.len(),
            strings(to@) == first + strings(from@).subrange(start as int, i as int),
        decreases from.len() - i,
    {
        let ghost before = strings(to@);
        to.push(copy_string(&from[i]));
        assert(strings(to@) =~= before.push(from@[i as int]@));
        assert(strings(from@).subrange(start as int, i + 1) =~= strings(from@).subrange(start as int, i as int).push(
            from@[i as int]@,
        ));
        i += 1;
    }
    assert(strings(from@).subrange(start as int, i as int) =~= strings(from@).skip(start as int));
}

/// The full command to spawn and the environment to add: the user's program,
/// then the preset's injected arguments, then the user's own arguments —
/// ahead of any `--` separator the runner itself understands.
pub fn inject(command: &Vec<String>, preset: Preset, report: &str) -> (spawn: Spawn)
    requires
        command@.len() >= 1,
    ensures
        strings(spawn.0@) == seq![command@[0]@] + injection_spec(preset, report@).0 + strings(command@).skip(1),
        pairs(spawn.1@) == injection_spec(preset, report@).1,
{
    let Injection { args, envs } = injection(preset, report);
    let mut full: Vec<String> = Vec::new();
    full.push(copy_string(&command[0]));
    assert(strings(full@) =~= seq![command@[0]@]);
    extend_strings(&mut full, &args, 0);
    assert(strings(args@).skip(0) =~= strings(args@));
    extend_strings(&mut full, command, 1);
    (full, envs)
}

/// The first position at or after `i` where `m` occurs in `s`, searching
/// from the right: the last occurrence.
pub open spec fn rfind(s: Seq<char>, m: Seq<char>) -> Option<int> {
    if exists|i: int| 0 <= i && i + m.len() <= s.len() && #[trigger] s.subrange(i, i + m.len()) == m {
        Some(choose|i: int| 0 <= i && i + m.len() <= s.len() && #[trigger] s.subrange(i, i + m.len()) == m && forall|j: int|
            i < j && j + m.len() <= s.len() ==> #[trigger] s.subrange(j, j + m.len()) != m)
    } else {
        None
    }
}

/// `k` is where `m` last occurs in `s`.
proof fn lemma_rfind_at(s: Seq<char>, m: Seq<char>, k: int)
    requires
        0 <= k && k + m.len() <= s.len(),
        s.subrange(k, k + m.len()) == m,
        forall|j: int| k < j && j + m.len() <= s.len() ==> #[trigger] s.subrange(j, j + m.len()) != m,
    ensures
        rfind(s, m) == Some(k),
{
    assert(exists|i: int| 0 <= i && i + m.len() <= s.len() && #[trigger] s.subrange(i, i + m.len()) == m);
    let r = rfind(s, m)->0;
    assert(0 <= r && r + m.len() <= s.len() && s.subrange(r, r + m.len()) == m);
    if r < k {
        assert(s.subrange(k, k + m.len()) != m);
    } else if r > k {
        assert(s.subrange(r, r + m.len()) != m);
    }
}

/// The method half of a `classname::name` identity: what follows the last
/// `::`, or the whole id without one.
pub open spec fn method_of_spec(id: Seq<char>) -> Seq<char> {
    match rfind(id, seq![':', ':']) {
        Some(i) => id.skip(i + 2),
        None => id,
    }
}

/// `m` occurs nowhere in `s`.
proof fn lemma_rfind_none(s: Seq<char>, m: Seq<char>)
    requires
        forall|j: int| 0 <= j && j + m.len() <= s.len() ==> #[trigger] s.subrange(j, j + m.len()) != m,
    ensures
        rfind(s, m) is None,
{
}

/// Where the last `::` of `c` starts.
fn last_separator(c: &Vec<char>) -> (r: Option<usize>)
    ensures
        match r {
            Some(k) => rfind(c@, seq![':', ':']) == Some(k as int) && k + 2 <= c.len(),
            None => rfind(c@, seq![':', ':']) is None,
        },
{
    let mut i: usize = c.len();
    while i >= 2
        invariant
            i <= c.len(),
            forall|j: int| i - 2 < j && j + 2 <= c.len() ==> #[trigger] c@.subrange(j, j + 2) != seq![':', ':'],
        decreases i,
    {
        let k = i - 2;
        if c[k] == ':' && c[k + 1] == ':' {
            assert(c@.subrange(k as int, k + 2) =~= seq![':', ':']);
            proof {
                lemma_rfind_at(c@, seq![':', ':'], k as int);
            }
            return Some(k);
        }
        assert(c@.subrange(k as int, k + 2)[0] == c@[k as int]);
        assert(c@.subrange(k as int, k + 2)[1] == c@[k + 1]);
        i -= 1;
    }
    proof {
        lemma_rfind_none(c@, seq![':', ':']);
    }
    None
}

/// The method half of a `classname::name` identity.
pub fn method_of(id: &str) -> (m: String)
    ensures
        m@ == method_of_spec(id@),
{
    let c = chars_of(id);
    match last_separator(&c) {
        Some(k) => {
            let mut out = String::new();
            let mut j: usize = k + 2;
            while j < c.len()
                invariant
                    k + 2 <= j <= c.len(),
                    out@ == c@.subrange(k + 2, j as int),
                decreases c.len() - j,
            {
                push_char(&mut out, c[j]);
                assert(out@ =~= c@.subrange(k + 2, j + 1));
                j += 1;
            }
            assert(c@.subrange(k + 2, j as int) =~= c@.skip(k + 2));
            out
        },
        None => string_of(c.as_slice()),
    }
}

/// The name before its `[parameters]` suffix.
pub open spec fn base_name_spec(name: Seq<char>) -> Seq<char> {
    match crate::history::find_from(name, seq!['['], 0) {
        Some(i) => name.take(i),
        None => name,
    }
}

/// The name without its `[parameters]` suffix (brackets break a `-k`
/// expression).
pub fn base_name(name: &str) -> (b: String)
    ensures
        b@ == base_name_spec(name@),
{
    let c = chars_of(name);
    let mut out = String::new();
    let mut i: usize = 0;
    while i < c.len()
        invariant
            i <= c.len(),
            c@ == name@,
            out@ == c@.take(i as int),
            crate::history::find_from(c@, seq!['['], 0) == crate::history::find_from(c@, seq!['['], i as int),
        decreases c.len() - i,
    {
        assert(c@.subrange(i as int, i + 1) =~= seq![c@[i as int]]);
        if c[i] == '[' {
            assert(c@.subrange(i as int, i + 1) =~= seq!['[']);
            return out;
        }
        assert(c@.subrange(i as int, i + 1)[0] != seq!['['][0]);
        push_char(&mut out, c[i]);
        assert(out@ =~= c@.take(i + 1));
        i += 1;
    }
    assert(c@.take(i as int) =~= c@);
    out
}

/// Whether a character has a meaning in a regular expression.
pub open spec fn is_meta(c: char) -> bool {
    "\\^$.|?*+()[]{}/"@.contains(c)
}

/// `value` with every regex metacharacter escaped.
pub open spec fn regex_escaped(s: Seq<char>) -> Seq<char>
    decreases s.len(),
{
    if s.len() == 0 {
        Seq::empty()
    } else {
        regex_escaped(s.drop_last()) + if is_meta(s.last()) {
            seq!['\\', s.last()]
        } else {
            seq![s.last()]
        }
    }
}

/// Escape regex metacharacters so an identity matches literally.
pub fn regex_escape(value: &str) -> (escaped: String)
    ensures
        escaped@ == regex_escaped(value@),
{
    let c = chars_of(value);
    let metas = chars_of("\\^$.|?*+()[]{}/");
    let mut out = String::new();
    let mut i: usize = 0;
    while i < c.len()
        invariant
            i <= c.len(),
            c@ == value@,
            metas@ == "\\^$.|?*+()[]{}/"@,
            out@ == regex_escaped(c@.take(i as int)),
        decreases c.len() - i,
    {
        assert(c@.take(i + 1).drop_last() =~= c@.take(i as int));
        let ghost before = out@;
        if crate::keyed::chars_contain(metas.as_slice(), c[i]) {
            push_char(&mut out, '\\');
        }
        push_char(&mut out, c[i]);
        assert(out@ =~= before + if is_meta(c@[i as int]) { seq!['\\', c@[i as int]] } else { seq![c@[i as int]] });
        i += 1;
    }
    assert(c@.take(i as int) =~= c@);
    out
}

/// `parts` joined with `sep`.
pub open spec fn join(parts: Seq<Seq<char>>, sep: Seq<char>) -> Seq<char>
    decreases parts.len(),
{
    if parts.len() == 0 {
        Seq::empty()
    } else if parts.len() == 1 {
        parts[0]
    } else {
        join(parts.drop_last(), sep) + sep + parts.last()
    }
}

/// Appends `parts` joined with `sep`.
pub fn push_joined(out: &mut String, parts: &Vec<String>, sep: &str)
    ensures
        final(out)@ == old(out)@ + join(strings(parts@), sep@),
{
    let ghost start = out@;
    let mut i: usize = 0;
    while i < parts.len()
        invariant
            i <= parts.len(),
            out@ == start + join(strings(parts@).take(i as int), sep@),
        decreases parts.len() - i,
    {
        let ghost pre = strings(parts@).take(i as int);
        let ghost post = strings(parts@).take(i + 1);
        assert(post.drop_last() =~= pre);
        if i > 0 {
            push_str(out, sep);
        } else {
            assert(pre.len() == 0);
        }
        push_str(out, parts[i].as_str());
        assert(out@ =~= start + join(post, sep@));
        i += 1;
    }
    assert(strings(parts@).take(i as int) =~= strings(parts@));
}

/// The selection arguments that restrict `preset` to `ids`, or `None` when
/// sooth cannot restrict it: PHPUnit filters on the escaped identities
/// (unanchored, so data-provider rows match too), pytest selects by the
/// deduplicated method names (a JUnit classname is not a node id), jest by
/// the escaped test names.
pub open spec fn selection_spec(preset: Preset, ids: Seq<Seq<char>>) -> Option<Seq<Seq<char>>> {
    match preset {
        Preset::Phpunit => Some(seq![
            "--filter"@,
            seq!['/'] + join(ids.map_values(|id: Seq<char>| regex_escaped(id)), seq!['|']) + seq!['/'],
        ]),
        Preset::Pytest => Some(seq![
            "-k"@,
            join(sorted_names(ids.map_values(|id: Seq<char>| base_name_spec(method_of_spec(id)))), " or "@),
        ]),
        Preset::Jest => Some(seq![
            "-t"@,
            seq!['('] + join(ids.map_values(|id: Seq<char>| regex_escaped(method_of_spec(id))), seq!['|']) + seq![')'],
        ]),
        Preset::Go => None,
    }
}

/// The distinct names of `names`, in increasing order.
pub open spec fn sorted_names(names: Seq<Seq<char>>) -> Seq<Seq<char>> {
    choose|s: Seq<Seq<char>>| strictly_sorted(s) && s.to_set() == names.to_set()
}

/// The selection flag(s) that restrict `preset` to `ids`.
pub fn selection_args(preset: Preset, ids: &Vec<String>) -> (r: Option<Vec<String>>)
    ensures
        match r {
            Some(v) => selection_spec(preset, strings(ids@)) == Some(strings(v@)),
            None => selection_spec(preset, strings(ids@)) is None,
        },
{
    match preset {
        Preset::Phpunit => {
            let mut escaped: Vec<String> = Vec::new();
            let mut i: usize = 0;
            while i < ids.len()
                invariant
                    i <= ids.len(),
                    strings(escaped@) == strings(ids@).take(i as int).map_values(|id: Seq<char>| regex_escaped(id)),
                decreases ids.len() - i,
            {
                let ghost before = strings(escaped@);
                let e = regex_escape(ids[i].as_str());
                escaped.push(e);
                assert(strings(escaped@) =~= before.push(regex_escaped(ids@[i as int]@)));
                assert(strings(ids@).take(i + 1) =~= strings(ids@).take(i as int).push(ids@[i as int]@));
                assert(strings(ids@).take(i + 1).map_values(|id: Seq<char>| regex_escaped(id)) =~= strings(ids@).take(
                    i as int,
                ).map_values(|id: Seq<char>| regex_escaped(id)).push(regex_escaped(ids@[i as int]@)));
                i += 1;
            }
            assert(strings(ids@).take(i as int) =~= strings(ids@));
            let mut pattern = "/".to_owned();
            push_joined(&mut pattern, &escaped, "|");
            push_str(&mut pattern, "/");
            proof {
                reveal_strlit("/");
                reveal_strlit("|");
                assert("/"@ =~= seq!['/']);
                assert("|"@ =~= seq!['|']);
            }
            let v = vec!["--filter".to_owned(), pattern];
            assert(strings(v@) =~= seq!["--filter"@, v@[1]@]);
            Some(v)
        },
        Preset::Pytest => {
            let mut names: Vec<Vec<char>> = Vec::new();
            let ghost all = strings(ids@).map_values(|id: Seq<char>| base_name_spec(method_of_spec(id)));
            let mut i: usize = 0;
            while i < ids.len()
                invariant
                    i <= ids.len(),
                    all == strings(ids@).map_values(|id: Seq<char>| base_name_spec(method_of_spec(id))),
                    strictly_sorted(keyseq(names@)),
                    keyseq(names@).to_set() == all.take(i as int).to_set(),
                decreases ids.len() - i,
            {
                let m = method_of(ids[i].as_str());
                let b = base_name(m.as_str());
                let key = chars_of(b.as_str());
                assert(key@ == all[i as int]);
                insert_key_sorted(&mut names, key);
                proof {
                    assert(all.take(i + 1) =~= all.take(i as int).push(all[i as int]));
                    all.take(i as int).lemma_push_to_set_commute(all[i as int]);
                }
                i += 1;
            }
            assert(all.take(i as int) =~= all);
            proof {
                crate::keyed::lemma_sorted_unique(keyseq(names@), sorted_names(all));
            }
            let mut joined: Vec<String> = Vec::new();
            let mut k: usize = 0;
            while k < names.len()
                invariant
                    k <= names.len(),
                    strings(joined@) == keyseq(names@).take(k as int),
                decreases names.len() - k,
            {
                let ghost before = strings(joined@);
                joined.push(string_of(names[k].as_slice()));
                assert(strings(joined@) =~= before.push(names@[k as int]@));
                assert(keyseq(names@).take(k + 1) =~= keyseq(names@).take(k as int).push(names@[k as int]@));
                k += 1;
            }
            assert(keyseq(names@).take(k as int) =~= keyseq(names@));
            let mut expr = String::new();
            push_joined(&mut expr, &joined, " or ");
            assert(expr@ =~= join(strings(joined@), " or "@));
            let v = vec!["-k".to_owned(), expr];
            assert(strings(v@) =~= seq!["-k"@, v@[1]@]);
            Some(v)
        },
        Preset::Jest => {
            let mut escaped: Vec<String> = Vec::new();
            let mut i: usize = 0;
            while i < ids.len()
                invariant
                    i <= ids.len(),
                    strings(escaped@) == strings(ids@).take(i as int).map_values(|id: Seq<char>| regex_escaped(method_of_spec(id))),
                decreases ids.len() - i,
            {
                let ghost before = strings(escaped@);
                let m = method_of(ids[i].as_str());
                let e = regex_escape(m.as_str());
                escaped.push(e);
                assert(strings(escaped@) =~= before.push(regex_escaped(method_of_spec(ids@[i as int]@))));
                assert(strings(ids@).take(i + 1) =~= strings(ids@).take(i as int).push(ids@[i as int]@));
                assert(strings(ids@).take(i + 1).map_values(|id: Seq<char>| regex_escaped(method_of_spec(id))) =~= strings(
                    ids@,
                ).take(i as int).map_values(|id: Seq<char>| regex_escaped(method_of_spec(id))).push(
                    regex_escaped(method_of_spec(ids@[i as int]@)),
                ));
                i += 1;
            }
            assert(strings(ids@).take(i as int) =~= strings(ids@));
            let mut pattern = "(".to_owned();
            push_joined(&mut pattern, &escaped, "|");
            push_str(&mut pattern, ")");
            proof {
                reveal_strlit("(");
                reveal_strlit(")");
                reveal_strlit("|");
                assert("("@ =~= seq!['(']);
                assert(")"@ =~= seq![')']);
                assert("|"@ =~= seq!['|']);
            }
            let v = vec!["-t".to_owned(), pattern];
            assert(strings(v@) =~= seq!["-t"@, v@[1]@]);
            Some(v)
        },
        Preset::Go => None,
    }
}

/// Whether `preset` can be restricted to a subset of tests.
pub fn supports_selection(preset: Preset) -> (r: bool)
    ensures
        r == (selection_spec(preset, Seq::empty()) is Some),
{
    !matches!(preset, Preset::Go)
}

/// The full command to re-run only `ids` under `preset`, writing to
/// `report`: the program, the reporter flags, the selection, then the
/// user's own arguments. `None` when sooth cannot restrict this preset.
pub fn inject_selected(command: &Vec<String>, preset: Preset, report: &str, ids: &Vec<String>) -> (r: Option<Spawn>)
    requires
        command@.len() >= 1,
    ensures
        match r {
            Some(spawn) => selection_spec(preset, strings(ids@)) matches Some(sel) && strings(spawn.0@) == seq![
                command@[0]@,
            ] + injection_spec(preset, report@).0 + sel + strings(command@).skip(1) && pairs(spawn.1@)
                == injection_spec(preset, report@).1,
            None => selection_spec(preset, strings(ids@)) is None,
        },
{
    let selection = match selection_args(preset, ids) {
        Some(s) => s,
        None => {
            return None;
        },
    };
    let Injection { args, envs } = injection(preset, report);
    let mut full: Vec<String> = Vec::new();
    full.push(copy_string(&command[0]));
    assert(strings(full@) =~= seq![command@[0]@]);
    extend_strings(&mut full, &args, 0);
    assert(strings(args@).skip(0) =~= strings(args@));
    extend_strings(&mut full, &selection, 0);
    assert(strings(selection@).skip(0) =~= strings(selection@));
    extend_strings(&mut full, command, 1);
    Some((full, envs))
}

} // verus!
