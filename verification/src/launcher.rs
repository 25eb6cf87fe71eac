use vstd::prelude::*;
use vstd::string::StringExecFns;
use vstd::string::StrSliceExecFns;

verus! {

/// `c` without one final carriage return.
pub open spec fn strip_cr(c: Seq<char>) -> Seq<char> {
    if c.len() > 0 && c.last() == '\r' { c.drop_last() } else { c }
}

/// The finished lines of `s` and the text after its last newline.
pub open spec fn scan_lines(s: Seq<char>) -> (Seq<Seq<char>>, Seq<char>)
    decreases s.len(),
{
    if s.len() == 0 {
        (seq![], seq![])
    } else {
        let (done, cur) = scan_lines(s.drop_last());
        if s.last() == '\n' {
            (done.push(strip_cr(cur)), seq![])
        } else {
            (done, cur.push(s.last()))
        }
    }
}

/// The lines of `s`: split after each newline, without the newline nor a carriage
/// return before it; a final newline starts no empty line.
pub open spec fn lines_of(s: Seq<char>) -> Seq<Seq<char>> {
    let (done, cur) = scan_lines(s);
    if cur.len() == 0 { done } else { done.push(cur) }
}

pub open spec fn texts(v: Seq<String>) -> Seq<Seq<char>> {
    Seq::new(v.len(), |i: int| v[i]@)
}

/// Whether `s` begins with `p`.
pub open spec fn has_prefix(s: Seq<char>, p: Seq<char>) -> bool {
    p.len() <= s.len() && s.take(p.len() as int) == p
}

/// Whether `s` begins with `p`.
pub fn starts_with(s: &str, p: &str) -> (r: bool)
    ensures
        r == has_prefix(s@, p@),
{
    let n = p.unicode_len();
    let m = s.unicode_len();
    if n > m {
        return false;
    }
    let mut i: usize = 0;
    while i < n
        invariant
            n == p@.len(),
            m == s@.len(),
            n <= m,
            i <= n,
            s@.take(i as int) == p@.take(i as int),
        decreases n - i,
    {
        if s.get_char(i) != p.get_char(i) {
            assert(s@.take(n as int)[i as int] != p@[i as int]);
            return false;
        }
        i = i + 1;
        assert(s@.take(i as int) =~= p@.take(i as int));
    }
    assert(p@.take(n as int) =~= p@);
    true
}

/// Whether `a` and `b` hold the same text.
pub fn str_eq(a: &str, b: &str) -> (r: bool)
    ensures
        r == (a@ == b@),
{
    let r = a.unicode_len() == b.unicode_len() && starts_with(a, b);
    proof {
        if a@.len() == b@.len() && has_prefix(a@, b@) {
            assert(a@.take(b@.len() as int) =~= a@);
        }
        if a@ == b@ {
            assert(a@.take(b@.len() as int) =~= b@);
        }
    }
    r
}

/// The lines of `s`, as `str::lines` gives them.
pub fn lines(s: &str) -> (r: Vec<String>)
    ensures
        texts(r@) == lines_of(s@),
{
    let n = s.unicode_len();
    let mut done: Vec<String> = Vec::new();
    let mut start: usize = 0;
    let mut i: usize = 0;
    assert(s@.take(0) =~= Seq::<char>::empty());
    while i < n
        invariant
            n == s@.len(),
            start <= i <= n,
            scan_lines(s@.take(i as int)) == (texts(done@), s@.subrange(start as int, i as int)),
        decreases n - i,
    {
        let c = s.get_char(i);
        let ghost prev = s@.take(i as int);
        assert(s@.take(i + 1).drop_last() =~= prev);
        assert(s@.take(i + 1).last() == c);
        if c == '\n' {
            let ghost cur = s@.subrange(start as int, i as int);
            let line = if i > start && s.get_char(i - 1) == '\r' {
                assert(cur.last() == '\r');
                assert(s@.subrange(start as int, i - 1) =~= cur.drop_last());
                s.substring_char(start, i - 1)
            } else {
                s.substring_char(start, i)
            };
            done.push(String::from_str(line));
            start = i + 1;
            assert(texts(done@) =~= scan_lines(s@.take(i + 1)).0);
        } else {
            assert(s@.subrange(start as int, i + 1) =~= s@.subrange(start as int, i as int).push(c));
        }
        i = i + 1;
        assert(s@.subrange(start as int, i as int) == scan_lines(s@.take(i as int)).1);
    }
    assert(s@.take(n as int) =~= s@);
    if start < n {
        done.push(String::from_str(s.substring_char(start, n)));
        assert(texts(done@) =~= lines_of(s@));
    } else {
        assert(texts(done@) =~= lines_of(s@));
    }
    done
}

/// What follows `host: ` on the first of `ls` that begins with it.
pub open spec fn host_of_lines(ls: Seq<Seq<char>>) -> Option<Seq<char>>
    decreases ls.len(),
{
    if ls.len() == 0 {
        None
    } else if has_prefix(ls[0], "host: "@) {
        Some(ls[0].skip("host: "@.len() as int))
    } else {
        host_of_lines(ls.drop_first())
    }
}

/// The host target triple named in the output of `rustc -vV`: what follows `host: ` on
/// the first line that begins with it.
pub fn host_target_of(version_output: &str) -> (r: Option<String>)
    ensures
        match r {
            Some(t) => host_of_lines(lines_of(version_output@)) == Some(t@),
            None => host_of_lines(lines_of(version_output@)) is None,
        },
{
    let ls = lines(version_output);
    let prefix = "host: ";
    let mut i: usize = 0;
    assert(texts(ls@).skip(0) =~= texts(ls@));
    while i < ls.len()
        invariant
            i <= ls@.len(),
            prefix@ == "host: "@,
            host_of_lines(texts(ls@).skip(i as int)) == host_of_lines(lines_of(version_output@)),
        decreases ls@.len() - i,
    {
        let line = ls[i].as_str();
        assert(texts(ls@).skip(i as int)[0] == line@);
        assert(texts(ls@).skip(i as int).drop_first() =~= texts(ls@).skip(i + 1));
        if starts_with(line, prefix) {
            let n = prefix.unicode_len();
            let m = line.unicode_len();
            let rest = line.substring_char(n, m);
            assert(rest@ =~= line@.skip(n as int));
            return Some(String::from_str(rest));
        }
        i = i + 1;
    }
    None
}

/// The first line of `s`, if it has one.
pub fn first_line(s: &str) -> (r: Option<String>)
    ensures
        match r {
            Some(l) => lines_of(s@).len() > 0 && l@ == lines_of(s@)[0],
            None => lines_of(s@).len() == 0,
        },
{
    let ls = lines(s);
    if ls.len() == 0 {
        None
    } else {
        assert(texts(ls@)[0] == ls@[0]@);
        Some(String::from_str(ls[0].as_str()))
    }
}

/// Whether the rustc shipped with the calling cargo, which reports
/// `cargo_rustc_version`, is the one the wrapper was built for: the first lines of the
/// two version reports agree.
pub fn toolchain_matches(cargo_rustc_version: &str, expected_version: &str) -> (r: bool)
    requires
        lines_of(expected_version@).len() > 0,
    ensures
        r == (lines_of(cargo_rustc_version@).len() > 0
            && lines_of(cargo_rustc_version@)[0] == lines_of(expected_version@)[0]),
{
    let expected = first_line(expected_version);
    match first_line(cargo_rustc_version) {
        Some(found) => match expected {
            Some(want) => str_eq(found.as_str(), want.as_str()),
            None => false,
        },
        None => false,
    }
}

/// The arguments meant for the command-line parser: the program name dropped, then
/// `autoken` when cargo passed it on as the subcommand's name.
pub open spec fn tool_args(args: Seq<Seq<char>>) -> Seq<Seq<char>> {
    let rest = if args.len() > 0 { args.skip(1) } else { args };
    if rest.len() > 0 && rest[0] == "autoken"@ { rest.skip(1) } else { rest }
}

/// The arguments meant for the command-line parser.
pub fn cli_args(args: &Vec<String>) -> (r: Vec<String>)
    ensures
        texts(r@) == tool_args(texts(args@)),
{
    let mut start: usize = if args.len() > 0 { 1 } else { 0 };
    if start < args.len() && str_eq(args[start].as_str(), "autoken") {
        start = start + 1;
    }
    let mut r: Vec<String> = Vec::new();
    let mut i: usize = start;
    while i < args.len()
        invariant
            start <= i <= args@.len(),
            texts(r@) == texts(args@).subrange(start as int, i as int),
        decreases args@.len() - i,
    {
        let ghost prev = texts(r@);
        let copy = String::from_str(args[i].as_str());
        assert(copy@ == texts(args@)[i as int]);
        r.push(copy);
        assert(texts(r@) =~= prev.push(copy@));
        i = i + 1;
        assert(texts(r@) =~= texts(args@).subrange(start as int, i as int));
    }
    assert(texts(r@) =~= tool_args(texts(args@)));
    r
}

/// How the target directories that other versions of the tool left behind are handled.
#[derive(Debug, Clone, Copy, PartialEq, Eq)]
pub enum OldArtifactMode {
    Warn,
    Delete,
    Ignore,
}

/// What is done with one entry of the tool's target directory.
#[derive(Debug, Clone, Copy, PartialEq, Eq)]
pub enum ArtifactAction {
    Keep,
    Warn,
    Delete,
}

/// What is done with the entry `entry` of the tool's target directory, when the
/// running wrapper's directory is named `hash`: its own directory is kept; another is
/// warned about or deleted as `mode` says, or left alone when `mode` ignores them.
pub fn old_artifact_action(mode: OldArtifactMode, entry: &str, hash: &str) -> (r: ArtifactAction)
    ensures
        r == if mode == OldArtifactMode::Ignore || entry@ == hash@ {
            ArtifactAction::Keep
        } else if mode == OldArtifactMode::Warn {
            ArtifactAction::Warn
        } else {
            ArtifactAction::Delete
        },
{
    match mode {
        OldArtifactMode::Ignore => ArtifactAction::Keep,
        _ => {
            if str_eq(entry, hash) {
                ArtifactAction::Keep
            } else {
                match mode {
                    OldArtifactMode::Warn => ArtifactAction::Warn,
                    _ => ArtifactAction::Delete,
                }
            }
        },
    }
}

/// The file name of the extracted rustc wrapper with content hash `hash`.
pub fn wrapper_file_name(hash: &str, windows: bool) -> (r: String)
    ensures
        r@ == "autoken_rustc_wrapper_"@ + hash@ + if windows { ".exe"@ } else { Seq::<char>::empty() },
{
    let mut name = String::from_str("autoken_rustc_wrapper_");
    name.append(hash);
    if windows {
        name.append(".exe");
    } else {
        assert(name@ =~= name@ + Seq::<char>::empty());
    }
    name
}

/// The arguments of the cargo invocation that checks a crate for `target_triple` into
/// `target_dir`, with the manifest path when one was given.
pub fn check_command_args(target_triple: &str, target_dir: &str, manifest_path: Option<&str>) -> (r: Vec<String>)
    ensures
        texts(r@) == seq!["check"@, "--target"@, target_triple@, "--target-dir"@, target_dir@] + match manifest_path {
            Some(p) => seq!["--path"@, p@],
            None => Seq::<Seq<char>>::empty(),
        },
{
    let mut r: Vec<String> = Vec::new();
    r.push(String::from_str("check"));
    r.push(String::from_str("--target"));
    r.push(String::from_str(target_triple));
    r.push(String::from_str("--target-dir"));
    r.push(String::from_str(target_dir));
    match manifest_path {
        Some(p) => {
            r.push(String::from_str("--path"));
            r.push(String::from_str(p));
        },
        None => {},
    }
    assert(texts(r@) =~= seq!["check"@, "--target"@, target_triple@, "--target-dir"@, target_dir@] + match manifest_path {
        Some(p) => seq!["--path"@, p@],
        None => Seq::<Seq<char>>::empty(),
    });
    r
}

/// The environment the rustc wrapper is run with: each variable with the value it is
/// set to, or `None` where it is removed.
pub open spec fn wrapper_env_spec(skip_analysis: bool, sysroot: Option<Seq<char>>) -> Seq<(Seq<char>, Option<Seq<char>>)> {
    seq![
        ("AUTOKEN_SKIP_ANALYSIS"@, if skip_analysis { Some("yes"@) } else { None }),
        ("AUTOKEN_OVERRIDE_SYSROOT"@, sysroot),
    ]
}

pub open spec fn env_view(v: Seq<(String, Option<String>)>) -> Seq<(Seq<char>, Option<Seq<char>>)> {
    Seq::new(v.len(), |i: int| (v[i].0@, match v[i].1 { Some(x) => Some(x@), None => None }))
}

/// The environment of the rustc wrapper: whether it skips the analysis and which
/// sysroot it uses.
pub fn rustc_wrapper_env(skip_analysis: bool, sysroot: Option<&str>) -> (r: Vec<(String, Option<String>)>)
    ensures
        env_view(r@) == wrapper_env_spec(skip_analysis, match sysroot { Some(p) => Some(p@), None => None }),
{
    let mut r: Vec<(String, Option<String>)> = Vec::new();
    let skip = if skip_analysis { Some(String::from_str("yes")) } else { None };
    r.push((String::from_str("AUTOKEN_SKIP_ANALYSIS"), skip));
    let root = match sysroot {
        Some(p) => Some(String::from_str(p)),
        None => None,
    };
    r.push((String::from_str("AUTOKEN_OVERRIDE_SYSROOT"), root));
    assert(env_view(r@) =~= wrapper_env_spec(skip_analysis, match sysroot { Some(p) => Some(p@), None => None }));
    r
}

} // verus!
