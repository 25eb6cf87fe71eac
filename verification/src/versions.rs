use vstd::prelude::*;
use vstd::string::StringExecFns;

verus! {

/// The major version of the format shared by the userland crate and the analyzer.
pub const CURRENT_FORMAT_MAJOR: u32 = 0;

/// The minor version of that format.
pub const CURRENT_FORMAT_MINOR: u32 = 1;

/// The newest minor version that is deprecated.
pub const DEPRECATED_FORMAT_MINOR: u32 = 0;

pub open spec fn digit_char(d: nat) -> char {
    if d == 0 { '0' }
    else if d == 1 { '1' }
    else if d == 2 { '2' }
    else if d == 3 { '3' }
    else if d == 4 { '4' }
    else if d == 5 { '5' }
    else if d == 6 { '6' }
    else if d == 7 { '7' }
    else if d == 8 { '8' }
    else { '9' }
}

/// The decimal digits of `n`, most significant first.
pub open spec fn decimal(n: nat) -> Seq<char>
    decreases n,
{
    if n < 10 {
        seq![digit_char(n)]
    } else {
        decimal(n / 10).push(digit_char(n % 10))
    }
}

fn digit_str(d: u32) -> (r: &'static str)
    requires
        d < 10,
    ensures
        r@ == seq![digit_char(d as nat)],
{
    proof {
        reveal_strlit("0");
        reveal_strlit("1");
        reveal_strlit("2");
        reveal_strlit("3");
        reveal_strlit("4");
        reveal_strlit("5");
        reveal_strlit("6");
        reveal_strlit("7");
        reveal_strlit("8");
        reveal_strlit("9");
    }
    if d == 0 { "0" }
    else if d == 1 { "1" }
    else if d == 2 { "2" }
    else if d == 3 { "3" }
    else if d == 4 { "4" }
    else if d == 5 { "5" }
    else if d == 6 { "6" }
    else if d == 7 { "7" }
    else if d == 8 { "8" }
    else { "9" }
}

/// Appends the decimal digits of `n`.
pub fn append_decimal(s: &mut String, n: u32)
    ensures
        final(s)@ == old(s)@ + decimal(n as nat),
    decreases n,
{
    if n >= 10 {
        append_decimal(s, n / 10);
    }
    s.append(digit_str(n % 10));
    proof {
        if n >= 10 {
            assert(decimal(n as nat) == decimal((n / 10) as nat).push(digit_char((n % 10) as nat)));
        }
    }
}

/// `prefix` followed by the decimal digits of `n`.
pub fn with_decimal(prefix: &str, n: u32) -> (r: String)
    ensures
        r@ == prefix@ + decimal(n as nat),
{
    let mut s = String::from_str(prefix);
    append_decimal(&mut s, n);
    s
}

/// The note common to the version diagnostics of the userland crate.
pub open spec fn mismatch_suffix(version: Seq<char>) -> Seq<char> {
    "Userland crate *internal format* version is "@ + decimal(CURRENT_FORMAT_MAJOR as nat) + "."@
        + decimal(CURRENT_FORMAT_MINOR as nat) + ". The userland crate at fault is running AuToken version "@
        + version + ". Run `cargo autoken --version` to see the version of your currently installed static analysis tool."@
}

/// The cfg name that says the analyzer checks versions at all.
pub open spec fn checking_cfg() -> Seq<char> {
    "__autoken_checking_versions"@
}

/// The cfg name that says the analyzer's major format version is the current one.
pub open spec fn major_cfg() -> Seq<char> {
    "__autoken_major_is_"@ + decimal(CURRENT_FORMAT_MAJOR as nat)
}

/// The guards of the userland crate's version checks, in the order they appear: each
/// requires the checking cfg, then the major cfg where the flag says so, and the
/// absence of the named cfg.
pub open spec fn userland_guards() -> Seq<(bool, Seq<char>)> {
    seq![
        (false, major_cfg()),
        (true, "__autoken_supported_minor_or_less_is_"@ + decimal(CURRENT_FORMAT_MINOR as nat)),
        (true, "__autoken_deprecated_minor_or_less_is_"@ + decimal(DEPRECATED_FORMAT_MINOR as nat)),
    ]
}

/// The `#[cfg(..)]` line of a guard.
pub open spec fn guard_line(g: (bool, Seq<char>)) -> Seq<char> {
    "#[cfg(all("@ + checking_cfg() + ", "@ + (if g.0 { major_cfg() + ", "@ } else { Seq::empty() })
        + "not("@ + g.1 + ")))]\n"@
}

/// Whether a guard holds when exactly the cfg names in `set` are set.
pub open spec fn guard_holds(g: (bool, Seq<char>), set: Set<Seq<char>>) -> bool {
    &&& set.contains(checking_cfg())
    &&& g.0 ==> set.contains(major_cfg())
    &&& !set.contains(g.1)
}

/// The Rust source the userland crate includes to check that the analyzer it is
/// built with understands its format: a build error on a major mismatch, a
/// deprecation warning when the analyzer is older than the format, and one when the
/// format itself is deprecated.
pub open spec fn userland_cfg_text(version: Seq<char>) -> Seq<char> {
    let suffix = mismatch_suffix(version);
    guard_line(userland_guards()[0])
        + "compile_error!(\"Major version mismatch in AuToken format: this version of the AuToken userland crate is entirely incompatible with the version of the analyzer. "@
        + suffix + "\");\n\n"@
        + guard_line(userland_guards()[1])
        + "const _: () = autoken_minor_version_mismatch();\n\n"@
        + "#[allow(dead_code)]\n"@
        + "#[deprecated(note = \"Minor version mismatch in AuToken format: this version of the AuToken userland crate is using features only available in a later version of the analyzer. "@
        + suffix + "\")]\n"@
        + "const fn autoken_minor_version_mismatch() {}\n\n"@
        + guard_line(userland_guards()[2])
        + "const _: () = autoken_minor_version_deprecated();\n\n"@
        + "#[allow(dead_code)]\n"@
        + "#[deprecated(note = \"This minor version of the AuToken format has been deprecated: this version of the AuToken userland crate is severely outdated and will likely soon become incompatible with a future version of the analyzer. You are strongly encouraged to upgrade your userland crate! "@
        + suffix + "\")]\n"@
        + "const fn autoken_minor_version_deprecated() {}\n\n"@
}

fn append_suffix(s: &mut String, version: &str)
    ensures
        final(s)@ == old(s)@ + mismatch_suffix(version@),
{
    s.append("Userland crate *internal format* version is ");
    append_decimal(s, CURRENT_FORMAT_MAJOR);
    s.append(".");
    append_decimal(s, CURRENT_FORMAT_MINOR);
    s.append(". The userland crate at fault is running AuToken version ");
    s.append(version);
    s.append(". Run `cargo autoken --version` to see the version of your currently installed static analysis tool.");
    assert(s@ =~= old(s)@ + mismatch_suffix(version@));
}

/// The version-check source for the userland crate of AuToken version `global_version`.
pub fn emit_userland_cfg_file(global_version: &str) -> (r: String)
    ensures
        r@ == userland_cfg_text(global_version@),
{
    let mut b = String::new();
    b.append("#[cfg(all(__autoken_checking_versions, not(__autoken_major_is_");
    append_decimal(&mut b, CURRENT_FORMAT_MAJOR);
    b.append(")))]\n");
    b.append("compile_error!(\"Major version mismatch in AuToken format: this version of the AuToken userland crate is entirely incompatible with the version of the analyzer. ");
    append_suffix(&mut b, global_version);
    b.append("\");\n\n");
    b.append("#[cfg(all(__autoken_checking_versions, __autoken_major_is_");
    append_decimal(&mut b, CURRENT_FORMAT_MAJOR);
    b.append(", not(__autoken_supported_minor_or_less_is_");
    append_decimal(&mut b, CURRENT_FORMAT_MINOR);
    b.append(")))]\n");
    b.append("const _: () = autoken_minor_version_mismatch();\n\n");
    b.append("#[allow(dead_code)]\n");
    b.append("#[deprecated(note = \"Minor version mismatch in AuToken format: this version of the AuToken userland crate is using features only available in a later version of the analyzer. ");
    append_suffix(&mut b, global_version);
    b.append("\")]\n");
    b.append("const fn autoken_minor_version_mismatch() {}\n\n");
    b.append("#[cfg(all(__autoken_checking_versions, __autoken_major_is_");
    append_decimal(&mut b, CURRENT_FORMAT_MAJOR);
    b.append(", not(__autoken_deprecated_minor_or_less_is_");
    append_decimal(&mut b, DEPRECATED_FORMAT_MINOR);
    b.append(")))]\n");
    b.append("const _: () = autoken_minor_version_deprecated();\n\n");
    b.append("#[allow(dead_code)]\n");
    b.append("#[deprecated(note = \"This minor version of the AuToken format has been deprecated: this version of the AuToken userland crate is severely outdated and will likely soon become incompatible with a future version of the analyzer. You are strongly encouraged to upgrade your userland crate! ");
    append_suffix(&mut b, global_version);
    b.append("\")]\n");
    b.append("const fn autoken_minor_version_deprecated() {}\n\n");
    proof {
        reveal_strlit("#[cfg(all(");
        reveal_strlit("__autoken_checking_versions");
        reveal_strlit(", ");
        reveal_strlit("not(");
        reveal_strlit("__autoken_major_is_");
        reveal_strlit(")))]\n");
        reveal_strlit("#[cfg(all(__autoken_checking_versions, not(__autoken_major_is_");
        reveal_strlit("#[cfg(all(__autoken_checking_versions, __autoken_major_is_");
        reveal_strlit(", not(__autoken_supported_minor_or_less_is_");
        reveal_strlit(", not(__autoken_deprecated_minor_or_less_is_");
        reveal_strlit("__autoken_supported_minor_or_less_is_");
        reveal_strlit("__autoken_deprecated_minor_or_less_is_");
        assert(guard_line(userland_guards()[0]) =~= "#[cfg(all(__autoken_checking_versions, not(__autoken_major_is_"@
            + decimal(CURRENT_FORMAT_MAJOR as nat) + ")))]\n"@);
        assert(guard_line(userland_guards()[1]) =~= "#[cfg(all(__autoken_checking_versions, __autoken_major_is_"@
            + decimal(CURRENT_FORMAT_MAJOR as nat) + ", not(__autoken_supported_minor_or_less_is_"@
            + decimal(CURRENT_FORMAT_MINOR as nat) + ")))]\n"@);
        assert(guard_line(userland_guards()[2]) =~= "#[cfg(all(__autoken_checking_versions, __autoken_major_is_"@
            + decimal(CURRENT_FORMAT_MAJOR as nat) + ", not(__autoken_deprecated_minor_or_less_is_"@
            + decimal(DEPRECATED_FORMAT_MINOR as nat) + ")))]\n"@);
    }
    assert(b@ =~= userland_cfg_text(global_version@));
    b
}

/// A userland crate and an analyzer of the same format trigger none of the version
/// checks: no guard holds under the cfg names the analyzer sets, nor under any set of
/// names that lacks the checking cfg (as when the crate is built by plain rustc).
pub proof fn lemma_same_version_checks_pass()
    ensures
        forall|k: int| 0 <= k < userland_guards().len() ==>
            !guard_holds(#[trigger] userland_guards()[k], analyzer_cfgs().to_set()),
        forall|k: int, set: Set<Seq<char>>| 0 <= k < userland_guards().len() && !set.contains(checking_cfg()) ==>
            !#[trigger] guard_holds(userland_guards()[k], set),
{
    let a = analyzer_cfgs();
    assert(a[1] == major_cfg());
    assert(a[2] == userland_guards()[1].1);
    assert(a[3] == userland_guards()[2].1);
    assert(a.to_set().contains(a[1]));
    assert(a.to_set().contains(a[2]));
    assert(a.to_set().contains(a[3]));
    assert(a.to_set().contains(a[0]));
}

/// The cfg names the analyzer sets: version checking is on, the major version, every
/// minor version above the deprecated ones up to the current one, and every deprecated
/// minor version.
pub open spec fn analyzer_cfgs() -> Seq<Seq<char>> {
    seq!["__autoken_checking_versions"@, "__autoken_major_is_"@ + decimal(CURRENT_FORMAT_MAJOR as nat)]
        + Seq::new(
            (CURRENT_FORMAT_MINOR - DEPRECATED_FORMAT_MINOR) as nat,
            |i: int| "__autoken_supported_minor_or_less_is_"@ + decimal((DEPRECATED_FORMAT_MINOR + 1 + i) as nat),
        )
        + Seq::new(
            (DEPRECATED_FORMAT_MINOR + 1) as nat,
            |i: int| "__autoken_deprecated_minor_or_less_is_"@ + decimal(i as nat),
        )
}

pub open spec fn strings_view(v: Seq<String>) -> Seq<Seq<char>> {
    Seq::new(v.len(), |i: int| v[i]@)
}

/// The cfg names the analyzer sets, in the order it sets them.
pub fn set_analyzer_cfgs() -> (r: Vec<String>)
    ensures
        strings_view(r@) == analyzer_cfgs(),
{
    let mut r: Vec<String> = Vec::new();
    r.push(String::from_str("__autoken_checking_versions"));
    r.push(with_decimal("__autoken_major_is_", CURRENT_FORMAT_MAJOR));
    let ghost base = strings_view(r@);
    let mut v: u32 = DEPRECATED_FORMAT_MINOR + 1;
    while v <= CURRENT_FORMAT_MINOR
        invariant
            DEPRECATED_FORMAT_MINOR + 1 <= v <= CURRENT_FORMAT_MINOR + 1,
            strings_view(r@) == base + Seq::new(
                (v - DEPRECATED_FORMAT_MINOR - 1) as nat,
                |i: int| "__autoken_supported_minor_or_less_is_"@ + decimal((DEPRECATED_FORMAT_MINOR + 1 + i) as nat),
            ),
        decreases CURRENT_FORMAT_MINOR + 1 - v,
    {
        r.push(with_decimal("__autoken_supported_minor_or_less_is_", v));
        v = v + 1;
        assert(strings_view(r@) =~= base + Seq::new(
            (v - DEPRECATED_FORMAT_MINOR - 1) as nat,
            |i: int| "__autoken_supported_minor_or_less_is_"@ + decimal((DEPRECATED_FORMAT_MINOR + 1 + i) as nat),
        ));
    }
    let ghost mid = strings_view(r@);
    let mut w: u32 = 0;
    while w <= DEPRECATED_FORMAT_MINOR
        invariant
            w <= DEPRECATED_FORMAT_MINOR + 1,
            strings_view(r@) == mid + Seq::new(
                w as nat,
                |i: int| "__autoken_deprecated_minor_or_less_is_"@ + decimal(i as nat),
            ),
        decreases DEPRECATED_FORMAT_MINOR + 1 - w,
    {
        r.push(with_decimal("__autoken_deprecated_minor_or_less_is_", w));
        w = w + 1;
        assert(strings_view(r@) =~= mid + Seq::new(
            w as nat,
            |i: int| "__autoken_deprecated_minor_or_less_is_"@ + decimal(i as nat),
        ));
    }
    assert(strings_view(r@) =~= analyzer_cfgs());
    r
}

} // verus!
