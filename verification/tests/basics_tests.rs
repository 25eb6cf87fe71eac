use autoken::launcher::{
    check_command_args, cli_args, first_line, host_target_of, lines, old_artifact_action, rustc_wrapper_env,
    starts_with, str_eq, toolchain_matches, wrapper_file_name, ArtifactAction, OldArtifactMode,
};
use autoken::mutability::Mutability;
use autoken::tokens::{instantiate_set, absorb_set, Borrows, Diff, DowngradeRef, Mut, Ref, TokenSet, BorrowMap};
use autoken::obj::{DynObj, Obj, ObjStore};
use autoken::util::{ConstSafeBuildHasherDefault, CxScope, LazilyComputed, MyOnceLock, Pool, PoolElem};
use autoken::vec_map::{FunctionMap, VecMap};
use autoken::versions::{
    emit_userland_cfg_file, set_analyzer_cfgs, with_decimal, CURRENT_FORMAT_MAJOR, CURRENT_FORMAT_MINOR,
    DEPRECATED_FORMAT_MINOR,
};

fn strings(v: &[&str]) -> Vec<String> {
    v.iter().map(|s| s.to_string()).collect()
}

// === Mutability === //

#[test]
fn mutability_upgrade_takes_the_maximum() {
    let mut m = Mutability::Not;
    m.upgrade(Mutability::Not);
    assert_eq!(m, Mutability::Not);
    m.upgrade(Mutability::Mut);
    assert_eq!(m, Mutability::Mut);
    m.upgrade(Mutability::Not);
    assert_eq!(m, Mutability::Mut);
}

#[test]
fn mutability_compatibility() {
    assert!(Mutability::Not.is_compatible_with(Mutability::Not));
    assert!(!Mutability::Not.is_compatible_with(Mutability::Mut));
    assert!(!Mutability::Mut.is_compatible_with(Mutability::Not));
    assert!(!Mutability::Mut.is_compatible_with(Mutability::Mut));
    assert!(Mutability::Mut.is_mut());
    assert!(Mutability::Not.is_not());
}

// === VecMap and FunctionMap === //

#[test]
fn vec_map_insert_get_remove() {
    let mut m: VecMap<u32> = VecMap::new();
    assert!(m.is_empty());
    m.insert(7, 70);
    m.insert(3, 30);
    m.insert(7, 71);
    assert_eq!(m.len(), 2);
    assert_eq!(m.get(7), Some(71));
    assert_eq!(m.get(3), Some(30));
    assert_eq!(m.get(9), None);
    assert_eq!(m.find(3), Some(1));
    m.remove(7);
    assert_eq!(m.get(7), None);
    assert!(m.contains(3));
    assert_eq!(m.len(), 1);
    let c = m.copy();
    assert_eq!(c.get(3), Some(30));
}

#[test]
fn function_map_detects_conflicting_values() {
    let mut f = FunctionMap::new();
    assert!(!f.insert(1, 10));
    assert!(!f.insert(1, 10));
    assert!(f.insert(1, 11));
    // Once invalid, a key stays invalid.
    assert!(f.insert(1, 10));
    assert!(!f.insert(2, 5));
    f.invalidate(2);
    assert_eq!(f.map.get(2), Some(None));
    assert_eq!(f.map.get(1), Some(None));
}

// === Token sets === //

fn mk_ref(t: u64) -> TokenSet {
    TokenSet::Ref(Ref { token: t })
}

fn mk_mut(t: u64) -> TokenSet {
    TokenSet::Mut(Mut { token: t })
}

#[test]
fn union_keeps_the_larger_mutability() {
    let set = TokenSet::Union(Box::new(mk_ref(1)), Box::new(TokenSet::Union(Box::new(mk_mut(1)), Box::new(mk_ref(2)))));
    let m = instantiate_set(&set);
    assert_eq!(m.len(), 2);
    assert_eq!(m.get(1), Some((Mutability::Mut, None)));
    assert_eq!(m.get(2), Some((Mutability::Not, None)));
}

#[test]
fn diff_removes_mutable_and_downgrades_shared() {
    let set = TokenSet::Diff(Diff {
        base: Box::new(TokenSet::Union(Box::new(mk_mut(1)), Box::new(mk_mut(2)))),
        removed: Box::new(TokenSet::Union(Box::new(mk_mut(1)), Box::new(mk_ref(2)))),
    });
    let m = instantiate_set(&set);
    assert_eq!(m.len(), 1);
    assert_eq!(m.get(1), None);
    assert_eq!(m.get(2), Some((Mutability::Not, None)));
}

#[test]
fn downgrade_makes_everything_shared() {
    let set = TokenSet::DowngradeRef(DowngradeRef {
        set: Box::new(TokenSet::Union(Box::new(mk_mut(4)), Box::new(mk_ref(5)))),
    });
    let m = instantiate_set(&set);
    assert_eq!(m.get(4), Some((Mutability::Not, None)));
    assert_eq!(m.get(5), Some((Mutability::Not, None)));
    assert!(instantiate_set(&TokenSet::Empty).is_empty());
}

#[test]
fn borrows_acquire_and_absorb() {
    let b = Borrows { set: TokenSet::Union(Box::new(mk_mut(3)), Box::new(mk_ref(6))) };
    let r = b.acquire_ref();
    assert_eq!(r.get(3), Some((Mutability::Not, None)));
    assert_eq!(r.get(6), Some((Mutability::Not, None)));
    let m = b.acquire_mut();
    assert_eq!(m.get(3), Some((Mutability::Mut, None)));

    let mut held: BorrowMap = VecMap::new();
    held.insert(3, (Mutability::Mut, None));
    held.insert(4, (Mutability::Not, None));
    held.insert(6, (Mutability::Mut, None));
    b.absorb(&mut held);
    // A token absorbed mutably is gone; one absorbed shared goes only when it was only
    // borrowed shared.
    assert_eq!(held.get(3), None);
    assert_eq!(held.get(4), Some((Mutability::Not, None)));
    assert_eq!(held.get(6), Some((Mutability::Mut, None)));

    let mut held2: BorrowMap = VecMap::new();
    held2.insert(3, (Mutability::Mut, None));
    held2.insert(6, (Mutability::Not, None));
    b.absorb_ref(&mut held2);
    assert_eq!(held2.get(3), Some((Mutability::Mut, None)));
    assert_eq!(held2.get(6), None);
}

#[test]
fn absorbing_twice_is_absorbing_once() {
    let mut set: BorrowMap = VecMap::new();
    set.insert(1, (Mutability::Not, None));
    let mut held: BorrowMap = VecMap::new();
    held.insert(1, (Mutability::Not, None));
    held.insert(2, (Mutability::Mut, None));
    absorb_set(&mut held, &set);
    let once = held.copy();
    absorb_set(&mut held, &set);
    assert_eq!(held.entries, once.entries);
    assert_eq!(held.get(2), Some((Mutability::Mut, None)));
}

// === Utilities === //

#[test]
fn once_lock_is_set_then_read() {
    let mut l: MyOnceLock<u32> = MyOnceLock::new();
    l.init(5);
    assert_eq!(l.get(), 5);
    assert_eq!(l.get(), 5);
}

#[derive(Default, Debug, PartialEq)]
struct Counter {
    n: u32,
}

impl PoolElem for Counter {
    fn cleared(&self) -> Self {
        Counter { n: 0 }
    }

    fn reset(&mut self) {
        self.n = 0;
    }
}

#[test]
fn pool_hands_back_released_values_cleared() {
    let mut pool: Pool<Counter> = Pool::new();
    let mut g = pool.grab();
    assert_eq!(g.value, Counter { n: 0 });
    g.value.n = 9;
    pool.release(g);
    let g2 = pool.grab();
    assert_eq!(g2.value, Counter { n: 0 });
    let mut g3 = pool.grab();
    g3.value.n = 4;
    pool.release(g2);
    pool.release(g3);
    let g4 = pool.grab();
    assert_eq!(g4.value, Counter { n: 0 });
}

#[test]
fn lazily_computed_runs_once() {
    let mut l = LazilyComputed::new(|| -> Result<u32, String> { Ok(41 + 1) });
    assert_eq!(l.get().map(|v| *v), Ok(42));
    assert_eq!(l.get().map(|v| *v), Ok(42));
    *l.get().unwrap() = 7;
    assert_eq!(l.get().map(|v| *v), Ok(7));
    let mut e = LazilyComputed::new(|| -> Result<u32, String> { Err("no".to_string()) });
    assert_eq!(e.get().map(|v| *v), Err("no".to_string()));
}

#[test]
fn hasher_default_builds() {
    let _h: ConstSafeBuildHasherDefault<std::collections::hash_map::DefaultHasher> = ConstSafeBuildHasherDefault::new();
}

// === Versions === //

#[test]
fn userland_cfg_file_text() {
    let version = "0.1.0";
    let suffix = format!(
        "Userland crate *internal format* version is {CURRENT_FORMAT_MAJOR}.{CURRENT_FORMAT_MINOR}. \
        The userland crate at fault is running AuToken version {version}. \
        Run `cargo autoken --version` to see the version of your currently installed static analysis tool."
    );
    let major = format!("__autoken_major_is_{CURRENT_FORMAT_MAJOR}");
    let mut expected = String::new();
    expected.push_str(&format!("#[cfg(all(__autoken_checking_versions, not({major})))]\n"));
    expected.push_str(&format!(
        "compile_error!(\"Major version mismatch in AuToken format: this version of the AuToken \
         userland crate is entirely incompatible with the version of the analyzer. \
         {suffix}\");\n\n"
    ));
    expected.push_str(&format!(
        "#[cfg(all(__autoken_checking_versions, {major}, not(__autoken_supported_minor_or_less_is_{CURRENT_FORMAT_MINOR})))]\n"
    ));
    expected.push_str("const _: () = autoken_minor_version_mismatch();\n\n");
    expected.push_str("#[allow(dead_code)]\n");
    expected.push_str(&format!(
        "#[deprecated(note = \"Minor version mismatch in AuToken format: this version of the AuToken \
         userland crate is using features only available in a later version of the analyzer. \
         {suffix}\")]\n"
    ));
    expected.push_str("const fn autoken_minor_version_mismatch() {}\n\n");
    expected.push_str(&format!(
        "#[cfg(all(__autoken_checking_versions, {major}, not(__autoken_deprecated_minor_or_less_is_{DEPRECATED_FORMAT_MINOR})))]\n"
    ));
    expected.push_str("const _: () = autoken_minor_version_deprecated();\n\n");
    expected.push_str("#[allow(dead_code)]\n");
    expected.push_str(&format!(
        "#[deprecated(note = \"This minor version of the AuToken format has been deprecated: this version \
         of the AuToken userland crate is severely outdated and will likely soon become incompatible with \
         a future version of the analyzer. You are strongly encouraged to upgrade your userland crate! \
         {suffix}\")]\n"
    ));
    expected.push_str("const fn autoken_minor_version_deprecated() {}\n\n");
    assert_eq!(emit_userland_cfg_file(version), expected);
}

#[test]
fn analyzer_cfgs_in_order() {
    assert_eq!(
        set_analyzer_cfgs(),
        strings(&[
            "__autoken_checking_versions",
            "__autoken_major_is_0",
            "__autoken_supported_minor_or_less_is_1",
            "__autoken_deprecated_minor_or_less_is_0",
        ])
    );
}

#[test]
fn decimal_text() {
    assert_eq!(with_decimal("v", 0), "v0");
    assert_eq!(with_decimal("v", 4096), "v4096");
    assert_eq!(with_decimal("", 4294967295), "4294967295");
}

// === Launcher === //

#[test]
fn lines_like_std() {
    for s in ["", "a", "a\n", "a\r\nb", "a\n\nb\n", "x\r", "\n", "one\r\ntwo\r\n"] {
        let expected: Vec<String> = s.lines().map(|l| l.to_string()).collect();
        assert_eq!(lines(s), expected, "input {s:?}");
    }
}

#[test]
fn host_target_from_rustc_output() {
    let out = "rustc 1.78.0-nightly (abc 2024-03-10)\nbinary: rustc\nhost: x86_64-unknown-linux-gnu\nrelease: 1.78.0\n";
    assert_eq!(host_target_of(out), Some("x86_64-unknown-linux-gnu".to_string()));
    assert_eq!(host_target_of("binary: rustc\n"), None);
    assert_eq!(host_target_of("xhost: a\r\nhost: b\r\n"), Some("b".to_string()));
}

#[test]
fn toolchain_check_compares_first_lines() {
    let expected = "rustc 1.78.0-nightly (abc 2024-03-10)\nextra";
    assert!(toolchain_matches("rustc 1.78.0-nightly (abc 2024-03-10)\n", expected));
    assert!(!toolchain_matches("rustc 1.77.0\n", expected));
    assert!(!toolchain_matches("", expected));
    assert_eq!(first_line("a\nb"), Some("a".to_string()));
    assert_eq!(first_line(""), None);
}

#[test]
fn cli_args_skip_program_and_subcommand() {
    assert_eq!(cli_args(&strings(&["cargo-autoken", "autoken", "check"])), strings(&["check"]));
    assert_eq!(cli_args(&strings(&["cargo-autoken", "check", "autoken"])), strings(&["check", "autoken"]));
    assert_eq!(cli_args(&strings(&["cargo-autoken"])), Vec::<String>::new());
    assert_eq!(cli_args(&Vec::new()), Vec::<String>::new());
}

#[test]
fn old_artifacts_handling() {
    assert_eq!(old_artifact_action(OldArtifactMode::Warn, "abc", "abc"), ArtifactAction::Keep);
    assert_eq!(old_artifact_action(OldArtifactMode::Warn, "old", "abc"), ArtifactAction::Warn);
    assert_eq!(old_artifact_action(OldArtifactMode::Delete, "old", "abc"), ArtifactAction::Delete);
    assert_eq!(old_artifact_action(OldArtifactMode::Ignore, "old", "abc"), ArtifactAction::Keep);
}

#[test]
fn wrapper_names_and_commands() {
    assert_eq!(wrapper_file_name("f00d", false), "autoken_rustc_wrapper_f00d");
    assert_eq!(wrapper_file_name("f00d", true), "autoken_rustc_wrapper_f00d.exe");
    assert_eq!(
        check_command_args("x86_64-unknown-linux-gnu", "/t/autoken/h", Some("Cargo.toml")),
        strings(&["check", "--target", "x86_64-unknown-linux-gnu", "--target-dir", "/t/autoken/h", "--path", "Cargo.toml"])
    );
    assert_eq!(check_command_args("t", "d", None), strings(&["check", "--target", "t", "--target-dir", "d"]));
    assert_eq!(
        rustc_wrapper_env(true, None),
        vec![
            ("AUTOKEN_SKIP_ANALYSIS".to_string(), Some("yes".to_string())),
            ("AUTOKEN_OVERRIDE_SYSROOT".to_string(), None),
        ]
    );
    assert_eq!(
        rustc_wrapper_env(false, Some("/sys")),
        vec![
            ("AUTOKEN_SKIP_ANALYSIS".to_string(), None),
            ("AUTOKEN_OVERRIDE_SYSROOT".to_string(), Some("/sys".to_string())),
        ]
    );
}

#[test]
fn string_helpers() {
    assert!(starts_with("host: a", "host: "));
    assert!(!starts_with("hos", "host: "));
    assert!(str_eq("abc", "abc"));
    assert!(!str_eq("abc", "abd"));
    assert!(!str_eq("abc", "ab"));
}

// === Feeder === //

struct SpanFeed;

impl autoken::feeder::Feedable for SpanFeed {
    type Fed = u32;
}

#[test]
fn feeder_reads_back_what_was_fed() {
    let mut f: autoken::feeder::Feeder<SpanFeed> = autoken::feeder::Feeder::new();
    assert_eq!(f.read_feed(1, 5), None);
    f.feed(1, 5, 10);
    f.feed(1, 6, 11);
    f.feed(1, 5, 12);
    assert_eq!(f.read_feed(1, 5), Some(&12));
    assert_eq!(f.read_feed(1, 6), Some(&11));
}

// === Objects === //

#[test]
fn objects_have_identity_and_shared_state() {
    let mut store: ObjStore<u32> = ObjStore::new();
    let a = Obj::new(&mut store, 1);
    let b = Obj::new(&mut store, 1);
    let a2 = a;
    assert!(a.same(&a2));
    assert!(!a.same(&b));
    *a.get_mut(&mut store) += 41;
    assert_eq!(*a2.get(&store), 42);
    assert_eq!(*b.get(&store), 1);
    let d1: DynObj<dyn std::fmt::Debug> = DynObj::new(a, 7);
    let d2: DynObj<dyn std::fmt::Debug> = DynObj::new(a2, 7);
    let d3: DynObj<dyn std::fmt::Debug> = DynObj::new(b, 7);
    assert!(d1.same(&d2));
    assert!(!d1.same(&d3));
}

#[test]
fn capability_scopes_restore_the_outer_address() {
    let mut slot: usize = 0;
    let outer = CxScope::new(&mut slot, 5);
    assert_eq!(slot, 5);
    let inner = CxScope::new(&mut slot, 9);
    assert_eq!(slot, 9);
    inner.exit(&mut slot);
    assert_eq!(slot, 5);
    outer.exit(&mut slot);
    assert_eq!(slot, 0);
}

fn guard_holds(line: &str, set: &[String]) -> bool {
    let inner = line.trim_start_matches("#[cfg(all(").trim_end_matches(")))]");
    inner.split(", ").all(|part| match part.strip_prefix("not(") {
        Some(name) => !set.iter().any(|s| s == name),
        None => set.iter().any(|s| s == part),
    })
}

#[test]
fn same_version_triggers_no_version_check() {
    let text = emit_userland_cfg_file("1.2.3");
    let guards: Vec<&str> = text.lines().filter(|l| l.starts_with("#[cfg(all(")).collect();
    assert_eq!(guards.len(), 3);
    let analyzer = set_analyzer_cfgs();
    for g in &guards {
        assert!(!guard_holds(g, &analyzer));
        assert!(!guard_holds(g, &[]));
    }
    // Without the minor version the analyzer supports, the mismatch check fires.
    let older: Vec<String> = analyzer.iter().filter(|s| !s.starts_with("__autoken_supported")).cloned().collect();
    assert!(guard_holds(guards[1], &older));
}
