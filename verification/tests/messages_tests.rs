use autoken::driver::{Action, NoBorrowError};
use autoken::leaks::LeakDiagnostic;
use autoken::messages::{
    append_i32, borrow_list_note, borrow_string, cannot_leak_message, conflict_message, leak_message,
    missing_tied_lifetime_message, no_borrow_message, no_borrow_notes, reason_name, sort_strings, sorted_borrow_strings, str_lt,
};
use autoken::mutability::Mutability;
use autoken::template::Reason;

fn strings(v: &[&str]) -> Vec<String> {
    v.iter().map(|s| s.to_string()).collect()
}

#[test]
fn sorting_matches_std() {
    let input = strings(&["&mut b", "&a", "&mut a", "", "&a", "é", "e", "&mut"]);
    let mut expected = input.clone();
    expected.sort_unstable();
    assert_eq!(sort_strings(input), expected);
    assert!(str_lt("ab", "abc"));
    assert!(str_lt("abc", "abd"));
    assert!(!str_lt("abc", "abc"));
    assert!(!str_lt("b", "abc"));
}

#[test]
fn no_borrow_report() {
    assert_eq!(no_borrow_message(Action::UseAsMain), "cannot use this main function because it borrows unabsorbed tokens");
    assert_eq!(
        no_borrow_message(Action::UseAsDestructor),
        "cannot use this method as a destructor because it borrows unabsorbed tokens"
    );
    assert_eq!(no_borrow_message(Action::Unsize), "cannot unsize this function because it borrows unabsorbed tokens");
    let sorted = sorted_borrow_strings(&vec![(Mutability::Mut, "MyCap".to_string()), (Mutability::Not, "Other".to_string())]);
    assert_eq!(sorted, strings(&["&Other", "&mut MyCap"]));
    assert_eq!(borrow_list_note(&sorted), "uses &Other,\n     &mut MyCap.\n");
    assert_eq!(borrow_list_note(&strings(&["&mut MySingleton"])), "uses &mut MySingleton.\n");
    assert_eq!(borrow_string(Mutability::Not, "T"), "&T");
}

#[test]
fn conflict_report() {
    let m = conflict_message("MyCap", Mutability::Not, "Borrows::<Mut<MyCap>>::acquire_ref::<'_>", Mutability::Mut, "add_number");
    assert_eq!(m.message, "conflicting borrows on token MyCap");
    assert_eq!(m.old_label, "value first borrowed immutably");
    assert_eq!(m.new_label, "value later borrowed mutably");
    assert_eq!(m.old_help, "first borrow originates from Borrows::<Mut<MyCap>>::acquire_ref::<'_>");
    assert_eq!(m.new_help, "later borrow originates from add_number");
    let names = strings(&["main", "get_singleton::<'_>"]);
    assert_eq!(reason_name(Reason::Call(1), &names), "get_singleton::<'_>");
    assert_eq!(reason_name(Reason::Await, &names), "`.await`");
}

#[test]
fn leak_and_tie_reports() {
    assert_eq!(
        cannot_leak_message("MyCap", Some("'a")),
        "cannot leak local variable since the token MyCap is not tied to the return region 'a"
    );
    assert_eq!(
        cannot_leak_message("MyCap", None),
        "cannot leak local variable since the token MyCap is not tied to the return region '_"
    );
    assert_eq!(
        missing_tied_lifetime_message("'b", "u32"),
        "failed to find lifetime 'b to which u32 is tied in the return type of the function"
    );
}

#[test]
fn leak_analysis_reports() {
    assert_eq!(
        leak_message(LeakDiagnostic::TooManyMuts { span: 0, component: 1, max_enter_mut: 0, leaked_muts: 1 }, "Lock"),
        "called a function expecting at most 0 mutable borrows of type Lock but was called in a scope with at least 1"
    );
    assert_eq!(
        leak_message(LeakDiagnostic::TooManyRefs { span: 0, component: 1, max_enter_ref: 1, leaked_refs: 2 }, "Lock"),
        "called a function expecting at most 1 immutable borrow of type Lock but was called in a scope with at least 2"
    );
    assert_eq!(
        leak_message(LeakDiagnostic::RecursesHoldingMut { span: 0, component: 1, leaked_muts: 1 }, "Lock"),
        "this function calls itself recursively while holding at least 1 mutable borrow of Lock meaning that, if it \
         does reach this same call again, it may mutably borrow the same component more than once"
    );
    assert_eq!(
        leak_message(LeakDiagnostic::InconsistentPaths { span: 0 }, "Lock"),
        "not all control-flow paths to this statement are guaranteed to borrow the same number of components"
    );
    assert_eq!(
        leak_message(LeakDiagnostic::RecursiveLeak { span: 0, component: 1 }, "Lock"),
        "this function self-recurses yet has the ability to leak borrows of Lock, meaning that it could theoretically \
         leak an arbitrary number of borrows"
    );
    assert_eq!(
        leak_message(LeakDiagnostic::RecursiveMutWhileRef { span: 0, component: 1 }, "Lock"),
        "this function self-recurses while holding an immutable borrow to Lock but holds the potential of borrowing \
         that same component mutably somewhere in the function body"
    );
    let mut s = String::new();
    append_i32(&mut s, i32::MIN);
    s.push(' ');
    append_i32(&mut s, -5);
    s.push(' ');
    append_i32(&mut s, 12);
    assert_eq!(s, "-2147483648 -5 12");
}

#[test]
fn extern_functions_may_not_borrow_message() {
    assert_eq!(no_borrow_message(Action::UseAsExtern), "cannot use this extern function because it borrows unabsorbed tokens");
}

#[test]
fn unsized_closure_notes() {
    let e = NoBorrowError { span: 2, action: Action::Unsize, instance: 1, instance_span: 12, tokens: vec![(0, Mutability::Mut)] };
    let (note, unsized_note) = no_borrow_notes(&e, &vec!["u32".to_string()], &vec!["f".to_string(), "demo_breaks::{closure#0}".to_string()]);
    assert_eq!(note, "uses &mut u32.\n");
    assert_eq!(unsized_note, "demo_breaks::{closure#0} was unsized");
    let e = NoBorrowError { span: 2, action: Action::UseAsMain, instance: 0, instance_span: 1, tokens: vec![(1, Mutability::Not), (0, Mutability::Mut)] };
    let (note, _) = no_borrow_notes(&e, &vec!["B".to_string(), "A".to_string()], &vec!["main".to_string()]);
    assert_eq!(note, "uses &A,\n     &mut B.\n");
}
