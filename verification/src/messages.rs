use vstd::prelude::*;
use vstd::string::StringExecFns;
use vstd::string::StrSliceExecFns;
use crate::launcher::texts;
use crate::driver::{Action, NoBorrowError};
use crate::mutability::Mutability;
use crate::template::Reason;
use crate::leaks::{LeakDiagnostic, s_pluralize};
use crate::versions::{append_decimal, decimal};

verus! {

/// `a` comes before `b` in lexicographic order by code point, a proper prefix first.
pub open spec fn lex_lt(a: Seq<char>, b: Seq<char>) -> bool
    decreases a.len(),
{
    if a.len() == 0 {
        b.len() > 0
    } else if b.len() == 0 {
        false
    } else if a[0] != b[0] {
        a[0] < b[0]
    } else {
        lex_lt(a.drop_first(), b.drop_first())
    }
}

pub proof fn lemma_lex_irreflexive(a: Seq<char>)
    ensures
        !lex_lt(a, a),
    decreases a.len(),
{
    if a.len() > 0 {
        lemma_lex_irreflexive(a.drop_first());
    }
}

pub proof fn lemma_lex_asymmetric(a: Seq<char>, b: Seq<char>)
    ensures
        !(lex_lt(a, b) && lex_lt(b, a)),
    decreases a.len(),
{
    if a.len() > 0 && b.len() > 0 && a[0] == b[0] {
        lemma_lex_asymmetric(a.drop_first(), b.drop_first());
    }
}

pub proof fn lemma_lex_transitive(a: Seq<char>, b: Seq<char>, c: Seq<char>)
    requires
        lex_lt(a, b),
        lex_lt(b, c),
    ensures
        lex_lt(a, c),
    decreases a.len(),
{
    if a.len() > 0 && b.len() > 0 && c.len() > 0 && a[0] == b[0] && b[0] == c[0] {
        lemma_lex_transitive(a.drop_first(), b.drop_first(), c.drop_first());
    }
}

pub proof fn lemma_lex_total(a: Seq<char>, b: Seq<char>)
    ensures
        a == b || lex_lt(a, b) || lex_lt(b, a),
    decreases a.len(),
{
    if a.len() > 0 && b.len() > 0 {
        if a[0] == b[0] {
            lemma_lex_total(a.drop_first(), b.drop_first());
            if a.drop_first() == b.drop_first() {
                assert(a =~= seq![a[0]] + a.drop_first());
                assert(b =~= seq![b[0]] + b.drop_first());
            }
        }
    } else if a.len() == 0 && b.len() == 0 {
        assert(a =~= b);
    }
}

/// Whether `a` comes before `b` in lexicographic order by code point.
pub fn str_lt(a: &str, b: &str) -> (r: bool)
    ensures
        r == lex_lt(a@, b@),
{
    let n = a.unicode_len();
    let m = b.unicode_len();
    let mut i: usize = 0;
    assert(a@.skip(0) =~= a@);
    assert(b@.skip(0) =~= b@);
    while i < n && i < m
        invariant
            n == a@.len(),
            m == b@.len(),
            i <= n,
            i <= m,
            lex_lt(a@.skip(i as int), b@.skip(i as int)) == lex_lt(a@, b@),
        decreases n - i,
    {
        let x = a.get_char(i);
        let y = b.get_char(i);
        assert(a@.skip(i as int)[0] == x);
        assert(b@.skip(i as int)[0] == y);
        if x != y {
            return x < y;
        }
        assert(a@.skip(i as int).drop_first() =~= a@.skip(i + 1));
        assert(b@.skip(i as int).drop_first() =~= b@.skip(i + 1));
        i = i + 1;
    }
    i == n && i < m
}

/// `s` is in lexicographic order.
pub open spec fn lex_sorted(s: Seq<Seq<char>>) -> bool {
    forall|i: int, j: int| 0 <= i < j < s.len() ==> !lex_lt(#[trigger] s[j], #[trigger] s[i])
}

proof fn lemma_insert_multiset<A>(s: Seq<A>, k: int, x: A)
    requires
        0 <= k <= s.len(),
    ensures
        s.insert(k, x).to_multiset() == s.to_multiset().insert(x),
{
    broadcast use vstd::seq_lib::group_to_multiset_ensures;
    let t = s.insert(k, x);
    assert(t.remove(k) =~= s);
    assert(t[k] == x);
    assert(t.to_multiset().remove(x) == s.to_multiset());
    assert(t.contains(x));
    assert(t.to_multiset().count(x) > 0);
    assert(t.to_multiset() =~= s.to_multiset().insert(x));
}

/// `v` in lexicographic order.
pub fn sort_strings(v: Vec<String>) -> (r: Vec<String>)
    ensures
        lex_sorted(texts(r@)),
        texts(r@).to_multiset() == texts(v@).to_multiset(),
{
    broadcast use vstd::seq_lib::group_to_multiset_ensures;
    let mut r: Vec<String> = Vec::new();
    let mut i: usize = 0;
    assert(texts(r@) =~= texts(v@).take(0));
    while i < v.len()
        invariant
            i <= v@.len(),
            lex_sorted(texts(r@)),
            texts(r@).to_multiset() == texts(v@).take(i as int).to_multiset(),
        decreases v@.len() - i,
    {
        let s = v[i].as_str();
        let mut k: usize = 0;
        while k < r.len() && !str_lt(s, r[k].as_str())
            invariant
                k <= r@.len(),
                lex_sorted(texts(r@)),
                forall|j: int| 0 <= j < k ==> !lex_lt(s@, #[trigger] texts(r@)[j]),
            decreases r@.len() - k,
        {
            k = k + 1;
        }
        let ghost old_t = texts(r@);
        let item = String::from_str(s);
        r.insert(k, item);
        proof {
            let t = texts(r@);
            assert(t =~= old_t.insert(k as int, s@));
            assert forall|a: int, b: int| 0 <= a < b < t.len() implies !lex_lt(#[trigger] t[b], #[trigger] t[a]) by {
                if a < k && b == k {
                    // earlier ones are not after s
                    assert(!lex_lt(s@, old_t[a]));
                } else if a == k && b > k {
                    let o = old_t[b - 1];
                    assert(k < old_t.len());
                    assert(lex_lt(s@, old_t[k as int]));
                    if b - 1 > k {
                        assert(!lex_lt(o, old_t[k as int]));
                        lemma_lex_total(o, old_t[k as int]);
                        if o != old_t[k as int] {
                            lemma_lex_transitive(s@, old_t[k as int], o);
                        }
                    }
                    lemma_lex_asymmetric(s@, o);
                } else if a < k && b > k {
                    assert(!lex_lt(old_t[b - 1], old_t[a]));
                } else if a > k {
                    assert(!lex_lt(old_t[b - 1], old_t[a - 1]));
                } else {
                    assert(!lex_lt(old_t[b], old_t[a]));
                }
            }
            lemma_insert_multiset(old_t, k as int, s@);
            assert(t.to_multiset() == old_t.to_multiset().insert(s@));
            assert(texts(v@)[i as int] == s@);
            assert(texts(v@).take(i + 1) =~= texts(v@).take(i as int).push(s@));
            vstd::seq_lib::to_multiset_build(texts(v@).take(i as int), s@);
        }
        i = i + 1;
    }
    assert(texts(v@).take(i as int) =~= texts(v@));
    r
}

/// What a function that must not borrow tokens is being used as, in words.
pub open spec fn action_text(a: Action) -> Seq<char> {
    match a {
        Action::UseAsMain => "use this main function"@,
        Action::UseAsDestructor => "use this method as a destructor"@,
        Action::Unsize => "unsize this function"@,
        Action::UseAsExtern => "use this extern function"@,
    }
}

fn action_str(a: Action) -> (r: &'static str)
    ensures
        r@ == action_text(a),
{
    match a {
        Action::UseAsMain => "use this main function",
        Action::UseAsDestructor => "use this method as a destructor",
        Action::Unsize => "unsize this function",
        Action::UseAsExtern => "use this extern function",
    }
}

/// The error reported when a function used as `action` borrows tokens.
pub fn no_borrow_message(action: Action) -> (r: String)
    ensures
        r@ == "cannot "@ + action_text(action) + " because it borrows unabsorbed tokens"@,
{
    let mut m = String::from_str("cannot ");
    m.append(action_str(action));
    m.append(" because it borrows unabsorbed tokens");
    m
}

pub open spec fn borrow_text(m: Mutability, ty: Seq<char>) -> Seq<char> {
    (if m == Mutability::Not { "&"@ } else { "&mut "@ }) + ty
}

/// A borrow of the token named `ty`, as written in a reference type.
pub fn borrow_string(m: Mutability, ty: &str) -> (r: String)
    ensures
        r@ == borrow_text(m, ty@),
{
    let mut r = String::from_str(if m.is_not() { "&" } else { "&mut " });
    r.append(ty);
    r
}

/// The borrows a function makes, each written as a reference type, in lexicographic
/// order.
pub fn sorted_borrow_strings(borrows: &Vec<(Mutability, String)>) -> (r: Vec<String>)
    ensures
        lex_sorted(texts(r@)),
        texts(r@).to_multiset()
            == Seq::new(borrows@.len(), |i: int| borrow_text(borrows@[i].0, borrows@[i].1@)).to_multiset(),
{
    let mut v: Vec<String> = Vec::new();
    let mut i: usize = 0;
    while i < borrows.len()
        invariant
            i <= borrows@.len(),
            texts(v@) == Seq::new(i as nat, |j: int| borrow_text(borrows@[j].0, borrows@[j].1@)),
        decreases borrows@.len() - i,
    {
        let b = borrow_string(borrows[i].0, borrows[i].1.as_str());
        let ghost prev = texts(v@);
        let ghost bv = b@;
        v.push(b);
        assert(texts(v@) =~= prev.push(bv));
        i = i + 1;
        assert(texts(v@) =~= Seq::new(i as nat, |j: int| borrow_text(borrows@[j].0, borrows@[j].1@)));
    }
    sort_strings(v)
}

/// The line of the borrow list for entry `i` of `n`.
pub open spec fn note_line(s: Seq<char>, i: int, n: int) -> Seq<char> {
    (if i == 0 { "uses"@ } else { "    "@ }) + " "@ + s + (if i == n - 1 { "."@ } else { ","@ }) + "\n"@
}

/// The first `k` lines of the borrow list of `s`.
pub open spec fn note_lines(s: Seq<Seq<char>>, k: nat) -> Seq<char>
    decreases k,
{
    if k == 0 { seq![] } else { note_lines(s, (k - 1) as nat) + note_line(s[k - 1], k - 1, s.len() as int) }
}

/// The note listing the borrows of a function that must not borrow: one line each,
/// the first introduced by `uses`, each ending with a comma but the last, which ends
/// with a period.
pub fn borrow_list_note(borrows: &Vec<String>) -> (r: String)
    ensures
        r@ == note_lines(texts(borrows@), borrows@.len() as nat),
{
    let mut note = String::new();
    let n = borrows.len();
    let mut i: usize = 0;
    while i < n
        invariant
            n == borrows@.len(),
            i <= n,
            note@ == note_lines(texts(borrows@), i as nat),
        decreases n - i,
    {
        let ghost before = note@;
        note.append(if i == 0 { "uses" } else { "    " });
        note.append(" ");
        note.append(borrows[i].as_str());
        note.append(if i == n - 1 { "." } else { "," });
        note.append("\n");
        proof {
            assert(texts(borrows@)[i as int] == borrows@[i as int]@);
            assert(note@ =~= before + note_line(texts(borrows@)[i as int], i as int, n as int));
        }
        i = i + 1;
    }
    note
}

/// The notes of a refused use of a function that borrows tokens, given each token's
/// name and each instance's name: the list of its borrows, each written as a reference
/// type, in lexicographic order, and the note, placed where the instance is defined,
/// that it was unsized.
pub fn no_borrow_notes(e: &NoBorrowError, token_names: &Vec<String>, instance_names: &Vec<String>) -> (r: (String, String))
    requires
        forall|i: int| 0 <= i < e.tokens@.len() ==> (#[trigger] e.tokens@[i]).0 < token_names@.len(),
        e.instance < instance_names@.len(),
    ensures
        exists|s: Seq<Seq<char>>| {
            &&& lex_sorted(s)
            &&& s.to_multiset() == Seq::new(e.tokens@.len(), |i: int|
                    borrow_text(e.tokens@[i].1, token_names@[e.tokens@[i].0 as int]@)).to_multiset()
            &&& r.0@ == note_lines(s, s.len())
        },
        r.1@ == instance_names@[e.instance as int]@ + " was unsized"@,
{
    let mut borrows: Vec<(Mutability, String)> = Vec::new();
    let mut i: usize = 0;
    while i < e.tokens.len()
        invariant
            i <= e.tokens@.len(),
            forall|k: int| 0 <= k < e.tokens@.len() ==> (#[trigger] e.tokens@[k]).0 < token_names@.len(),
            borrows@.len() == i,
            forall|k: int| 0 <= k < i ==> #[trigger] borrows@[k].0 == e.tokens@[k].1
                && borrows@[k].1@ == token_names@[e.tokens@[k].0 as int]@,
        decreases e.tokens@.len() - i,
    {
        let (t, m) = e.tokens[i];
        assert(e.tokens@[i as int].0 < token_names@.len());
        let tl: usize = token_names.len();
        assert(t < tl);
        let ti: usize = t as usize;
        let tl64: u64 = tl as u64;
        assert(tl64 == tl);
        assert(ti as u64 == t) by (bit_vector)
            requires
                t < tl64,
                tl64 == tl as u64,
                ti == t as usize;
        let name = token_names[ti].clone();
        let ghost before = borrows@;
        borrows.push((m, name));
        assert(borrows@[i as int].1@ == token_names@[e.tokens@[i as int].0 as int]@);
        assert(forall|k: int| 0 <= k < i ==> borrows@[k] == before[k]);
        i = i + 1;
    }
    let sorted = sorted_borrow_strings(&borrows);
    let note = borrow_list_note(&sorted);
    proof {
        assert(Seq::new(borrows@.len(), |k: int| borrow_text(borrows@[k].0, borrows@[k].1@))
            =~= Seq::new(e.tokens@.len(), |k: int| borrow_text(e.tokens@[k].1, token_names@[e.tokens@[k].0 as int]@)));
        assert(texts(sorted@).len() == sorted@.len());
    }
    let mut unsized_note = instance_names[e.instance].clone();
    unsized_note.append(" was unsized");
    (note, unsized_note)
}

pub open spec fn mut_word(m: Mutability) -> Seq<char> {
    if m == Mutability::Not { "immutably"@ } else { "mutably"@ }
}

/// The message of a borrow conflict, the labels of its two borrows and the notes on
/// where each comes from.
pub struct ConflictMessage {
    pub message: String,
    pub old_label: String,
    pub new_label: String,
    pub old_help: String,
    pub new_help: String,
}

fn mut_str(m: Mutability) -> (r: &'static str)
    ensures
        r@ == mut_word(m),
{
    if m.is_not() { "immutably" } else { "mutably" }
}

/// The texts reporting a conflict on the token named `token` between an earlier borrow
/// (`old_mut`, made by `old_reason`) and a later one.
pub fn conflict_message(token: &str, old_mut: Mutability, old_reason: &str, new_mut: Mutability, new_reason: &str) -> (r: ConflictMessage)
    ensures
        r.message@ == "conflicting borrows on token "@ + token@,
        r.old_label@ == "value first borrowed "@ + mut_word(old_mut),
        r.new_label@ == "value later borrowed "@ + mut_word(new_mut),
        r.old_help@ == "first borrow originates from "@ + old_reason@,
        r.new_help@ == "later borrow originates from "@ + new_reason@,
{
    let mut message = String::from_str("conflicting borrows on token ");
    message.append(token);
    let mut old_label = String::from_str("value first borrowed ");
    old_label.append(mut_str(old_mut));
    let mut new_label = String::from_str("value later borrowed ");
    new_label.append(mut_str(new_mut));
    let mut old_help = String::from_str("first borrow originates from ");
    old_help.append(old_reason);
    let mut new_help = String::from_str("later borrow originates from ");
    new_help.append(new_reason);
    ConflictMessage { message, old_label, new_label, old_help, new_help }
}

/// What a borrow comes from, in words: the name of the instance whose call made it, or
/// an `.await`.
pub fn reason_name(reason: Reason, instance_names: &Vec<String>) -> (r: String)
    requires
        reason matches Reason::Call(i) ==> i < instance_names@.len(),
    ensures
        r@ == match reason {
            Reason::Call(i) => instance_names@[i as int]@,
            Reason::Await => "`.await`"@,
        },
{
    match reason {
        Reason::Call(i) => String::from_str(instance_names[i].as_str()),
        Reason::Await => String::from_str("`.await`"),
    }
}

/// The error for a local that can leak through a region its token is not tied to; a
/// region without a name is written `'_`.
pub fn cannot_leak_message(token: &str, region_name: Option<&str>) -> (r: String)
    ensures
        r@ == "cannot leak local variable since the token "@ + token@ + " is not tied to the return region "@
            + match region_name {
                Some(n) => n@,
                None => "'_"@,
            },
{
    let mut m = String::from_str("cannot leak local variable since the token ");
    m.append(token);
    m.append(" is not tied to the return region ");
    match region_name {
        Some(n) => m.append(n),
        None => m.append("'_"),
    }
    m
}

/// The error for a callee that ties the token named `ty` to the lifetime `lifetime`,
/// which its return type does not have.
pub fn missing_tied_lifetime_message(lifetime: &str, ty: &str) -> (r: String)
    ensures
        r@ == "failed to find lifetime "@ + lifetime@ + " to which "@ + ty@
            + " is tied in the return type of the function"@,
{
    let mut m = String::from_str("failed to find lifetime ");
    m.append(lifetime);
    m.append(" to which ");
    m.append(ty);
    m.append(" is tied in the return type of the function");
    m
}

/// The decimal text of a signed number.
pub open spec fn signed_decimal(v: int) -> Seq<char> {
    if v < 0 { "-"@ + decimal((-v) as nat) } else { decimal(v as nat) }
}

/// Appends the decimal text of `v`.
pub fn append_i32(s: &mut String, v: i32)
    ensures
        final(s)@ == old(s)@ + signed_decimal(v as int),
{
    if v < 0 {
        s.append("-");
        let m: i64 = -(v as i64);
        append_decimal(s, m as u32);
    } else {
        append_decimal(s, v as u32);
    }
}

pub open spec fn plural(v: i32) -> Seq<char> {
    if v == 1 { ""@ } else { "s"@ }
}

/// The text of a diagnostic of the leak analysis, `component` naming its component.
pub open spec fn leak_message_text(d: LeakDiagnostic, component: Seq<char>) -> Seq<char> {
    match d {
        LeakDiagnostic::RecursesHoldingMut { leaked_muts, .. } =>
            "this function calls itself recursively while holding at least "@ + signed_decimal(leaked_muts as int)
                + " mutable borrow"@ + plural(leaked_muts) + " of "@ + component
                + " meaning that, if it does reach this same call again, it may mutably borrow the same component more than once"@,
        LeakDiagnostic::TooManyMuts { max_enter_mut, leaked_muts, .. } =>
            "called a function expecting at most "@ + signed_decimal(max_enter_mut as int) + " mutable borrow"@
                + plural(max_enter_mut) + " of type "@ + component + " but was called in a scope with at least "@
                + signed_decimal(leaked_muts as int),
        LeakDiagnostic::TooManyRefs { max_enter_ref, leaked_refs, .. } =>
            "called a function expecting at most "@ + signed_decimal(max_enter_ref as int) + " immutable borrow"@
                + plural(max_enter_ref) + " of type "@ + component + " but was called in a scope with at least "@
                + signed_decimal(leaked_refs as int),
        LeakDiagnostic::InconsistentPaths { .. } =>
            "not all control-flow paths to this statement are guaranteed to borrow the same number of components"@,
        LeakDiagnostic::RecursiveLeak { .. } =>
            "this function self-recurses yet has the ability to leak borrows of "@ + component
                + ", meaning that it could theoretically leak an arbitrary number of borrows"@,
        LeakDiagnostic::RecursiveMutWhileRef { .. } =>
            "this function self-recurses while holding an immutable borrow to "@ + component
                + " but holds the potential of borrowing that same component mutably somewhere in the function body"@,
    }
}

/// The text of a diagnostic of the leak analysis, `component` naming its component.
pub fn leak_message(d: LeakDiagnostic, component: &str) -> (r: String)
    ensures
        r@ == leak_message_text(d, component@),
{
    let mut m = String::new();
    match d {
        LeakDiagnostic::RecursesHoldingMut { leaked_muts, .. } => {
            m.append("this function calls itself recursively while holding at least ");
            append_i32(&mut m, leaked_muts);
            m.append(" mutable borrow");
            m.append(s_pluralize(leaked_muts));
            m.append(" of ");
            m.append(component);
            m.append(" meaning that, if it does reach this same call again, it may mutably borrow the same component more than once");
        },
        LeakDiagnostic::TooManyMuts { max_enter_mut, leaked_muts, .. } => {
            m.append("called a function expecting at most ");
            append_i32(&mut m, max_enter_mut);
            m.append(" mutable borrow");
            m.append(s_pluralize(max_enter_mut));
            m.append(" of type ");
            m.append(component);
            m.append(" but was called in a scope with at least ");
            append_i32(&mut m, leaked_muts);
        },
        LeakDiagnostic::TooManyRefs { max_enter_ref, leaked_refs, .. } => {
            m.append("called a function expecting at most ");
            append_i32(&mut m, max_enter_ref);
            m.append(" immutable borrow");
            m.append(s_pluralize(max_enter_ref));
            m.append(" of type ");
            m.append(component);
            m.append(" but was called in a scope with at least ");
            append_i32(&mut m, leaked_refs);
        },
        LeakDiagnostic::InconsistentPaths { .. } => {
            m.append("not all control-flow paths to this statement are guaranteed to borrow the same number of components");
        },
        LeakDiagnostic::RecursiveLeak { .. } => {
            m.append("this function self-recurses yet has the ability to leak borrows of ");
            m.append(component);
            m.append(", meaning that it could theoretically leak an arbitrary number of borrows");
        },
        LeakDiagnostic::RecursiveMutWhileRef { .. } => {
            m.append("this function self-recurses while holding an immutable borrow to ");
            m.append(component);
            m.append(" but holds the potential of borrowing that same component mutably somewhere in the function body");
        },
    }
    assert(m@ =~= leak_message_text(d, component@));
    m
}

} // verus!
