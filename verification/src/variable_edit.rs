//! The variables page: the name a variable is saved under, whether it
//! would replace another, and the filtered, sorted list of definitions.
use crate::order::lex_lt;
use crate::parser::{opt_view, Variable, VariableView};
use crate::text::{chars_of, contains, contains_exec, eq_chars, lower_chars, slice, string_of, trim, trim_chars, lowercase};
use crate::vars::VarMap;
use vstd::prelude::*;

verus! {

broadcast use vstd::string::group_string_axioms;

/// The name a variable is saved under: none for a blank name, else the name
/// without one leading `$`.
pub open spec fn clean_name(name: Seq<char>) -> Option<Seq<char>> {
    if trim(name).len() == 0 {
        None
    } else if name.len() > 0 && name[0] == '$' {
        Some(name.drop_first())
    } else {
        Some(name)
    }
}

/// The name a variable entered as `name` is saved under, if it is not blank.
pub fn clean_variable_name(name: &str) -> (r: Option<String>)
    ensures
        opt_view(r) == clean_name(name@),
{
    let n = chars_of(name);
    if trim_chars(&n).len() == 0 {
        None
    } else if n.len() > 0 && n[0] == '$' {
        let rest = slice(&n, 1, n.len());
        assert(rest@ =~= n@.drop_first());
        Some(string_of(&rest))
    } else {
        Some(string_of(&n))
    }
}

/// Saving under `name` would replace another variable: one named `$name`
/// is defined, and it is not the variable being edited (`current`).
pub open spec fn replaces_other(name: Seq<char>, current: Option<Seq<char>>, m: Map<Seq<char>, Seq<char>>) -> bool {
    let target = seq!['$'] + name;
    m.contains_key(target) && match current {
        Some(c) => c != target,
        None => true,
    }
}

/// Whether saving the variable `clean` (without `$`) would overwrite
/// another one; `current` is the full name of the variable being edited.
pub fn is_duplicate_variable(clean: &str, current: Option<&str>, variables: &VarMap) -> (r: bool)
    ensures
        r == replaces_other(
            clean@,
            match current {
                Some(c) => Some(c@),
                None => None,
            },
            variables@,
        ),
{
    let mut target = vec!['$'];
    crate::text::append(&mut target, &chars_of(clean));
    assert(target@ =~= seq!['$'] + clean@);
    if variables.get_chars(&target).is_none() {
        return false;
    }
    match current {
        Some(c) => !eq_chars(&chars_of(c), &target),
        None => true,
    }
}

/// The definition is shown for the lowercased filter `f`: it is empty, or
/// the lowercased name or value holds it.
pub open spec fn shown_for(v: VariableView, f: Seq<char>) -> bool {
    f.len() == 0 || contains(lowercase(v.name), f) || contains(lowercase(v.value), f)
}

/// The definitions kept by the filter, in their order.
pub open spec fn kept_variables(s: Seq<VariableView>, f: Seq<char>) -> Seq<VariableView>
    decreases s.len(),
{
    if s.len() == 0 {
        seq![]
    } else {
        kept_variables(s.drop_last(), f) + (if shown_for(s.last(), f) {
            seq![s.last()]
        } else {
            seq![]
        })
    }
}

/// The definitions as plain values.
pub open spec fn variable_views(v: Seq<Variable>) -> Seq<VariableView> {
    v.map_values(|x: Variable| x@)
}

fn copy_variable(v: &Variable) -> (r: Variable)
    ensures
        r@ == v@,
{
    Variable { name: v.name.clone(), value: v.value.clone(), line_number: v.line_number, file_path: v.file_path.clone() }
}

/// `v` put into `s` after every definition whose name is not greater than
/// its own (the step of a stable sort by name).
pub open spec fn insert_by_name(s: Seq<VariableView>, v: VariableView) -> Seq<VariableView>
    decreases s.len(),
{
    if s.len() == 0 {
        seq![v]
    } else if lex_lt(v.name, s[0].name) {
        seq![v] + s
    } else {
        seq![s[0]] + insert_by_name(s.drop_first(), v)
    }
}

/// The definitions ordered by name, those with the same name in the order
/// they came (a stable sort).
pub open spec fn sort_by_name(s: Seq<VariableView>) -> Seq<VariableView>
    decreases s.len(),
{
    if s.len() == 0 {
        seq![]
    } else {
        insert_by_name(sort_by_name(s.drop_last()), s.last())
    }
}

/// Inserting by name puts `v` at the first definition whose name is greater.
proof fn lemma_insert_by_name(s: Seq<VariableView>, v: VariableView, p: int)
    requires
        0 <= p <= s.len(),
        forall|j: int| 0 <= j < p ==> !lex_lt(v.name, #[trigger] s[j].name),
        p < s.len() ==> lex_lt(v.name, s[p].name),
    ensures
        insert_by_name(s, v) == s.insert(p, v),
    decreases s.len(),
{
    if s.len() == 0 {
        assert(s.insert(p, v) =~= seq![v]);
    } else if p == 0 {
        assert(s.insert(0, v) =~= seq![v] + s);
    } else {
        assert(!lex_lt(v.name, s[0].name));
        let t = s.drop_first();
        assert forall|j: int| 0 <= j < p - 1 implies !lex_lt(v.name, #[trigger] t[j].name) by {
            assert(t[j] == s[j + 1]);
        }
        if p - 1 < t.len() {
            assert(t[p - 1] == s[p]);
        }
        lemma_insert_by_name(t, v, p - 1);
        assert(seq![s[0]] + t.insert(p - 1, v) =~= s.insert(p, v));
    }
}

/// The definitions the variables page lists for the search text `filter`:
/// those whose name or value holds it (ignoring case), ordered by name, and
/// those with the same name in the order they came.
pub fn filter_variables(vars: &[Variable], filter: &str) -> (r: Vec<Variable>)
    ensures
        variable_views(r@) == sort_by_name(kept_variables(variable_views(vars@), lowercase(filter@))),
{
    let f = lower_chars(&chars_of(filter));
    let ghost src = variable_views(vars@);
    let mut out: Vec<Variable> = Vec::new();
    let mut i: usize = 0;
    assert(kept_variables(src.take(0), f@) =~= Seq::<VariableView>::empty());
    assert(variable_views(out@) =~= Seq::<VariableView>::empty());
    while i < vars.len()
        invariant
            i <= vars@.len(),
            src == variable_views(vars@),
            f@ == lowercase(filter@),
            variable_views(out@) == sort_by_name(kept_variables(src.take(i as int), f@)),
        decreases vars@.len() - i,
    {
        let v = &vars[i];
        assert(src.take(i + 1).drop_last() =~= src.take(i as int));
        assert(src.take(i + 1).last() == v@);
        let shown = f.len() == 0 || contains_exec(&lower_chars(&chars_of(v.name.as_str())), &f) || contains_exec(
            &lower_chars(&chars_of(v.value.as_str())),
            &f,
        );
        assert(shown == shown_for(v@, f@));
        let ghost kept = kept_variables(src.take(i as int), f@);
        assert(kept_variables(src.take(i + 1), f@) == kept + (if shown {
            seq![v@]
        } else {
            Seq::<VariableView>::empty()
        }));
        if shown {
            let ghost ov = variable_views(out@);
            let key = chars_of(v.name.as_str());
            let mut p: usize = 0;
            while p < out.len() && !lex_lt_name(&key, &out[p])
                invariant
                    p <= out@.len(),
                    key@ == v@.name,
                    ov == variable_views(out@),
                    forall|j: int| 0 <= j < p ==> !lex_lt(key@, #[trigger] ov[j].name),
                decreases out@.len() - p,
            {
                p = p + 1;
            }
            let ghost vv = v@;
            proof {
                lemma_insert_by_name(ov, vv, p as int);
                assert((kept + seq![vv]).drop_last() =~= kept);
                assert((kept + seq![vv]).last() == vv);
            }
            out.insert(p, copy_variable(v));
            assert(variable_views(out@) =~= ov.insert(p as int, vv));
        } else {
            assert(kept + Seq::<VariableView>::empty() =~= kept);
        }
        i = i + 1;
    }
    assert(src.take(i as int) =~= src);
    out
}

fn lex_lt_name(key: &Vec<char>, v: &Variable) -> (r: bool)
    ensures
        r == lex_lt(key@, v@.name),
{
    crate::order::lex_lt_exec(key, &chars_of(v.name.as_str()))
}

/// The name whose references are renamed when a variable is saved: when a
/// variable is being edited (`current`, its full name) and its name
/// without leading `$`s differs from the new one, that old name.
pub open spec fn renamed_from(current: Option<Seq<char>>, clean: Seq<char>) -> Option<Seq<char>> {
    match current {
        Some(c) => if crate::text::trim_start_char(c, '$') != clean {
            Some(crate::text::trim_start_char(c, '$'))
        } else {
            None
        },
        None => None,
    }
}

/// The old name whose references saving renames, if any.
pub fn rename_needed(current: Option<&str>, clean: &str) -> (r: Option<String>)
    ensures
        opt_view(r) == renamed_from(
            match current {
                Some(c) => Some(c@),
                None => None,
            },
            clean@,
        ),
{
    match current {
        Some(c) => {
            let old = crate::text::trim_start_char_exec(&chars_of(c), '$');
            if eq_chars(&old, &chars_of(clean)) {
                None
            } else {
                Some(string_of(&old))
            }
        },
        None => None,
    }
}

/// The message after a variable was saved: with the refactor asked for,
/// how many usages it turned into references.
pub open spec fn saved_message_text(refactored: Option<u64>) -> Seq<char> {
    match refactored {
        Some(n) => if n > 0 {
            "Saved successfully. Refactored "@ + crate::numbers::nat_text(n as nat) + " usages."@
        } else {
            "Saved successfully. No usages found to refactor."@
        },
        None => "Saved successfully"@,
    }
}

/// The message after saving; `refactored` is the count of the refactor
/// when it was asked for.
pub fn saved_message(refactored: Option<u64>) -> (r: String)
    ensures
        r@ == saved_message_text(refactored),
{
    match refactored {
        Some(n) => if n > 0 {
            let mut out = chars_of("Saved successfully. Refactored ");
            crate::text::append(&mut out, &crate::numbers::nat_to_text(n));
            crate::text::append(&mut out, &chars_of(" usages."));
            string_of(&out)
        } else {
            "Saved successfully. No usages found to refactor.".to_string()
        },
        None => "Saved successfully".to_string(),
    }
}

} // verus!
