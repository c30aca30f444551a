//! Searching keybinds: the query language (`mod:`, `key:`, `action:`,
//! `args:`, `desc:` filters and free text), the category filter, and the
//! fuzzy match of free text.
use crate::parser::opt_view;
use crate::text::{chars_of, eq_chars, find_char, find_char_exec, join, join_exec, lower_chars, slice, string_of, lowercase, views, words, words_exec};
use fuzzy_matcher::skim::SkimMatcherV2;
use fuzzy_matcher::FuzzyMatcher;
use vstd::prelude::*;

verus! {

broadcast use vstd::string::group_string_axioms;

// ---------------------------------------------------------------------------
// Fuzzy matching
// ---------------------------------------------------------------------------

/// `c` as `char::to_ascii_lowercase` gives it.
pub open spec fn ascii_lower(c: char) -> char {
    if 'A' <= c && c <= 'Z' {
        ((c as u32) + 32) as char
    } else {
        c
    }
}

/// Two characters are equal, ignoring ASCII case unless `case_sensitive`.
pub open spec fn char_matches(a: char, b: char, case_sensitive: bool) -> bool {
    if case_sensitive {
        a == b
    } else {
        ascii_lower(a) == ascii_lower(b)
    }
}

/// The characters of `pattern` occur in `choice` in order.
pub open spec fn in_order(choice: Seq<char>, pattern: Seq<char>, case_sensitive: bool) -> bool
    decreases choice.len(),
{
    if pattern.len() == 0 {
        true
    } else if choice.len() == 0 {
        false
    } else if char_matches(choice[0], pattern[0], case_sensitive) {
        in_order(choice.drop_first(), pattern.drop_first(), case_sensitive)
    } else {
        in_order(choice.drop_first(), pattern, case_sensitive)
    }
}

/// The pattern holds an ASCII uppercase letter.
pub open spec fn has_ascii_upper(p: Seq<char>) -> bool {
    exists|i: int| 0 <= i < p.len() && 'A' <= #[trigger] p[i] && p[i] <= 'Z'
}

/// Whether the fuzzy matcher accepts `pattern` for `choice`: an empty
/// pattern always; else its characters must occur in `choice` in order,
/// case-insensitively for ASCII unless the pattern has an uppercase ASCII
/// letter.
pub open spec fn fuzzy_accepts(choice: Seq<char>, pattern: Seq<char>) -> bool {
    pattern.len() == 0 || in_order(choice, pattern, has_ascii_upper(pattern))
}

/// The score of `fuzzy_matcher`'s default `SkimMatcherV2` for `pattern`
/// in `choice`. The contract states only when there is a score: the
/// matcher returns one exactly when the pattern is empty or its characters
/// occur in the choice in order (its `cheap_matches` test), comparing ASCII
/// letters without case unless the pattern has an ASCII uppercase letter;
/// the score's value is not stated.
#[verifier::external_body]
fn skim_fuzzy_match(choice: &str, pattern: &str) -> (r: Option<i64>)
    ensures
        r is Some <==> fuzzy_accepts(choice@, pattern@),
{
    SkimMatcherV2::default().fuzzy_match(choice, pattern)
}

/// Whether the fuzzy matcher finds `pattern` in `choice`.
pub fn fuzzy_matches(choice: &str, pattern: &str) -> (r: bool)
    ensures
        r == fuzzy_accepts(choice@, pattern@),
{
    skim_fuzzy_match(choice, pattern).is_some()
}

// ---------------------------------------------------------------------------
// The query
// ---------------------------------------------------------------------------

/// A parsed search: the field filters and the free text.
pub struct SearchQuery {
    pub mods: Option<String>,
    pub key: Option<String>,
    pub action: Option<String>,
    pub args: Option<String>,
    pub description: Option<String>,
    pub general_query: String,
}

/// A parsed search as plain values.
pub ghost struct SearchQueryView {
    pub mods: Option<Seq<char>>,
    pub key: Option<Seq<char>>,
    pub action: Option<Seq<char>>,
    pub args: Option<Seq<char>>,
    pub description: Option<Seq<char>>,
    pub general_query: Seq<char>,
}

impl View for SearchQuery {
    type V = SearchQueryView;

    open spec fn view(&self) -> SearchQueryView {
        SearchQueryView {
            mods: opt_view(self.mods),
            key: opt_view(self.key),
            action: opt_view(self.action),
            args: opt_view(self.args),
            description: opt_view(self.description),
            general_query: self.general_query@,
        }
    }
}

/// The filters found so far and the free-text words.
pub ghost struct QueryParts {
    pub mods: Option<Seq<char>>,
    pub key: Option<Seq<char>>,
    pub action: Option<Seq<char>>,
    pub args: Option<Seq<char>>,
    pub description: Option<Seq<char>>,
    pub terms: Seq<Seq<char>>,
}

/// What one word of the search adds, once lowercased: `tag:value` with a
/// known tag and a nonempty value sets that filter (a later one wins);
/// anything else is a free-text word.
pub open spec fn apply_token(q: QueryParts, tok: Seq<char>) -> QueryParts {
    let lt = lowercase(tok);
    match find_char(lt, ':') {
        Some(k) => {
            let tag = lt.take(k);
            let value = lt.skip(k + 1);
            if value.len() == 0 {
                QueryParts { terms: q.terms.push(lt), ..q }
            } else if tag == "mod"@ || tag == "mods"@ {
                QueryParts { mods: Some(value), ..q }
            } else if tag == "key"@ {
                QueryParts { key: Some(value), ..q }
            } else if tag == "act"@ || tag == "action"@ || tag == "disp"@ || tag == "dispatcher"@ {
                QueryParts { action: Some(value), ..q }
            } else if tag == "arg"@ || tag == "args"@ {
                QueryParts { args: Some(value), ..q }
            } else if tag == "desc"@ || tag == "description"@ {
                QueryParts { description: Some(value), ..q }
            } else {
                QueryParts { terms: q.terms.push(lt), ..q }
            }
        },
        None => QueryParts { terms: q.terms.push(lt), ..q },
    }
}

/// The filters and words of a list of search words.
pub open spec fn query_parts(toks: Seq<Seq<char>>) -> QueryParts
    decreases toks.len(),
{
    if toks.len() == 0 {
        QueryParts { mods: None, key: None, action: None, args: None, description: None, terms: seq![] }
    } else {
        apply_token(query_parts(toks.drop_last()), toks.last())
    }
}

/// The query a search text stands for: its whitespace-separated words
/// read in order, the free-text words joined by single spaces.
pub open spec fn parsed_query(text: Seq<char>) -> SearchQueryView {
    let p = query_parts(words(text));
    SearchQueryView {
        mods: p.mods,
        key: p.key,
        action: p.action,
        args: p.args,
        description: p.description,
        general_query: join(p.terms, seq![' ']),
    }
}

fn opt_chars_string(o: &Option<Vec<char>>) -> (r: Option<String>)
    ensures
        opt_view(r) == match o {
            Some(v) => Some(v@),
            None => None::<Seq<char>>,
        },
{
    match o {
        Some(v) => Some(string_of(v)),
        None => None,
    }
}

impl SearchQuery {
    /// Reads a search text into its filters and free text.
    pub fn parse(text: &str) -> (r: SearchQuery)
        ensures
            r@ == parsed_query(text@),
    {
        let toks = words_exec(&chars_of(text));
        let ghost tv = views(toks@);
        let mut mods: Option<Vec<char>> = None;
        let mut key: Option<Vec<char>> = None;
        let mut action: Option<Vec<char>> = None;
        let mut args: Option<Vec<char>> = None;
        let mut description: Option<Vec<char>> = None;
        let mut terms: Vec<Vec<char>> = Vec::new();
        let mut i: usize = 0;
        while i < toks.len()
            invariant
                i <= toks@.len(),
                tv == views(toks@),
                tv == words(text@),
                ({
                    let p = query_parts(tv.take(i as int));
                    &&& p.mods == match mods {
                        Some(v) => Some(v@),
                        None => None::<Seq<char>>,
                    }
                    &&& p.key == match key {
                        Some(v) => Some(v@),
                        None => None::<Seq<char>>,
                    }
                    &&& p.action == match action {
                        Some(v) => Some(v@),
                        None => None::<Seq<char>>,
                    }
                    &&& p.args == match args {
                        Some(v) => Some(v@),
                        None => None::<Seq<char>>,
                    }
                    &&& p.description == match description {
                        Some(v) => Some(v@),
                        None => None::<Seq<char>>,
                    }
                    &&& p.terms == views(terms@)
                }),
            decreases toks@.len() - i,
        {
            assert(tv.take(i + 1).drop_last() =~= tv.take(i as int));
            assert(tv.take(i + 1).last() == toks@[i as int]@);
            let lt = lower_chars(&toks[i]);
            let ghost old_terms = views(terms@);
            let mut is_term = true;
            match find_char_exec(&lt, ':') {
                Some(k) => {
                    proof {
                        crate::text::lemma_find_from(lt@, seq![':'], 0);
                    }
                    assert(crate::text::occurs_at(lt@, seq![':'], k as int));
                    assert(k < lt.len());
                    let tag = slice(&lt, 0, k);
                    let value = slice(&lt, k + 1, lt.len());
                    assert(tag@ =~= lt@.take(k as int));
                    assert(value@ =~= lt@.skip(k + 1));
                    if value.len() > 0 {
                        if eq_chars(&tag, &chars_of("mod")) || eq_chars(&tag, &chars_of("mods")) {
                            mods = Some(value);
                            is_term = false;
                        } else if eq_chars(&tag, &chars_of("key")) {
                            key = Some(value);
                            is_term = false;
                        } else if eq_chars(&tag, &chars_of("act")) || eq_chars(&tag, &chars_of("action"))
                            || eq_chars(&tag, &chars_of("disp")) || eq_chars(
                            &tag,
                            &chars_of("dispatcher"),
                        ) {
                            action = Some(value);
                            is_term = false;
                        } else if eq_chars(&tag, &chars_of("arg")) || eq_chars(&tag, &chars_of("args")) {
                            args = Some(value);
                            is_term = false;
                        } else if eq_chars(&tag, &chars_of("desc")) || eq_chars(
                            &tag,
                            &chars_of("description"),
                        ) {
                            description = Some(value);
                            is_term = false;
                        }
                    }
                },
                None => {},
            }
            if is_term {
                let ghost lv = lt@;
                terms.push(lt);
                assert(views(terms@) =~= old_terms.push(lv));
            }
            i = i + 1;
        }
        assert(tv.take(i as int) =~= tv);
        let sp = vec![' '];
        assert(sp@ == seq![' ']);
        SearchQuery {
            mods: opt_chars_string(&mods),
            key: opt_chars_string(&key),
            action: opt_chars_string(&action),
            args: opt_chars_string(&args),
            description: opt_chars_string(&description),
            general_query: string_of(&join_exec(&terms, &sp)),
        }
    }
}

} // verus!
