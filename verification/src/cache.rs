//! The parsed configuration kept between reads, and when it may be used:
//! only while every file it was read from is unchanged.
use crate::parser::{Keybind, Variable};
use crate::text::{chars_of, eq_chars};
use crate::vars::VarMap;
use vstd::prelude::*;

verus! {

broadcast use vstd::string::group_string_axioms;

/// A file that was read, with its modification time (nanoseconds from the
/// Unix epoch) and size when it was read.
pub struct FileStamp {
    pub path: String,
    pub modified: i128,
    pub size: u64,
}

/// What a parse of the configuration gave.
pub struct CacheState {
    pub keybinds: Vec<Keybind>,
    pub variables: VarMap,
    pub defined_variables: Vec<Variable>,
    pub loaded_files: Vec<String>,
    pub stamps: Vec<FileStamp>,
    pub main_path: String,
}

/// The configuration kept from the last parse, if any.
pub struct ParserCache {
    pub state: Option<CacheState>,
}

/// The kept parse may be used: it was made from the same main file, and
/// each file it was read from is still there with the same modification
/// time and size (`current[i]` is what the file of `stamps[i]` has now,
/// none when it cannot be read).
pub open spec fn cache_valid(state: &CacheState, main_path: Seq<char>, current: Seq<Option<(i128, u64)>>) -> bool {
    &&& state.main_path@ == main_path
    &&& current.len() == state.stamps@.len()
    &&& forall|i: int|
        0 <= i < current.len() ==> #[trigger] current[i] == Some(
            (state.stamps@[i].modified, state.stamps@[i].size),
        )
}

impl ParserCache {
    /// Nothing kept.
    pub fn new() -> (c: ParserCache)
        ensures
            c.state is None,
    {
        ParserCache { state: None }
    }

    /// Keeps a new parse.
    pub fn store(&mut self, state: CacheState)
        ensures
            final(self).state == Some(state),
    {
        self.state = Some(state);
    }

    /// The kept parse, when it may be used.
    pub fn valid_state(&self, main_path: &str, current: &[Option<(i128, u64)>]) -> (r: Option<&CacheState>)
        ensures
            match self.state {
                Some(s) => if cache_valid(&s, main_path@, current@) {
                    r == Some(&s)
                } else {
                    r is None
                },
                None => r is None,
            },
    {
        match &self.state {
            None => None,
            Some(s) => {
                if !eq_chars(&chars_of(s.main_path.as_str()), &chars_of(main_path)) {
                    return None;
                }
                if current.len() != s.stamps.len() {
                    return None;
                }
                let mut i: usize = 0;
                while i < current.len()
                    invariant
                        i <= current@.len(),
                        self.state == Some(*s),
                        s.main_path@ == main_path@,
                        current@.len() == s.stamps@.len(),
                        forall|j: int|
                            0 <= j < i ==> #[trigger] current@[j] == Some(
                                (s.stamps@[j].modified, s.stamps@[j].size),
                            ),
                    decreases current@.len() - i,
                {
                    let same = match current[i] {
                        Some((m, z)) => m == s.stamps[i].modified && z == s.stamps[i].size,
                        None => false,
                    };
                    if !same {
                        assert(current@[i as int] != Some((s.stamps@[i as int].modified, s.stamps@[i as int].size)));
                        assert(!cache_valid(s, main_path@, current@));
                        return None;
                    }
                    i = i + 1;
                }
                Some(s)
            },
        }
    }
}

/// Drops the kept parse, so that the next read parses the files again.
pub fn invalidate_parser_cache(cache: &mut ParserCache)
    ensures
        final(cache).state is None,
{
    cache.state = None;
}

/// The variables of the kept parse, when it may be used; none means the
/// configuration must be read again.
pub fn get_variables<'a>(cache: &'a ParserCache, main_path: &str, current: &[Option<(i128, u64)>]) -> (r:
    Option<&'a VarMap>)
    ensures
        match cache.state {
            Some(s) => if cache_valid(&s, main_path@, current@) {
                r == Some(&s.variables)
            } else {
                r is None
            },
            None => r is None,
        },
{
    match cache.valid_state(main_path, current) {
        Some(s) => Some(&s.variables),
        None => None,
    }
}

/// The variable definitions of the kept parse, when it may be used.
pub fn get_defined_variables<'a>(cache: &'a ParserCache, main_path: &str, current: &[Option<(i128, u64)>]) -> (r:
    Option<&'a Vec<Variable>>)
    ensures
        match cache.state {
            Some(s) => if cache_valid(&s, main_path@, current@) {
                r == Some(&s.defined_variables)
            } else {
                r is None
            },
            None => r is None,
        },
{
    match cache.valid_state(main_path, current) {
        Some(s) => Some(&s.defined_variables),
        None => None,
    }
}

/// The files of the kept parse, when it may be used.
pub fn get_loaded_files<'a>(cache: &'a ParserCache, main_path: &str, current: &[Option<(i128, u64)>]) -> (r:
    Option<&'a Vec<String>>)
    ensures
        match cache.state {
            Some(s) => if cache_valid(&s, main_path@, current@) {
                r == Some(&s.loaded_files)
            } else {
                r is None
            },
            None => r is None,
        },
{
    match cache.valid_state(main_path, current) {
        Some(s) => Some(&s.loaded_files),
        None => None,
    }
}

} // verus!
