//! A validated dotted path: parts split on a configurable separator,
//! lowercased, each part either the separator itself, a permitted wildcard
//! token, or a word of the part grammar.

use vstd::prelude::*;
use vstd::string::StringExecFns;

use crate::collections::metadata::Metadata;
use crate::errors::error::Define;
use crate::errors::error::Error;
use crate::text::chars_eq;
use crate::text::chars_of;
use crate::text::join_with;
use crate::text::join_strings;
use crate::text::lemma_split_on_len;
use crate::text::lower_of;
use crate::text::split_chars;
use crate::text::split_on;
use crate::text::string_of_chars;
use crate::text::to_lower;

verus! {

/// Failure of path validation.
pub enum PathError {
    Invalid,
}

impl Define for PathError {
    fn define(&self) -> &str {
        match self {
            PathError::Invalid => "path.invalid",
        }
    }
}

impl PathError {
    /// The stable code for this kind, as an owned string.
    fn code_string(&self) -> (r: String)
        ensures
            r@ == "path.invalid"@,
    {
        match self {
            PathError::Invalid => String::from_str("path.invalid"),
        }
    }
}

pub open spec fn is_lower_alpha(c: char) -> bool {
    97 <= (c as u32) <= 122
}

pub open spec fn is_lower_alnum(c: char) -> bool {
    is_lower_alpha(c) || (48 <= (c as u32) <= 57)
}

/// The word shape a plain part must have: at least two characters, a
/// lowercase letter first, a lowercase letter or digit last, and only
/// lowercase letters, digits and underscores between them.
pub open spec fn part_word_ok(s: Seq<char>) -> bool {
    s.len() >= 2 && is_lower_alpha(s[0]) && is_lower_alnum(s[s.len() - 1]) && (forall|i: int|
        1 <= i < s.len() - 1 ==> is_lower_alnum(#[trigger] s[i]) || s[i] == '_')
}

/// A part passes when it equals the separator, is one of the permitted
/// wildcard tokens, or has the plain word shape.
pub open spec fn spec_part_valid(part: Seq<char>, sep: Seq<char>, wildcards: Seq<Seq<char>>) -> bool {
    part == sep || wildcards.contains(part) || part_word_ok(part)
}

/// Whether the part has the plain word shape.
fn part_word_check(v: &Vec<char>) -> (r: bool)
    ensures
        r == part_word_ok(v@),
{
    if v.len() < 2 {
        return false;
    }
    let first = v[0] as u32;
    if !(97 <= first && first <= 122) {
        return false;
    }
    let last = v[v.len() - 1] as u32;
    if !((97 <= last && last <= 122) || (48 <= last && last <= 57)) {
        return false;
    }
    let mut i: usize = 1;
    while i < v.len() - 1
        invariant
            1 <= i <= v@.len() - 1,
            v@.len() >= 2,
            forall|k: int| 1 <= k < i ==> is_lower_alnum(#[trigger] v@[k]) || v@[k] == '_',
        decreases v@.len() - i,
    {
        let c = v[i];
        let u = c as u32;
        let ok = (97 <= u && u <= 122) || (48 <= u && u <= 57) || c == '_';
        if !ok {
            return false;
        }
        i = i + 1;
    }
    true
}

/// Decides `spec_part_valid` on strings.
pub fn is_part_valid(part: &str, separator: &str, wildcards: &[String]) -> (r: bool)
    ensures
        r == spec_part_valid(part@, separator@, wildcards.deep_view()),
{
    let pv = chars_of(part);
    let sv = chars_of(separator);
    if chars_eq(&pv, &sv) {
        return true;
    }
    let mut i: usize = 0;
    while i < wildcards.len()
        invariant
            i <= wildcards@.len(),
            pv@ == part@,
            forall|k: int| 0 <= k < i ==> wildcards.deep_view()[k] != part@,
        decreases wildcards@.len() - i,
    {
        let wv = chars_of(wildcards[i].as_str());
        if chars_eq(&pv, &wv) {
            proof {
                assert(wildcards.deep_view()[i as int] == part@);
                assert(wildcards.deep_view().contains(part@));
            }
            return true;
        }
        proof {
            assert(wildcards.deep_view()[i as int] == wildcards@[i as int]@);
        }
        i = i + 1;
    }
    proof {
        if wildcards.deep_view().contains(part@) {
            let k = choose|k: int|
                0 <= k < wildcards.deep_view().len() && wildcards.deep_view()[k] == part@;
            assert(false);
        }
    }
    part_word_check(&pv)
}

/// A validated path: its lowercased parts, the separator they were split
/// on, and the wildcard tokens that were permitted.
#[derive(Debug, Clone, PartialEq)]
pub struct Path {
    parts: Vec<String>,
    separator: String,
    wildcards: Vec<String>,
}

impl Path {
    /// The lowercased parts, in order.
    pub closed spec fn spec_parts(&self) -> Seq<Seq<char>> {
        Seq::new(self.parts@.len(), |i: int| self.parts@[i]@)
    }

    pub closed spec fn spec_separator(&self) -> Seq<char> {
        self.separator@
    }

    pub closed spec fn spec_wildcards(&self) -> Seq<Seq<char>> {
        Seq::new(self.wildcards@.len(), |i: int| self.wildcards@[i]@)
    }

    /// The parts `path` splits into on `separator`, each lowercased: what
    /// a successful construction holds.
    pub open spec fn spec_split_lower(path: Seq<char>, separator: Seq<char>) -> Seq<Seq<char>> {
        split_on(path, separator).map_values(|p: Seq<char>| lower_of(p))
    }

    /// Splits `path` on `separator`, lowercases every part, and validates
    /// each one; succeeds exactly when every lowercased part is valid, and
    /// then holds exactly those parts.
    pub fn new(path: String, separator: String, wildcards: Vec<String>) -> (r: Result<Path, Error>)
        ensures
            r is Ok <==> (forall|k: int|
                0 <= k < Path::spec_split_lower(path@, separator@).len()
                    ==> spec_part_valid(
                    #[trigger] Path::spec_split_lower(path@, separator@)[k],
                    separator@,
                    wildcards.deep_view(),
                )),
            r matches Ok(p) ==> p.spec_parts() == Path::spec_split_lower(path@, separator@)
                && p.spec_separator() == separator@ && p.spec_wildcards() == wildcards.deep_view(),
            r matches Err(e) ==> e.spec_code() == "path.invalid"@ && e.spec_message()
                == "path part has invalid characters"@,
    {
        let pv = chars_of(path.as_str());
        let sv = chars_of(separator.as_str());
        let raw = split_chars(&pv, &sv);
        let ghost lowered = Path::spec_split_lower(path@, separator@);
        proof {
            lemma_split_on_len(path@, separator@);
        }
        let mut parts: Vec<String> = Vec::new();
        let mut i: usize = 0;
        while i < raw.len()
            invariant
                i <= raw@.len(),
                raw@.len() == split_on(path@, separator@).len(),
                forall|k: int| 0 <= k < raw@.len() ==> #[trigger] raw@[k]@ == split_on(
                    path@,
                    separator@,
                )[k],
                lowered == Path::spec_split_lower(path@, separator@),
                lowered.len() == raw@.len(),
                parts@.len() == i,
                forall|k: int| 0 <= k < i ==> #[trigger] parts@[k]@ == lowered[k],
                forall|k: int| 0 <= k < i ==> spec_part_valid(
                    #[trigger] lowered[k],
                    separator@,
                    wildcards.deep_view(),
                ),
            decreases raw@.len() - i,
        {
            let s = string_of_chars(&raw[i]);
            let low = to_lower(s.as_str());
            proof {
                assert(lowered[i as int] == lower_of(raw@[i as int]@));
            }
            if !is_part_valid(low.as_str(), separator.as_str(), wildcards.as_slice()) {
                return Err(
                    Error::with_code(
                        PathError::Invalid.code_string(),
                        String::from_str("path part has invalid characters"),
                        Some(Metadata::with(String::from_str("part"), low.as_str())),
                    ),
                );
            }
            parts.push(low);
            i = i + 1;
        }
        let p = Path { parts, separator, wildcards };
        proof {
            assert(p.spec_parts() =~= lowered);
            assert(p.spec_wildcards() =~= p.wildcards.deep_view());
        }
        Ok(p)
    }

    /// The lowercased parts, in order.
    pub fn parts(&self) -> (r: &[String])
        ensures
            r@.len() == self.spec_parts().len(),
            forall|k: int| 0 <= k < r@.len() ==> #[trigger] r@[k]@ == self.spec_parts()[k],
    {
        self.parts.as_slice()
    }

    pub fn separator(&self) -> (r: &str)
        ensures
            r@ == self.spec_separator(),
    {
        self.separator.as_str()
    }

    pub fn wildcards(&self) -> (r: &[String])
        ensures
            r@.len() == self.spec_wildcards().len(),
            forall|k: int| 0 <= k < r@.len() ==> #[trigger] r@[k]@ == self.spec_wildcards()[k],
    {
        self.wildcards.as_slice()
    }

    /// The parts joined back with the separator.
    pub fn to_string(&self) -> (r: String)
        ensures
            r@ == join_with(self.spec_parts(), self.spec_separator()),
    {
        let r = join_strings(&self.parts, self.separator.as_str());
        proof {
            assert(self.parts.deep_view() =~= self.spec_parts());
        }
        r
    }
}

} // verus!
