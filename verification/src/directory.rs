//! The library's directory names and the path string helpers: the last
//! component of a path, its stem and its extension.
//!
//! A path is treated as text: components are separated by `/` or `\`,
//! and the extension is whatever follows the last dot of the last
//! component, provided that dot is not its first character.

use vstd::prelude::*;
use crate::text::chars_of;
use crate::text::string_from_chars;

verus! {

/// The directories the application keeps.
pub enum Dir {
    Root,
    Data,
    Index,
    Thumbnails,
    Config,
}

impl Dir {
    /// The directory's on-disk name.
    pub fn to_string(&self) -> (r: &'static str)
        ensures
            r@ == self.spec_name(),
    {
        match self {
            Dir::Root => "Focular",
            Dir::Data => "data",
            Dir::Index => "index",
            Dir::Thumbnails => "thumbnails",
            Dir::Config => "config",
        }
    }

    /// The name each directory maps to.
    pub open spec fn spec_name(&self) -> Seq<char> {
        match self {
            Dir::Root => "Focular"@,
            Dir::Data => "data"@,
            Dir::Index => "index"@,
            Dir::Thumbnails => "thumbnails"@,
            Dir::Config => "config"@,
        }
    }
}

/// The path separators.
pub open spec fn is_sep(c: char) -> bool {
    c == '/' || c == '\\'
}

fn is_sep_exec(c: char) -> (b: bool)
    ensures
        b == is_sep(c),
{
    c == '/' || c == '\\'
}

/// The suffix of a path after its last separator.
pub open spec fn spec_last_component(s: Seq<char>) -> Seq<char>
    decreases s.len(),
{
    if s.len() == 0 {
        s
    } else if is_sep(s.last()) {
        Seq::empty()
    } else {
        spec_last_component(s.drop_last()).push(s.last())
    }
}

/// The index of the last dot of a component that can start an
/// extension, or a negative value when there is none. A dot in first
/// position never starts an extension.
pub open spec fn spec_last_dot(c: Seq<char>) -> int
    decreases c.len(),
{
    if c.len() <= 1 {
        -1
    } else if c.last() == '.' {
        c.len() - 1
    } else {
        spec_last_dot(c.drop_last())
    }
}

/// The extension of a path, when its last component has one.
pub open spec fn spec_extension(s: Seq<char>) -> Option<Seq<char>> {
    let c = spec_last_component(s);
    let p = spec_last_dot(c);
    if p >= 1 {
        Some(c.skip(p + 1))
    } else {
        None
    }
}

/// The stem of a path: its last component, minus the extension.
pub open spec fn spec_stem(s: Seq<char>) -> Seq<char> {
    let c = spec_last_component(s);
    let p = spec_last_dot(c);
    if p >= 1 {
        c.take(p)
    } else {
        c
    }
}

/// A suffix free of separators after a separator is the last component.
proof fn lemma_last_component_after_sep(s: Seq<char>, q: int)
    requires
        0 <= q < s.len(),
        is_sep(s[q]),
        forall|k: int| q < k < s.len() ==> !is_sep(s[k]),
    ensures
        spec_last_component(s) == s.skip(q + 1),
    decreases s.len(),
{
    if q == s.len() - 1 {
        assert(spec_last_component(s) =~= s.skip(q + 1));
    } else {
        lemma_last_component_after_sep(s.drop_last(), q);
        assert(s.drop_last().skip(q + 1) =~= s.skip(q + 1).drop_last());
        assert(spec_last_component(s) =~= s.skip(q + 1));
    }
}

/// A path without separators is its own last component.
proof fn lemma_last_component_no_sep(s: Seq<char>)
    requires
        forall|k: int| 0 <= k < s.len() ==> !is_sep(s[k]),
    ensures
        spec_last_component(s) == s,
    decreases s.len(),
{
    if s.len() > 0 {
        lemma_last_component_no_sep(s.drop_last());
        assert(spec_last_component(s) =~= s);
    }
}

/// The position of a dot with no later dot is the last dot.
proof fn lemma_last_dot_at(c: Seq<char>, p: int)
    requires
        1 <= p < c.len(),
        c[p] == '.',
        forall|k: int| p < k < c.len() ==> c[k] != '.',
    ensures
        spec_last_dot(c) == p,
    decreases c.len(),
{
    if p < c.len() - 1 {
        lemma_last_dot_at(c.drop_last(), p);
    }
}

/// A component with no dot past its first character has no extension
/// dot.
proof fn lemma_last_dot_none(c: Seq<char>)
    requires
        forall|k: int| 1 <= k < c.len() ==> c[k] != '.',
    ensures
        spec_last_dot(c) == -1,
    decreases c.len(),
{
    if c.len() > 1 {
        lemma_last_dot_none(c.drop_last());
    }
}

/// The last component of a path, computed.
fn last_component_chars(path: &str) -> (r: Vec<char>)
    ensures
        r@ == spec_last_component(path@),
{
    let cs = chars_of(path);
    let n = cs.len();
    // Find where the last component starts.
    let mut start: usize = 0;
    let mut i: usize = 0;
    while i < n
        invariant
            i <= n == cs@.len(),
            cs@ == path@,
            0 <= start <= i,
            start > 0 ==> is_sep(cs@[start - 1]),
            forall|k: int| start <= k < i ==> !is_sep(cs@[k]),
        decreases n - i,
    {
        if is_sep_exec(cs[i]) {
            start = i + 1;
        }
        i = i + 1;
    }
    let mut out: Vec<char> = Vec::new();
    let mut j: usize = start;
    while j < n
        invariant
            start <= j <= n == cs@.len(),
            cs@ == path@,
            out@ == cs@.subrange(start as int, j as int),
        decreases n - j,
    {
        out.push(cs[j]);
        proof {
            assert(cs@.subrange(start as int, j + 1) =~= cs@.subrange(start as int, j as int).push(
                cs@[j as int],
            ));
        }
        j = j + 1;
    }
    proof {
        if start == 0 {
            lemma_last_component_no_sep(path@);
            assert(out@ =~= path@);
        } else {
            lemma_last_component_after_sep(path@, start - 1);
            assert(out@ =~= path@.skip(start as int));
        }
    }
    out
}

/// Where the extension of a component starts, if anywhere.
fn last_dot_index(c: &Vec<char>) -> (r: Option<usize>)
    ensures
        match r {
            Some(p) => p == spec_last_dot(c@) && 1 <= p < c@.len(),
            None => spec_last_dot(c@) == -1,
        },
{
    let n = c.len();
    let mut best: Option<usize> = None;
    let mut i: usize = 1;
    while i < n
        invariant
            1 <= i <= n || (n == 0 && i == 1),
            n == c@.len(),
            match best {
                Some(p) => 1 <= p < i && c@[p as int] == '.' && (forall|k: int|
                    p < k < i ==> c@[k] != '.'),
                None => forall|k: int| 1 <= k < i ==> c@[k] != '.',
            },
        decreases n - i,
    {
        if c[i] == '.' {
            best = Some(i);
        }
        i = i + 1;
    }
    proof {
        match best {
            Some(p) => {
                lemma_last_dot_at(c@, p as int);
            },
            None => {
                lemma_last_dot_none(c@);
            },
        }
    }
    best
}

/// The extension of a path, as the classifier's fallback sees it.
pub fn extension_from_path(filename: &str) -> (r: Option<String>)
    ensures
        match r {
            Some(e) => spec_extension(filename@) == Some(e@),
            None => spec_extension(filename@) is None,
        },
{
    let c = last_component_chars(filename);
    match last_dot_index(&c) {
        Some(p) => {
            let n = c.len();
            let mut out: Vec<char> = Vec::new();
            let mut j: usize = p + 1;
            while j < n
                invariant
                    p + 1 <= j <= n == c@.len(),
                    out@ == c@.subrange(p + 1, j as int),
                decreases n - j,
            {
                out.push(c[j]);
                proof {
                    assert(c@.subrange(p + 1, j + 1) =~= c@.subrange(p + 1, j as int).push(
                        c@[j as int],
                    ));
                }
                j = j + 1;
            }
            proof {
                assert(out@ =~= c@.skip(p + 1));
            }
            Some(string_from_chars(&out))
        },
        None => None,
    }
}

/// The display name a path yields: its file stem.
pub fn file_stem(path: &str) -> (r: String)
    ensures
        r@ == spec_stem(path@),
{
    let c = last_component_chars(path);
    match last_dot_index(&c) {
        Some(p) => {
            let mut out: Vec<char> = Vec::new();
            let mut j: usize = 0;
            while j < p
                invariant
                    j <= p < c@.len(),
                    out@ == c@.subrange(0, j as int),
                decreases p - j,
            {
                out.push(c[j]);
                proof {
                    assert(c@.subrange(0, j + 1) =~= c@.subrange(0, j as int).push(c@[j as int]));
                }
                j = j + 1;
            }
            proof {
                assert(out@ =~= c@.take(p as int));
            }
            string_from_chars(&out)
        },
        None => string_from_chars(&c),
    }
}

} // verus!
