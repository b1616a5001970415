//! Cell text cleanup.
//!
//! The raw text of a cell may hold nested markup and control whitespace.
//! Cleaning drops every tag (the `<`/`>` delimiters included), collapses
//! each run of whitespace to one space, and trims both ends.

use vstd::prelude::*;
use crate::chars::chars_to_string;
use crate::chars::str_to_chars;

verus! {

/// A whitespace character for cell cleaning: the characters with the
/// Unicode `White_Space` property — the ASCII whitespace controls and
/// space, next-line, and the Unicode space and line separators.
pub open spec fn is_ws(c: char) -> bool {
    ||| c == ' '
    ||| c == '\t'
    ||| c == '\n'
    ||| c == '\u{000B}'
    ||| c == '\u{000C}'
    ||| c == '\r'
    ||| c == '\u{0085}'
    ||| c == '\u{00A0}'
    ||| c == '\u{1680}'
    ||| c == '\u{2000}'
    ||| c == '\u{2001}'
    ||| c == '\u{2002}'
    ||| c == '\u{2003}'
    ||| c == '\u{2004}'
    ||| c == '\u{2005}'
    ||| c == '\u{2006}'
    ||| c == '\u{2007}'
    ||| c == '\u{2008}'
    ||| c == '\u{2009}'
    ||| c == '\u{200A}'
    ||| c == '\u{2028}'
    ||| c == '\u{2029}'
    ||| c == '\u{202F}'
    ||| c == '\u{205F}'
    ||| c == '\u{3000}'
}

/// Whether `c` counts as whitespace for cell cleaning.
pub fn is_ws_char(c: char) -> (r: bool)
    ensures
        r == is_ws(c),
{
    c == ' ' || c == '\t' || c == '\n' || c == '\u{000B}' || c == '\u{000C}' || c == '\r'
        || c == '\u{0085}' || c == '\u{00A0}' || c == '\u{1680}'
        || (c >= '\u{2000}' && c <= '\u{200A}') || c == '\u{2028}' || c == '\u{2029}'
        || c == '\u{202F}' || c == '\u{205F}' || c == '\u{3000}'
}

/// The characters of `s` standing outside markup tags: a `<` opens a tag,
/// the next `>` closes it, and everything in between, the two delimiters
/// included, is dropped. `in_tag` says whether the scan starts inside a tag.
pub open spec fn strip_tags(s: Seq<char>, in_tag: bool) -> Seq<char>
    decreases s.len(),
{
    if s.len() == 0 {
        Seq::empty()
    } else if s[0] == '<' {
        strip_tags(s.drop_first(), true)
    } else if s[0] == '>' {
        strip_tags(s.drop_first(), false)
    } else if in_tag {
        strip_tags(s.drop_first(), true)
    } else {
        seq![s[0]] + strip_tags(s.drop_first(), false)
    }
}

/// Whitespace normalization: each run of whitespace collapses to a single
/// space, and leading and trailing whitespace is dropped. `started` says
/// whether a character was already emitted before `s`; `pending` says
/// whether whitespace was seen since then.
pub open spec fn collapse_ws(s: Seq<char>, started: bool, pending: bool) -> Seq<char>
    decreases s.len(),
{
    if s.len() == 0 {
        Seq::empty()
    } else if is_ws(s[0]) {
        collapse_ws(s.drop_first(), started, true)
    } else {
        (if started && pending {
            seq![' ']
        } else {
            Seq::<char>::empty()
        }) + seq![s[0]] + collapse_ws(s.drop_first(), true, false)
    }
}

/// The cleaned text of one cell: markup stripped, whitespace collapsed,
/// both ends trimmed.
pub open spec fn spec_clean(s: Seq<char>) -> Seq<char> {
    collapse_ws(strip_tags(s, false), false, false)
}

/// Drops markup tags from `s`.
pub fn strip_tags_chars(s: &Vec<char>) -> (r: Vec<char>)
    ensures
        r@ == strip_tags(s@, false),
{
    let mut r: Vec<char> = Vec::new();
    let mut in_tag: bool = false;
    let mut i: usize = 0;
    proof {
        assert(s@.skip(0) =~= s@);
        assert(Seq::<char>::empty() + strip_tags(s@, false) =~= strip_tags(s@, false));
    }
    while i < s.len()
        invariant
            i <= s@.len(),
            strip_tags(s@, false) == r@ + strip_tags(s@.skip(i as int), in_tag),
        decreases s@.len() - i,
    {
        let c = s[i];
        proof {
            assert(s@.skip(i as int)[0] == s@[i as int]);
            assert(s@.skip(i as int).drop_first() =~= s@.skip(i + 1));
        }
        if c == '<' {
            in_tag = true;
        } else if c == '>' {
            in_tag = false;
        } else if !in_tag {
            r.push(c);
            proof {
                assert(r@ + strip_tags(s@.skip(i + 1), false) =~= strip_tags(s@, false));
            }
        }
        i = i + 1;
    }
    proof {
        assert(s@.skip(i as int) =~= Seq::<char>::empty());
        assert(r@ + strip_tags(s@.skip(i as int), in_tag) =~= r@);
    }
    r
}

/// Collapses whitespace runs to single spaces and trims both ends.
pub fn collapse_ws_chars(s: &Vec<char>) -> (r: Vec<char>)
    ensures
        r@ == collapse_ws(s@, false, false),
{
    let mut r: Vec<char> = Vec::new();
    let mut started: bool = false;
    let mut pending: bool = false;
    let mut i: usize = 0;
    proof {
        assert(s@.skip(0) =~= s@);
        assert(Seq::<char>::empty() + collapse_ws(s@, false, false) =~= collapse_ws(s@, false, false));
    }
    while i < s.len()
        invariant
            i <= s@.len(),
            collapse_ws(s@, false, false) == r@ + collapse_ws(s@.skip(i as int), started, pending),
        decreases s@.len() - i,
    {
        let c = s[i];
        proof {
            assert(s@.skip(i as int)[0] == s@[i as int]);
            assert(s@.skip(i as int).drop_first() =~= s@.skip(i + 1));
        }
        if is_ws_char(c) {
            pending = true;
        } else {
            if started && pending {
                r.push(' ');
            }
            r.push(c);
            started = true;
            pending = false;
            proof {
                assert(r@ + collapse_ws(s@.skip(i + 1), true, false) =~= collapse_ws(s@, false, false));
            }
        }
        i = i + 1;
    }
    proof {
        assert(s@.skip(i as int) =~= Seq::<char>::empty());
        assert(r@ + collapse_ws(s@.skip(i as int), started, pending) =~= r@);
    }
    r
}

/// Cleans the raw text of one cell, working on character vectors.
pub fn clean_chars(v: &Vec<char>) -> (r: Vec<char>)
    ensures
        r@ == spec_clean(v@),
{
    let stripped = strip_tags_chars(v);
    collapse_ws_chars(&stripped)
}

/// Cleans the raw text of one cell: any nested markup is dropped, runs of
/// whitespace collapse to one space, and leading and trailing whitespace
/// is trimmed.
pub fn clean_cell_content(content: &str) -> (r: String)
    ensures
        r@ == spec_clean(content@),
{
    let cs = str_to_chars(content);
    let cleaned = clean_chars(&cs);
    chars_to_string(&cleaned)
}

} // verus!
