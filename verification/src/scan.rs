//! Case-insensitive marker search over character sequences.
//!
//! Tag markers such as `<table` are matched case-insensitively: each document
//! character is compared after ASCII lowercasing against a lowercase pattern.

use vstd::prelude::*;

verus! {

/// ASCII lowercasing of one character; marker matching is case-insensitive.
pub open spec fn lower_char(c: char) -> char {
    if 'A' <= c && c <= 'Z' {
        (((c as u8) + 32) as u8) as char
    } else {
        c
    }
}

/// Lowercases one ASCII letter, leaving every other character unchanged.
pub fn to_lower(c: char) -> (r: char)
    ensures
        r == lower_char(c),
{
    if 'A' <= c && c <= 'Z' {
        ((c as u8) + 32) as char
    } else {
        c
    }
}

/// The lowercase pattern `pat` occurs at position `i` of `text`,
/// comparing case-insensitively.
pub open spec fn matches_at(text: Seq<char>, pat: Seq<char>, i: int) -> bool {
    &&& 0 <= i
    &&& i + pat.len() <= text.len()
    &&& forall|j: int| 0 <= j < pat.len() ==> lower_char(text[i + j]) == pat[j]
}

/// The position of the first case-insensitive occurrence of `pat` in `text`
/// at or after `from`, if any.
pub open spec fn spec_find(text: Seq<char>, pat: Seq<char>, from: int) -> Option<int>
    decreases text.len() - from
        when 0 <= from && pat.len() > 0
{
    if from + pat.len() > text.len() {
        None
    } else if matches_at(text, pat, from) {
        Some(from)
    } else {
        spec_find(text, pat, from + 1)
    }
}

/// What a search result means: a found position carries a match and is the
/// first one at or after `from`; a failed search means no match exists at or
/// after `from`.
pub proof fn lemma_find_props(text: Seq<char>, pat: Seq<char>, from: int)
    requires
        0 <= from,
        pat.len() > 0,
    ensures
        match spec_find(text, pat, from) {
            Some(i) => {
                &&& from <= i
                &&& matches_at(text, pat, i)
                &&& forall|k: int| from <= k < i ==> !matches_at(text, pat, k)
            },
            None => forall|k: int| from <= k ==> !matches_at(text, pat, k),
        },
    decreases text.len() - from,
{
    if from + pat.len() > text.len() {
    } else if matches_at(text, pat, from) {
    } else {
        lemma_find_props(text, pat, from + 1);
    }
}

/// The converse: a position that matches, with no match before it at or
/// after `from`, is exactly what the search finds.
pub proof fn lemma_find_exact(text: Seq<char>, pat: Seq<char>, from: int, p: int)
    requires
        0 <= from <= p,
        pat.len() > 0,
        matches_at(text, pat, p),
        forall|k: int| from <= k < p ==> !matches_at(text, pat, k),
    ensures
        spec_find(text, pat, from) == Some(p),
    decreases p - from,
{
    if from < p {
        lemma_find_exact(text, pat, from + 1, p);
    }
}

/// Lowercasing maps a character to something other than `t` only if the
/// character is neither `t` nor `T`; more generally, for a target that is
/// not a letter, only the target itself lowers to it.
pub proof fn lemma_lower_char_nonletter(c: char, t: char)
    requires
        !('a' <= t && t <= 'z'),
        !('A' <= t && t <= 'Z'),
    ensures
        (lower_char(c) == t) == (c == t),
{
    if 'A' <= c && c <= 'Z' {
        assert('a' <= lower_char(c) && lower_char(c) <= 'z');
    }
}

/// The `<table` opening marker.
pub open spec fn pat_table() -> Seq<char> {
    seq!['<', 't', 'a', 'b', 'l', 'e']
}

/// The `</table>` closing marker.
pub open spec fn pat_table_close() -> Seq<char> {
    seq!['<', '/', 't', 'a', 'b', 'l', 'e', '>']
}

/// The `<tr` opening marker.
pub open spec fn pat_tr() -> Seq<char> {
    seq!['<', 't', 'r']
}

/// The `</tr>` closing marker.
pub open spec fn pat_tr_close() -> Seq<char> {
    seq!['<', '/', 't', 'r', '>']
}

/// The `<td` opening marker.
pub open spec fn pat_td() -> Seq<char> {
    seq!['<', 't', 'd']
}

/// The `</td>` closing marker.
pub open spec fn pat_td_close() -> Seq<char> {
    seq!['<', '/', 't', 'd', '>']
}

/// The `<th` opening marker.
pub open spec fn pat_th() -> Seq<char> {
    seq!['<', 't', 'h']
}

/// The `</th>` closing marker.
pub open spec fn pat_th_close() -> Seq<char> {
    seq!['<', '/', 't', 'h', '>']
}

/// The `>` that ends an opening tag.
pub open spec fn pat_gt() -> Seq<char> {
    seq!['>']
}

/// Builds the `<table` marker.
pub fn pat_table_vec() -> (r: Vec<char>)
    ensures
        r@ == pat_table(),
{
    let r = vec!['<', 't', 'a', 'b', 'l', 'e'];
    proof {
        assert(r@ =~= pat_table());
    }
    r
}

/// Builds the `</table>` marker.
pub fn pat_table_close_vec() -> (r: Vec<char>)
    ensures
        r@ == pat_table_close(),
{
    let r = vec!['<', '/', 't', 'a', 'b', 'l', 'e', '>'];
    proof {
        assert(r@ =~= pat_table_close());
    }
    r
}

/// Builds the `<tr` marker.
pub fn pat_tr_vec() -> (r: Vec<char>)
    ensures
        r@ == pat_tr(),
{
    let r = vec!['<', 't', 'r'];
    proof {
        assert(r@ =~= pat_tr());
    }
    r
}

/// Builds the `</tr>` marker.
pub fn pat_tr_close_vec() -> (r: Vec<char>)
    ensures
        r@ == pat_tr_close(),
{
    let r = vec!['<', '/', 't', 'r', '>'];
    proof {
        assert(r@ =~= pat_tr_close());
    }
    r
}

/// Builds the `<td` marker.
pub fn pat_td_vec() -> (r: Vec<char>)
    ensures
        r@ == pat_td(),
{
    let r = vec!['<', 't', 'd'];
    proof {
        assert(r@ =~= pat_td());
    }
    r
}

/// Builds the `</td>` marker.
pub fn pat_td_close_vec() -> (r: Vec<char>)
    ensures
        r@ == pat_td_close(),
{
    let r = vec!['<', '/', 't', 'd', '>'];
    proof {
        assert(r@ =~= pat_td_close());
    }
    r
}

/// Builds the `<th` marker.
pub fn pat_th_vec() -> (r: Vec<char>)
    ensures
        r@ == pat_th(),
{
    let r = vec!['<', 't', 'h'];
    proof {
        assert(r@ =~= pat_th());
    }
    r
}

/// Builds the `</th>` marker.
pub fn pat_th_close_vec() -> (r: Vec<char>)
    ensures
        r@ == pat_th_close(),
{
    let r = vec!['<', '/', 't', 'h', '>'];
    proof {
        assert(r@ =~= pat_th_close());
    }
    r
}

/// Builds the `>` marker.
pub fn pat_gt_vec() -> (r: Vec<char>)
    ensures
        r@ == pat_gt(),
{
    let r = vec!['>'];
    proof {
        assert(r@ =~= pat_gt());
    }
    r
}

/// Finds the first case-insensitive occurrence of `pat` in `text` at or
/// after `from`.
pub fn find_from(text: &Vec<char>, pat: &Vec<char>, from: usize) -> (r: Option<usize>)
    requires
        pat@.len() > 0,
        from <= text@.len(),
    ensures
        match r {
            Some(i) => {
                &&& spec_find(text@, pat@, from as int) == Some(i as int)
                &&& from <= i
                &&& i + pat@.len() <= text@.len()
            },
            None => spec_find(text@, pat@, from as int) is None,
        },
{
    if pat.len() > text.len() {
        return None;
    }
    let last = text.len() - pat.len();
    let mut i: usize = from;
    if i > last {
        return None;
    }
    while i <= last
        invariant
            from <= i,
            i <= last + 1,
            pat@.len() > 0,
            text@.len() <= usize::MAX,
            last == text@.len() - pat@.len(),
            spec_find(text@, pat@, from as int) == spec_find(text@, pat@, i as int),
        decreases last + 1 - i,
    {
        let mut j: usize = 0;
        let mut hit: bool = true;
        while j < pat.len()
            invariant
                i + pat@.len() <= text@.len(),
                text@.len() <= usize::MAX,
                j <= pat@.len(),
                hit ==> forall|k: int| 0 <= k < j ==> lower_char(text@[i + k]) == pat@[k],
                !hit ==> !matches_at(text@, pat@, i as int),
            decreases pat@.len() - j,
        {
            if to_lower(text[i + j]) != pat[j] {
                proof {
                    assert(lower_char(text@[i + j as int]) != pat@[j as int]);
                }
                hit = false;
                j = pat.len();
            } else {
                j = j + 1;
            }
        }
        if hit {
            proof {
                assert(matches_at(text@, pat@, i as int));
            }
            return Some(i);
        }
        i = i + 1;
    }
    None
}

} // verus!
