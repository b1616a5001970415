//! Row and cell extraction from table markup.
//!
//! Within a `<tr>`…`</tr>` span, cells are the `<td>`/`<th>` elements in
//! order of appearance; within a table span, rows are the `<tr>` elements.
//! Scanning is best effort: a started cell or row without its closing
//! marker ends the scan of that span, it never fails.

use vstd::prelude::*;
use crate::chars::str_to_chars;
use crate::chars::subvec;
use crate::chars::chars_to_string;
use crate::clean::clean_chars;
use crate::clean::spec_clean;
use crate::scan::find_from;
use crate::scan::lemma_find_props;
use crate::scan::matches_at;
use crate::scan::pat_gt;
use crate::scan::pat_gt_vec;
use crate::scan::pat_td;
use crate::scan::pat_td_close;
use crate::scan::pat_td_close_vec;
use crate::scan::pat_td_vec;
use crate::scan::pat_th;
use crate::scan::pat_th_close;
use crate::scan::pat_th_close_vec;
use crate::scan::pat_th_vec;
use crate::scan::pat_tr;
use crate::scan::pat_tr_close;
use crate::scan::pat_tr_close_vec;
use crate::scan::pat_tr_vec;
use crate::scan::spec_find;

verus! {

/// The views of a vector of strings.
pub open spec fn str_views(v: Seq<String>) -> Seq<Seq<char>> {
    v.map_values(|s: String| s@)
}

/// The views of a vector of rows of strings.
pub open spec fn row_views(v: Seq<Vec<String>>) -> Seq<Seq<Seq<char>>> {
    v.map_values(|r: Vec<String>| str_views(r@))
}

/// The position where the next cell opens at or after `pos`: the nearer of
/// the next `<td` and `<th` markers, if either occurs.
pub open spec fn spec_cell_start(row: Seq<char>, pos: int) -> Option<int> {
    let td = spec_find(row, pat_td(), pos);
    let th = spec_find(row, pat_th(), pos);
    match (td, th) {
        (Some(d), Some(h)) => Some(if d <= h { d } else { h }),
        (Some(d), None) => Some(d),
        (None, Some(h)) => Some(h),
        (None, None) => None,
    }
}

/// The cleaned cell texts extracted from `row` at or after `pos`, in order.
///
/// Each cell is the nearer of the next `<td`/`<th` markers; its closing
/// marker (`</td>` or `</th>`, matching the opening kind) bounds it. The
/// raw content runs from just after the opening tag's `>` to the closing
/// marker and is cleaned. A started cell without its closing marker ends
/// the scan. An opening tag without a `>` before its closing marker is
/// malformed: that cell is skipped — nothing is emitted for it — and the
/// scan continues past the detected closing marker.
pub open spec fn spec_cells(row: Seq<char>, pos: int) -> Seq<Seq<char>>
    decreases row.len() - pos
        when 0 <= pos
        via spec_cells_dec
{
    match spec_cell_start(row, pos) {
        None => Seq::empty(),
        Some(cs) => {
            let is_th = matches_at(row, pat_th(), cs);
            let close = if is_th {
                spec_find(row, pat_th_close(), cs)
            } else {
                spec_find(row, pat_td_close(), cs)
            };
            match close {
                None => Seq::empty(),
                Some(cl) => {
                    let rest = spec_cells(row, cl + 5);
                    match spec_find(row, pat_gt(), cs) {
                        None => rest,
                        Some(g) => {
                            if g >= cl {
                                rest
                            } else {
                                let content = if g + 1 < cl {
                                    row.subrange(g + 1, cl)
                                } else {
                                    Seq::empty()
                                };
                                seq![spec_clean(content)] + rest
                            }
                        },
                    }
                },
            }
        },
    }
}

#[via_fn]
proof fn spec_cells_dec(row: Seq<char>, pos: int) {
    lemma_find_props(row, pat_td(), pos);
    lemma_find_props(row, pat_th(), pos);
    match spec_cell_start(row, pos) {
        None => {},
        Some(cs) => {
            lemma_find_props(row, pat_th_close(), cs);
            lemma_find_props(row, pat_td_close(), cs);
        },
    }
}

/// The rows extracted from `table` at or after `pos`, in order: one entry
/// per `<tr>`…`</tr>` span that yields at least one cell.
pub open spec fn spec_rows(table: Seq<char>, pos: int) -> Seq<Seq<Seq<char>>>
    decreases table.len() - pos
        when 0 <= pos
        via spec_rows_dec
{
    match spec_find(table, pat_tr(), pos) {
        None => Seq::empty(),
        Some(rs) => match spec_find(table, pat_tr_close(), rs) {
            None => Seq::empty(),
            Some(rc) => {
                let cells = spec_cells(table.subrange(rs, rc + 5), 0);
                (if cells.len() > 0 {
                    seq![cells]
                } else {
                    Seq::<Seq<Seq<char>>>::empty()
                }) + spec_rows(table, rc + 5)
            },
        },
    }
}

#[via_fn]
proof fn spec_rows_dec(table: Seq<char>, pos: int) {
    lemma_find_props(table, pat_tr(), pos);
    match spec_find(table, pat_tr(), pos) {
        None => {},
        Some(rs) => {
            lemma_find_props(table, pat_tr_close(), rs);
        },
    }
}

/// Extracts the cleaned cell texts of one row span.
pub fn cells_from(row: &Vec<char>) -> (cells: Vec<String>)
    ensures
        str_views(cells@) == spec_cells(row@, 0),
{
    let td_pat = pat_td_vec();
    let th_pat = pat_th_vec();
    let td_close_pat = pat_td_close_vec();
    let th_close_pat = pat_th_close_vec();
    let gt_pat = pat_gt_vec();
    let mut cells: Vec<String> = Vec::new();
    let mut pos: usize = 0;
    let mut done: bool = false;
    let row_len = row.len();
    proof {
        assert(str_views(cells@) =~= Seq::<Seq<char>>::empty());
        assert(Seq::<Seq<char>>::empty() + spec_cells(row@, 0) =~= spec_cells(row@, 0));
    }
    while !done
        invariant
            pos <= row@.len(),
            row@.len() == row_len,
            td_pat@ == pat_td(),
            th_pat@ == pat_th(),
            td_close_pat@ == pat_td_close(),
            th_close_pat@ == pat_th_close(),
            gt_pat@ == pat_gt(),
            spec_cells(row@, 0) == str_views(cells@) + (if done {
                Seq::<Seq<char>>::empty()
            } else {
                spec_cells(row@, pos as int)
            }),
        decreases row@.len() - pos + (if done {
            0int
        } else {
            1int
        }),
    {
        let td = find_from(row, &td_pat, pos);
        let th = find_from(row, &th_pat, pos);
        let start = match (td, th) {
            (Some(d), Some(h)) => Some(if d <= h { d } else { h }),
            (Some(d), None) => Some(d),
            (None, Some(h)) => Some(h),
            (None, None) => None,
        };
        match start {
            None => {
                done = true;
                proof {
                    assert(spec_cells(row@, pos as int) =~= Seq::<Seq<char>>::empty());
                    assert(str_views(cells@) + Seq::<Seq<char>>::empty() =~= str_views(cells@));
                }
            },
            Some(cs) => {
                proof {
                    assert(spec_cell_start(row@, pos as int) == Some(cs as int));
                    lemma_find_props(row@, pat_td(), pos as int);
                    lemma_find_props(row@, pat_th(), pos as int);
                }
                let is_th = match th {
                    Some(h) => h == cs,
                    None => false,
                };
                proof {
                    assert(is_th == matches_at(row@, pat_th(), cs as int));
                }
                let close = if is_th {
                    find_from(row, &th_close_pat, cs)
                } else {
                    find_from(row, &td_close_pat, cs)
                };
                match close {
                    None => {
                        done = true;
                        proof {
                            assert(spec_cells(row@, pos as int) =~= Seq::<Seq<char>>::empty());
                            assert(str_views(cells@) + Seq::<Seq<char>>::empty() =~= str_views(
                                cells@,
                            ));
                        }
                    },
                    Some(cl) => {
                        let cell_end = cl + 5;
                        let gt = find_from(row, &gt_pat, cs);
                        match gt {
                            None => {
                                proof {
                                    assert(spec_cells(row@, pos as int) == spec_cells(
                                        row@,
                                        cell_end as int,
                                    ));
                                }
                            },
                            Some(g) => {
                                if g >= cl {
                                    // Malformed opening tag: its `>` sits at or past the
                                    // closing marker, so the cell is skipped entirely.
                                    proof {
                                        assert(spec_cells(row@, pos as int) == spec_cells(
                                            row@,
                                            cell_end as int,
                                        ));
                                    }
                                } else {
                                    let content_start = g + 1;
                                    let content_end = cl;
                                    let content: Vec<char> = if content_start < content_end {
                                        subvec(row, content_start, content_end)
                                    } else {
                                        Vec::new()
                                    };
                                    let cleaned = clean_chars(&content);
                                    let cell = chars_to_string(&cleaned);
                                    proof {
                                        let spec_content: Seq<char> = if g + 1 < cl {
                                            row@.subrange(g + 1, cl as int)
                                        } else {
                                            Seq::empty()
                                        };
                                        assert(content@ =~= spec_content);
                                        assert(spec_cells(row@, pos as int) == seq![
                                            spec_clean(spec_content),
                                        ] + spec_cells(row@, cell_end as int));
                                    }
                                    let ghost old_views = str_views(cells@);
                                    cells.push(cell);
                                    proof {
                                        assert(str_views(cells@) =~= old_views.push(cell@));
                                        assert(str_views(cells@) + spec_cells(
                                            row@,
                                            cell_end as int,
                                        ) =~= old_views + spec_cells(row@, pos as int));
                                    }
                                }
                            },
                        }
                        pos = cell_end;
                    },
                }
            },
        }
    }
    cells
}

/// Extracts the rows of one table span: one entry per `<tr>`…`</tr>` span
/// that yields at least one cell.
pub fn rows_from(table: &Vec<char>) -> (rows: Vec<Vec<String>>)
    ensures
        row_views(rows@) == spec_rows(table@, 0),
{
    let tr_pat = pat_tr_vec();
    let tr_close_pat = pat_tr_close_vec();
    let mut rows: Vec<Vec<String>> = Vec::new();
    let mut pos: usize = 0;
    let mut done: bool = false;
    let table_len = table.len();
    proof {
        assert(row_views(rows@) =~= Seq::<Seq<Seq<char>>>::empty());
        assert(Seq::<Seq<Seq<char>>>::empty() + spec_rows(table@, 0) =~= spec_rows(table@, 0));
    }
    while !done
        invariant
            pos <= table@.len(),
            table@.len() == table_len,
            tr_pat@ == pat_tr(),
            tr_close_pat@ == pat_tr_close(),
            spec_rows(table@, 0) == row_views(rows@) + (if done {
                Seq::<Seq<Seq<char>>>::empty()
            } else {
                spec_rows(table@, pos as int)
            }),
        decreases table@.len() - pos + (if done {
            0int
        } else {
            1int
        }),
    {
        let rs = find_from(table, &tr_pat, pos);
        match rs {
            None => {
                done = true;
                proof {
                    assert(spec_rows(table@, pos as int) =~= Seq::<Seq<Seq<char>>>::empty());
                    assert(row_views(rows@) + Seq::<Seq<Seq<char>>>::empty() =~= row_views(rows@));
                }
            },
            Some(r0) => {
                let rc = find_from(table, &tr_close_pat, r0);
                match rc {
                    None => {
                        done = true;
                        proof {
                            assert(spec_rows(table@, pos as int) =~= Seq::<
                                Seq<Seq<char>>,
                            >::empty());
                            assert(row_views(rows@) + Seq::<Seq<Seq<char>>>::empty() =~= row_views(
                                rows@,
                            ));
                        }
                    },
                    Some(rc0) => {
                        let row_end = rc0 + 5;
                        let row_span = subvec(table, r0, row_end);
                        let cells = cells_from(&row_span);
                        proof {
                            assert(spec_rows(table@, pos as int) == (if spec_cells(
                                table@.subrange(r0 as int, row_end as int),
                                0,
                            ).len() > 0 {
                                seq![spec_cells(table@.subrange(r0 as int, row_end as int), 0)]
                            } else {
                                Seq::<Seq<Seq<char>>>::empty()
                            }) + spec_rows(table@, row_end as int));
                        }
                        if cells.len() > 0 {
                            let ghost old_views = row_views(rows@);
                            proof {
                                assert(str_views(cells@).len() == cells@.len());
                            }
                            rows.push(cells);
                            proof {
                                assert(row_views(rows@) =~= old_views.push(
                                    str_views(rows@[rows@.len() - 1]@),
                                ));
                                assert(row_views(rows@) + spec_rows(table@, row_end as int)
                                    =~= old_views + spec_rows(table@, pos as int));
                            }
                        } else {
                            proof {
                                assert(str_views(cells@).len() == 0);
                                assert(spec_rows(table@, pos as int) == spec_rows(
                                    table@,
                                    row_end as int,
                                ));
                            }
                        }
                        pos = row_end;
                    },
                }
            },
        }
    }
    rows
}

/// Extracts the cleaned cell texts of one row of markup, in order of
/// appearance.
pub fn extract_row_cells(row_html: &str) -> (cells: Vec<String>)
    ensures
        str_views(cells@) == spec_cells(row_html@, 0),
{
    let cs = str_to_chars(row_html);
    cells_from(&cs)
}

/// Extracts the rows of one table of markup: one entry per `<tr>`…`</tr>`
/// span that yields at least one cell.
pub fn extract_table_rows(table_html: &str) -> (rows: Vec<Vec<String>>)
    ensures
        row_views(rows@) == spec_rows(table_html@, 0),
{
    let cs = str_to_chars(table_html);
    rows_from(&cs)
}

} // verus!
