//! Heredoc body lines and indentation stripping.
//!
//! A heredoc body is an ordered sequence of raw line slices, each line
//! keeping its terminating newline (the last line of an interrupted chunk
//! may lack one).  A header written `<<-` asks for indentation stripping:
//! the minimum count of leading white space over the non-empty lines is
//! removed from every non-empty line.  A line holding only white space
//! counts as zero indentation, which keeps the operation idempotent.

use crate::chars::scan_end;
use crate::chars::lemma_scan_end;
use crate::chars::white_space;
use crate::chars::Class;
use vstd::prelude::*;

verus! {

/// The text of a line without its terminating newline.
pub open spec fn line_content(l: Seq<char>) -> Seq<char> {
    if l.len() > 0 && l.last() == '\n' {
        l.drop_last()
    } else {
        l
    }
}

/// A line is blank when nothing stands before its newline.
pub open spec fn is_blank(l: Seq<char>) -> bool {
    line_content(l).len() == 0
}

/// The count of leading white-space characters of a line's content; a
/// line of nothing but white space counts as zero.
pub open spec fn lead_ws(l: Seq<char>) -> int {
    let c = line_content(l);
    let e = scan_end(c, 0, Class::HWhite);
    if e == c.len() {
        0
    } else {
        e
    }
}

/// The minimum of `lead_ws` over the non-blank lines, `-1` when every
/// line is blank.
pub open spec fn min_indent(lines: Seq<Seq<char>>) -> int
    decreases lines.len(),
{
    if lines.len() == 0 {
        -1
    } else {
        let rest = min_indent(lines.drop_last());
        if is_blank(lines.last()) {
            rest
        } else if rest == -1 || lead_ws(lines.last()) <= rest {
            lead_ws(lines.last())
        } else {
            rest
        }
    }
}

/// Each non-blank line with its first `n` characters removed.
pub open spec fn drop_indent(lines: Seq<Seq<char>>, n: int) -> Seq<Seq<char>> {
    lines.map(
        |k: int, l: Seq<char>|
            if is_blank(l) {
                l
            } else {
                l.skip(n)
            },
    )
}

/// The lines as a heredoc body emits them when indentation stripping is
/// asked for: the minimal indentation removed from every non-blank line.
pub open spec fn strip_indent(lines: Seq<Seq<char>>) -> Seq<Seq<char>> {
    if min_indent(lines) <= 0 {
        lines
    } else {
        drop_indent(lines, min_indent(lines))
    }
}

/// `lead_ws` never exceeds the content length, and the character at the
/// indentation boundary of a line with positive indentation is white
/// space throughout the prefix.
pub proof fn lemma_lead_ws_bounds(l: Seq<char>)
    ensures
        0 <= lead_ws(l) <= line_content(l).len(),
        forall|q: int|
            0 <= q < lead_ws(l) ==> crate::chars::spec_white_space(#[trigger] line_content(l)[q])
                && line_content(l)[q] != '\n',
        lead_ws(l) > 0 ==> lead_ws(l) < line_content(l).len() && !crate::chars::class_pred(
            Class::HWhite,
            line_content(l)[lead_ws(l)],
        ),
{
    lemma_scan_end(line_content(l), 0, Class::HWhite);
}

/// The minimum indentation is the indentation of some non-blank line, and
/// no non-blank line's indentation lies below it.
pub proof fn lemma_min_indent(lines: Seq<Seq<char>>)
    ensures
        min_indent(lines) >= -1,
        min_indent(lines) == -1 <==> (forall|k: int|
            0 <= k < lines.len() ==> is_blank(#[trigger] lines[k])),
        min_indent(lines) >= 0 ==> exists|k: int|
            0 <= k < lines.len() && !is_blank(#[trigger] lines[k]) && lead_ws(lines[k])
                == min_indent(lines),
        forall|k: int|
            0 <= k < lines.len() && !is_blank(#[trigger] lines[k]) ==> lead_ws(lines[k])
                >= min_indent(lines),
    decreases lines.len(),
{
    if lines.len() > 0 {
        lemma_min_indent(lines.drop_last());
        lemma_lead_ws_bounds(lines.last());
        assert forall|k: int| 0 <= k < lines.len() - 1 implies lines[k]
            == lines.drop_last()[k] by {}
        assert(lines.last() == lines[lines.len() - 1]);
    }
}

/// Removing `n` leading white-space characters from a non-blank line with
/// `lead_ws` at least `n` lowers its indentation by exactly `n` and keeps
/// it non-blank.
pub proof fn lemma_lead_ws_skip(l: Seq<char>, n: int)
    requires
        !is_blank(l),
        0 <= n <= lead_ws(l),
    ensures
        !is_blank(l.skip(n)),
        line_content(l.skip(n)) =~= line_content(l).skip(n),
        lead_ws(l.skip(n)) == lead_ws(l) - n,
{
    lemma_lead_ws_bounds(l);
    let c = line_content(l);
    if l.len() > 0 && l.last() == '\n' {
        assert(l.skip(n).len() > 0 && l.skip(n).last() == '\n');
        assert(line_content(l.skip(n)) =~= c.skip(n));
    } else {
        assert(line_content(l.skip(n)) =~= c.skip(n));
    }
    let cs = c.skip(n);
    lemma_scan_end(c, 0, Class::HWhite);
    lemma_scan_end(cs, 0, Class::HWhite);
    let e = scan_end(c, 0, Class::HWhite);
    let es = scan_end(cs, 0, Class::HWhite);
    if lead_ws(l) == 0 {
        assert(l.skip(0) =~= l);
    } else {
        // the boundary character survives the skip, pinning the new scan end
        assert(forall|q: int| 0 <= q < cs.len() ==> cs[q] == c[q + n]);
        assert(es == e - n) by {
            if es < e - n {
                assert(crate::chars::class_pred(Class::HWhite, c[es + n]));
                assert(false);
            }
            if es > e - n {
                assert(crate::chars::class_pred(Class::HWhite, cs[e - n]));
                assert(false);
            }
        }
        assert(es < cs.len());
    }
}

/// Stripping the minimal indentation is idempotent: what one pass
/// removes, a second pass finds nothing of.
pub proof fn lemma_strip_indent_idempotent(lines: Seq<Seq<char>>)
    ensures
        strip_indent(strip_indent(lines)) == strip_indent(lines),
{
    lemma_strip_indent_minimal(lines);
    lemma_strip_min_zero(strip_indent(lines));
}

/// Stripping is minimal: after one pass no positive indentation is left
/// common to the non-blank lines.
pub proof fn lemma_strip_indent_minimal(lines: Seq<Seq<char>>)
    ensures
        min_indent(strip_indent(lines)) <= 0,
{
    let m = min_indent(lines);
    lemma_min_indent(lines);
    if m <= 0 {
        lemma_strip_min_zero(lines);
    } else {
        let stripped = drop_indent(lines, m);
        assert forall|k: int|
            0 <= k < stripped.len() && !is_blank(#[trigger] stripped[k]) implies lead_ws(
            stripped[k],
        ) == lead_ws(lines[k]) - m by {
            if is_blank(lines[k]) {
                assert(stripped[k] == lines[k]);
            } else {
                lemma_lead_ws_skip(lines[k], m);
            }
        }
        assert forall|k: int|
            0 <= k < lines.len() && !is_blank(#[trigger] lines[k]) implies !is_blank(stripped[k])
            && lead_ws(stripped[k]) == lead_ws(lines[k]) - m by {
            lemma_lead_ws_skip(lines[k], m);
        }
        lemma_min_indent(stripped);
        let k0 = choose|k: int|
            0 <= k < lines.len() && !is_blank(#[trigger] lines[k]) && lead_ws(lines[k]) == m;
        assert(!is_blank(stripped[k0]) && lead_ws(stripped[k0]) == 0);
        assert(min_indent(stripped) == 0);
    }
}

/// When the minimal indentation is not positive, stripping changes
/// nothing.
proof fn lemma_strip_min_zero(lines: Seq<Seq<char>>)
    requires
        min_indent(lines) <= 0,
    ensures
        strip_indent(lines) == lines,
{
}

/// Remove the minimal indentation from the non-blank lines of a heredoc
/// body, as a header written `<<-` asks: compute the minimum count of
/// leading white space across the non-empty lines and remove that many
/// characters from the front of every non-empty line.
pub fn strip_heredoc_indent(lines: &Vec<Vec<char>>) -> (r: Vec<Vec<char>>)
    ensures
        r@.len() == lines@.len(),
        forall|k: int| 0 <= k < lines@.len() ==> #[trigger] r@[k]@ == strip_indent(
            lines@.map_values(|l: Vec<char>| l@),
        )[k],
{
    let ghost model = lines@.map_values(|l: Vec<char>| l@);
    let mut tab_size: usize = 0;
    let mut have: bool = false;
    let mut k: usize = 0;
    while k < lines.len()
        invariant
            k <= lines@.len(),
            model == lines@.map_values(|l: Vec<char>| l@),
            have <==> min_indent(model.take(k as int)) >= 0,
            have ==> tab_size == min_indent(model.take(k as int)),
        decreases lines@.len() - k,
    {
        proof {
            assert(model[k as int] == lines@[k as int]@);
            lemma_min_indent(model.take(k as int));
            lemma_min_indent_take_step(model, k as int);
        }
        let lw = line_lead_ws(&lines[k]);
        let blank = line_is_blank(&lines[k]);
        if !blank && (!have || lw < tab_size) {
            tab_size = lw;
            have = true;
        }
        k = k + 1;
    }
    proof {
        assert(model.take(model.len() as int) =~= model);
    }
    let mut out: Vec<Vec<char>> = Vec::new();
    let mut k2: usize = 0;
    let strip = have && tab_size > 0;
    while k2 < lines.len()
        invariant
            k2 <= lines@.len(),
            model == lines@.map_values(|l: Vec<char>| l@),
            have <==> min_indent(model) >= 0,
            have ==> tab_size == min_indent(model),
            strip == (have && tab_size > 0),
            out@.len() == k2,
            forall|q: int| 0 <= q < k2 ==> #[trigger] out@[q]@ == strip_indent(model)[q],
        decreases lines@.len() - k2,
    {
        proof {
            lemma_min_indent(model);
        }
        let blank = line_is_blank(&lines[k2]);
        if strip && !blank {
            proof {
                lemma_lead_ws_bounds(model[k2 as int]);
            }
            let mut nl: Vec<char> = Vec::new();
            let mut q: usize = tab_size;
            proof {
                assert(model[k2 as int].skip(tab_size as int).take(0) =~= Seq::<char>::empty());
            }
            while q < lines[k2].len()
                invariant
                    model == lines@.map_values(|l: Vec<char>| l@),
                    k2 < lines@.len(),
                    tab_size <= q <= lines@[k2 as int]@.len(),
                    nl@ == model[k2 as int].skip(tab_size as int).take(q - tab_size),
                decreases lines@[k2 as int]@.len() - q,
            {
                nl.push(lines[k2][q]);
                proof {
                    assert(model[k2 as int].skip(tab_size as int).take(q + 1 - tab_size)
                        =~= model[k2 as int].skip(tab_size as int).take(q - tab_size).push(
                        model[k2 as int][q as int],
                    ));
                }
                q = q + 1;
            }
            proof {
                assert(nl@ =~= model[k2 as int].skip(tab_size as int));
            }
            out.push(nl);
        } else {
            let mut nl: Vec<char> = Vec::new();
            let mut q: usize = 0;
            proof {
                assert(model[k2 as int].take(0) =~= Seq::<char>::empty());
            }
            while q < lines[k2].len()
                invariant
                    model == lines@.map_values(|l: Vec<char>| l@),
                    k2 < lines@.len(),
                    q <= lines@[k2 as int]@.len(),
                    nl@ == model[k2 as int].take(q as int),
                decreases lines@[k2 as int]@.len() - q,
            {
                nl.push(lines[k2][q]);
                proof {
                    assert(model[k2 as int].take(q + 1) =~= model[k2 as int].take(q as int).push(
                        model[k2 as int][q as int],
                    ));
                }
                q = q + 1;
            }
            proof {
                assert(nl@ =~= model[k2 as int]);
            }
            out.push(nl);
        }
        k2 = k2 + 1;
    }
    out
}

/// Extending the line prefix by one line updates the running minimum as
/// the scan does.
proof fn lemma_min_indent_take_step(lines: Seq<Seq<char>>, k: int)
    requires
        0 <= k < lines.len(),
    ensures
        min_indent(lines.take(k + 1)) == if is_blank(lines[k]) {
            min_indent(lines.take(k))
        } else if min_indent(lines.take(k)) == -1 || lead_ws(lines[k]) < min_indent(lines.take(k)) {
            lead_ws(lines[k])
        } else {
            min_indent(lines.take(k))
        },
{
    assert(lines.take(k + 1).drop_last() =~= lines.take(k));
    assert(lines.take(k + 1).last() == lines[k]);
    lemma_min_indent(lines.take(k));
    lemma_lead_ws_bounds(lines[k]);
}

/// The count of leading white-space characters of the line's content (its
/// text before the final newline); a line of nothing but white space
/// counts as zero.
pub fn line_lead_ws(l: &Vec<char>) -> (n: usize)
    ensures
        n == lead_ws(l@),
{
    let mut content_len = l.len();
    if content_len > 0 && l[content_len - 1] == '\n' {
        content_len = content_len - 1;
    }
    proof {
        assert(line_content(l@) =~= l@.take(content_len as int));
        lemma_scan_end(l@.take(content_len as int), 0, Class::HWhite);
    }
    let ghost c = line_content(l@);
    let mut e: usize = 0;
    while e < content_len && white_space(l[e]) && l[e] != '\n'
        invariant
            content_len <= l@.len(),
            c == line_content(l@),
            c =~= l@.take(content_len as int),
            0 <= e <= content_len,
            scan_end(c, e as int, Class::HWhite) == scan_end(c, 0, Class::HWhite),
        decreases content_len - e,
    {
        proof {
            assert(c[e as int] == l@[e as int]);
        }
        e = e + 1;
    }
    proof {
        assert(e as int == scan_end(c, 0, Class::HWhite)) by {
            if (e as int) < c.len() {
                assert(c[e as int] == l@[e as int]);
            }
        }
    }
    if e == content_len {
        0
    } else {
        e
    }
}

/// Nothing stands before the line's newline.
pub fn line_is_blank(l: &Vec<char>) -> (r: bool)
    ensures
        r == is_blank(l@),
{
    l.len() == 0 || (l.len() == 1 && l[0] == '\n')
}

} // verus!
