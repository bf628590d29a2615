//! The needsfile grammar: one binary name per line, `#` comments, blank
//! lines ignored.
use vstd::prelude::*;

use crate::chars::{chars_to_string, is_digit, str_to_chars, views};
use crate::error::ValidationError;
use crate::extract::{spec_lines, split_lines};

verus! {

/// The needsfile grammar. A line holds optional spaces, at most one binary
/// name, more optional spaces, and an optional `#` comment running to the
/// end of the line.
pub struct NeedsParser;

/// A character of a binary name: letters, digits, `_`, `-` and `.`.
pub open spec fn is_name_char(c: char) -> bool {
    is_digit(c) || ('A' <= c && c <= 'Z') || ('a' <= c && c <= 'z') || c == '_' || c == '-' || c
        == '.'
}

/// Blank space inside a line.
pub open spec fn is_space(c: char) -> bool {
    c == ' ' || c == '\t' || c == '\r'
}

/// The end of the run of spaces beginning at `i`.
pub open spec fn scan_space(l: Seq<char>, i: int) -> int
    decreases l.len() - i,
    when 0 <= i <= l.len()
{
    if i < l.len() && is_space(l[i]) {
        scan_space(l, i + 1)
    } else {
        i
    }
}

/// The end of the run of name characters beginning at `i`.
pub open spec fn scan_name(l: Seq<char>, i: int) -> int
    decreases l.len() - i,
    when 0 <= i <= l.len()
{
    if i < l.len() && is_name_char(l[i]) {
        scan_name(l, i + 1)
    } else {
        i
    }
}

proof fn lemma_scan_space(l: Seq<char>, i: int)
    requires
        0 <= i <= l.len(),
    ensures
        i <= scan_space(l, i) <= l.len(),
    decreases l.len() - i,
{
    if i < l.len() && is_space(l[i]) {
        lemma_scan_space(l, i + 1);
    }
}

proof fn lemma_scan_name(l: Seq<char>, i: int)
    requires
        0 <= i <= l.len(),
    ensures
        i <= scan_name(l, i) <= l.len(),
    decreases l.len() - i,
{
    if i < l.len() && is_name_char(l[i]) {
        lemma_scan_name(l, i + 1);
    }
}

/// Where a line stops obeying the grammar: the position after its leading
/// spaces, name and trailing spaces. A line is well-formed exactly when
/// this position reaches the end or a `#`.
pub open spec fn line_rest(l: Seq<char>) -> int {
    scan_space(l, scan_name(l, scan_space(l, 0)))
}

/// Whether the line obeys the grammar.
pub open spec fn line_ok(l: Seq<char>) -> bool {
    line_rest(l) == l.len() || l[line_rest(l)] == '#'
}

/// The name the line contributes, if any.
pub open spec fn line_name(l: Seq<char>) -> Option<Seq<char>> {
    let a = scan_space(l, 0);
    let b = scan_name(l, a);
    if b > a {
        Some(l.subrange(a, b))
    } else {
        None
    }
}

/// Every line obeys the grammar.
pub open spec fn lines_ok(ls: Seq<Seq<char>>) -> bool {
    forall|i: int| 0 <= i < ls.len() ==> line_ok(#[trigger] ls[i])
}

/// The first line that does not.
pub open spec fn first_bad_line(ls: Seq<Seq<char>>) -> int
    decreases ls.len(),
{
    if ls.len() == 0 {
        0
    } else if !line_ok(ls[0]) {
        0
    } else {
        1 + first_bad_line(ls.drop_first())
    }
}

/// The names of all the lines, in order.
pub open spec fn collect_names(ls: Seq<Seq<char>>) -> Seq<Seq<char>>
    decreases ls.len(),
{
    if ls.len() == 0 {
        Seq::empty()
    } else {
        let rest = collect_names(ls.drop_last());
        match line_name(ls.last()) {
            Some(t) => rest.push(t),
            None => rest,
        }
    }
}

pub proof fn lemma_first_bad_line(ls: Seq<Seq<char>>)
    requires
        !lines_ok(ls),
    ensures
        0 <= first_bad_line(ls) < ls.len(),
        !line_ok(ls[first_bad_line(ls)]),
        forall|j: int| 0 <= j < first_bad_line(ls) ==> line_ok(#[trigger] ls[j]),
    decreases ls.len(),
{
    if ls.len() == 0 {
    } else if !line_ok(ls[0]) {
    } else {
        assert(!lines_ok(ls.drop_first())) by {
            let i = choose|i: int| 0 <= i < ls.len() && !line_ok(ls[i]);
            assert(!line_ok(ls.drop_first()[i - 1]));
        }
        lemma_first_bad_line(ls.drop_first());
        assert forall|j: int| 0 <= j < first_bad_line(ls) implies line_ok(#[trigger] ls[j]) by {
            if j > 0 {
                assert(line_ok(ls.drop_first()[j - 1]));
            }
        }
    }
}

fn scan_space_vec(l: &Vec<char>, i: usize) -> (r: usize)
    requires
        i <= l@.len(),
    ensures
        r == scan_space(l@, i as int),
        i <= r <= l@.len(),
{
    let mut j = i;
    let n = l.len();
    while j < n && (l[j] == ' ' || l[j] == '\t' || l[j] == '\r')
        invariant
            i <= j <= n,
            n == l@.len(),
            scan_space(l@, i as int) == scan_space(l@, j as int),
        decreases n - j,
    {
        j = j + 1;
    }
    j
}

fn name_char(c: char) -> (r: bool)
    ensures
        r == is_name_char(c),
{
    crate::chars::digit_char(c) || ('A' <= c && c <= 'Z') || ('a' <= c && c <= 'z') || c == '_'
        || c == '-' || c == '.'
}

fn scan_name_vec(l: &Vec<char>, i: usize) -> (r: usize)
    requires
        i <= l@.len(),
    ensures
        r == scan_name(l@, i as int),
        i <= r <= l@.len(),
{
    let mut j = i;
    let n = l.len();
    while j < n && name_char(l[j])
        invariant
            i <= j <= n,
            n == l@.len(),
            scan_name(l@, i as int) == scan_name(l@, j as int),
        decreases n - j,
    {
        j = j + 1;
    }
    j
}

/// Reads a needsfile: the name each line holds, in order, with comments
/// and blank lines ignored; text that fits no line of the grammar is
/// reported with the first offending line and column.
pub fn parse_needsfile(content: &str) -> (r: Result<Vec<String>, ValidationError>)
    ensures
        r is Ok <==> lines_ok(spec_lines(content@)),
        r is Ok ==> crate::version::token_views(r.unwrap()@) == collect_names(
            spec_lines(content@),
        ),
        r is Err ==> (r.unwrap_err() matches ValidationError::InvalidContent { line, column, .. }
            && line == first_bad_line(spec_lines(content@)) && column == line_rest(
            spec_lines(content@)[first_bad_line(spec_lines(content@))],
        )),
{
    let v = str_to_chars(content);
    let lines = split_lines(&v);
    let n = lines.len();
    let mut out: Vec<String> = Vec::new();
    let mut i: usize = 0;
    while i < n
        invariant
            i <= n,
            n == lines@.len(),
            v@ == content@,
            views(lines@) == spec_lines(v@),
            forall|j: int| 0 <= j < i ==> line_ok(#[trigger] views(lines@)[j]),
            crate::version::token_views(out@) == collect_names(views(lines@).take(i as int)),
        decreases n - i,
    {
        let ghost lv = views(lines@)[i as int];
        proof {
            assert(views(lines@).take(i + 1 as int).drop_last() =~= views(lines@).take(i as int));
            assert(views(lines@).take(i + 1 as int).last() == lv);
            lemma_scan_space(lv, 0);
            lemma_scan_name(lv, scan_space(lv, 0));
            lemma_scan_space(lv, scan_name(lv, scan_space(lv, 0)));
        }
        let line = &lines[i];
        let a = scan_space_vec(line, 0);
        let b = scan_name_vec(line, a);
        let c = scan_space_vec(line, b);
        if !(c == line.len() || line[c] == '#') {
            proof {
                assert(!line_ok(lv));
                assert(!lines_ok(views(lines@)));
                lemma_first_bad_line(views(lines@));
                assert(first_bad_line(views(lines@)) == i as int) by {
                    let f = first_bad_line(views(lines@));
                    if f < i {
                        assert(line_ok(views(lines@)[f]));
                    }
                }
            }
            let token = if c < line.len() {
                let tv = crate::chars::subvec(line, c, c + 1);
                chars_to_string(&tv)
            } else {
                String::new()
            };
            return Err(
                ValidationError::InvalidContent {
                    filename: String::from_str("needsfile"),
                    token,
                    line: i,
                    column: c,
                },
            );
        }
        if b > a {
            let ghost prev = out@;
            let name_chars = crate::chars::subvec(line, a, b);
            out.push(chars_to_string(&name_chars));
            proof {
                assert(crate::version::token_views(out@) =~= crate::version::token_views(
                    prev,
                ).push(lv.subrange(a as int, b as int)));
            }
        }
        proof {
            assert(line_ok(lv));
            assert(crate::version::token_views(out@) =~= collect_names(
                views(lines@).take(i + 1 as int),
            ));
        }
        i = i + 1;
    }
    proof {
        assert(views(lines@).take(n as int) =~= views(lines@));
    }
    Ok(out)
}

} // verus!
