//! Pulling the first version-looking token out of probe output.
//!
//! The token grammar is: one or more digits, a dot, one or more digits,
//! optionally a dot and more digits, optionally `-` and dot-separated
//! identifiers from `[0-9A-Za-z-]`, optionally `+` and dot-separated
//! identifiers. Matching is greedy and stops at the first character a part
//! does not allow.
use vstd::prelude::*;

use crate::chars::{
    chars_to_string, digit_char, ident_char, is_digit, is_ident_char, split_on, split_on_vec,
    str_to_chars, subvec, views,
};
use crate::error::VersionError;
use crate::normalize::{clean_version_string, spec_clean};

verus! {

/// The end of the run of digits beginning at `i`.
pub open spec fn scan_digits(l: Seq<char>, i: int) -> int
    decreases l.len() - i,
    when 0 <= i <= l.len()
{
    if i < l.len() && is_digit(l[i]) {
        scan_digits(l, i + 1)
    } else {
        i
    }
}

pub proof fn lemma_scan_digits(l: Seq<char>, i: int)
    requires
        0 <= i <= l.len(),
    ensures
        i <= scan_digits(l, i) <= l.len(),
        forall|j: int| i <= j < scan_digits(l, i) ==> is_digit(#[trigger] l[j]),
        scan_digits(l, i) < l.len() ==> !is_digit(l[scan_digits(l, i)]),
    decreases l.len() - i,
{
    if i < l.len() && is_digit(l[i]) {
        lemma_scan_digits(l, i + 1);
    }
}

/// The end of the run of identifier characters beginning at `i`.
pub open spec fn scan_ident(l: Seq<char>, i: int) -> int
    decreases l.len() - i,
    when 0 <= i <= l.len()
{
    if i < l.len() && is_ident_char(l[i]) {
        scan_ident(l, i + 1)
    } else {
        i
    }
}

pub proof fn lemma_scan_ident(l: Seq<char>, i: int)
    requires
        0 <= i <= l.len(),
    ensures
        i <= scan_ident(l, i) <= l.len(),
        forall|j: int| i <= j < scan_ident(l, i) ==> is_ident_char(#[trigger] l[j]),
        scan_ident(l, i) < l.len() ==> !is_ident_char(l[scan_ident(l, i)]),
    decreases l.len() - i,
{
    if i < l.len() && is_ident_char(l[i]) {
        lemma_scan_ident(l, i + 1);
    }
}

/// The end of a run of `.`-then-identifiers groups beginning at `p`.
pub open spec fn dots_end(l: Seq<char>, p: int) -> int
    decreases l.len() - p,
    when 0 <= p <= l.len()
{
    if p < l.len() && l[p] == '.' && p + 1 < l.len() && is_ident_char(l[p + 1]) {
        proof {
            lemma_scan_ident(l, p + 1);
        }
        dots_end(l, scan_ident(l, p + 1))
    } else {
        p
    }
}

pub proof fn lemma_dots_end(l: Seq<char>, p: int)
    requires
        0 <= p <= l.len(),
    ensures
        p <= dots_end(l, p) <= l.len(),
    decreases l.len() - p,
{
    if p < l.len() && l[p] == '.' && p + 1 < l.len() && is_ident_char(l[p + 1]) {
        lemma_scan_ident(l, p + 1);
        lemma_dots_end(l, scan_ident(l, p + 1));
    }
}

/// Where the greedy match of the token grammar beginning at `i` ends, if
/// one begins there at all.
pub open spec fn match_end(l: Seq<char>, i: int) -> Option<int> {
    let e1 = scan_digits(l, i);
    if e1 == i || !(e1 < l.len() && l[e1] == '.') {
        None
    } else {
        let e2 = scan_digits(l, e1 + 1);
        if e2 == e1 + 1 {
            None
        } else {
            let e3 = if e2 < l.len() && l[e2] == '.' && e2 + 1 < l.len() && is_digit(l[e2 + 1]) {
                scan_digits(l, e2 + 1)
            } else {
                e2
            };
            let e4 = if e3 < l.len() && l[e3] == '-' && e3 + 1 < l.len() && is_ident_char(
                l[e3 + 1],
            ) {
                dots_end(l, scan_ident(l, e3 + 1))
            } else {
                e3
            };
            let e5 = if e4 < l.len() && l[e4] == '+' && e4 + 1 < l.len() && is_ident_char(
                l[e4 + 1],
            ) {
                dots_end(l, scan_ident(l, e4 + 1))
            } else {
                e4
            };
            Some(e5)
        }
    }
}

/// A match that begins at `i` ends after it and within the line.
pub proof fn lemma_match_end_bounds(l: Seq<char>, i: int)
    requires
        0 <= i <= l.len(),
        match_end(l, i) is Some,
    ensures
        i < match_end(l, i).unwrap() <= l.len(),
{
    lemma_scan_digits(l, i);
    let e1 = scan_digits(l, i);
    lemma_scan_digits(l, e1 + 1);
    let e2 = scan_digits(l, e1 + 1);
    let e3 = if e2 < l.len() && l[e2] == '.' && e2 + 1 < l.len() && is_digit(l[e2 + 1]) {
        scan_digits(l, e2 + 1)
    } else {
        e2
    };
    if e2 < l.len() && l[e2] == '.' && e2 + 1 < l.len() && is_digit(l[e2 + 1]) {
        lemma_scan_digits(l, e2 + 1);
    }
    let e4 = if e3 < l.len() && l[e3] == '-' && e3 + 1 < l.len() && is_ident_char(l[e3 + 1]) {
        dots_end(l, scan_ident(l, e3 + 1))
    } else {
        e3
    };
    if e3 < l.len() && l[e3] == '-' && e3 + 1 < l.len() && is_ident_char(l[e3 + 1]) {
        lemma_scan_ident(l, e3 + 1);
        lemma_dots_end(l, scan_ident(l, e3 + 1));
    }
    if e4 < l.len() && l[e4] == '+' && e4 + 1 < l.len() && is_ident_char(l[e4 + 1]) {
        lemma_scan_ident(l, e4 + 1);
        lemma_dots_end(l, scan_ident(l, e4 + 1));
    }
}

/// The first position at or after `i` where the grammar matches, with the
/// end of that match.
pub open spec fn first_match_from(l: Seq<char>, i: int) -> Option<(int, int)>
    decreases l.len() - i,
    when 0 <= i <= l.len()
{
    if i >= l.len() {
        None
    } else if match_end(l, i) is Some {
        Some((i, match_end(l, i).unwrap()))
    } else {
        first_match_from(l, i + 1)
    }
}

/// The first token of the grammar in the line, if any.
pub open spec fn line_token(l: Seq<char>) -> Option<Seq<char>> {
    match first_match_from(l, 0) {
        Some((i, e)) => Some(l.subrange(i, e)),
        None => None,
    }
}

fn scan_digits_vec(l: &Vec<char>, i: usize) -> (r: usize)
    requires
        i <= l@.len(),
    ensures
        r == scan_digits(l@, i as int),
        i <= r <= l@.len(),
{
    let mut j = i;
    let n = l.len();
    while j < n && digit_char(l[j])
        invariant
            i <= j <= n,
            n == l@.len(),
            scan_digits(l@, i as int) == scan_digits(l@, j as int),
        decreases n - j,
    {
        j = j + 1;
    }
    j
}

fn scan_ident_vec(l: &Vec<char>, i: usize) -> (r: usize)
    requires
        i <= l@.len(),
    ensures
        r == scan_ident(l@, i as int),
        i <= r <= l@.len(),
{
    let mut j = i;
    let n = l.len();
    while j < n && ident_char(l[j])
        invariant
            i <= j <= n,
            n == l@.len(),
            scan_ident(l@, i as int) == scan_ident(l@, j as int),
        decreases n - j,
    {
        j = j + 1;
    }
    j
}

fn dots_vec(l: &Vec<char>, p: usize) -> (r: usize)
    requires
        p <= l@.len(),
    ensures
        r == dots_end(l@, p as int),
        p <= r <= l@.len(),
{
    let mut q = p;
    let n = l.len();
    while q < n && l[q] == '.' && q + 1 < n && ident_char(l[q + 1])
        invariant
            p <= q <= n,
            n == l@.len(),
            dots_end(l@, p as int) == dots_end(l@, q as int),
        decreases n - q,
    {
        proof {
            lemma_scan_ident(l@, q + 1 as int);
        }
        q = scan_ident_vec(l, q + 1);
    }
    q
}

/// Where the greedy match beginning at `i` ends, if one begins there.
fn match_at(l: &Vec<char>, i: usize) -> (r: Option<usize>)
    requires
        i <= l@.len(),
    ensures
        r is Some <==> match_end(l@, i as int) is Some,
        r is Some ==> match_end(l@, i as int) == Some(r.unwrap() as int),
        r is Some ==> i < r.unwrap() <= l@.len(),
{
    let n = l.len();
    let e1 = scan_digits_vec(l, i);
    if e1 == i || !(e1 < n && l[e1] == '.') {
        return None;
    }
    let e2 = scan_digits_vec(l, e1 + 1);
    if e2 == e1 + 1 {
        return None;
    }
    let e3 = if e2 < n && l[e2] == '.' && e2 + 1 < n && digit_char(l[e2 + 1]) {
        scan_digits_vec(l, e2 + 1)
    } else {
        e2
    };
    let e4 = if e3 < n && l[e3] == '-' && e3 + 1 < n && ident_char(l[e3 + 1]) {
        let s = scan_ident_vec(l, e3 + 1);
        dots_vec(l, s)
    } else {
        e3
    };
    let e5 = if e4 < n && l[e4] == '+' && e4 + 1 < n && ident_char(l[e4 + 1]) {
        let s = scan_ident_vec(l, e4 + 1);
        dots_vec(l, s)
    } else {
        e4
    };
    proof {
        lemma_match_end_bounds(l@, i as int);
    }
    Some(e5)
}

/// A line with its trailing carriage return removed.
pub open spec fn strip_cr(l: Seq<char>) -> Seq<char> {
    if l.len() > 0 && l.last() == '\r' {
        l.drop_last()
    } else {
        l
    }
}

/// The lines of `s`: pieces between newlines, each piece before a newline
/// with a trailing carriage return removed, and a final empty piece dropped.
pub open spec fn spec_lines(s: Seq<char>) -> Seq<Seq<char>> {
    let parts = split_on(s, '\n');
    let main = parts.take(parts.len() - 1).map_values(|l: Seq<char>| strip_cr(l));
    if parts.last().len() == 0 {
        main
    } else {
        main.push(parts.last())
    }
}

fn strip_cr_vec(l: &Vec<char>) -> (r: Vec<char>)
    ensures
        r@ == strip_cr(l@),
{
    let n = l.len();
    if n > 0 && l[n - 1] == '\r' {
        let r = subvec(l, 0, n - 1);
        proof {
            assert(l@.subrange(0, n - 1 as int) =~= l@.drop_last());
        }
        r
    } else {
        let r = subvec(l, 0, n);
        proof {
            assert(l@.subrange(0, n as int) =~= l@);
        }
        r
    }
}

/// Splits text into its lines.
pub fn split_lines(v: &Vec<char>) -> (r: Vec<Vec<char>>)
    ensures
        views(r@) == spec_lines(v@),
{
    let parts = split_on_vec(v, '\n');
    proof {
        crate::chars::lemma_split_on_free(v@, '\n');
    }
    let n = parts.len();
    let mut out: Vec<Vec<char>> = Vec::new();
    let mut i: usize = 0;
    proof {
        assert(views(out@) =~= views(parts@).take(0).map_values(|l: Seq<char>| strip_cr(l)));
    }
    while i < n - 1
        invariant
            n >= 1,
            i <= n - 1,
            n == parts@.len(),
            views(parts@) == split_on(v@, '\n'),
            views(out@) == views(parts@).take(i as int).map_values(|l: Seq<char>| strip_cr(l)),
        decreases n - i,
    {
        let ghost prev = out@;
        let piece = strip_cr_vec(&parts[i]);
        out.push(piece);
        proof {
            assert(views(out@) =~= views(prev).push(strip_cr(parts@[i as int]@)));
            assert(views(parts@).take(i + 1 as int).map_values(|l: Seq<char>| strip_cr(l))
                =~= views(parts@).take(i as int).map_values(|l: Seq<char>| strip_cr(l)).push(
                strip_cr(parts@[i as int]@),
            ));
        }
        i = i + 1;
    }
    proof {
        assert(views(parts@).take(n - 1 as int) =~= split_on(v@, '\n').take(n - 1 as int));
        assert(views(parts@).last() == split_on(v@, '\n').last());
    }
    if parts[n - 1].len() > 0 {
        let ghost prev = out@;
        let last = subvec(&parts[n - 1], 0, parts[n - 1].len());
        proof {
            assert(parts@[n - 1 as int]@.subrange(0, parts@[n - 1 as int]@.len() as int) =~= parts@[
                n - 1 as int
            ]@);
        }
        out.push(last);
        proof {
            assert(views(out@) =~= views(prev).push(parts@[n - 1 as int]@));
            assert(views(out@) =~= spec_lines(v@));
        }
    } else {
        proof {
            assert(views(out@) =~= spec_lines(v@));
        }
    }
    out
}

/// The token of the first line that yields one.
pub open spec fn extract_lines(ls: Seq<Seq<char>>) -> Option<Seq<char>>
    decreases ls.len(),
{
    if ls.len() == 0 {
        None
    } else if line_token(ls[0]) is Some {
        line_token(ls[0])
    } else {
        extract_lines(ls.drop_first())
    }
}

/// The raw version token of probe output: the first match of the token
/// grammar on the first line that has one.
pub open spec fn spec_extract(s: Seq<char>) -> Option<Seq<char>> {
    extract_lines(spec_lines(s))
}

/// Lines after one that yields a token never change the result.
pub proof fn lemma_first_match_wins(ls1: Seq<Seq<char>>, ls2: Seq<Seq<char>>)
    requires
        extract_lines(ls1) is Some,
    ensures
        extract_lines(ls1 + ls2) == extract_lines(ls1),
    decreases ls1.len(),
{
    assert(ls1.len() > 0);
    assert((ls1 + ls2)[0] == ls1[0]);
    if line_token(ls1[0]) is Some {
    } else {
        lemma_first_match_wins(ls1.drop_first(), ls2);
        assert((ls1 + ls2).drop_first() =~= ls1.drop_first() + ls2);
    }
}

/// The first token of the grammar in the line, if any.
pub fn find_token(l: &Vec<char>) -> (r: Option<Vec<char>>)
    ensures
        r is Some <==> line_token(l@) is Some,
        r is Some ==> r.unwrap()@ == line_token(l@).unwrap(),
{
    let n = l.len();
    let mut i: usize = 0;
    while i < n
        invariant
            i <= n,
            n == l@.len(),
            first_match_from(l@, 0) == first_match_from(l@, i as int),
        decreases n - i,
    {
        match match_at(l, i) {
            Some(e) => {
                return Some(subvec(l, i, e));
            },
            None => {
                i = i + 1;
            },
        }
    }
    None
}

/// Scans probe output for the first line with a version-looking token and
/// hands back that token, cleaned into strict shape; when no line has one,
/// reports a version-parse failure naming the binary and the output.
pub fn extract_version(output: &str, binary_name: &str) -> (r: Result<String, VersionError>)
    ensures
        r is Ok <==> spec_extract(output@) is Some,
        r is Ok ==> r.unwrap()@ == spec_clean(spec_extract(output@).unwrap()),
        r is Err ==> (r.unwrap_err() matches VersionError::VersionParse { name, output: text }
            && name@ == binary_name@ && text@ == output@),
{
    let v = str_to_chars(output);
    let lines = split_lines(&v);
    let n = lines.len();
    let mut i: usize = 0;
    proof {
        assert(views(lines@).skip(0) =~= views(lines@));
    }
    while i < n
        invariant
            i <= n,
            n == lines@.len(),
            v@ == output@,
            views(lines@) == spec_lines(v@),
            extract_lines(spec_lines(v@)) == extract_lines(views(lines@).skip(i as int)),
        decreases n - i,
    {
        proof {
            assert(views(lines@).skip(i as int)[0] == lines@[i as int]@);
        }
        match find_token(&lines[i]) {
            Some(tok) => {
                let ts = chars_to_string(&tok);
                let cleaned = clean_version_string(ts.as_str());
                return Ok(cleaned);
            },
            None => {
                proof {
                    assert(views(lines@).skip(i as int).drop_first() =~= views(lines@).skip(
                        i + 1 as int,
                    ));
                }
                i = i + 1;
            },
        }
    }
    proof {
        assert(views(lines@).skip(n as int) =~= Seq::<Seq<char>>::empty());
    }
    Err(
        VersionError::VersionParse {
            name: String::from_str(binary_name),
            output: String::from_str(output),
        },
    )
}

} // verus!
