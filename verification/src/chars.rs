//! Character classes and conversions between `&str`, `Vec<char>` and `String`.
use vstd::prelude::*;

verus! {

/// An ASCII decimal digit.
pub open spec fn is_digit(c: char) -> bool {
    '0' <= c && c <= '9'
}

/// A character allowed in prerelease and build identifiers: `[0-9A-Za-z-]`.
pub open spec fn is_ident_char(c: char) -> bool {
    is_digit(c) || ('A' <= c && c <= 'Z') || ('a' <= c && c <= 'z') || c == '-'
}

pub fn digit_char(c: char) -> (r: bool)
    ensures
        r == is_digit(c),
{
    '0' <= c && c <= '9'
}

pub fn ident_char(c: char) -> (r: bool)
    ensures
        r == is_ident_char(c),
{
    digit_char(c) || ('A' <= c && c <= 'Z') || ('a' <= c && c <= 'z') || c == '-'
}

/// Copies the characters of a string slice into a vector.
pub fn str_to_chars(s: &str) -> (r: Vec<char>)
    ensures
        r@ == s@,
{
    let n: usize = s.unicode_len();
    let mut r: Vec<char> = Vec::new();
    let mut i: usize = 0;
    while i < n
        invariant
            i <= n,
            n == s@.len(),
            r@ == s@.subrange(0, i as int),
        decreases n - i,
    {
        r.push(s.get_char(i));
        i = i + 1;
        proof {
            assert(r@ =~= s@.subrange(0, i as int));
        }
    }
    proof {
        assert(r@ =~= s@);
    }
    r
}

/// Relies on `String::push`: appends one character at the end.
#[verifier::external_body]
fn push_char(s: &mut String, c: char)
    ensures
        final(s)@ == old(s)@.push(c),
{
    s.push(c)
}

/// Builds a string out of a vector of characters.
pub fn chars_to_string(v: &Vec<char>) -> (r: String)
    ensures
        r@ == v@,
{
    let mut r = String::new();
    let mut i: usize = 0;
    while i < v.len()
        invariant
            i <= v@.len(),
            r@ == v@.subrange(0, i as int),
        decreases v@.len() - i,
    {
        push_char(&mut r, v[i]);
        i = i + 1;
        proof {
            assert(r@ =~= v@.subrange(0, i as int));
        }
    }
    proof {
        assert(r@ =~= v@);
    }
    r
}

/// Copies the characters of `v` between `from` and `to`.
pub fn subvec(v: &Vec<char>, from: usize, to: usize) -> (r: Vec<char>)
    requires
        from <= to <= v@.len(),
    ensures
        r@ == v@.subrange(from as int, to as int),
{
    let mut r: Vec<char> = Vec::new();
    let mut i: usize = from;
    while i < to
        invariant
            from <= i <= to <= v@.len(),
            r@ == v@.subrange(from as int, i as int),
        decreases to - i,
    {
        r.push(v[i]);
        i = i + 1;
        proof {
            assert(r@ =~= v@.subrange(from as int, i as int));
        }
    }
    r
}

/// Finds the first occurrence of `sep`, or the length when absent.
pub fn find_char_vec(v: &Vec<char>, sep: char) -> (r: usize)
    ensures
        r == find_char(v@, sep),
{
    let n = v.len();
    let mut i: usize = 0;
    while i < n
        invariant
            i <= n,
            n == v@.len(),
            forall|j: int| 0 <= j < i ==> v@[j] != sep,
        decreases n - i,
    {
        if v[i] == sep {
            proof {
                lemma_find_char_unique(v@, sep, i as int);
            }
            return i;
        }
        i = i + 1;
    }
    proof {
        lemma_find_char_unique(v@, sep, n as int);
    }
    n
}

/// Appends every character of `v`.
pub fn append_chars(out: &mut Vec<char>, v: &Vec<char>)
    ensures
        final(out)@ == old(out)@ + v@,
{
    let mut i: usize = 0;
    while i < v.len()
        invariant
            i <= v@.len(),
            out@ == old(out)@ + v@.take(i as int),
        decreases v@.len() - i,
    {
        out.push(v[i]);
        i = i + 1;
        proof {
            assert(old(out)@ + v@.take(i - 1 as int) + seq![v@[i - 1]] =~= old(out)@ + v@.take(
                i as int,
            ));
        }
    }
    proof {
        assert(old(out)@ + v@.take(v@.len() as int) =~= old(out)@ + v@);
    }
}

/// Index of the first occurrence of `sep` in `s`, or `s.len()` when absent.
pub open spec fn find_char(s: Seq<char>, sep: char) -> int
    decreases s.len(),
{
    if s.len() == 0 {
        0
    } else if s[0] == sep {
        0
    } else {
        1 + find_char(s.drop_first(), sep)
    }
}

pub proof fn lemma_find_char(s: Seq<char>, sep: char)
    ensures
        0 <= find_char(s, sep) <= s.len(),
        forall|j: int| 0 <= j < find_char(s, sep) ==> s[j] != sep,
        find_char(s, sep) < s.len() ==> s[find_char(s, sep)] == sep,
        find_char(s, sep) == s.len() ==> !s.contains(sep),
    decreases s.len(),
{
    if s.len() == 0 {
    } else if s[0] == sep {
    } else {
        lemma_find_char(s.drop_first(), sep);
        assert forall|j: int| 0 <= j < find_char(s, sep) implies s[j] != sep by {
            if j > 0 {
                assert(s.drop_first()[j - 1] != sep);
            }
        }
        if find_char(s, sep) == s.len() && s.contains(sep) {
            let k = choose|k: int| 0 <= k < s.len() && s[k] == sep;
            assert(s.drop_first()[k - 1] == sep);
            assert(s.drop_first().contains(sep));
        }
    }
}

/// `find_char` returns the least index holding `sep`: any position with
/// nothing but other characters before it and `sep` (or the end) at it
/// is that index.
pub proof fn lemma_find_char_unique(s: Seq<char>, sep: char, k: int)
    requires
        0 <= k <= s.len(),
        forall|j: int| 0 <= j < k ==> s[j] != sep,
        k < s.len() ==> s[k] == sep,
    ensures
        find_char(s, sep) == k,
    decreases s.len(),
{
    if s.len() == 0 {
    } else if s[0] == sep {
    } else {
        assert(k != 0);
        assert forall|j: int| 0 <= j < k - 1 implies s.drop_first()[j] != sep by {
            assert(s[j + 1] != sep);
        }
        lemma_find_char_unique(s.drop_first(), sep, k - 1);
    }
}

/// Splits `s` at the first occurrence of `sep`: the part before it, and,
/// when `sep` occurs at all, the part after it.
pub open spec fn split_first(s: Seq<char>, sep: char) -> (Seq<char>, Option<Seq<char>>) {
    let i = find_char(s, sep);
    if i < s.len() {
        (s.take(i), Some(s.skip(i + 1)))
    } else {
        (s, None)
    }
}

pub proof fn lemma_split_first_absent(s: Seq<char>, sep: char)
    requires
        !s.contains(sep),
    ensures
        split_first(s, sep) == (s, None::<Seq<char>>),
{
    lemma_find_char(s, sep);
    if find_char(s, sep) < s.len() {
        assert(s.contains(sep));
    }
}

pub proof fn lemma_split_first_present(a: Seq<char>, sep: char, b: Seq<char>)
    requires
        !a.contains(sep),
    ensures
        split_first(a + seq![sep] + b, sep) == (a, Some(b)),
{
    let s = a + seq![sep] + b;
    assert forall|j: int| 0 <= j < a.len() implies s[j] != sep by {
        assert(s[j] == a[j]);
        assert(a.contains(a[j]));
    }
    assert(s[a.len() as int] == sep);
    lemma_find_char_unique(s, sep, a.len() as int);
    assert(s.take(a.len() as int) =~= a);
    assert(s.skip(a.len() + 1 as int) =~= b);
}

/// Splits at the first occurrence of `sep`.
pub fn split_first_vec(v: &Vec<char>, sep: char) -> (r: (Vec<char>, Option<Vec<char>>))
    ensures
        r.0@ == split_first(v@, sep).0,
        r.1 is Some <==> split_first(v@, sep).1 is Some,
        r.1 is Some ==> r.1.unwrap()@ == split_first(v@, sep).1.unwrap(),
{
    proof {
        lemma_find_char(v@, sep);
    }
    let i = find_char_vec(v, sep);
    if i < v.len() {
        (subvec(v, 0, i), Some(subvec(v, i + 1, v.len())))
    } else {
        proof {
            assert(v@.subrange(0, v@.len() as int) =~= v@);
        }
        (subvec(v, 0, v.len()), None)
    }
}

/// All the pieces of `s` between occurrences of `sep`, in order.
pub open spec fn split_on(s: Seq<char>, sep: char) -> Seq<Seq<char>>
    decreases s.len(),
{
    let i = find_char(s, sep);
    if 0 <= i < s.len() {
        seq![s.take(i)] + split_on(s.skip(i + 1), sep)
    } else {
        seq![s]
    }
}

pub proof fn lemma_split_on_absent(s: Seq<char>, sep: char)
    requires
        !s.contains(sep),
    ensures
        split_on(s, sep) == seq![s],
{
    lemma_find_char(s, sep);
    if find_char(s, sep) < s.len() {
        assert(s.contains(sep));
    }
}

pub proof fn lemma_split_on_step(a: Seq<char>, sep: char, b: Seq<char>)
    requires
        !a.contains(sep),
    ensures
        split_on(a + seq![sep] + b, sep) == seq![a] + split_on(b, sep),
{
    let s = a + seq![sep] + b;
    assert forall|j: int| 0 <= j < a.len() implies s[j] != sep by {
        assert(s[j] == a[j]);
        assert(a.contains(a[j]));
    }
    lemma_find_char_unique(s, sep, a.len() as int);
    assert(s.take(a.len() as int) =~= a);
    assert(s.skip(a.len() + 1 as int) =~= b);
}

/// An ASCII upper-case letter mapped to lower case; all else untouched.
pub open spec fn lower_char(c: char) -> char {
    if 'A' <= c && c <= 'Z' {
        ((c as u32) + 32) as char
    } else {
        c
    }
}

/// The text with its ASCII letters in lower case.
pub open spec fn spec_lower(s: Seq<char>) -> Seq<char> {
    s.map_values(|c: char| lower_char(c))
}

/// Lower-cases the ASCII letters of `v`.
pub fn lower_vec(v: &Vec<char>) -> (r: Vec<char>)
    ensures
        r@ == spec_lower(v@),
{
    let mut r: Vec<char> = Vec::new();
    let mut i: usize = 0;
    let n = v.len();
    while i < n
        invariant
            i <= n,
            n == v@.len(),
            r@ =~= v@.take(i as int).map_values(|c: char| lower_char(c)),
        decreases n - i,
    {
        let c = v[i];
        let lc: char = if 'A' <= c && c <= 'Z' {
            (((c as u32) + 32) as u8) as char
        } else {
            c
        };
        assert(lc == lower_char(c));
        r.push(lc);
        i = i + 1;
        proof {
            assert(r@ =~= v@.take(i as int).map_values(|c: char| lower_char(c)));
        }
    }
    proof {
        assert(v@.take(n as int) =~= v@);
    }
    r
}

/// `needle` occurs in `hay` beginning at `i`.
pub open spec fn match_at_idx(hay: Seq<char>, needle: Seq<char>, i: int) -> bool {
    0 <= i && i + needle.len() <= hay.len() && hay.subrange(i, i + needle.len()) == needle
}

/// `needle` occurs somewhere in `hay`.
pub open spec fn contains_seq(hay: Seq<char>, needle: Seq<char>) -> bool {
    exists|i: int| match_at_idx(hay, needle, i)
}

/// `hay` begins with `needle`.
pub open spec fn starts_with_seq(hay: Seq<char>, needle: Seq<char>) -> bool {
    needle.len() <= hay.len() && hay.take(needle.len() as int) == needle
}

/// `hay` ends with `needle`.
pub open spec fn ends_with_seq(hay: Seq<char>, needle: Seq<char>) -> bool {
    needle.len() <= hay.len() && hay.skip(hay.len() - needle.len()) == needle
}

/// Whether `needle` stands in `hay` at position `i`.
fn eq_at(hay: &Vec<char>, needle: &Vec<char>, i: usize) -> (r: bool)
    requires
        i + needle@.len() <= hay@.len(),
    ensures
        r == match_at_idx(hay@, needle@, i as int),
{
    let m = needle.len();
    let n = hay.len();
    let mut j: usize = 0;
    while j < m
        invariant
            j <= m,
            m == needle@.len(),
            n == hay@.len(),
            i + m <= n,
            forall|k: int| 0 <= k < j ==> hay@[i + k] == needle@[k],
        decreases m - j,
    {
        if hay[i + j] != needle[j] {
            proof {
                assert(hay@.subrange(i as int, i + m as int)[j as int] != needle@[j as int]);
            }
            return false;
        }
        j = j + 1;
    }
    proof {
        assert(hay@.subrange(i as int, i + m as int) =~= needle@);
    }
    true
}

/// Whether `needle` occurs anywhere in `hay`.
pub fn contains_vec(hay: &Vec<char>, needle: &Vec<char>) -> (r: bool)
    ensures
        r == contains_seq(hay@, needle@),
{
    let n = hay.len();
    let m = needle.len();
    if m > n {
        proof {
            assert forall|i: int| !match_at_idx(hay@, needle@, i) by {}
        }
        return false;
    }
    if m == 0 {
        proof {
            assert(hay@.subrange(0, 0) =~= needle@);
            assert(match_at_idx(hay@, needle@, 0));
        }
        return true;
    }
    let mut i: usize = 0;
    while i <= n - m
        invariant
            1 <= m <= n,
            n == hay@.len(),
            m == needle@.len(),
            i <= n - m + 1,
            forall|k: int| 0 <= k < i ==> !match_at_idx(hay@, needle@, k),
        decreases n - i,
    {
        if eq_at(hay, needle, i) {
            proof {
                assert(match_at_idx(hay@, needle@, i as int));
            }
            return true;
        }
        i = i + 1;
    }
    proof {
        assert forall|k: int| !match_at_idx(hay@, needle@, k) by {
            if k >= i {
                assert(k + needle@.len() > hay@.len());
            }
        }
    }
    false
}

/// Whether `hay` begins with `needle`.
pub fn starts_with_vec(hay: &Vec<char>, needle: &Vec<char>) -> (r: bool)
    ensures
        r == starts_with_seq(hay@, needle@),
{
    let n = hay.len();
    let m = needle.len();
    if m > n {
        return false;
    }
    let r = eq_at(hay, needle, 0);
    proof {
        assert(hay@.subrange(0, m as int) == hay@.take(m as int));
    }
    r
}

/// Whether `hay` ends with `needle`.
pub fn ends_with_vec(hay: &Vec<char>, needle: &Vec<char>) -> (r: bool)
    ensures
        r == ends_with_seq(hay@, needle@),
{
    let n = hay.len();
    let m = needle.len();
    if m > n {
        return false;
    }
    let r = eq_at(hay, needle, n - m);
    proof {
        assert(hay@.subrange(n - m as int, n as int) == hay@.skip(n - m as int));
    }
    r
}

/// Lexicographic order on text, by code point.
pub open spec fn lex_le(a: Seq<char>, b: Seq<char>) -> bool
    decreases a.len(),
{
    if a.len() == 0 {
        true
    } else if b.len() == 0 {
        false
    } else if a[0] < b[0] {
        true
    } else if a[0] == b[0] {
        lex_le(a.drop_first(), b.drop_first())
    } else {
        false
    }
}

/// Any two texts compare in one direction or the other.
pub proof fn lemma_lex_total(a: Seq<char>, b: Seq<char>)
    ensures
        lex_le(a, b) || lex_le(b, a),
    decreases a.len(),
{
    if a.len() == 0 || b.len() == 0 {
    } else if a[0] == b[0] {
        lemma_lex_total(a.drop_first(), b.drop_first());
    } else {
        assert(a[0] < b[0] || b[0] < a[0]);
    }
}

/// The order is transitive.
pub proof fn lemma_lex_trans(a: Seq<char>, b: Seq<char>, c: Seq<char>)
    requires
        lex_le(a, b),
        lex_le(b, c),
    ensures
        lex_le(a, c),
    decreases a.len(),
{
    if a.len() == 0 {
    } else if b.len() == 0 {
    } else if c.len() == 0 {
    } else {
        if a[0] == b[0] && b[0] == c[0] {
            lemma_lex_trans(a.drop_first(), b.drop_first(), c.drop_first());
        }
    }
}

/// Compares two texts in lexicographic order.
pub fn lex_le_vec(a: &Vec<char>, b: &Vec<char>) -> (r: bool)
    ensures
        r == lex_le(a@, b@),
{
    let mut i: usize = 0;
    let na = a.len();
    let nb = b.len();
    proof {
        assert(a@.skip(0) =~= a@);
        assert(b@.skip(0) =~= b@);
    }
    while i < na && i < nb
        invariant
            i <= na,
            i <= nb,
            na == a@.len(),
            nb == b@.len(),
            lex_le(a@, b@) == lex_le(a@.skip(i as int), b@.skip(i as int)),
            lex_le(b@, a@) == lex_le(b@.skip(i as int), a@.skip(i as int)),
        decreases na - i,
    {
        let ca = a[i];
        let cb = b[i];
        if ca < cb {
            return true;
        }
        if cb < ca {
            proof {
                assert(ca != cb);
                lemma_lex_total(a@.skip(i as int), b@.skip(i as int));
            }
            return false;
        }
        proof {
            assert(ca == cb);
            assert(a@.skip(i as int).drop_first() =~= a@.skip(i + 1 as int));
            assert(b@.skip(i as int).drop_first() =~= b@.skip(i + 1 as int));
        }
        i = i + 1;
    }
    proof {
        if i >= na {
            assert(a@.skip(i as int).len() == 0);
        } else {
            assert(b@.skip(i as int).len() == 0);
            assert(a@.skip(i as int).len() > 0);
        }
    }
    i >= na
}

/// A split at the first occurrence reassembles to the whole, and its first
/// part is free of the separator.
pub proof fn lemma_split_first_parts(s: Seq<char>, sep: char)
    ensures
        !split_first(s, sep).0.contains(sep),
        split_first(s, sep).1 is Some ==> s == split_first(s, sep).0 + seq![sep] + split_first(
            s,
            sep,
        ).1.unwrap(),
        split_first(s, sep).1 is None ==> split_first(s, sep).0 == s,
{
    lemma_find_char(s, sep);
    let i = find_char(s, sep);
    if i < s.len() {
        assert(s.take(i) + seq![s[i]] + s.skip(i + 1) =~= s);
        if s.take(i).contains(sep) {
            let k = choose|k: int| 0 <= k < i && s.take(i)[k] == sep;
            assert(s[k] == sep);
        }
    } else {
        if s.contains(sep) {
            let k = choose|k: int| 0 <= k < s.len() && s[k] == sep;
            assert(s[k] != sep);
        }
    }
}

/// The views of a list of character vectors.
pub open spec fn views(vs: Seq<Vec<char>>) -> Seq<Seq<char>> {
    vs.map_values(|v: Vec<char>| v@)
}

/// Splits into all the pieces between occurrences of `sep`.
pub fn split_on_vec(v: &Vec<char>, sep: char) -> (r: Vec<Vec<char>>)
    ensures
        views(r@) == split_on(v@, sep),
{
    let n = v.len();
    let mut r: Vec<Vec<char>> = Vec::new();
    let mut pos: usize = 0;
    proof {
        assert(v@.skip(0) =~= v@);
        assert(views(r@) =~= Seq::<Seq<char>>::empty());
    }
    loop
        invariant_except_break
            pos <= n,
            n == v@.len(),
            split_on(v@, sep) =~= views(r@) + split_on(v@.skip(pos as int), sep),
        ensures
            views(r@) == split_on(v@, sep),
        decreases n - pos,
    {
        let rest = subvec(v, pos, n);
        proof {
            lemma_find_char(rest@, sep);
        }
        let i = find_char_vec(&rest, sep);
        if i < rest.len() {
            let ghost prev = r@;
            r.push(subvec(&rest, 0, i));
            proof {
                assert(split_on(rest@, sep) == seq![rest@.take(i as int)] + split_on(
                    rest@.skip(i + 1),
                    sep,
                ));
                assert(rest@.skip(i + 1) =~= v@.skip(pos + i + 1 as int));
                assert(views(r@) =~= views(prev).push(rest@.take(i as int)));
                assert(views(prev) + (seq![rest@.take(i as int)] + split_on(
                    v@.skip(pos + i + 1 as int),
                    sep,
                )) =~= views(r@) + split_on(v@.skip(pos + i + 1 as int), sep));
            }
            pos = pos + i + 1;
        } else {
            let ghost prev = r@;
            let ghost tail = rest@;
            r.push(rest);
            proof {
                assert(split_on(tail, sep) == seq![tail]);
                assert(views(r@) =~= views(prev).push(tail));
                assert(views(prev) + seq![tail] =~= views(r@));
            }
            break;
        }
    }
    r
}

/// The pieces joined back together with `sep` between each two.
pub open spec fn join_on(parts: Seq<Seq<char>>, sep: char) -> Seq<char>
    decreases parts.len(),
{
    if parts.len() == 0 {
        Seq::empty()
    } else if parts.len() == 1 {
        parts[0]
    } else {
        parts[0] + seq![sep] + join_on(parts.drop_first(), sep)
    }
}

/// Joining one more piece appends a separator and the piece.
pub proof fn lemma_join_push(parts: Seq<Seq<char>>, p: Seq<char>, sep: char)
    requires
        parts.len() >= 1,
    ensures
        join_on(parts.push(p), sep) == join_on(parts, sep) + seq![sep] + p,
    decreases parts.len(),
{
    if parts.len() == 1 {
        assert(parts.push(p)[0] == parts[0]);
        assert(parts.push(p).drop_first() =~= seq![p]);
        assert(join_on(seq![p], sep) == p);
    } else {
        assert(parts.push(p)[0] == parts[0]);
        assert(parts.push(p).drop_first() =~= parts.drop_first().push(p));
        lemma_join_push(parts.drop_first(), p, sep);
        assert(parts[0] + seq![sep] + (join_on(parts.drop_first(), sep) + seq![sep] + p) =~= (
        parts[0] + seq![sep] + join_on(parts.drop_first(), sep)) + seq![sep] + p);
    }
}

/// Splitting undoes joining, as long as no piece holds the separator itself.
pub proof fn lemma_split_join(parts: Seq<Seq<char>>, sep: char)
    requires
        parts.len() > 0,
        forall|i: int| 0 <= i < parts.len() ==> !(#[trigger] parts[i]).contains(sep),
    ensures
        split_on(join_on(parts, sep), sep) == parts,
    decreases parts.len(),
{
    if parts.len() == 1 {
        lemma_split_on_absent(parts[0], sep);
        assert(seq![parts[0]] =~= parts);
    } else {
        let rest = parts.drop_first();
        lemma_split_on_step(parts[0], sep, join_on(rest, sep));
        lemma_split_join(rest, sep);
        assert(seq![parts[0]] + rest =~= parts);
    }
}

/// Joining undoes splitting.
pub proof fn lemma_join_split(s: Seq<char>, sep: char)
    ensures
        join_on(split_on(s, sep), sep) == s,
    decreases s.len(),
{
    lemma_find_char(s, sep);
    let i = find_char(s, sep);
    if 0 <= i < s.len() {
        lemma_join_split(s.skip(i + 1), sep);
        let parts = split_on(s, sep);
        assert(parts.drop_first() =~= split_on(s.skip(i + 1), sep));
        if split_on(s.skip(i + 1), sep).len() == 0 {
        } else {
            assert(join_on(parts, sep) == s.take(i) + seq![sep] + s.skip(i + 1));
            assert(s.take(i) + seq![sep] + s.skip(i + 1) =~= s);
        }
    }
}

/// No piece of a split holds the separator.
pub proof fn lemma_split_on_free(s: Seq<char>, sep: char)
    ensures
        split_on(s, sep).len() >= 1,
        forall|i: int|
            0 <= i < split_on(s, sep).len() ==> !(#[trigger] split_on(s, sep)[i]).contains(sep),
    decreases s.len(),
{
    lemma_find_char(s, sep);
    let i = find_char(s, sep);
    if 0 <= i < s.len() {
        lemma_split_on_free(s.skip(i + 1), sep);
        let head = s.take(i);
        assert forall|j: int|
            0 <= j < split_on(s, sep).len() implies !(#[trigger] split_on(s, sep)[j]).contains(
            sep,
        ) by {
            if j == 0 {
                if head.contains(sep) {
                    let k = choose|k: int| 0 <= k < head.len() && head[k] == sep;
                    assert(s[k] == sep);
                }
            } else {
                assert(split_on(s, sep)[j] == split_on(s.skip(i + 1), sep)[j - 1]);
            }
        }
    } else {
        assert forall|j: int|
            0 <= j < split_on(s, sep).len() implies !(#[trigger] split_on(s, sep)[j]).contains(
            sep,
        ) by {
            assert(split_on(s, sep)[j] == s);
        }
    }
}

} // verus!
