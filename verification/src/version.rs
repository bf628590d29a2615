//! The strict version value: `major.minor.patch[-prerelease][+build]`.
use vstd::prelude::*;

use crate::chars::{
    append_chars, is_digit, is_ident_char, join_on, lemma_join_push, lemma_join_split, lemma_split_first_parts,
    split_first, split_first_vec, split_on,
};

verus! {

/// A build identifier: one or more characters from `[0-9A-Za-z-]`.
pub open spec fn valid_build_token(t: Seq<char>) -> bool {
    t.len() > 0 && forall|i: int| 0 <= i < t.len() ==> is_ident_char(#[trigger] t[i])
}

/// A prerelease identifier: as a build identifier, except that a purely
/// numeric one may not have a leading zero.
pub open spec fn valid_pre_token(t: Seq<char>) -> bool {
    valid_build_token(t) && (all_digits(t) && t.len() > 1 ==> t[0] != '0')
}

/// The views of a list of identifier strings.
pub open spec fn token_views(toks: Seq<String>) -> Seq<Seq<char>> {
    toks.map_values(|t: String| t@)
}

/// The numeric value of a decimal digit character.
pub open spec fn digit_val(c: char) -> int {
    c as u32 - 48
}

/// The decimal digit character for a value below ten.
pub open spec fn digit_of(d: int) -> char {
    if d == 0 {
        '0'
    } else if d == 1 {
        '1'
    } else if d == 2 {
        '2'
    } else if d == 3 {
        '3'
    } else if d == 4 {
        '4'
    } else if d == 5 {
        '5'
    } else if d == 6 {
        '6'
    } else if d == 7 {
        '7'
    } else if d == 8 {
        '8'
    } else {
        '9'
    }
}

/// The decimal rendering of a non-negative integer, without leading zeros.
pub open spec fn spec_digits(n: int) -> Seq<char>
    decreases n,
{
    if n < 10 {
        seq![digit_of(n)]
    } else {
        spec_digits(n / 10).push(digit_of(n % 10))
    }
}

/// The value of a sequence of decimal digit characters.
pub open spec fn digits_val(s: Seq<char>) -> int
    decreases s.len(),
{
    if s.len() == 0 {
        0
    } else {
        10 * digits_val(s.drop_last()) + digit_val(s.last())
    }
}

/// A run of decimal digits.
pub open spec fn all_digits(s: Seq<char>) -> bool {
    forall|i: int| 0 <= i < s.len() ==> is_digit(#[trigger] s[i])
}

pub proof fn lemma_spec_digits_shape(n: int)
    requires
        n >= 0,
    ensures
        spec_digits(n).len() >= 1,
        all_digits(spec_digits(n)),
        spec_digits(n).len() > 1 ==> spec_digits(n)[0] != '0',
        n >= 10 ==> spec_digits(n).len() >= 2,
        digits_val(spec_digits(n)) == n,
    decreases n,
{
    if n < 10 {
        assert(spec_digits(n) =~= seq![digit_of(n)]);
        assert(spec_digits(n).drop_last() =~= Seq::<char>::empty());
        assert(digits_val(Seq::<char>::empty()) == 0);
        assert(digits_val(spec_digits(n)) == 10 * digits_val(spec_digits(n).drop_last())
            + digit_val(spec_digits(n).last()));
        assert(digit_val(digit_of(n)) == n);
        assert(is_digit(digit_of(n)));
    } else {
        lemma_spec_digits_shape(n / 10);
        let s = spec_digits(n);
        assert(s == spec_digits(n / 10).push(digit_of(n % 10)));
        assert(s[0] == spec_digits(n / 10)[0]);
        assert(s.drop_last() =~= spec_digits(n / 10));
        assert(s.last() == digit_of(n % 10));
        assert(0 <= n % 10 <= 9);
        assert(is_digit(digit_of(n % 10)));
        assert(digit_val(digit_of(n % 10)) == n % 10);
        assert(n / 10 >= 1);
        if n / 10 < 10 {
            assert(spec_digits(n / 10) == seq![digit_of(n / 10)]);
            assert(digit_of(n / 10) != '0');
        }
        assert(digits_val(s) == 10 * (n / 10) + n % 10);
        assert(10 * (n / 10) + n % 10 == n);
    }
}

/// A digit run with no leading zero has the value at least one, unless it is `"0"`.
pub proof fn lemma_digits_val_pos(s: Seq<char>)
    requires
        s.len() >= 1,
        all_digits(s),
        s[0] != '0',
    ensures
        digits_val(s) >= 1,
        s.len() > 1 ==> digits_val(s) >= 10,
    decreases s.len(),
{
    if s.len() == 1 {
        assert(s.last() == s[0]);
        assert(s.drop_last() =~= Seq::<char>::empty());
        assert(digits_val(Seq::<char>::empty()) == 0);
        assert(digits_val(s) == 10 * digits_val(s.drop_last()) + digit_val(s.last()));
        assert(is_digit(s[0]));
        assert(digit_val(s[0]) >= 1);
    } else {
        assert(s.drop_last()[0] == s[0]);
        assert(all_digits(s.drop_last()));
        lemma_digits_val_pos(s.drop_last());
        assert(is_digit(s.last()));
        assert(digit_val(s.last()) >= 0);
    }
}

/// Rendering the value of a digit run reproduces it, when it has no
/// leading zero.
pub proof fn lemma_digits_round_trip(s: Seq<char>)
    requires
        s.len() >= 1,
        all_digits(s),
        s.len() > 1 ==> s[0] != '0',
    ensures
        spec_digits(digits_val(s)) == s,
    decreases s.len(),
{
    let v = digits_val(s);
    if s.len() == 1 {
        assert(s.last() == s[0]);
        assert(is_digit(s[0]));
        assert(0 <= digit_val(s[0]) <= 9);
        assert(s.drop_last() =~= Seq::<char>::empty());
        assert(digits_val(Seq::<char>::empty()) == 0);
        assert(digits_val(s) == 10 * digits_val(s.drop_last()) + digit_val(s.last()));
        assert(v == digit_val(s[0]));
        assert(digit_of(digit_val(s[0])) == s[0]);
        assert(spec_digits(v) =~= s);
    } else {
        let a = digits_val(s.drop_last());
        let d = digit_val(s.last());
        lemma_digits_round_trip(s.drop_last());
        lemma_digits_val_pos(s.drop_last());
        assert(0 <= d <= 9);
        assert(v == 10 * a + d);
        assert(v >= 10);
        assert(v / 10 == a && v % 10 == d) by (nonlinear_arith)
            requires
                v == 10 * a + d,
                0 <= d <= 9,
                a >= 1,
        ;
        assert(digit_of(d) == s.last());
        assert(spec_digits(v) == spec_digits(a).push(s.last()));
        assert(spec_digits(a).push(s.last()) =~= s);
    }
}

/// Growing a digit run can only grow its value.
pub proof fn lemma_digits_val_monotone(s: Seq<char>, i: int)
    requires
        0 <= i <= s.len(),
        all_digits(s),
    ensures
        digits_val(s.take(i)) <= digits_val(s),
    decreases s.len() - i,
{
    if i < s.len() {
        lemma_digits_val_monotone(s, i + 1);
        let t = s.take(i + 1);
        assert(t.drop_last() =~= s.take(i));
        assert(digits_val(t) == 10 * digits_val(s.take(i)) + digit_val(t.last()));
        lemma_digits_val_nonneg(s.take(i));
        assert(0 <= digit_val(t.last()));
    } else {
        assert(s.take(i) =~= s);
    }
}

pub proof fn lemma_digits_val_nonneg(s: Seq<char>)
    requires
        all_digits(s),
    ensures
        digits_val(s) >= 0,
    decreases s.len(),
{
    if s.len() > 0 {
        lemma_digits_val_nonneg(s.drop_last());
    }
}

/// The digit character for a value below ten.
pub fn digit_char_of(d: u64) -> (c: char)
    requires
        d <= 9,
    ensures
        c == digit_of(d as int),
        is_digit(c),
{
    if d == 0 {
        '0'
    } else if d == 1 {
        '1'
    } else if d == 2 {
        '2'
    } else if d == 3 {
        '3'
    } else if d == 4 {
        '4'
    } else if d == 5 {
        '5'
    } else if d == 6 {
        '6'
    } else if d == 7 {
        '7'
    } else if d == 8 {
        '8'
    } else {
        '9'
    }
}

/// Renders an integer in decimal.
pub fn u64_digits(n: u64) -> (r: Vec<char>)
    ensures
        r@ == spec_digits(n as int),
{
    let mut rev: Vec<char> = Vec::new();
    let mut m: u64 = n;
    if m == 0 {
        rev.push('0');
        proof {
            assert(rev@ =~= spec_digits(0));
        }
        return rev;
    }
    while m > 0
        invariant
            m > 0 ==> spec_digits(n as int) =~= spec_digits(m as int) + rev@.reverse(),
            m == 0 ==> spec_digits(n as int) =~= rev@.reverse(),
        decreases m,
    {
        let d = m % 10;
        let c = digit_char_of(d);
        proof {
            let ghost old_rev = rev@;
            assert(old_rev.push(c).reverse() =~= seq![c] + old_rev.reverse());
            if m < 10 {
                assert(spec_digits(m as int) == seq![c]);
            } else {
                assert(spec_digits(m as int) == spec_digits(m as int / 10).push(c));
                assert(spec_digits(m as int / 10).push(c) =~= spec_digits(m as int / 10) + seq![c]);
                assert(spec_digits(m as int) + old_rev.reverse() =~= spec_digits(m as int / 10) + (
                seq![c] + old_rev.reverse()));
            }
        }
        rev.push(c);
        m = m / 10;
    }
    let mut r: Vec<char> = Vec::new();
    let n_rev = rev.len();
    let mut i: usize = 0;
    while i < n_rev
        invariant
            i <= n_rev,
            n_rev == rev@.len(),
            r@ =~= rev@.reverse().take(i as int),
        decreases n_rev - i,
    {
        r.push(rev[n_rev - 1 - i]);
        i = i + 1;
        proof {
            assert(r@ =~= rev@.reverse().take(i as int));
        }
    }
    proof {
        assert(rev@.reverse().take(n_rev as int) =~= rev@.reverse());
    }
    r
}

/// Reads a run of decimal digits as an integer, or reports that the value
/// does not fit in a `u64`.
pub fn digits_to_u64(s: &Vec<char>) -> (r: Option<u64>)
    requires
        all_digits(s@),
    ensures
        r is Some <==> digits_val(s@) <= u64::MAX,
        r is Some ==> r.unwrap() == digits_val(s@),
{
    let mut acc: u64 = 0;
    let mut i: usize = 0;
    let n = s.len();
    while i < n
        invariant
            i <= n,
            n == s@.len(),
            all_digits(s@),
            acc == digits_val(s@.take(i as int)),
        decreases n - i,
    {
        let c = s[i];
        assert(is_digit(c));
        let d: u64 = (c as u32 - 48) as u64;
        assert(d == digit_val(c));
        if acc > 1844674407370955161 || (acc == 1844674407370955161 && d > 5) {
            proof {
                assert(s@.take(i as int + 1).drop_last() =~= s@.take(i as int));
                assert(s@.take(i as int + 1).last() == c);
                assert(digits_val(s@.take(i as int + 1)) > u64::MAX);
                lemma_digits_val_monotone(s@, i as int + 1);
            }
            return None;
        }
        proof {
            assert(s@.take(i as int + 1).drop_last() =~= s@.take(i as int));
            assert(s@.take(i as int + 1).last() == c);
        }
        acc = acc * 10 + d;
        i = i + 1;
    }
    proof {
        assert(s@.take(n as int) =~= s@);
    }
    Some(acc)
}

/// A strict version: three numeric components, an optional prerelease and
/// optional build metadata, each a list of identifiers.
#[derive(Debug, PartialEq, Eq)]
pub struct NormalizedVersion {
    pub major: u64,
    pub minor: u64,
    pub patch: u64,
    pub pre: Vec<String>,
    pub build: Vec<String>,
}

impl NormalizedVersion {
    /// Every stored identifier is well formed.
    pub open spec fn wf(self) -> bool {
        &&& forall|i: int|
            0 <= i < self.pre@.len() ==> valid_pre_token(#[trigger] self.pre@[i]@)
        &&& forall|i: int|
            0 <= i < self.build@.len() ==> valid_build_token(#[trigger] self.build@[i]@)
    }

    /// The `major.minor.patch` core of the rendered form.
    pub open spec fn spec_core(self) -> Seq<char> {
        spec_digits(self.major as int) + seq!['.'] + spec_digits(self.minor as int) + seq!['.']
            + spec_digits(self.patch as int)
    }

    /// The rendered form: the core alone, or, in full, with `-prerelease`
    /// and `+build` attached when present.
    pub open spec fn spec_render(self, full: bool) -> Seq<char> {
        if full {
            self.spec_core() + (if self.pre@.len() > 0 {
                seq!['-'] + join_on(token_views(self.pre@), '.')
            } else {
                Seq::empty()
            }) + (if self.build@.len() > 0 {
                seq!['+'] + join_on(token_views(self.build@), '.')
            } else {
                Seq::empty()
            })
        } else {
            self.spec_core()
        }
    }
}

/// Appends the identifiers joined with dots.
fn append_joined(out: &mut Vec<char>, toks: &Vec<String>)
    requires
        toks@.len() > 0,
    ensures
        final(out)@ == old(out)@ + join_on(token_views(toks@), '.'),
{
    let mut i: usize = 0;
    let n = toks.len();
    while i < n
        invariant
            i <= n,
            n == toks@.len(),
            i == 0 ==> out@ == old(out)@,
            i > 0 ==> out@ == old(out)@ + join_on(token_views(toks@.take(i as int)), '.'),
        decreases n - i,
    {
        proof {
            assert(token_views(toks@.take(i as int)).len() == i);
        }
        if i > 0 {
            out.push('.');
        }
        let t = crate::chars::str_to_chars(toks[i].as_str());
        append_chars(out, &t);
        proof {
            let prev = token_views(toks@.take(i as int));
            let cur = token_views(toks@.take(i + 1 as int));
            assert(cur =~= prev.push(toks@[i as int]@));
            if i == 0 {
                assert(join_on(cur, '.') == toks@[0]@);
            } else {
                lemma_join_push(prev, toks@[i as int]@, '.');
                assert(old(out)@ + join_on(prev, '.') + seq!['.'] + t@ =~= old(out)@ + (join_on(
                    prev,
                    '.',
                ) + seq!['.'] + toks@[i as int]@));
            }
        }
        i = i + 1;
    }
    proof {
        assert(toks@.take(n as int) =~= toks@);
    }
}

/// A numeric version component: digits only, no leading zero, and a value
/// that fits in a `u64`.
pub open spec fn strict_num_seg(t: Seq<char>) -> bool {
    &&& t.len() > 0
    &&& all_digits(t)
    &&& t.len() > 1 ==> t[0] != '0'
    &&& digits_val(t) <= u64::MAX
}

/// The strict version grammar: `major.minor.patch`, optionally `-` and
/// dot-separated prerelease identifiers, optionally `+` and dot-separated
/// build identifiers.
pub open spec fn spec_is_strict(s: Seq<char>) -> bool {
    let (vp, build) = split_first(s, '+');
    let (num, pre) = split_first(vp, '-');
    let segs = split_on(num, '.');
    &&& segs.len() == 3
    &&& strict_num_seg(segs[0])
    &&& strict_num_seg(segs[1])
    &&& strict_num_seg(segs[2])
    &&& (pre is Some ==> forall|i: int|
        0 <= i < split_on(pre.unwrap(), '.').len() ==> valid_pre_token(
            #[trigger] split_on(pre.unwrap(), '.')[i],
        ))
    &&& (build is Some ==> forall|i: int|
        0 <= i < split_on(build.unwrap(), '.').len() ==> valid_build_token(
            #[trigger] split_on(build.unwrap(), '.')[i],
        ))
}

/// Whether every character is a decimal digit.
fn all_digits_vec(t: &Vec<char>) -> (r: bool)
    ensures
        r == all_digits(t@),
{
    let mut i: usize = 0;
    let n = t.len();
    while i < n
        invariant
            i <= n,
            n == t@.len(),
            forall|j: int| 0 <= j < i ==> is_digit(#[trigger] t@[j]),
        decreases n - i,
    {
        if !crate::chars::digit_char(t[i]) {
            assert(!is_digit(t@[i as int]));
            return false;
        }
        i = i + 1;
    }
    true
}

/// Whether every character may stand in an identifier.
fn all_ident_vec(t: &Vec<char>) -> (r: bool)
    ensures
        r == (forall|i: int| 0 <= i < t@.len() ==> is_ident_char(#[trigger] t@[i])),
{
    let mut i: usize = 0;
    let n = t.len();
    while i < n
        invariant
            i <= n,
            n == t@.len(),
            forall|j: int| 0 <= j < i ==> is_ident_char(#[trigger] t@[j]),
        decreases n - i,
    {
        if !crate::chars::ident_char(t[i]) {
            assert(!is_ident_char(t@[i as int]));
            return false;
        }
        i = i + 1;
    }
    true
}

/// Validates a numeric component and reads its value.
fn check_num_seg(t: &Vec<char>) -> (r: Option<u64>)
    ensures
        r is Some <==> strict_num_seg(t@),
        r is Some ==> r.unwrap() == digits_val(t@),
{
    if t.len() == 0 {
        return None;
    }
    if !all_digits_vec(t) {
        return None;
    }
    if t.len() > 1 && t[0] == '0' {
        return None;
    }
    digits_to_u64(t)
}

fn check_build_token(t: &Vec<char>) -> (r: bool)
    ensures
        r == valid_build_token(t@),
{
    t.len() > 0 && all_ident_vec(t)
}

fn check_pre_token(t: &Vec<char>) -> (r: bool)
    ensures
        r == valid_pre_token(t@),
{
    if !check_build_token(t) {
        return false;
    }
    if t.len() > 1 && all_digits_vec(t) && t[0] == '0' {
        return false;
    }
    true
}

/// Validates the dot-separated prerelease identifiers of `p` and stores them.
fn collect_pre_tokens(p: &Vec<char>) -> (r: Option<Vec<String>>)
    ensures
        r is Some <==> (forall|i: int|
            0 <= i < split_on(p@, '.').len() ==> valid_pre_token(#[trigger] split_on(p@, '.')[i])),
        r is Some ==> token_views(r.unwrap()@) == split_on(p@, '.'),
{
    let toks = crate::chars::split_on_vec(p, '.');
    let mut out: Vec<String> = Vec::new();
    let mut i: usize = 0;
    let n = toks.len();
    while i < n
        invariant
            i <= n,
            n == toks@.len(),
            crate::chars::views(toks@) == split_on(p@, '.'),
            out@.len() == i,
            forall|j: int| 0 <= j < i ==> #[trigger] out@[j]@ == crate::chars::views(toks@)[j],
            forall|j: int|
                0 <= j < i ==> valid_pre_token(#[trigger] crate::chars::views(toks@)[j]),
        decreases n - i,
    {
        if !check_pre_token(&toks[i]) {
            proof {
                assert(!valid_pre_token(crate::chars::views(toks@)[i as int]));
            }
            return None;
        }
        out.push(crate::chars::chars_to_string(&toks[i]));
        i = i + 1;
    }
    proof {
        assert(token_views(out@) =~= crate::chars::views(toks@));
    }
    Some(out)
}

/// Validates the dot-separated build identifiers of `b` and stores them.
fn collect_build_tokens(b: &Vec<char>) -> (r: Option<Vec<String>>)
    ensures
        r is Some <==> (forall|i: int|
            0 <= i < split_on(b@, '.').len() ==> valid_build_token(
                #[trigger] split_on(b@, '.')[i],
            )),
        r is Some ==> token_views(r.unwrap()@) == split_on(b@, '.'),
{
    let toks = crate::chars::split_on_vec(b, '.');
    let mut out: Vec<String> = Vec::new();
    let mut i: usize = 0;
    let n = toks.len();
    while i < n
        invariant
            i <= n,
            n == toks@.len(),
            crate::chars::views(toks@) == split_on(b@, '.'),
            out@.len() == i,
            forall|j: int| 0 <= j < i ==> #[trigger] out@[j]@ == crate::chars::views(toks@)[j],
            forall|j: int|
                0 <= j < i ==> valid_build_token(#[trigger] crate::chars::views(toks@)[j]),
        decreases n - i,
    {
        if !check_build_token(&toks[i]) {
            proof {
                assert(!valid_build_token(crate::chars::views(toks@)[i as int]));
            }
            return None;
        }
        out.push(crate::chars::chars_to_string(&toks[i]));
        i = i + 1;
    }
    proof {
        assert(token_views(out@) =~= crate::chars::views(toks@));
    }
    Some(out)
}

/// Reads a strict version string into its structured form; yields nothing
/// when the text does not obey the strict grammar.
pub fn parse_strict(v: &Vec<char>) -> (r: Option<NormalizedVersion>)
    ensures
        r is Some <==> spec_is_strict(v@),
        r is Some ==> r.unwrap().wf() && r.unwrap().spec_render(true) == v@,
{
    proof {
        lemma_split_first_parts(v@, '+');
    }
    let (vp, build_part) = split_first_vec(v, '+');
    proof {
        lemma_split_first_parts(vp@, '-');
    }
    let (num, pre_part) = split_first_vec(&vp, '-');
    let segs = crate::chars::split_on_vec(&num, '.');
    proof {
        lemma_join_split(num@, '.');
    }
    if segs.len() != 3 {
        return None;
    }
    let major = match check_num_seg(&segs[0]) {
        Some(x) => x,
        None => {
            return None;
        },
    };
    let minor = match check_num_seg(&segs[1]) {
        Some(x) => x,
        None => {
            return None;
        },
    };
    let patch = match check_num_seg(&segs[2]) {
        Some(x) => x,
        None => {
            return None;
        },
    };
    let ghost had_pre = pre_part is Some;
    let ghost pre_chars = if pre_part is Some {
        pre_part.unwrap()@
    } else {
        Seq::<char>::empty()
    };
    let pre: Vec<String> = match pre_part {
        Some(p) => match collect_pre_tokens(&p) {
            Some(t) => t,
            None => {
                return None;
            },
        },
        None => Vec::new(),
    };
    let ghost had_build = build_part is Some;
    let ghost build_chars = if build_part is Some {
        build_part.unwrap()@
    } else {
        Seq::<char>::empty()
    };
    let build: Vec<String> = match build_part {
        Some(b) => match collect_build_tokens(&b) {
            Some(t) => t,
            None => {
                return None;
            },
        },
        None => Vec::new(),
    };
    let result = NormalizedVersion { major, minor, patch, pre, build };
    proof {
        let s3 = crate::chars::views(segs@);
        assert(s3 == split_on(num@, '.'));
        assert(s3.len() == 3);
        assert(segs@[0]@ == s3[0] && segs@[1]@ == s3[1] && segs@[2]@ == s3[2]);
        lemma_digits_round_trip(s3[0]);
        lemma_digits_round_trip(s3[1]);
        lemma_digits_round_trip(s3[2]);
        assert(spec_digits(major as int) == s3[0]);
        assert(spec_digits(minor as int) == s3[1]);
        assert(spec_digits(patch as int) == s3[2]);
        assert(s3.drop_first().drop_first() =~= seq![s3[2]]);
        assert(s3.drop_first() =~= seq![s3[1], s3[2]]);
        assert(join_on(seq![s3[2]], '.') == s3[2]);
        assert(s3.drop_first()[0] == s3[1]);
        assert(join_on(s3.drop_first(), '.') == s3[1] + seq!['.'] + s3[2]);
        assert(join_on(s3, '.') == s3[0] + seq!['.'] + (s3[1] + seq!['.'] + s3[2]));
        assert(result.spec_core() =~= join_on(s3, '.'));
        assert(result.spec_core() == num@);
        if had_pre {
            assert(pre_chars == split_first(vp@, '-').1.unwrap());
            lemma_join_split(pre_chars, '.');
            assert(join_on(token_views(result.pre@), '.') == pre_chars);
            assert(split_on(pre_chars, '.').len() >= 1) by {
                crate::chars::lemma_split_on_free(pre_chars, '.');
            }
            assert(result.pre@.len() > 0);
            assert(vp@ == num@ + seq!['-'] + pre_chars);
        } else {
            assert(result.pre@.len() == 0);
            assert(vp@ == num@);
        }
        if had_build {
            assert(build_chars == split_first(v@, '+').1.unwrap());
            lemma_join_split(build_chars, '.');
            assert(join_on(token_views(result.build@), '.') == build_chars);
            assert(split_on(build_chars, '.').len() >= 1) by {
                crate::chars::lemma_split_on_free(build_chars, '.');
            }
            assert(result.build@.len() > 0);
            assert(v@ == vp@ + seq!['+'] + build_chars);
        } else {
            assert(result.build@.len() == 0);
            assert(v@ == vp@);
        }
        assert(result.spec_render(true) =~= v@);
        assert forall|i: int| 0 <= i < result.pre@.len() implies valid_pre_token(
            #[trigger] result.pre@[i]@,
        ) by {
            assert(token_views(result.pre@)[i] == result.pre@[i]@);
            assert(valid_pre_token(split_on(pre_chars, '.')[i]));
        }
        assert forall|i: int| 0 <= i < result.build@.len() implies valid_build_token(
            #[trigger] result.build@[i]@,
        ) by {
            assert(token_views(result.build@)[i] == result.build@[i]@);
            assert(valid_build_token(split_on(build_chars, '.')[i]));
        }
        assert(result.wf());
        assert(spec_is_strict(v@));
    }
    Some(result)
}

/// Renders the version as characters.
pub fn render_version(v: &NormalizedVersion, full: bool) -> (r: Vec<char>)
    ensures
        r@ == v.spec_render(full),
{
    let mut out: Vec<char> = Vec::new();
    let maj = u64_digits(v.major);
    append_chars(&mut out, &maj);
    out.push('.');
    let min = u64_digits(v.minor);
    append_chars(&mut out, &min);
    out.push('.');
    let pat = u64_digits(v.patch);
    append_chars(&mut out, &pat);
    proof {
        assert(out@ =~= v.spec_core());
    }
    if full {
        if v.pre.len() > 0 {
            out.push('-');
            append_joined(&mut out, &v.pre);
        }
        if v.build.len() > 0 {
            out.push('+');
            append_joined(&mut out, &v.build);
        }
        proof {
            assert(out@ =~= v.spec_render(true));
        }
    }
    out
}

} // verus!
