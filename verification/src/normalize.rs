//! Cleaning of a raw version token into strict shape.
use vstd::prelude::*;

use crate::chars::{
    append_chars, chars_to_string, find_char, is_digit, is_ident_char, join_on, lemma_join_push, split_first,
    split_first_vec, split_on, split_on_vec, str_to_chars, subvec, views,
};
use crate::version::{
    all_digits, digit_of, digit_val, digits_val, lemma_spec_digits_shape, spec_digits,
    spec_is_strict, strict_num_seg, token_views, valid_build_token, valid_pre_token,
    NormalizedVersion,
};

verus! {

/// A character kept while cleaning prerelease or build text: the identifier
/// characters and the dot.
pub open spec fn is_token_keep(c: char) -> bool {
    is_ident_char(c) || c == '.'
}

/// The leading zeros of `t` removed.
pub open spec fn strip_zeros(t: Seq<char>) -> Seq<char>
    decreases t.len(),
{
    if t.len() > 0 && t[0] == '0' {
        strip_zeros(t.drop_first())
    } else {
        t
    }
}

/// A numeric segment with leading zeros removed; a segment of zeros alone
/// becomes `"0"`, and one that does not start with a zero is untouched.
pub open spec fn clean_num_seg(t: Seq<char>) -> Seq<char> {
    if t.len() > 1 && t[0] == '0' {
        let s = strip_zeros(t);
        if s.len() == 0 {
            seq!['0']
        } else {
            s
        }
    } else {
        t
    }
}

/// The numeric segments padded with `"0"` on the right until there are three.
pub open spec fn pad3(parts: Seq<Seq<char>>) -> Seq<Seq<char>> {
    if parts.len() == 1 {
        parts + seq![seq!['0'], seq!['0']]
    } else if parts.len() == 2 {
        parts + seq![seq!['0']]
    } else {
        parts
    }
}

/// The characters of `s` outside `[0-9A-Za-z-.]` removed.
pub open spec fn keep_chars(s: Seq<char>) -> Seq<char>
    decreases s.len(),
{
    if s.len() == 0 {
        s
    } else {
        let rest = keep_chars(s.drop_last());
        if is_token_keep(s.last()) {
            rest.push(s.last())
        } else {
            rest
        }
    }
}

/// The empty pieces removed.
pub open spec fn drop_empty(parts: Seq<Seq<char>>) -> Seq<Seq<char>>
    decreases parts.len(),
{
    if parts.len() == 0 {
        parts
    } else {
        let rest = drop_empty(parts.drop_last());
        if parts.last().len() > 0 {
            rest.push(parts.last())
        } else {
            rest
        }
    }
}

/// Prerelease or build text cleaned: stray characters dropped, then split on
/// dots, empty pieces discarded.
pub open spec fn cleaned_tokens(p: Seq<char>) -> Seq<Seq<char>> {
    drop_empty(split_on(keep_chars(p), '.'))
}

/// What cleaning a raw token yields: the text is split once at the first
/// `+`, its front once at the first `-`; the numeric part has leading zeros
/// stripped per dot-separated segment and is padded to three segments; the
/// prerelease and build parts keep only identifier characters and dots, and
/// drop empty pieces, each vanishing entirely when nothing survives.
pub open spec fn spec_clean(s: Seq<char>) -> Seq<char> {
    let (vp, build) = split_first(s, '+');
    let (num, pre) = split_first(vp, '-');
    let core = join_on(pad3(split_on(num, '.').map_values(|t: Seq<char>| clean_num_seg(t))), '.');
    let pre_part = match pre {
        Some(p) => {
            let toks = cleaned_tokens(p);
            if toks.len() > 0 {
                seq!['-'] + join_on(toks, '.')
            } else {
                Seq::<char>::empty()
            }
        },
        None => Seq::<char>::empty(),
    };
    let build_part = match build {
        Some(b) => {
            let toks = cleaned_tokens(b);
            if toks.len() > 0 {
                seq!['+'] + join_on(toks, '.')
            } else {
                Seq::<char>::empty()
            }
        },
        None => Seq::<char>::empty(),
    };
    core + pre_part + build_part
}

/// Every character of a join comes from a piece or is the separator.
pub proof fn lemma_join_chars(parts: Seq<Seq<char>>, sep: char, pred: spec_fn(char) -> bool)
    requires
        forall|i: int, k: int|
            0 <= i < parts.len() && 0 <= k < parts[i].len() ==> pred(#[trigger] parts[i][k]),
    ensures
        forall|k: int|
            0 <= k < join_on(parts, sep).len() ==> pred(#[trigger] join_on(parts, sep)[k])
                || join_on(parts, sep)[k] == sep,
    decreases parts.len(),
{
    if parts.len() <= 1 {
    } else {
        let rest = parts.drop_first();
        assert forall|i: int, k: int|
            0 <= i < rest.len() && 0 <= k < rest[i].len() implies pred(#[trigger] rest[i][k]) by {
            assert(rest[i] == parts[i + 1]);
        }
        lemma_join_chars(rest, sep, pred);
        let j = join_on(parts, sep);
        let head = parts[0];
        assert(j == head + seq![sep] + join_on(rest, sep));
        assert forall|k: int| 0 <= k < j.len() implies pred(#[trigger] j[k]) || j[k] == sep by {
            if k < head.len() {
                assert(j[k] == parts[0][k]);
            } else if k == head.len() {
                assert(j[k] == sep);
            } else {
                assert(j[k] == join_on(rest, sep)[k - head.len() - 1]);
            }
        }
    }
}

/// Cleaning keeps a text whose characters are all allowed.
proof fn lemma_keep_all(s: Seq<char>)
    requires
        forall|k: int| 0 <= k < s.len() ==> is_token_keep(#[trigger] s[k]),
    ensures
        keep_chars(s) == s,
    decreases s.len(),
{
    if s.len() > 0 {
        assert forall|k: int| 0 <= k < s.drop_last().len() implies is_token_keep(
            #[trigger] s.drop_last()[k],
        ) by {
            assert(s.drop_last()[k] == s[k]);
        }
        lemma_keep_all(s.drop_last());
        assert(is_token_keep(s.last()));
        assert(s.drop_last().push(s.last()) =~= s);
    }
}

/// Dropping empty pieces keeps a list without any.
proof fn lemma_drop_empty_none(parts: Seq<Seq<char>>)
    requires
        forall|i: int| 0 <= i < parts.len() ==> (#[trigger] parts[i]).len() > 0,
    ensures
        drop_empty(parts) == parts,
    decreases parts.len(),
{
    if parts.len() > 0 {
        assert forall|i: int|
            0 <= i < parts.drop_last().len() implies (#[trigger] parts.drop_last()[i]).len()
            > 0 by {
            assert(parts.drop_last()[i] == parts[i]);
        }
        lemma_drop_empty_none(parts.drop_last());
        assert(parts.last().len() > 0);
        assert(parts.drop_last().push(parts.last()) =~= parts);
    }
}

proof fn lemma_strip_zeros_at(t: Seq<char>, i: int)
    requires
        0 <= i <= t.len(),
        forall|j: int| 0 <= j < i ==> t[j] == '0',
        i < t.len() ==> t[i] != '0',
    ensures
        strip_zeros(t) == t.skip(i),
    decreases i,
{
    if i == 0 {
        assert(t.skip(0) =~= t);
    } else {
        assert(t[0] == '0');
        assert forall|j: int| 0 <= j < i - 1 implies t.drop_first()[j] == '0' by {
            assert(t[j + 1] == '0');
        }
        lemma_strip_zeros_at(t.drop_first(), i - 1);
        assert(t.drop_first().skip(i - 1) =~= t.skip(i));
    }
}

fn clean_num_seg_vec(t: &Vec<char>) -> (r: Vec<char>)
    ensures
        r@ == clean_num_seg(t@),
{
    let n = t.len();
    if n > 1 && t[0] == '0' {
        let mut i: usize = 0;
        while i < n && t[i] == '0'
            invariant
                i <= n,
                n == t@.len(),
                forall|j: int| 0 <= j < i ==> t@[j] == '0',
            decreases n - i,
        {
            i = i + 1;
        }
        proof {
            lemma_strip_zeros_at(t@, i as int);
        }
        if i == n {
            proof {
                assert(t@.skip(n as int) =~= Seq::<char>::empty());
            }
            let mut z: Vec<char> = Vec::new();
            z.push('0');
            proof {
                assert(z@ =~= seq!['0']);
            }
            z
        } else {
            let r = subvec(t, i, n);
            proof {
                assert(t@.subrange(i as int, n as int) =~= t@.skip(i as int));
            }
            r
        }
    } else {
        let r = subvec(t, 0, n);
        proof {
            assert(t@.subrange(0, n as int) =~= t@);
        }
        r
    }
}

/// Joins the pieces with `sep` between each two.
fn join_vec(parts: &Vec<Vec<char>>, sep: char) -> (r: Vec<char>)
    ensures
        r@ == join_on(views(parts@), sep),
{
    let mut r: Vec<char> = Vec::new();
    let mut i: usize = 0;
    let n = parts.len();
    while i < n
        invariant
            i <= n,
            n == parts@.len(),
            r@ == join_on(views(parts@).take(i as int), sep),
        decreases n - i,
    {
        proof {
            assert(views(parts@).take(i as int).len() == i);
        }
        if i > 0 {
            r.push(sep);
        }
        append_chars(&mut r, &parts[i]);
        proof {
            let prev = views(parts@).take(i as int);
            let cur = views(parts@).take(i + 1 as int);
            assert(cur =~= prev.push(parts@[i as int]@));
            if i == 0 {
                assert(cur =~= seq![parts@[0]@]);
                assert(join_on(cur, sep) == parts@[0]@);
                assert(r@ =~= parts@[0]@);
            } else {
                lemma_join_push(prev, parts@[i as int]@, sep);
                assert(r@ =~= join_on(prev, sep) + seq![sep] + parts@[i as int]@);
            }
        }
        i = i + 1;
    }
    proof {
        assert(views(parts@).take(n as int) =~= views(parts@));
    }
    r
}

fn keep_chars_vec(p: &Vec<char>) -> (r: Vec<char>)
    ensures
        r@ == keep_chars(p@),
{
    let mut r: Vec<char> = Vec::new();
    let mut i: usize = 0;
    let n = p.len();
    while i < n
        invariant
            i <= n,
            n == p@.len(),
            r@ == keep_chars(p@.take(i as int)),
        decreases n - i,
    {
        proof {
            assert(p@.take(i + 1 as int).drop_last() =~= p@.take(i as int));
            assert(p@.take(i + 1 as int).last() == p@[i as int]);
        }
        if crate::chars::ident_char(p[i]) || p[i] == '.' {
            r.push(p[i]);
        }
        i = i + 1;
    }
    proof {
        assert(p@.take(n as int) =~= p@);
    }
    r
}

/// Cleans prerelease or build text into its surviving identifiers.
fn cleaned_tokens_vec(p: &Vec<char>) -> (r: Vec<Vec<char>>)
    ensures
        views(r@) == cleaned_tokens(p@),
{
    let kept = keep_chars_vec(p);
    let parts = split_on_vec(&kept, '.');
    let mut out: Vec<Vec<char>> = Vec::new();
    let mut i: usize = 0;
    let n = parts.len();
    proof {
        assert(views(out@) =~= Seq::<Seq<char>>::empty());
        assert(views(parts@).take(0) =~= Seq::<Seq<char>>::empty());
        assert(drop_empty(views(parts@).take(0)) =~= Seq::<Seq<char>>::empty());
    }
    while i < n
        invariant
            i <= n,
            n == parts@.len(),
            views(parts@) == split_on(keep_chars(p@), '.'),
            views(out@) == drop_empty(views(parts@).take(i as int)),
        decreases n - i,
    {
        proof {
            assert(views(parts@).take(i + 1 as int).drop_last() =~= views(parts@).take(i as int));
            assert(views(parts@).take(i + 1 as int).last() == parts@[i as int]@);
        }
        if parts[i].len() > 0 {
            let ghost prev = out@;
            let piece = subvec(&parts[i], 0, parts[i].len());
            proof {
                assert(parts@[i as int]@.subrange(0, parts@[i as int]@.len() as int) =~= parts@[
                    i as int
                ]@);
            }
            out.push(piece);
            proof {
                assert(views(out@) =~= views(prev).push(parts@[i as int]@));
            }
        }
        i = i + 1;
    }
    proof {
        assert(views(parts@).take(n as int) =~= views(parts@));
    }
    out
}

/// Cleans a raw version token: leading zeros stripped per numeric segment,
/// the numeric part padded to `major.minor.patch`, stray characters removed
/// from the prerelease and build parts.
pub fn clean_version_string(version_str: &str) -> (r: String)
    ensures
        r@ == spec_clean(version_str@),
{
    let v = str_to_chars(version_str);
    let (vp, build_part) = split_first_vec(&v, '+');
    let (num, pre_part) = split_first_vec(&vp, '-');
    let segs = split_on_vec(&num, '.');
    let mut cleaned: Vec<Vec<char>> = Vec::new();
    let mut i: usize = 0;
    let n = segs.len();
    while i < n
        invariant
            i <= n,
            n == segs@.len(),
            views(segs@) == split_on(num@, '.'),
            views(cleaned@) =~= views(segs@).take(i as int).map_values(
                |t: Seq<char>| clean_num_seg(t),
            ),
        decreases n - i,
    {
        let ghost prev = cleaned@;
        let piece = clean_num_seg_vec(&segs[i]);
        cleaned.push(piece);
        proof {
            assert(views(cleaned@) =~= views(prev).push(clean_num_seg(segs@[i as int]@)));
            assert(views(segs@).take(i + 1 as int).map_values(|t: Seq<char>| clean_num_seg(t))
                =~= views(segs@).take(i as int).map_values(|t: Seq<char>| clean_num_seg(t)).push(
                clean_num_seg(segs@[i as int]@),
            ));
        }
        i = i + 1;
    }
    proof {
        assert(views(segs@).take(n as int) =~= views(segs@));
        crate::chars::lemma_split_on_free(num@, '.');
        assert(views(segs@).len() >= 1);
    }
    let ghost mapped = views(segs@).map_values(|t: Seq<char>| clean_num_seg(t));
    if cleaned.len() == 1 {
        let mut z: Vec<char> = Vec::new();
        z.push('0');
        proof {
            assert(z@ =~= seq!['0']);
        }
        let z2 = subvec(&z, 0, 1);
        proof {
            assert(z2@ =~= seq!['0']);
        }
        cleaned.push(z);
        cleaned.push(z2);
        proof {
            assert(views(cleaned@) =~= pad3(mapped));
        }
    } else if cleaned.len() == 2 {
        let mut z: Vec<char> = Vec::new();
        z.push('0');
        proof {
            assert(z@ =~= seq!['0']);
        }
        cleaned.push(z);
        proof {
            assert(views(cleaned@) =~= pad3(mapped));
        }
    } else {
        proof {
            assert(views(cleaned@) =~= pad3(mapped));
        }
    }
    let mut out = join_vec(&cleaned, '.');
    match pre_part {
        Some(p) => {
            let toks = cleaned_tokens_vec(&p);
            if toks.len() > 0 {
                out.push('-');
                let joined = join_vec(&toks, '.');
                append_chars(&mut out, &joined);
            }
        },
        None => {},
    }
    match build_part {
        Some(b) => {
            let toks = cleaned_tokens_vec(&b);
            if toks.len() > 0 {
                out.push('+');
                let joined = join_vec(&toks, '.');
                append_chars(&mut out, &joined);
            }
        },
        None => {},
    }
    proof {
        assert(out@ =~= spec_clean(version_str@));
    }
    chars_to_string(&out)
}

/// A leading zero adds nothing to the value of a digit run.
proof fn lemma_zero_head_val(t: Seq<char>)
    requires
        t.len() > 0,
        all_digits(t),
        t[0] == '0',
    ensures
        digits_val(t) == digits_val(t.drop_first()),
    decreases t.len(),
{
    if t.len() == 1 {
        assert(t.last() == t[0]);
        assert(t.drop_last() =~= Seq::<char>::empty());
        assert(t.drop_first() =~= Seq::<char>::empty());
        assert(digits_val(t) == 10 * digits_val(t.drop_last()) + digit_val(t.last()));
        assert(digit_val('0') == 0);
    } else {
        assert(t.drop_last()[0] == t[0]);
        assert(all_digits(t.drop_last()));
        lemma_zero_head_val(t.drop_last());
        assert(t.drop_first().drop_last() =~= t.drop_last().drop_first());
        assert(t.drop_first().last() == t.last());
        assert(digits_val(t) == 10 * digits_val(t.drop_last()) + digit_val(t.last()));
        assert(digits_val(t.drop_first()) == 10 * digits_val(t.drop_first().drop_last())
            + digit_val(t.drop_first().last()));
    }
}

/// Stripping leading zeros keeps the digits, the value, and leaves no
/// leading zero behind.
proof fn lemma_strip_zeros_props(t: Seq<char>)
    requires
        all_digits(t),
    ensures
        all_digits(strip_zeros(t)),
        strip_zeros(t).len() > 0 ==> strip_zeros(t)[0] != '0',
        digits_val(strip_zeros(t)) == digits_val(t),
    decreases t.len(),
{
    if t.len() > 0 && t[0] == '0' {
        assert(all_digits(t.drop_first())) by {
            assert forall|i: int| 0 <= i < t.drop_first().len() implies is_digit(
                #[trigger] t.drop_first()[i],
            ) by {
                assert(t.drop_first()[i] == t[i + 1]);
            }
        }
        lemma_strip_zeros_props(t.drop_first());
        lemma_zero_head_val(t);
    }
}

/// Leading-zero stripping per numeric segment: cleaning a run of digits
/// yields the canonical decimal rendering of its value.
pub proof fn lemma_clean_num_canonical(t: Seq<char>)
    requires
        t.len() > 0,
        all_digits(t),
    ensures
        clean_num_seg(t) == spec_digits(digits_val(t)),
{
    crate::version::lemma_digits_val_nonneg(t);
    if t.len() > 1 && t[0] == '0' {
        lemma_strip_zeros_props(t);
        let s = strip_zeros(t);
        if s.len() == 0 {
            assert(digits_val(t) == 0);
            assert(spec_digits(0) == seq![digit_of(0)]);
            assert(clean_num_seg(t) == seq!['0']);
            assert(seq![digit_of(0)] =~= seq!['0']);
        } else {
            crate::version::lemma_digits_round_trip(s);
        }
    } else {
        crate::version::lemma_digits_round_trip(t);
    }
}

/// Every character of a piece of a split was a character of the whole.
proof fn lemma_split_on_chars(s: Seq<char>, sep: char)
    ensures
        forall|i: int, k: int|
            0 <= i < split_on(s, sep).len() && 0 <= k < split_on(s, sep)[i].len() ==> s.contains(
                #[trigger] split_on(s, sep)[i][k],
            ),
    decreases s.len(),
{
    crate::chars::lemma_find_char(s, sep);
    let f = find_char(s, sep);
    if 0 <= f < s.len() {
        lemma_split_on_chars(s.skip(f + 1), sep);
        assert forall|i: int, k: int|
            0 <= i < split_on(s, sep).len() && 0 <= k < split_on(s, sep)[i].len() implies s.contains(
            #[trigger] split_on(s, sep)[i][k],
        ) by {
            if i == 0 {
                assert(split_on(s, sep)[0] == s.take(f));
                assert(s.take(f)[k] == s[k]);
            } else {
                assert(split_on(s, sep)[i] == split_on(s.skip(f + 1), sep)[i - 1]);
                assert(s.skip(f + 1).contains(split_on(s, sep)[i][k]));
                let j = choose|j: int|
                    0 <= j < s.skip(f + 1).len() && #[trigger] s.skip(f + 1)[j] == split_on(
                        s,
                        sep,
                    )[i][k];
                assert(s[f + 1 + j] == split_on(s, sep)[i][k]);
            }
        }
    } else {
        assert forall|i: int, k: int|
            0 <= i < split_on(s, sep).len() && 0 <= k < split_on(s, sep)[i].len() implies s.contains(
            #[trigger] split_on(s, sep)[i][k],
        ) by {
            assert(split_on(s, sep)[i] == s);
        }
    }
}

/// Cleaning a numeric segment introduces no character but `0`.
proof fn lemma_clean_num_chars(t: Seq<char>, c: char)
    requires
        !t.contains(c),
        c != '0',
    ensures
        !clean_num_seg(t).contains(c),
{
    if t.len() > 1 && t[0] == '0' {
        let s = strip_zeros(t);
        lemma_strip_is_suffix(t);
        if s.len() == 0 {
            if clean_num_seg(t).contains(c) {
                let k = choose|k: int|
                    0 <= k < clean_num_seg(t).len() && clean_num_seg(t)[k] == c;
                assert(clean_num_seg(t)[k] == '0');
            }
        } else {
            if s.contains(c) {
                let k = choose|k: int| 0 <= k < s.len() && s[k] == c;
                assert(t.contains(c));
            }
        }
    }
}

/// What zero stripping leaves is a suffix of the segment.
proof fn lemma_strip_is_suffix(t: Seq<char>)
    ensures
        forall|k: int|
            0 <= k < strip_zeros(t).len() ==> t.contains(#[trigger] strip_zeros(t)[k]),
    decreases t.len(),
{
    if t.len() > 0 && t[0] == '0' {
        lemma_strip_is_suffix(t.drop_first());
        assert(strip_zeros(t) == strip_zeros(t.drop_first()));
        assert forall|k: int| 0 <= k < strip_zeros(t).len() implies t.contains(
            #[trigger] strip_zeros(t)[k],
        ) by {
            assert(strip_zeros(t.drop_first())[k] == strip_zeros(t)[k]);
            assert(t.drop_first().contains(strip_zeros(t)[k]));
            let j = choose|j: int|
                0 <= j < t.drop_first().len() && t.drop_first()[j] == strip_zeros(t)[k];
            assert(t[j + 1] == strip_zeros(t)[k]);
        }
    } else {
        assert forall|k: int| 0 <= k < strip_zeros(t).len() implies t.contains(
            #[trigger] strip_zeros(t)[k],
        ) by {}
    }
}

/// A token whose numeric part has exactly two dot-separated segments is
/// padded: the numeric part of its cleaned form has three segments, and
/// the third is `0`.
pub proof fn lemma_two_segments_pad_zero(s: Seq<char>)
    requires
        ({
            let (vp, _build) = split_first(s, '+');
            let (num, _pre) = split_first(vp, '-');
            split_on(num, '.').len() == 2
        }),
    ensures
        ({
            let (vp2, _build2) = split_first(spec_clean(s), '+');
            let (num2, _pre2) = split_first(vp2, '-');
            &&& split_on(num2, '.').len() == 3
            &&& split_on(num2, '.')[2] == seq!['0']
        }),
{
    let (vp, build) = split_first(s, '+');
    let (num, pre) = split_first(vp, '-');
    let segs = split_on(num, '.');
    let mapped = segs.map_values(|t: Seq<char>| clean_num_seg(t));
    let padded = pad3(mapped);
    let core = join_on(padded, '.');
    crate::chars::lemma_split_first_parts(s, '+');
    crate::chars::lemma_split_first_parts(vp, '-');
    crate::chars::lemma_split_on_free(num, '.');
    lemma_split_on_chars(num, '.');
    // no piece of the padded numeric part holds a dot, hyphen or plus
    assert(!num.contains('+')) by {
        if num.contains('+') {
            let k = choose|k: int| 0 <= k < num.len() && num[k] == '+';
            assert(vp.contains('+')) by {
                if vp == num {
                } else {
                    assert(vp == num + seq!['-'] + pre.unwrap());
                    assert(vp[k] == '+');
                }
            }
        }
    }
    assert forall|i: int|
        0 <= i < padded.len() implies !(#[trigger] padded[i]).contains('.') && !padded[i].contains(
        '-',
    ) && !padded[i].contains('+') by {
        if i < 2 {
            assert(padded[i] == clean_num_seg(segs[i]));
            assert(!segs[i].contains('.'));
            assert(!segs[i].contains('-')) by {
                if segs[i].contains('-') {
                    let k = choose|k: int| 0 <= k < segs[i].len() && segs[i][k] == '-';
                    assert(num.contains('-'));
                }
            }
            assert(!segs[i].contains('+')) by {
                if segs[i].contains('+') {
                    let k = choose|k: int| 0 <= k < segs[i].len() && segs[i][k] == '+';
                    assert(num.contains('+'));
                }
            }
            lemma_clean_num_chars(segs[i], '.');
            lemma_clean_num_chars(segs[i], '-');
            lemma_clean_num_chars(segs[i], '+');
        } else {
            assert(padded[i] == seq!['0']);
            if padded[i].contains('.') || padded[i].contains('-') || padded[i].contains('+') {
                let k = choose|k: int|
                    0 <= k < padded[i].len() && (padded[i][k] == '.' || padded[i][k] == '-'
                        || padded[i][k] == '+');
                assert(padded[i][k] == '0');
            }
        }
    }
    assert(padded.len() == 3);
    // the core re-splits into its three pieces
    crate::chars::lemma_split_join(padded, '.');
    // the core holds no plus and no hyphen
    lemma_join_chars(padded, '.', |c: char| c != '+' && c != '-');
    assert(!core.contains('+')) by {
        if core.contains('+') {
            let k = choose|k: int| 0 <= k < core.len() && core[k] == '+';
        }
    }
    assert(!core.contains('-')) by {
        if core.contains('-') {
            let k = choose|k: int| 0 <= k < core.len() && core[k] == '-';
        }
    }
    // the cleaned prerelease and build parts cannot hide the plus split
    let pre_part = match pre {
        Some(p) => {
            let toks = cleaned_tokens(p);
            if toks.len() > 0 {
                seq!['-'] + join_on(toks, '.')
            } else {
                Seq::<char>::empty()
            }
        },
        None => Seq::<char>::empty(),
    };
    let build_part = match build {
        Some(b) => {
            let toks = cleaned_tokens(b);
            if toks.len() > 0 {
                seq!['+'] + join_on(toks, '.')
            } else {
                Seq::<char>::empty()
            }
        },
        None => Seq::<char>::empty(),
    };
    assert(spec_clean(s) == core + pre_part + build_part);
    assert forall|k: int| 0 <= k < pre_part.len() implies pre_part[k] != '+' by {
        let toks = cleaned_tokens(pre.unwrap());
        lemma_cleaned_tokens_chars(pre.unwrap());
        lemma_join_chars(toks, '.', |c: char| is_token_keep(c));
        if k == 0 {
        } else {
            assert(pre_part[k] == join_on(toks, '.')[k - 1]);
            assert(is_token_keep(join_on(toks, '.')[k - 1]) || join_on(toks, '.')[k - 1] == '.');
        }
    }
    let front = core + pre_part;
    assert(!front.contains('+')) by {
        if front.contains('+') {
            let k = choose|k: int| 0 <= k < front.len() && front[k] == '+';
            if k < core.len() {
                assert(core.contains(core[k]));
            } else {
                assert(front[k] == pre_part[k - core.len()]);
            }
        }
    }
    if build_part.len() > 0 {
        crate::chars::lemma_split_first_present(
            front,
            '+',
            join_on(cleaned_tokens(build.unwrap()), '.'),
        );
        assert(front + seq!['+'] + join_on(cleaned_tokens(build.unwrap()), '.') =~= spec_clean(
            s,
        ));
    } else {
        assert(spec_clean(s) =~= front);
        crate::chars::lemma_split_first_absent(front, '+');
    }
    let (vp2, _build2) = split_first(spec_clean(s), '+');
    assert(vp2 == front);
    if pre_part.len() > 0 {
        crate::chars::lemma_split_first_present(
            core,
            '-',
            join_on(cleaned_tokens(pre.unwrap()), '.'),
        );
        assert(core + seq!['-'] + join_on(cleaned_tokens(pre.unwrap()), '.') =~= front);
    } else {
        assert(front =~= core);
        crate::chars::lemma_split_first_absent(core, '-');
    }
    let (num2, _pre2) = split_first(vp2, '-');
    assert(num2 == core);
    assert(split_on(num2, '.') == padded);
    assert(padded[2] == seq!['0']);
}

/// Every character of a cleaned identifier list is one cleaning keeps.
proof fn lemma_cleaned_tokens_chars(p: Seq<char>)
    ensures
        forall|i: int, k: int|
            0 <= i < cleaned_tokens(p).len() && 0 <= k < cleaned_tokens(p)[i].len()
                ==> is_token_keep(#[trigger] cleaned_tokens(p)[i][k]),
{
    let kept = keep_chars(p);
    lemma_keep_chars_kept(p);
    lemma_split_on_chars(kept, '.');
    lemma_drop_empty_sub(split_on(kept, '.'));
    assert forall|i: int, k: int|
        0 <= i < cleaned_tokens(p).len() && 0 <= k < cleaned_tokens(p)[i].len() implies
        is_token_keep(#[trigger] cleaned_tokens(p)[i][k]) by {
        let parts = split_on(kept, '.');
        let j = choose|j: int| 0 <= j < parts.len() && parts[j] == cleaned_tokens(p)[i];
        assert(kept.contains(parts[j][k]));
    }
}

/// What cleaning keeps obeys the keep class.
proof fn lemma_keep_chars_kept(p: Seq<char>)
    ensures
        forall|k: int| 0 <= k < keep_chars(p).len() ==> is_token_keep(#[trigger] keep_chars(p)[k]),
    decreases p.len(),
{
    if p.len() > 0 {
        lemma_keep_chars_kept(p.drop_last());
        let rest = keep_chars(p.drop_last());
        assert forall|k: int| 0 <= k < keep_chars(p).len() implies is_token_keep(
            #[trigger] keep_chars(p)[k],
        ) by {
            if is_token_keep(p.last()) {
                assert(keep_chars(p) == rest.push(p.last()));
                if k < rest.len() {
                    assert(keep_chars(p)[k] == rest[k]);
                }
            } else {
                assert(keep_chars(p) == rest);
            }
        }
    }
}

/// Every survivor of the empty-piece filter was a piece.
proof fn lemma_drop_empty_sub(parts: Seq<Seq<char>>)
    ensures
        forall|i: int|
            0 <= i < drop_empty(parts).len() ==> parts.contains(#[trigger] drop_empty(parts)[i]),
    decreases parts.len(),
{
    if parts.len() > 0 {
        lemma_drop_empty_sub(parts.drop_last());
        assert forall|i: int| 0 <= i < drop_empty(parts).len() implies parts.contains(
            #[trigger] drop_empty(parts)[i],
        ) by {
            let rest = drop_empty(parts.drop_last());
            if parts.last().len() > 0 && i == rest.len() {
                assert(drop_empty(parts)[i] == parts.last());
                assert(parts[parts.len() - 1] == parts.last());
            } else {
                assert(drop_empty(parts)[i] == rest[i]);
                assert(parts.drop_last().contains(rest[i]));
                let j = choose|j: int|
                    0 <= j < parts.drop_last().len() && parts.drop_last()[j] == rest[i];
                assert(parts[j] == rest[i]);
            }
        }
    }
}

/// No identifier of a well-formed version holds a dot, and each is
/// non-empty, with characters that cleaning keeps.
proof fn lemma_token_list_facts(toks: Seq<Seq<char>>)
    requires
        forall|i: int| 0 <= i < toks.len() ==> valid_build_token(#[trigger] toks[i]),
    ensures
        forall|i: int| 0 <= i < toks.len() ==> !(#[trigger] toks[i]).contains('.'),
        forall|i: int| 0 <= i < toks.len() ==> (#[trigger] toks[i]).len() > 0,
        forall|k: int|
            0 <= k < join_on(toks, '.').len() ==> is_token_keep(#[trigger] join_on(toks, '.')[k]),
        toks.len() > 0 ==> !join_on(toks, '.').contains('+'),
{
    assert forall|i: int| 0 <= i < toks.len() implies !(#[trigger] toks[i]).contains('.') by {
        if toks[i].contains('.') {
            let k = choose|k: int| 0 <= k < toks[i].len() && toks[i][k] == '.';
            assert(crate::chars::is_ident_char(toks[i][k]));
        }
    }
    assert forall|i: int, k: int|
        0 <= i < toks.len() && 0 <= k < toks[i].len() implies crate::chars::is_ident_char(
        #[trigger] toks[i][k],
    ) by {
        assert(valid_build_token(toks[i]));
    }
    lemma_join_chars(toks, '.', |c: char| crate::chars::is_ident_char(c));
    let j = join_on(toks, '.');
    assert forall|k: int| 0 <= k < j.len() implies is_token_keep(#[trigger] j[k]) by {}
    if j.contains('+') {
        let k = choose|k: int| 0 <= k < j.len() && j[k] == '+';
        assert(is_token_keep(j[k]));
    }
}

/// Normalizing is idempotent: the rendered form of a well-formed version
/// cleans to itself, and it obeys the strict grammar, so re-normalizing the
/// string form of a normalized version reproduces the identical string.
pub proof fn lemma_normalize_idempotent(v: NormalizedVersion)
    requires
        v.wf(),
    ensures
        spec_clean(v.spec_render(true)) == v.spec_render(true),
        spec_is_strict(v.spec_render(true)),
{
    let s = v.spec_render(true);
    let d0 = spec_digits(v.major as int);
    let d1 = spec_digits(v.minor as int);
    let d2 = spec_digits(v.patch as int);
    lemma_spec_digits_shape(v.major as int);
    lemma_spec_digits_shape(v.minor as int);
    lemma_spec_digits_shape(v.patch as int);
    let core = v.spec_core();
    assert forall|k: int| 0 <= k < core.len() implies is_digit(#[trigger] core[k]) || core[k]
        == '.' by {
        if k < d0.len() {
            assert(core[k] == d0[k]);
        } else if k == d0.len() {
            assert(core[k] == '.');
        } else if k < d0.len() + 1 + d1.len() {
            assert(core[k] == d1[k - d0.len() - 1]);
        } else if k == d0.len() + 1 + d1.len() {
            assert(core[k] == '.');
        } else {
            assert(core[k] == d2[k - d0.len() - 1 - d1.len() - 1]);
        }
    }
    let pt = token_views(v.pre@);
    let bt = token_views(v.build@);
    assert forall|i: int| 0 <= i < pt.len() implies valid_pre_token(#[trigger] pt[i]) by {
        assert(pt[i] == v.pre@[i]@);
    }
    assert forall|i: int| 0 <= i < bt.len() implies valid_build_token(#[trigger] bt[i]) by {
        assert(bt[i] == v.build@[i]@);
    }
    assert forall|i: int| 0 <= i < pt.len() implies valid_build_token(#[trigger] pt[i]) by {}
    lemma_token_list_facts(pt);
    lemma_token_list_facts(bt);
    let p_join = join_on(pt, '.');
    let b_join = join_on(bt, '.');
    let pre_part = if v.pre@.len() > 0 {
        seq!['-'] + p_join
    } else {
        Seq::<char>::empty()
    };
    let front = core + pre_part;
    assert(s =~= front + (if v.build@.len() > 0 {
        seq!['+'] + b_join
    } else {
        Seq::<char>::empty()
    }));
    assert forall|k: int| 0 <= k < front.len() implies front[k] != '+' by {
        if k < core.len() {
            assert(front[k] == core[k]);
        } else {
            assert(v.pre@.len() > 0);
            if k == core.len() {
                assert(front[k] == '-');
            } else {
                assert(front[k] == p_join[k - core.len() - 1]);
                assert(is_token_keep(p_join[k - core.len() - 1]));
            }
        }
    }
    assert(!front.contains('+')) by {
        if front.contains('+') {
            let k = choose|k: int| 0 <= k < front.len() && front[k] == '+';
            assert(front[k] != '+');
        }
    }
    // the split at the first plus
    if v.build@.len() > 0 {
        crate::chars::lemma_split_first_present(front, '+', b_join);
        assert(front + seq!['+'] + b_join =~= s);
        assert(split_first(s, '+') == (front, Some(b_join)));
    } else {
        assert(s =~= front);
        crate::chars::lemma_split_first_absent(front, '+');
        assert(split_first(s, '+') == (front, None::<Seq<char>>));
    }
    // the split at the first hyphen
    assert forall|k: int| 0 <= k < core.len() implies core[k] != '-' by {
        assert(is_digit(core[k]) || core[k] == '.');
    }
    assert(!core.contains('-')) by {
        if core.contains('-') {
            let k = choose|k: int| 0 <= k < core.len() && core[k] == '-';
            assert(core[k] != '-');
        }
    }
    if v.pre@.len() > 0 {
        crate::chars::lemma_split_first_present(core, '-', p_join);
        assert(front =~= core + seq!['-'] + p_join);
        assert(split_first(front, '-') == (core, Some(p_join)));
    } else {
        assert(front =~= core);
        crate::chars::lemma_split_first_absent(core, '-');
        assert(split_first(front, '-') == (core, None::<Seq<char>>));
    }
    // the numeric core splits into its three segments
    assert(!d0.contains('.')) by {
        if d0.contains('.') {
            let k = choose|k: int| 0 <= k < d0.len() && d0[k] == '.';
            assert(is_digit(d0[k]));
        }
    }
    assert(!d1.contains('.')) by {
        if d1.contains('.') {
            let k = choose|k: int| 0 <= k < d1.len() && d1[k] == '.';
            assert(is_digit(d1[k]));
        }
    }
    assert(!d2.contains('.')) by {
        if d2.contains('.') {
            let k = choose|k: int| 0 <= k < d2.len() && d2[k] == '.';
            assert(is_digit(d2[k]));
        }
    }
    let tail = d1 + seq!['.'] + d2;
    assert(core =~= d0 + seq!['.'] + tail);
    crate::chars::lemma_split_on_step(d0, '.', tail);
    crate::chars::lemma_split_on_step(d1, '.', d2);
    crate::chars::lemma_split_on_absent(d2, '.');
    let segs = split_on(core, '.');
    assert(segs == seq![d0] + (seq![d1] + seq![d2]));
    assert(segs =~= seq![d0, d1, d2]);
    // cleaning each segment changes nothing
    let mapped = segs.map_values(|t: Seq<char>| clean_num_seg(t));
    assert(clean_num_seg(d0) == d0);
    assert(clean_num_seg(d1) == d1);
    assert(clean_num_seg(d2) == d2);
    assert(mapped =~= segs);
    assert(pad3(mapped) == mapped);
    assert(segs.drop_first().drop_first() =~= seq![d2]);
    assert(segs.drop_first() =~= seq![d1, d2]);
    assert(join_on(seq![d2], '.') == d2);
    assert(segs.drop_first()[0] == d1);
    assert(join_on(segs.drop_first(), '.') == d1 + seq!['.'] + d2);
    assert(join_on(segs, '.') == d0 + seq!['.'] + (d1 + seq!['.'] + d2));
    assert(join_on(segs, '.') =~= core);
    // cleaning the prerelease and build text changes nothing
    if v.pre@.len() > 0 {
        lemma_keep_all(p_join);
        crate::chars::lemma_split_join(pt, '.');
        lemma_drop_empty_none(pt);
        assert(cleaned_tokens(p_join) == pt);
    }
    if v.build@.len() > 0 {
        lemma_keep_all(b_join);
        crate::chars::lemma_split_join(bt, '.');
        lemma_drop_empty_none(bt);
        assert(cleaned_tokens(b_join) == bt);
    }
    assert(spec_clean(s) =~= s);
    // the rendered form obeys the strict grammar
    assert(strict_num_seg(d0));
    assert(strict_num_seg(d1));
    assert(strict_num_seg(d2));
    assert(spec_is_strict(s));
}

} // verus!
