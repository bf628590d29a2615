//! Choosing the list of names to check: from the arguments, or from the
//! first needsfile with content.
use vstd::prelude::*;

use crate::binary::Binary;
use crate::chars::{chars_to_string, split_on, str_to_chars, subvec, views};
use crate::cli::Cli;
use crate::error::IoError;
use crate::normalize::drop_empty;
use crate::version::token_views;

verus! {

/// Blank space between names in a needsfile.
pub open spec fn is_blank(c: char) -> bool {
    c == ' ' || c == '\t' || c == '\n' || c == '\r' || c == '\u{b}' || c == '\u{c}'
}

/// Blank space folded onto one separator.
pub open spec fn blank_to_sep(s: Seq<char>) -> Seq<char> {
    s.map_values(|c: char| if is_blank(c) { '\n' } else { c })
}

/// The blank-separated names of a needsfile's content.
pub open spec fn spec_ws_tokens(s: Seq<char>) -> Seq<Seq<char>> {
    drop_empty(split_on(blank_to_sep(s), '\n'))
}

/// Splits text at blank space, dropping the blanks.
fn ws_tokens(v: &Vec<char>) -> (r: Vec<Vec<char>>)
    ensures
        views(r@) == spec_ws_tokens(v@),
{
    let mut folded: Vec<char> = Vec::new();
    let n = v.len();
    let mut i: usize = 0;
    while i < n
        invariant
            i <= n,
            n == v@.len(),
            folded@ =~= v@.take(i as int).map_values(
                |c: char| if is_blank(c) {
                    '\n'
                } else {
                    c
                },
            ),
        decreases n - i,
    {
        let c = v[i];
        if c == ' ' || c == '\t' || c == '\n' || c == '\r' || c == '\u{b}' || c == '\u{c}' {
            folded.push('\n');
        } else {
            folded.push(c);
        }
        i = i + 1;
        proof {
            assert(folded@ =~= v@.take(i as int).map_values(
                |c: char| if is_blank(c) {
                    '\n'
                } else {
                    c
                },
            ));
        }
    }
    proof {
        assert(v@.take(n as int) =~= v@);
        assert(folded@ == blank_to_sep(v@));
    }
    let parts = crate::chars::split_on_vec(&folded, '\n');
    let mut out: Vec<Vec<char>> = Vec::new();
    let m = parts.len();
    let mut j: usize = 0;
    proof {
        assert(views(out@) =~= Seq::<Seq<char>>::empty());
        assert(views(parts@).take(0) =~= Seq::<Seq<char>>::empty());
        assert(drop_empty(views(parts@).take(0)) =~= Seq::<Seq<char>>::empty());
    }
    while j < m
        invariant
            j <= m,
            m == parts@.len(),
            views(parts@) == split_on(blank_to_sep(v@), '\n'),
            views(out@) == drop_empty(views(parts@).take(j as int)),
        decreases m - j,
    {
        proof {
            assert(views(parts@).take(j + 1 as int).drop_last() =~= views(parts@).take(j as int));
            assert(views(parts@).take(j + 1 as int).last() == parts@[j as int]@);
        }
        if parts[j].len() > 0 {
            let ghost prev = out@;
            let piece = subvec(&parts[j], 0, parts[j].len());
            proof {
                assert(parts@[j as int]@.subrange(0, parts@[j as int]@.len() as int) =~= parts@[
                    j as int
                ]@);
            }
            out.push(piece);
            proof {
                assert(views(out@) =~= views(prev).push(parts@[j as int]@));
            }
        }
        j = j + 1;
    }
    proof {
        assert(views(parts@).take(m as int) =~= views(parts@));
    }
    out
}

/// The names given as arguments, with empty ones dropped.
pub open spec fn spec_arg_names(bins: Seq<String>) -> Seq<Seq<char>> {
    drop_empty(token_views(bins))
}

/// The position of the first needsfile content that holds a name.
pub open spec fn first_content(contents: Seq<String>) -> int
    decreases contents.len(),
{
    if contents.len() == 0 {
        0
    } else if spec_ws_tokens(contents[0]@).len() > 0 {
        0
    } else {
        1 + first_content(contents.drop_first())
    }
}

/// Some needsfile content holds a name.
pub open spec fn some_content(contents: Seq<String>) -> bool {
    exists|i: int| 0 <= i < contents.len() && spec_ws_tokens((#[trigger] contents[i])@).len() > 0
}

pub proof fn lemma_first_content(contents: Seq<String>)
    requires
        some_content(contents),
    ensures
        0 <= first_content(contents) < contents.len(),
        spec_ws_tokens(contents[first_content(contents)]@).len() > 0,
        forall|j: int|
            0 <= j < first_content(contents) ==> spec_ws_tokens((#[trigger] contents[j])@).len()
                == 0,
    decreases contents.len(),
{
    if spec_ws_tokens(contents[0]@).len() > 0 {
    } else {
        assert(some_content(contents.drop_first())) by {
            let i = choose|i: int|
                0 <= i < contents.len() && spec_ws_tokens((#[trigger] contents[i])@).len() > 0;
            assert(spec_ws_tokens((contents.drop_first()[i - 1])@).len() > 0);
        }
        lemma_first_content(contents.drop_first());
        assert forall|j: int| 0 <= j < first_content(contents) implies spec_ws_tokens(
            (#[trigger] contents[j])@,
        ).len() == 0 by {
            if j > 0 {
                assert(spec_ws_tokens((contents.drop_first()[j - 1])@).len() == 0);
            }
        }
    }
}

/// The names a run will check, as text: the arguments when any were given,
/// else the names of the first needsfile content that holds one; nothing
/// when no source yields a name.
pub open spec fn chosen_names(cli: Cli, contents: Seq<String>) -> Option<Seq<Seq<char>>> {
    match cli.bins {
        Some(bins) => {
            let kept = spec_arg_names(bins@);
            if kept.len() == 0 {
                None
            } else {
                Some(kept)
            }
        },
        None => {
            if some_content(contents) {
                Some(spec_ws_tokens(contents[first_content(contents)]@))
            } else {
                None
            }
        },
    }
}

/// Builds one fresh record per name.
fn build_binaries(names: &Vec<Vec<char>>) -> (r: Vec<Binary>)
    ensures
        r@.len() == names@.len(),
        forall|i: int|
            0 <= i < names@.len() ==> (#[trigger] r@[i]).name@ == views(names@)[i] && r@[i].version
                is None && r@[i].package_manager is None,
{
    let mut r: Vec<Binary> = Vec::new();
    let n = names.len();
    let mut i: usize = 0;
    while i < n
        invariant
            i <= n,
            n == names@.len(),
            r@.len() == i,
            forall|k: int|
                0 <= k < i ==> (#[trigger] r@[k]).name@ == views(names@)[k] && r@[k].version is None
                    && r@[k].package_manager is None,
        decreases n - i,
    {
        let name = chars_to_string(&names[i]);
        r.push(Binary::new(name));
        i = i + 1;
    }
    r
}

/// Builds the query records from the arguments or the needsfile contents:
/// one record per chosen name, in order. When arguments were given but
/// hold no non-empty name, the list is reported empty; when there were no
/// arguments and no needsfile content holds a name, the needsfile is
/// reported missing.
#[verifier::loop_isolation(false)]
pub fn get_binary_names(cli: &Cli, needsfile_contents: &Vec<String>) -> (r: Result<
    Vec<Binary>,
    IoError,
>)
    ensures
        r is Ok <==> chosen_names(*cli, needsfile_contents@) is Some,
        r is Ok ==> {
            let names = chosen_names(*cli, needsfile_contents@).unwrap();
            &&& r.unwrap()@.len() == names.len()
            &&& forall|i: int|
                0 <= i < names.len() ==> (#[trigger] r.unwrap()@[i]).name@ == names[i]
                    && r.unwrap()@[i].version is None && r.unwrap()@[i].package_manager is None
        },
        r is Err ==> (cli.bins is Some <==> r.unwrap_err() matches IoError::NeedsfileEmpty {
            ..
        }),
        r is Err ==> (cli.bins is None <==> r.unwrap_err() is NeedsfileMissing),
{
    match &cli.bins {
        Some(bins) => {
            let mut kept: Vec<Vec<char>> = Vec::new();
            let n = bins.len();
            let mut i: usize = 0;
            proof {
                assert(token_views(bins@).take(0) =~= Seq::<Seq<char>>::empty());
                assert(drop_empty(token_views(bins@).take(0)) =~= Seq::<Seq<char>>::empty());
                assert(views(kept@) =~= Seq::<Seq<char>>::empty());
            }
            while i < n
                invariant
                    i <= n,
                    n == bins@.len(),
                    views(kept@) == drop_empty(token_views(bins@).take(i as int)),
                decreases n - i,
            {
                proof {
                    assert(token_views(bins@).take(i + 1 as int).drop_last() =~= token_views(
                        bins@,
                    ).take(i as int));
                    assert(token_views(bins@).take(i + 1 as int).last() == bins@[i as int]@);
                }
                let name = &bins[i];
                if name.as_str().unicode_len() > 0 {
                    let ghost prev = kept@;
                    kept.push(str_to_chars(name.as_str()));
                    proof {
                        assert(views(kept@) =~= views(prev).push(bins@[i as int]@));
                    }
                }
                i = i + 1;
            }
            proof {
                assert(token_views(bins@).take(n as int) =~= token_views(bins@));
                assert(cli.bins == Some(*bins));
            }
            if kept.len() == 0 {
                Err(IoError::NeedsfileEmpty { path: String::from_str("command line arguments") })
            } else {
                Ok(build_binaries(&kept))
            }
        },
        None => {
            let m = needsfile_contents.len();
            let mut j: usize = 0;
            while j < m
                invariant
                    j <= m,
                    m == needsfile_contents@.len(),
                    forall|k: int|
                        0 <= k < j ==> spec_ws_tokens(
                            (#[trigger] needsfile_contents@[k])@,
                        ).len() == 0,
                decreases m - j,
            {
                let content_chars = str_to_chars(needsfile_contents[j].as_str());
                let toks = ws_tokens(&content_chars);
                if toks.len() > 0 {
                    proof {
                        assert(spec_ws_tokens(needsfile_contents@[j as int]@).len() > 0);
                        assert(some_content(needsfile_contents@));
                        lemma_first_content(needsfile_contents@);
                        assert(first_content(needsfile_contents@) == j as int) by {
                            let f = first_content(needsfile_contents@);
                            if f < j {
                                assert(spec_ws_tokens(needsfile_contents@[f]@).len() == 0);
                            }
                            if f > j {
                                assert(spec_ws_tokens(needsfile_contents@[j as int]@).len() == 0);
                            }
                        }
                    }
                    return Ok(build_binaries(&toks));
                }
                j = j + 1;
            }
            proof {
                if some_content(needsfile_contents@) {
                    let k = choose|k: int|
                        0 <= k < needsfile_contents@.len() && spec_ws_tokens(
                            (#[trigger] needsfile_contents@[k])@,
                        ).len() > 0;
                    assert(spec_ws_tokens(needsfile_contents@[k]@).len() == 0);
                }
            }
            Err(IoError::NeedsfileMissing)
        },
    }
}

} // verus!
