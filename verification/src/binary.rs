//! The record kept for one requested binary.
use vstd::prelude::*;

use crate::chars::{append_chars, chars_to_string, lex_le, lex_le_vec, lemma_lex_total, lemma_lex_trans, str_to_chars};
use crate::version::{render_version, NormalizedVersion};
use crate::versions::unknown_version;

verus! {

/// One requested binary: its name, the version learned for it, if any, and
/// the package manager its path pointed at, if any.
#[derive(Debug)]
pub struct Binary {
    pub name: String,
    pub version: Option<NormalizedVersion>,
    pub package_manager: Option<String>,
}

impl Binary {
    /// A record with nothing learned yet.
    pub fn new(name: String) -> (r: Binary)
        ensures
            r.name == name,
            r.version is None,
            r.package_manager is None,
    {
        Binary { name, version: None, package_manager: None }
    }

    /// A record with its package-manager tag already classified.
    pub fn new_with_package_manager(name: String, package_manager: Option<String>) -> (r: Binary)
        ensures
            r.name == name,
            r.version is None,
            r.package_manager == package_manager,
    {
        Binary { name, version: None, package_manager }
    }

    /// What a rendered record line holds: the name, then the version core or
    /// `?` when none is known, then the package-manager tag in parentheses
    /// when one is known.
    pub open spec fn spec_display(self) -> Seq<char> {
        let version_part = match self.version {
            Some(v) => seq![' '] + v.spec_render(false),
            None => seq![' ', '?'],
        };
        let pm_part = match self.package_manager {
            Some(pm) => seq![' ', '('] + pm@ + seq![')'],
            None => Seq::<char>::empty(),
        };
        self.name@ + version_part + pm_part
    }

    /// Renders the record as one line of text.
    pub fn display_string(&self) -> (r: String)
        ensures
            r@ == self.spec_display(),
    {
        let mut out = str_to_chars(self.name.as_str());
        match &self.version {
            Some(v) => {
                out.push(' ');
                let rendered = render_version(v, false);
                append_chars(&mut out, &rendered);
            },
            None => {
                out.push(' ');
                out.push('?');
            },
        }
        match &self.package_manager {
            Some(pm) => {
                out.push(' ');
                out.push('(');
                let pm_chars = str_to_chars(pm.as_str());
                append_chars(&mut out, &pm_chars);
                out.push(')');
            },
            None => {},
        }
        proof {
            assert(out@ =~= self.spec_display());
        }
        chars_to_string(&out)
    }
}

impl Default for Binary {
    /// An empty record carrying the placeholder version.
    fn default() -> (r: Binary)
        ensures
            r.name@ == Seq::<char>::empty(),
            r.version is Some,
            r.package_manager is None,
    {
        Binary { name: String::new(), version: Some(unknown_version()), package_manager: None }
    }
}

/// The names of the records, in order.
pub open spec fn names_of(s: Seq<Binary>) -> Seq<Seq<char>> {
    s.map_values(|b: Binary| b.name@)
}

/// The records stand in order of their names.
pub open spec fn spec_sorted(s: Seq<Binary>) -> bool {
    forall|i: int, j: int| 0 <= i < j < s.len() ==> lex_le(#[trigger] s[i].name@, #[trigger] s[j].name@)
}

/// Sorts the records by name.
pub fn sort_binaries(binaries: &mut Vec<Binary>)
    ensures
        spec_sorted(final(binaries)@),
        final(binaries)@.to_multiset() == old(binaries)@.to_multiset(),
        names_of(final(binaries)@).to_multiset() == names_of(old(binaries)@).to_multiset(),
{
    broadcast use vstd::seq_lib::group_to_multiset_ensures;

    let mut out: Vec<Binary> = Vec::new();
    while binaries.len() > 0
        invariant
            out@.to_multiset().add(binaries@.to_multiset()) =~= old(binaries)@.to_multiset(),
            names_of(out@).to_multiset().add(names_of(binaries@).to_multiset()) =~= names_of(
                old(binaries)@,
            ).to_multiset(),
            spec_sorted(out@),
            forall|k: int, j: int|
                0 <= k < out@.len() && 0 <= j < binaries@.len() ==> lex_le(
                    #[trigger] out@[k].name@,
                    #[trigger] binaries@[j].name@,
                ),
        decreases binaries@.len(),
    {
        // find the least remaining name
        let mut m: usize = 0;
        let mut j: usize = 1;
        let n = binaries.len();
        proof {
            lemma_lex_total(binaries@[0].name@, binaries@[0].name@);
        }
        while j < n
            invariant
                m < j <= n,
                n == binaries@.len(),
                forall|k: int| 0 <= k < j ==> lex_le(binaries@[m as int].name@, #[trigger] binaries@[k].name@),
            decreases n - j,
        {
            let a = str_to_chars(binaries[m].name.as_str());
            let b = str_to_chars(binaries[j].name.as_str());
            if !lex_le_vec(&a, &b) {
                proof {
                    lemma_lex_total(binaries@[m as int].name@, binaries@[j as int].name@);
                    assert forall|k: int| 0 <= k < j + 1 implies lex_le(
                        binaries@[j as int].name@,
                        #[trigger] binaries@[k].name@,
                    ) by {
                        if k < j {
                            lemma_lex_trans(
                                binaries@[j as int].name@,
                                binaries@[m as int].name@,
                                binaries@[k].name@,
                            );
                        } else {
                            lemma_lex_total(binaries@[j as int].name@, binaries@[j as int].name@);
                        }
                    }
                }
                m = j;
            }
            j = j + 1;
        }
        proof {
            lemma_lex_total(binaries@[m as int].name@, binaries@[m as int].name@);
        }
        let ghost pre_remove = binaries@;
        let x = binaries.remove(m);
        let ghost pre_out = out@;
        out.push(x);
        proof {
            pre_remove.to_multiset_ensures();
            pre_out.to_multiset_ensures();
            names_of(pre_remove).to_multiset_ensures();
            names_of(pre_out).to_multiset_ensures();
            assert(pre_remove.remove(m as int).to_multiset() =~= pre_remove.to_multiset().remove(
                x,
            ));
            assert(pre_remove.to_multiset().count(x) >= 1) by {
                assert(pre_remove[m as int] == x);
                assert(pre_remove.contains(x));
            }
            assert(out@.to_multiset().add(binaries@.to_multiset()) =~= old(
                binaries,
            )@.to_multiset());
            assert(names_of(binaries@) =~= names_of(pre_remove).remove(m as int));
            assert(names_of(pre_remove).remove(m as int).to_multiset() =~= names_of(
                pre_remove,
            ).to_multiset().remove(x.name@)) by {
                assert(names_of(pre_remove)[m as int] == x.name@);
            }
            assert(names_of(pre_remove).to_multiset().count(x.name@) >= 1) by {
                assert(names_of(pre_remove)[m as int] == x.name@);
                assert(names_of(pre_remove).contains(x.name@));
            }
            assert(names_of(out@) =~= names_of(pre_out).push(x.name@));
            assert(names_of(out@).to_multiset().add(names_of(binaries@).to_multiset())
                =~= names_of(old(binaries)@).to_multiset());
            assert forall|k: int, j2: int|
                0 <= k < out@.len() && 0 <= j2 < binaries@.len() implies lex_le(
                #[trigger] out@[k].name@,
                #[trigger] binaries@[j2].name@,
            ) by {
                let orig_j2 = if j2 < m { j2 } else { j2 + 1 };
                assert(binaries@[j2] == pre_remove[orig_j2]);
                if k < pre_out.len() {
                    assert(out@[k] == pre_out[k]);
                } else {
                    assert(out@[k] == x);
                }
            }
            assert forall|i: int, j2: int| 0 <= i < j2 < out@.len() implies lex_le(
                #[trigger] out@[i].name@,
                #[trigger] out@[j2].name@,
            ) by {
                if j2 < pre_out.len() {
                    assert(pre_out[i] == out@[i] && pre_out[j2] == out@[j2]);
                } else {
                    assert(out@[j2] == x);
                    assert(pre_remove[m as int] == x);
                }
            }
        }
    }
    *binaries = out;
}

} // verus!
