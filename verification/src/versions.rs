//! Version retrieval: rendering, the no-version allowlist, and the probe
//! pipeline for one binary and for many.
use vstd::prelude::*;

use crate::binary::{names_of, sort_binaries, spec_sorted, Binary};
use crate::chars::{chars_to_string, str_to_chars};
use crate::error::{DiscoveryError, VersionError};
use crate::extract::{extract_version, spec_extract};
use crate::normalize::spec_clean;
use crate::probe::execute_binary;
use crate::version::{
    parse_strict, render_version, spec_is_strict, token_views, valid_build_token,
    NormalizedVersion,
};

verus! {

/// Renders a version: the `major.minor.patch` core alone, or, in full, with
/// the prerelease and build parts attached.
pub fn format_version(value: &NormalizedVersion, full_versions: bool) -> (r: String)
    ensures
        r@ == value.spec_render(full_versions),
{
    let chars = render_version(value, full_versions);
    chars_to_string(&chars)
}

/// The placeholder for a version that could not be learned: `0.0.0+unknown`.
pub fn unknown_version() -> (r: NormalizedVersion)
    ensures
        r.major == 0,
        r.minor == 0,
        r.patch == 0,
        r.pre@.len() == 0,
        r.build@.len() == 1,
        r.build@[0]@ == "unknown"@,
        r.wf(),
{
    let mut build: Vec<String> = Vec::new();
    build.push(String::from_str("unknown"));
    let r = NormalizedVersion { major: 0, minor: 0, patch: 0, pre: Vec::new(), build };
    proof {
        reveal_strlit("unknown");
        assert(valid_build_token("unknown"@));
    }
    r
}

/// The names of the binaries known to lack any version flag.
pub open spec fn spec_allowlist() -> Seq<Seq<char>> {
    seq![
        "ls"@,
        "cd"@,
        "pwd"@,
        "echo"@,
        "cat"@,
        "find"@,
        "awk"@,
        "sed"@,
        "cut"@,
        "uniq"@,
        "wc"@,
        "head"@,
        "tail"@,
        "chmod"@,
        "chown"@,
        "ln"@,
        "mkdir"@,
        "rmdir"@,
        "rm"@,
        "cp"@,
        "mv"@,
        "touch"@,
        "ssh"@,
        "nice"@,
    ]
}

/// The binaries known to lack a version flag: shell and file utilities that
/// a probe would only stall on or misread.
pub fn known_binaries() -> (r: Vec<String>)
    ensures
        token_views(r@) == spec_allowlist(),
{
    let mut r: Vec<String> = Vec::new();
    r.push(String::from_str("ls"));
    r.push(String::from_str("cd"));
    r.push(String::from_str("pwd"));
    r.push(String::from_str("echo"));
    r.push(String::from_str("cat"));
    r.push(String::from_str("find"));
    r.push(String::from_str("awk"));
    r.push(String::from_str("sed"));
    r.push(String::from_str("cut"));
    r.push(String::from_str("uniq"));
    r.push(String::from_str("wc"));
    r.push(String::from_str("head"));
    r.push(String::from_str("tail"));
    r.push(String::from_str("chmod"));
    r.push(String::from_str("chown"));
    r.push(String::from_str("ln"));
    r.push(String::from_str("mkdir"));
    r.push(String::from_str("rmdir"));
    r.push(String::from_str("rm"));
    r.push(String::from_str("cp"));
    r.push(String::from_str("mv"));
    r.push(String::from_str("touch"));
    r.push(String::from_str("ssh"));
    r.push(String::from_str("nice"));
    proof {
        assert(token_views(r@) =~= spec_allowlist());
    }
    r
}

/// Whether the name is on the no-version allowlist.
pub open spec fn spec_allowlisted(name: Seq<char>) -> bool {
    spec_allowlist().contains(name)
}

/// Tests the name against the no-version allowlist.
pub fn is_allowlisted(name: &str) -> (r: bool)
    ensures
        r == spec_allowlisted(name@),
{
    let list = known_binaries();
    let n = String::from_str(name);
    let mut i: usize = 0;
    let len = list.len();
    while i < len
        invariant
            i <= len,
            len == list@.len(),
            n@ == name@,
            token_views(list@) == spec_allowlist(),
            forall|j: int| 0 <= j < i ==> #[trigger] list@[j]@ != name@,
        decreases len - i,
    {
        if list[i] == n {
            proof {
                assert(spec_allowlist()[i as int] == name@);
            }
            return true;
        }
        proof {
            assert(list@[i as int]@ != name@);
        }
        i = i + 1;
    }
    proof {
        if spec_allowlist().contains(name@) {
            let k = choose|k: int| 0 <= k < spec_allowlist().len() && spec_allowlist()[k] == name@;
            assert(list@[k]@ == name@);
        }
    }
    false
}

/// Turns captured probe output into a version: the first version-looking
/// token of the output is cleaned, and the cleaned text must obey the
/// strict grammar.
pub fn version_from_output(output: &str, binary_name: &str) -> (r: Result<
    NormalizedVersion,
    VersionError,
>)
    ensures
        r is Ok <==> (spec_extract(output@) is Some && spec_is_strict(
            spec_clean(spec_extract(output@).unwrap()),
        )),
        r is Ok ==> r.unwrap().wf() && r.unwrap().spec_render(true) == spec_clean(
            spec_extract(output@).unwrap(),
        ),
        r is Err && spec_extract(output@) is None ==> (r.unwrap_err()
            matches VersionError::VersionParse { name, output: text } && name@ == binary_name@
            && text@ == output@),
        r is Err && spec_extract(output@) is Some ==> (r.unwrap_err()
            matches VersionError::SemverParse { version_string } && version_string@ == spec_clean(
            spec_extract(output@).unwrap(),
        )),
{
    match extract_version(output, binary_name) {
        Ok(cleaned) => {
            let chars = str_to_chars(cleaned.as_str());
            match parse_strict(&chars) {
                Some(v) => Ok(v),
                None => Err(VersionError::SemverParse { version_string: cleaned }),
            }
        },
        Err(e) => Err(e),
    }
}

/// Probes the binary for version text and reads it. Captured output goes
/// through extraction and normalization, and those failures are reported
/// even for allowlisted names; a probe where no flag yielded output is no
/// error for an allowlisted name, and an execution failure otherwise.
pub fn get_version(binary_name: &str) -> (r: Result<Option<NormalizedVersion>, VersionError>)
    ensures
        r is Ok && r.unwrap() is None ==> spec_allowlisted(binary_name@),
        r is Ok && r.unwrap() is Some ==> r.unwrap().unwrap().wf(),
        r is Ok && r.unwrap() is Some ==> exists|out: Seq<char>|
            {
                &&& #[trigger] spec_extract(out) is Some
                &&& spec_is_strict(spec_clean(spec_extract(out).unwrap()))
                &&& r.unwrap().unwrap().spec_render(true) == spec_clean(spec_extract(out).unwrap())
            },
        r is Err ==> !(r.unwrap_err() matches VersionError::Execution { .. }) || !spec_allowlisted(
            binary_name@,
        ),
        r is Err ==> (r.unwrap_err() matches VersionError::Execution { name, .. } ==> name@
            == binary_name@),
        r is Err ==> (r.unwrap_err() matches VersionError::VersionParse { name, .. } ==> name@
            == binary_name@),
{
    match execute_binary(binary_name) {
        Ok(output) => match version_from_output(output.as_str(), binary_name) {
            Ok(v) => {
                proof {
                    let ghost out_view = output@;
                    assert(spec_extract(out_view) is Some && spec_is_strict(
                        spec_clean(spec_extract(out_view).unwrap()),
                    ) && v.spec_render(true) == spec_clean(spec_extract(out_view).unwrap()));
                }
                Ok(Some(v))
            },
            Err(e) => Err(e),
        },
        Err(e) => {
            if is_allowlisted(binary_name) {
                Ok(None)
            } else {
                Err(e)
            }
        },
    }
}

/// Fills in a version for every record: a name on the allowlist is skipped
/// outright and keeps no version; any other is probed, and a failure to
/// learn its version leaves that one record without a version, never
/// touching the rest. Names and package-manager tags are kept, in order.
pub fn get_versions_for_bins(binaries: Vec<Binary>) -> (r: Vec<Binary>)
    ensures
        r@.len() == binaries@.len(),
        names_of(r@) == names_of(binaries@),
        forall|i: int|
            0 <= i < r@.len() ==> (#[trigger] r@[i]).name == binaries@[i].name && r@[i].package_manager
                == binaries@[i].package_manager,
        forall|i: int|
            0 <= i < r@.len() ==> spec_allowlisted(binaries@[i].name@) ==> (#[trigger] r@[i]).version
                is None,
        forall|i: int|
            0 <= i < r@.len() ==> (#[trigger] r@[i]).version is Some ==> r@[i].version.unwrap().wf(),
{
    let ghost bins0 = binaries@;
    let mut rest = binaries;
    let mut out: Vec<Binary> = Vec::new();
    let n = rest.len();
    let mut i: usize = 0;
    proof {
        assert(rest@ =~= bins0.skip(0));
    }
    while i < n
        invariant
            i <= n,
            n == bins0.len(),
            rest@ == bins0.skip(i as int),
            out@.len() == i,
            forall|k: int|
                0 <= k < i ==> (#[trigger] out@[k]).name == bins0[k].name && out@[k].package_manager
                    == bins0[k].package_manager,
            forall|k: int|
                0 <= k < i ==> spec_allowlisted(bins0[k].name@) ==> (#[trigger] out@[k]).version
                    is None,
            forall|k: int|
                0 <= k < i ==> (#[trigger] out@[k]).version is Some ==> out@[k].version.unwrap().wf(),
        decreases n - i,
    {
        proof {
            assert(rest@.len() == n - i);
        }
        let b = rest.remove(0);
        proof {
            assert(b == bins0[i as int]);
            assert(bins0.skip(i as int).remove(0) =~= bins0.skip(i + 1 as int));
        }
        if is_allowlisted(b.name.as_str()) {
            out.push(Binary { name: b.name, version: None, package_manager: b.package_manager });
        } else {
            let version = match get_version(b.name.as_str()) {
                Ok(v) => v,
                Err(_) => None,
            };
            out.push(Binary { name: b.name, version, package_manager: b.package_manager });
        }
        i = i + 1;
    }
    proof {
        assert(names_of(out@) =~= names_of(bins0));
    }
    out
}

/// Runs the whole pipeline over the queries: every name is looked up on the
/// search path; an empty list or a failed lookup is a hard error; the found
/// queries, with their package-manager tags and, when asked for, their
/// versions, and the missing queries come back as two lists, each sorted by
/// name. Every query ends up in exactly one of the two lists: together
/// their names are exactly the names asked about.
pub fn run_pipeline(binaries: Vec<Binary>, retrieve_versions: bool) -> (r: Result<
    (Vec<Binary>, Vec<Binary>),
    DiscoveryError,
>)
    ensures
        binaries@.len() == 0 <==> (r is Err && r.unwrap_err() is NoBinariesSpecified),
        r is Ok ==> spec_sorted(r.unwrap().0@) && spec_sorted(r.unwrap().1@),
        r is Ok ==> r.unwrap().0@.len() + r.unwrap().1@.len() == binaries@.len(),
        r is Ok ==> names_of(r.unwrap().0@).to_multiset().add(
            names_of(r.unwrap().1@).to_multiset(),
        ) == names_of(binaries@).to_multiset(),
        r is Ok ==> forall|i: int|
            0 <= i < r.unwrap().0@.len() ==> (#[trigger] r.unwrap().0@[i]).version is Some
                ==> r.unwrap().0@[i].version.unwrap().wf(),
        r is Ok && !retrieve_versions ==> forall|i: int|
            0 <= i < r.unwrap().0@.len() ==> (#[trigger] r.unwrap().0@[i]).version is None,
{
    broadcast use vstd::seq_lib::group_to_multiset_ensures;

    let ghost bins0 = binaries@;
    let r0 = crate::discovery::partition_binaries(binaries);
    match r0 {
        Ok((available, not_available)) => {
            proof {
                assert(bins0.len() > 0);
                let outs = choose|outs: Seq<crate::discovery::Located>|
                    outs.len() == bins0.len() && crate::discovery::partition_post(
                        bins0,
                        outs,
                        r0,
                    );
                crate::discovery::lemma_indices_bounds(outs);
                assert(available@.len() + not_available@.len() == bins0.len());
                assert(names_of(available@).to_multiset().add(
                    names_of(not_available@).to_multiset(),
                ) == names_of(bins0).to_multiset());
                assert forall|k: int| 0 <= k < available@.len() implies (
                #[trigger] available@[k]).version is None by {
                    assert(crate::discovery::available_matches(
                        available@[k],
                        bins0[crate::discovery::found_indices(outs)[k]],
                        outs[crate::discovery::found_indices(outs)[k]],
                    ));
                }
            }
            let mut available = if retrieve_versions {
                get_versions_for_bins(available)
            } else {
                available
            };
            let mut not_available = not_available;
            let ghost pre_av = available@;
            let ghost pre_nav = not_available@;
            proof {
                assert forall|k: int| 0 <= k < pre_av.len() implies ((#[trigger] pre_av[k]).version
                    is Some ==> pre_av[k].version.unwrap().wf()) && (!retrieve_versions
                    ==> pre_av[k].version is None) by {}
            }
            sort_binaries(&mut available);
            sort_binaries(&mut not_available);
            proof {
                assert(names_of(available@).to_multiset().add(
                    names_of(not_available@).to_multiset(),
                ) == names_of(bins0).to_multiset());
                assert(available@.to_multiset().len() == pre_av.to_multiset().len());
                assert(available@.len() == pre_av.len());
                assert(not_available@.to_multiset().len() == pre_nav.to_multiset().len());
                assert(not_available@.len() == pre_nav.len());
                assert forall|i: int| 0 <= i < available@.len() implies ((
                #[trigger] available@[i]).version is Some ==> available@[i].version.unwrap().wf())
                    && (!retrieve_versions ==> available@[i].version is None) by {
                    let x = available@[i];
                    assert(available@.contains(x));
                    assert(available@.to_multiset().count(x) > 0);
                    assert(pre_av.to_multiset().count(x) > 0);
                    assert(pre_av.contains(x));
                    let j = choose|j: int| 0 <= j < pre_av.len() && pre_av[j] == x;
                    assert((pre_av[j].version is Some ==> pre_av[j].version.unwrap().wf()) && (
                    !retrieve_versions ==> pre_av[j].version is None));
                }
            }
            Ok((available, not_available))
        },
        Err(e) => Err(e),
    }
}

} // verus!
