//! Locating binaries on the search path and classifying their installer.
use vstd::prelude::*;

use crate::binary::{names_of, Binary};
use crate::chars::{
    contains_seq, contains_vec, ends_with_seq, ends_with_vec, lower_vec, spec_lower,
    starts_with_seq, starts_with_vec, str_to_chars,
};
use crate::error::DiscoveryError;

verus! {

/// The package-manager tag for a resolved path, classified from the
/// lower-cased path text by the first matching rule: rustup, homebrew, npm,
/// go, pip, snap, flatpak, appimage, and, last because it is the most
/// generic, the system directories.
pub open spec fn spec_detect(path: Seq<char>) -> Option<Seq<char>> {
    let p = spec_lower(path);
    if contains_seq(p, "/.cargo/bin/"@) || contains_seq(p, "/.rustup/"@) {
        Some("rustup"@)
    } else if starts_with_seq(p, "/opt/homebrew/"@) || starts_with_seq(p, "/usr/local/cellar/"@)
        || (contains_seq(p, "/usr/local/"@) && contains_seq(p, "homebrew"@)) {
        Some("homebrew"@)
    } else if contains_seq(p, "/node_modules/.bin/"@) || contains_seq(p, "/npm/"@) || contains_seq(
        p,
        "/.npm/"@,
    ) || contains_seq(p, "/npm-global/"@) {
        Some("npm"@)
    } else if contains_seq(p, "/go/bin/"@) || contains_seq(p, "/gopath/bin/"@) {
        Some("go"@)
    } else if contains_seq(p, "/.local/bin/"@) || contains_seq(p, "/python"@) || contains_seq(
        p,
        "/pip/"@,
    ) || contains_seq(p, "/pipx/"@) {
        Some("pip"@)
    } else if contains_seq(p, "/snap/"@) {
        Some("snap"@)
    } else if contains_seq(p, "/flatpak/"@) {
        Some("flatpak"@)
    } else if contains_seq(p, "/appimage/"@) || ends_with_seq(p, ".appimage"@) {
        Some("appimage"@)
    } else if starts_with_seq(p, "/usr/bin/"@) || starts_with_seq(p, "/bin/"@)
        || starts_with_seq(p, "/usr/local/bin/"@) || starts_with_seq(p, "/sbin/"@)
        || starts_with_seq(p, "/usr/sbin/"@) {
        Some("system"@)
    } else {
        None
    }
}

/// Classifies which package manager is responsible for a binary, from its
/// resolved path alone.
pub fn detect_package_manager(binary_path: &str) -> (r: Option<String>)
    ensures
        r is Some <==> spec_detect(binary_path@) is Some,
        r is Some ==> r.unwrap()@ == spec_detect(binary_path@).unwrap(),
{
    let raw = str_to_chars(binary_path);
    let p = lower_vec(&raw);
    if contains_vec(&p, &str_to_chars("/.cargo/bin/")) || contains_vec(
        &p,
        &str_to_chars("/.rustup/"),
    ) {
        Some(String::from_str("rustup"))
    } else if starts_with_vec(&p, &str_to_chars("/opt/homebrew/")) || starts_with_vec(
        &p,
        &str_to_chars("/usr/local/cellar/"),
    ) || (contains_vec(&p, &str_to_chars("/usr/local/")) && contains_vec(
        &p,
        &str_to_chars("homebrew"),
    )) {
        Some(String::from_str("homebrew"))
    } else if contains_vec(&p, &str_to_chars("/node_modules/.bin/")) || contains_vec(
        &p,
        &str_to_chars("/npm/"),
    ) || contains_vec(&p, &str_to_chars("/.npm/")) || contains_vec(
        &p,
        &str_to_chars("/npm-global/"),
    ) {
        Some(String::from_str("npm"))
    } else if contains_vec(&p, &str_to_chars("/go/bin/")) || contains_vec(
        &p,
        &str_to_chars("/gopath/bin/"),
    ) {
        Some(String::from_str("go"))
    } else if contains_vec(&p, &str_to_chars("/.local/bin/")) || contains_vec(
        &p,
        &str_to_chars("/python"),
    ) || contains_vec(&p, &str_to_chars("/pip/")) || contains_vec(&p, &str_to_chars("/pipx/")) {
        Some(String::from_str("pip"))
    } else if contains_vec(&p, &str_to_chars("/snap/")) {
        Some(String::from_str("snap"))
    } else if contains_vec(&p, &str_to_chars("/flatpak/")) {
        Some(String::from_str("flatpak"))
    } else if contains_vec(&p, &str_to_chars("/appimage/")) || ends_with_vec(
        &p,
        &str_to_chars(".appimage"),
    ) {
        Some(String::from_str("appimage"))
    } else if starts_with_vec(&p, &str_to_chars("/usr/bin/")) || starts_with_vec(
        &p,
        &str_to_chars("/bin/"),
    ) || starts_with_vec(&p, &str_to_chars("/usr/local/bin/")) || starts_with_vec(
        &p,
        &str_to_chars("/sbin/"),
    ) || starts_with_vec(&p, &str_to_chars("/usr/sbin/")) {
        Some(String::from_str("system"))
    } else {
        None
    }
}

/// The outcome of one search-path lookup: a resolved absolute path, a plain
/// miss, or a failure to search at all.
pub enum Located {
    Found(String),
    NotFound,
    Failed(String),
}

/// Relies on `which::which`: for a bare name, searches each directory of
/// the process's search path, in order, for an executable of that name and
/// returns the first hit; a name with a path separator is resolved as a
/// path instead. Its `CannotFindBinaryPath` error is a plain miss, any
/// other error a failure of the search itself.
#[verifier::external_body]
fn which_lookup(name: &str) -> (r: Located) {
    match which::which(name) {
        Ok(path) => Located::Found(path.to_string_lossy().into_owned()),
        Err(which::Error::CannotFindBinaryPath) => Located::NotFound,
        Err(err) => Located::Failed(err.to_string()),
    }
}

/// The positions of the lookups that found a path, in order.
pub open spec fn found_indices(outs: Seq<Located>) -> Seq<int>
    decreases outs.len(),
{
    if outs.len() == 0 {
        Seq::empty()
    } else {
        let prev = found_indices(outs.drop_last());
        if outs.last() is Found {
            prev.push(outs.len() - 1)
        } else {
            prev
        }
    }
}

/// The positions of the lookups that missed, in order.
pub open spec fn notfound_indices(outs: Seq<Located>) -> Seq<int>
    decreases outs.len(),
{
    if outs.len() == 0 {
        Seq::empty()
    } else {
        let prev = notfound_indices(outs.drop_last());
        if outs.last() is NotFound {
            prev.push(outs.len() - 1)
        } else {
            prev
        }
    }
}

pub open spec fn has_failure(outs: Seq<Located>) -> bool {
    exists|i: int| 0 <= i < outs.len() && outs[i] is Failed
}

/// The position of the first lookup that failed.
pub open spec fn first_failure(outs: Seq<Located>) -> int
    decreases outs.len(),
{
    if outs.len() == 0 {
        0
    } else if outs[0] is Failed {
        0
    } else {
        1 + first_failure(outs.drop_first())
    }
}

pub proof fn lemma_indices_bounds(outs: Seq<Located>)
    ensures
        forall|k: int|
            0 <= k < found_indices(outs).len() ==> 0 <= #[trigger] found_indices(outs)[k]
                < outs.len() && outs[found_indices(outs)[k]] is Found,
        forall|k: int|
            0 <= k < notfound_indices(outs).len() ==> 0 <= #[trigger] notfound_indices(outs)[k]
                < outs.len() && outs[notfound_indices(outs)[k]] is NotFound,
        found_indices(outs).len() + notfound_indices(outs).len() <= outs.len(),
        !has_failure(outs) ==> found_indices(outs).len() + notfound_indices(outs).len()
            == outs.len(),
    decreases outs.len(),
{
    if outs.len() > 0 {
        lemma_indices_bounds(outs.drop_last());
        if !has_failure(outs) && has_failure(outs.drop_last()) {
            let i = choose|i: int| 0 <= i < outs.len() - 1 && outs.drop_last()[i] is Failed;
            assert(outs[i] is Failed);
        }
    }
}

pub proof fn lemma_first_failure(outs: Seq<Located>)
    requires
        has_failure(outs),
    ensures
        0 <= first_failure(outs) < outs.len(),
        outs[first_failure(outs)] is Failed,
        forall|j: int| 0 <= j < first_failure(outs) ==> !(outs[j] is Failed),
    decreases outs.len(),
{
    if outs[0] is Failed {
    } else {
        assert(has_failure(outs.drop_first())) by {
            let i = choose|i: int| 0 <= i < outs.len() && outs[i] is Failed;
            assert(outs.drop_first()[i - 1] is Failed);
        }
        lemma_first_failure(outs.drop_first());
        assert forall|j: int| 0 <= j < first_failure(outs) implies !(outs[j] is Failed) by {
            if j > 0 {
                assert(!(outs.drop_first()[j - 1] is Failed));
            }
        }
    }
}

/// How one available record relates to its query and its lookup outcome:
/// the name is kept, no version is assigned yet, and the tag is classified
/// from the resolved path.
pub open spec fn available_matches(b: Binary, q: Binary, out: Located) -> bool {
    &&& out matches Located::Found(path) ==> {
        &&& b.name == q.name
        &&& b.version is None
        &&& (b.package_manager is Some <==> spec_detect(path@) is Some)
        &&& (b.package_manager is Some ==> b.package_manager.unwrap()@ == spec_detect(
            path@,
        ).unwrap())
    }
    &&& out is Found
}

/// What partitioning yields for given lookup outcomes: a failed lookup is a
/// hard error naming the first query it struck; otherwise every found query
/// becomes an available record with its tag, in order, and every missed
/// query is kept unchanged among the not-available, in order.
pub open spec fn partition_post(
    bins: Seq<Binary>,
    outs: Seq<Located>,
    r: Result<(Vec<Binary>, Vec<Binary>), DiscoveryError>,
) -> bool {
    &&& (r is Err <==> has_failure(outs))
    &&& (r is Err ==> (r.unwrap_err() matches DiscoveryError::BinaryCheck { name, .. } && name@
        == bins[first_failure(outs)].name@))
    &&& (r is Ok ==> {
        let av = r.unwrap().0;
        let nav = r.unwrap().1;
        let fi = found_indices(outs);
        let ni = notfound_indices(outs);
        &&& av@.len() == fi.len()
        &&& nav@.len() == ni.len()
        &&& forall|k: int|
            0 <= k < fi.len() ==> available_matches(#[trigger] av@[k], bins[fi[k]], outs[fi[k]])
        &&& forall|k: int| 0 <= k < ni.len() ==> #[trigger] nav@[k] == bins[ni[k]]
        &&& names_of(av@).to_multiset().add(names_of(nav@).to_multiset()) == names_of(
            bins,
        ).to_multiset()
    })
}

/// Builds the partition for given lookup outcomes.
#[verifier::loop_isolation(false)]
fn partition_with_outcomes(binaries: Vec<Binary>, outcomes: &Vec<Located>) -> (r: Result<
    (Vec<Binary>, Vec<Binary>),
    DiscoveryError,
>)
    requires
        binaries@.len() == outcomes@.len(),
    ensures
        partition_post(binaries@, outcomes@, r),
{
    let ghost bins0 = binaries@;
    let mut rest = binaries;
    let mut available: Vec<Binary> = Vec::new();
    let mut not_available: Vec<Binary> = Vec::new();
    let n = outcomes.len();
    let mut i: usize = 0;
    proof {
        assert(rest@ =~= bins0.skip(0));
        assert(names_of(available@) =~= Seq::<Seq<char>>::empty());
        assert(names_of(not_available@) =~= Seq::<Seq<char>>::empty());
        assert(names_of(bins0.take(0)) =~= Seq::<Seq<char>>::empty());
        Seq::<Seq<char>>::empty().to_multiset_ensures();
        assert(names_of(available@).to_multiset().add(names_of(not_available@).to_multiset())
            =~= names_of(bins0.take(0)).to_multiset());
    }
    while i < n
        invariant
            i <= n,
            n == outcomes@.len(),
            n == bins0.len(),
            rest@ == bins0.skip(i as int),
            names_of(available@).to_multiset().add(names_of(not_available@).to_multiset())
                =~= names_of(bins0.take(i as int)).to_multiset(),
            available@.len() == found_indices(outcomes@.take(i as int)).len(),
            not_available@.len() == notfound_indices(outcomes@.take(i as int)).len(),
            forall|k: int|
                0 <= k < found_indices(outcomes@.take(i as int)).len() ==> {
                    let fi = found_indices(outcomes@.take(i as int));
                    available_matches(#[trigger] available@[k], bins0[fi[k]], outcomes@[fi[k]])
                },
            forall|k: int|
                0 <= k < notfound_indices(outcomes@.take(i as int)).len() ==> {
                    let ni = notfound_indices(outcomes@.take(i as int));
                    #[trigger] not_available@[k] == bins0[ni[k]]
                },
            forall|j: int| 0 <= j < i ==> !(#[trigger] outcomes@[j] is Failed),
        decreases n - i,
    {
        proof {
            lemma_indices_bounds(outcomes@.take(i as int));
            assert(outcomes@.take(i + 1 as int).drop_last() =~= outcomes@.take(i as int));
            assert(outcomes@.take(i + 1 as int).last() == outcomes@[i as int]);
            assert(rest@.len() == n - i);
        }
        let b = rest.remove(0);
        proof {
            assert(b == bins0[i as int]);
            assert(bins0.skip(i as int).remove(0) =~= bins0.skip(i + 1 as int));
            names_of(bins0.take(i as int)).to_multiset_ensures();
            assert(names_of(bins0.take(i + 1 as int)) =~= names_of(bins0.take(i as int)).push(
                b.name@,
            ));
        }
        let ghost pre_av_names = names_of(available@);
        let ghost pre_nav_names = names_of(not_available@);
        match &outcomes[i] {
            Located::Found(path) => {
                let tag = detect_package_manager(path.as_str());
                let updated = Binary::new_with_package_manager(b.name, tag);
                available.push(updated);
                proof {
                    pre_av_names.to_multiset_ensures();
                    assert(names_of(available@) =~= pre_av_names.push(b.name@));
                    assert(names_of(available@).to_multiset().add(
                        names_of(not_available@).to_multiset(),
                    ) =~= names_of(bins0.take(i + 1 as int)).to_multiset());
                    let fi = found_indices(outcomes@.take(i + 1 as int));
                    assert(fi =~= found_indices(outcomes@.take(i as int)).push(i as int));
                    assert forall|k: int| 0 <= k < fi.len() implies available_matches(
                        #[trigger] available@[k],
                        bins0[fi[k]],
                        outcomes@[fi[k]],
                    ) by {
                        if k < fi.len() - 1 {
                            assert(fi[k] == found_indices(outcomes@.take(i as int))[k]);
                        } else {
                            assert(fi[k] == i as int);
                        }
                    }
                }
            },
            Located::NotFound => {
                let ghost b_name = b.name@;
                not_available.push(b);
                proof {
                    pre_nav_names.to_multiset_ensures();
                    assert(names_of(not_available@) =~= pre_nav_names.push(b_name));
                    assert(names_of(available@).to_multiset().add(
                        names_of(not_available@).to_multiset(),
                    ) =~= names_of(bins0.take(i + 1 as int)).to_multiset());
                    let ni = notfound_indices(outcomes@.take(i + 1 as int));
                    assert(ni =~= notfound_indices(outcomes@.take(i as int)).push(i as int));
                    assert forall|k: int| 0 <= k < ni.len() implies #[trigger] not_available@[k]
                        == bins0[ni[k]] by {
                        if k < ni.len() - 1 {
                            assert(ni[k] == notfound_indices(outcomes@.take(i as int))[k]);
                        } else {
                            assert(ni[k] == i as int);
                        }
                    }
                }
            },
            Located::Failed(msg) => {
                let err = DiscoveryError::BinaryCheck {
                    name: b.name,
                    message: String::from_str(msg.as_str()),
                };
                let res: Result<(Vec<Binary>, Vec<Binary>), DiscoveryError> = Err(err);
                proof {
                    assert(outcomes@[i as int] is Failed);
                    assert(has_failure(outcomes@));
                    lemma_first_failure(outcomes@);
                    assert(first_failure(outcomes@) == i as int) by {
                        let f = first_failure(outcomes@);
                        if f < i {
                            assert(!(outcomes@[f] is Failed));
                        }
                        if f > i {
                            assert(!(outcomes@[i as int] is Failed));
                        }
                    }
                    assert(res is Err);
                    assert(res.unwrap_err() matches DiscoveryError::BinaryCheck { name, .. }
                        && name@ == bins0[first_failure(outcomes@)].name@);
                    assert(partition_post(bins0, outcomes@, res));
                }
                return res;
            },
        }
        i = i + 1;
    }
    proof {
        assert(outcomes@.take(n as int) =~= outcomes@);
        assert(bins0.take(n as int) =~= bins0);
        if has_failure(outcomes@) {
            let f = choose|f: int| 0 <= f < outcomes@.len() && outcomes@[f] is Failed;
            assert(!(outcomes@[f] is Failed));
        }
    }
    Ok((available, not_available))
}

/// Looks every query up on the search path and splits the list into the
/// available and the not-available; an empty list is refused, and a lookup
/// that cannot search at all aborts with a hard error naming its query.
pub fn partition_binaries(binaries: Vec<Binary>) -> (r: Result<
    (Vec<Binary>, Vec<Binary>),
    DiscoveryError,
>)
    ensures
        binaries@.len() == 0 <==> (r is Err && r.unwrap_err() is NoBinariesSpecified),
        binaries@.len() > 0 ==> exists|outs: Seq<Located>|
            outs.len() == binaries@.len() && partition_post(binaries@, outs, r),
{
    if binaries.len() == 0 {
        return Err(DiscoveryError::NoBinariesSpecified);
    }
    let ghost bins0 = binaries@;
    let mut outcomes: Vec<Located> = Vec::new();
    let n = binaries.len();
    let mut i: usize = 0;
    while i < n
        invariant
            i <= n,
            n == binaries@.len(),
            outcomes@.len() == i,
        decreases n - i,
    {
        let out = which_lookup(binaries[i].name.as_str());
        outcomes.push(out);
        i = i + 1;
    }
    let ghost outs = outcomes@;
    let r = partition_with_outcomes(binaries, &outcomes);
    proof {
        assert(outs.len() == bins0.len());
        assert(partition_post(bins0, outs, r));
    }
    r
}

} // verus!
