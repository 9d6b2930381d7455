//! The registry: owner of all registered packages and of the dependency
//! graph, and home of the three orchestration operations.
//!
//! Orchestration never touches the outside world itself: each operation
//! rewrites the in-memory manifests and returns the full list of effects
//! — manifest writes with their exact text, builds, archive productions
//! and copies — in the order the runner must perform them.  A failure
//! while running them aborts the rest; writes already performed stay.
use vstd::prelude::*;

use crate::Effect;
use crate::EffectData;
use crate::LpmError;
use crate::json::JsonData;
use crate::json::declares;
use crate::json::dep_string;
use crate::json::lemma_set_dep_dep_string;
use crate::json::pretty_of;
use crate::json::set_dep;
use crate::graph::DependencyGraph;
use crate::graph::OrderedDependencyGraph;
use crate::graph::cycle_reachable_from;
use crate::graph::reaches;
use crate::graph::order_ok;
use crate::package::Bundle;
use crate::package::Package;
use crate::package::Typescript;
use crate::package::file_descriptor_spec;
use crate::package::local_bundle_file_spec;
use crate::package::manifest_file_spec;
use crate::package::tarball_file_spec;
use crate::package_manager::Npm;
use crate::package_manager::PackageManager;
use crate::package_manager::npm_resolved;

verus! {

/// The version descriptor a traversal writes for dependency `i`: a raw
/// reference to its tree, or a reference to its bundled archive inside
/// the consumer's tree.
pub open spec fn mode_value(pkgs: Seq<Typescript>, i: int, bundled: bool) -> Seq<char> {
    if bundled {
        file_descriptor_spec(local_bundle_file_spec(pkgs[i].name_spec()))
    } else {
        file_descriptor_spec(pkgs[i].path_spec())
    }
}

/// Whether some registered package is rooted at `path`.
pub open spec fn has_path(pkgs: Seq<Typescript>, path: Seq<char>) -> bool {
    exists|i: int| 0 <= i < pkgs.len() && (#[trigger] pkgs[i]).path_spec() == path
}

/// A document after the first `upto` processed dependencies of the
/// traversal have been written into it, in order.
pub open spec fn replay_doc(
    doc: JsonData,
    pkgs: Seq<Typescript>,
    order: Seq<usize>,
    upto: int,
    bundled: bool,
) -> JsonData
    decreases upto,
{
    if upto <= 0 {
        doc
    } else {
        set_dep(
            replay_doc(doc, pkgs, order, upto - 1, bundled),
            pkgs[order[upto - 1] as int].name_spec(),
            mode_value(pkgs, order[upto - 1] as int, bundled),
        )
    }
}

/// The value the first `upto` replayed rewrites leave under name `m`, if
/// any of them hits a declared entry of that name.
pub open spec fn replay_sets(
    pkgs: Seq<Typescript>,
    order: Seq<usize>,
    upto: int,
    bundled: bool,
    m: Seq<char>,
) -> Option<Seq<char>>
    decreases upto,
{
    if upto <= 0 {
        None
    } else if pkgs[order[upto - 1] as int].name_spec() == m {
        Some(mode_value(pkgs, order[upto - 1] as int, bundled))
    } else {
        replay_sets(pkgs, order, upto - 1, bundled, m)
    }
}

/// Replaying rewrites never changes which names a manifest declares.
pub proof fn lemma_replay_declares(
    doc: JsonData,
    pkgs: Seq<Typescript>,
    order: Seq<usize>,
    upto: int,
    bundled: bool,
    m: Seq<char>,
)
    ensures
        declares(replay_doc(doc, pkgs, order, upto, bundled), m) == declares(doc, m),
    decreases upto,
{
    if upto > 0 {
        lemma_replay_declares(doc, pkgs, order, upto - 1, bundled, m);
        lemma_set_dep_dep_string(
            replay_doc(doc, pkgs, order, upto - 1, bundled),
            pkgs[order[upto - 1] as int].name_spec(),
            mode_value(pkgs, order[upto - 1] as int, bundled),
            m,
        );
    }
}

/// What a replay leaves under each name: the latest replayed value for a
/// declared name it hits, and the old entry everywhere else.
pub proof fn lemma_replay_dep_string(
    doc: JsonData,
    pkgs: Seq<Typescript>,
    order: Seq<usize>,
    upto: int,
    bundled: bool,
    m: Seq<char>,
)
    ensures
        dep_string(replay_doc(doc, pkgs, order, upto, bundled), m) == if declares(doc, m) {
            match replay_sets(pkgs, order, upto, bundled, m) {
                Some(v) => Some(v),
                None => dep_string(doc, m),
            }
        } else {
            dep_string(doc, m)
        },
    decreases upto,
{
    if upto > 0 {
        lemma_replay_dep_string(doc, pkgs, order, upto - 1, bundled, m);
        lemma_replay_declares(doc, pkgs, order, upto - 1, bundled, m);
        lemma_set_dep_dep_string(
            replay_doc(doc, pkgs, order, upto - 1, bundled),
            pkgs[order[upto - 1] as int].name_spec(),
            mode_value(pkgs, order[upto - 1] as int, bundled),
            m,
        );
    }
}

/// Law: one traversal's rewrites, replayed a second time over their own
/// result, leave every dependency descriptor exactly as the first pass
/// left it — rewriting is idempotent when nothing else changed.
pub proof fn lemma_update_idempotent(
    doc: JsonData,
    pkgs: Seq<Typescript>,
    order: Seq<usize>,
    upto: int,
    bundled: bool,
    m: Seq<char>,
)
    ensures
        dep_string(
            replay_doc(
                replay_doc(doc, pkgs, order, upto, bundled),
                pkgs,
                order,
                upto,
                bundled,
            ),
            m,
        ) == dep_string(replay_doc(doc, pkgs, order, upto, bundled), m),
{
    let once = replay_doc(doc, pkgs, order, upto, bundled);
    lemma_replay_declares(doc, pkgs, order, upto, bundled, m);
    lemma_replay_dep_string(doc, pkgs, order, upto, bundled, m);
    lemma_replay_dep_string(once, pkgs, order, upto, bundled, m);
}

/// What value a full replay leaves for name `m`: the value of the last
/// order member named `m`, if any member is.
pub proof fn lemma_replay_sets_member(
    pkgs: Seq<Typescript>,
    order: Seq<usize>,
    upto: int,
    bundled: bool,
    m: Seq<char>,
)
    requires
        upto <= order.len(),
    ensures
        (replay_sets(pkgs, order, upto, bundled, m) is Some) <==> (exists|k: int|
            0 <= k < upto && (#[trigger] pkgs[order[k] as int].name_spec()) == m),
        replay_sets(pkgs, order, upto, bundled, m) matches Some(v) ==> (exists|k: int|
            0 <= k < upto && (#[trigger] pkgs[order[k] as int].name_spec()) == m && v
                == mode_value(pkgs, order[k] as int, bundled)),
    decreases upto,
{
    if upto > 0 {
        lemma_replay_sets_member(pkgs, order, upto - 1, bundled, m);
    }
}

/// Law: two consecutive traversals of an unchanged registry leave every
/// dependency descriptor as the first left it, even when the second walk
/// enumerates the closure in another admissible dependency-first order —
/// provided no two packages of the closure share a name.  (With shared
/// names the surviving value depends on which same-named package is
/// written last, so only runs that enumerate in the same order agree;
/// one deterministic walk, run twice, does.)
#[verifier::rlimit(50)]
pub proof fn lemma_update_idempotent_across_orders(
    doc: JsonData,
    pkgs: Seq<Typescript>,
    n: nat,
    edges: Set<(int, int)>,
    start: usize,
    o1: Seq<usize>,
    o2: Seq<usize>,
    bundled: bool,
    m: Seq<char>,
)
    requires
        order_ok(n, edges, start, o1),
        order_ok(n, edges, start, o2),
        forall|k1: int, k2: int|
            0 <= k1 < o1.len() && 0 <= k2 < o1.len() && k1 != k2 ==> (
            #[trigger] pkgs[o1[k1] as int].name_spec()) != (
            #[trigger] pkgs[o1[k2] as int].name_spec()),
    ensures
        dep_string(
            replay_doc(
                replay_doc(doc, pkgs, o1, o1.len() as int, bundled),
                pkgs,
                o2,
                o2.len() as int,
                bundled,
            ),
            m,
        ) == dep_string(replay_doc(doc, pkgs, o1, o1.len() as int, bundled), m),
{
    let n1 = o1.len() as int;
    let n2 = o2.len() as int;
    let once = replay_doc(doc, pkgs, o1, n1, bundled);
    lemma_replay_declares(doc, pkgs, o1, n1, bundled, m);
    lemma_replay_dep_string(doc, pkgs, o1, n1, bundled, m);
    lemma_replay_dep_string(once, pkgs, o2, n2, bundled, m);
    lemma_replay_sets_member(pkgs, o1, n1, bundled, m);
    lemma_replay_sets_member(pkgs, o2, n2, bundled, m);
    if declares(doc, m) {
        match replay_sets(pkgs, o2, n2, bundled, m) {
            Some(v2) => {
                let k2 = choose|k2: int|
                    0 <= k2 < n2 && (#[trigger] pkgs[o2[k2] as int].name_spec()) == m && v2
                        == mode_value(pkgs, o2[k2] as int, bundled);
                let j = o2[k2];
                assert(o2.contains(j));
                assert(o1.contains(j));
                let k1 = choose|k1: int| 0 <= k1 < n1 && o1[k1] == j;
                assert(pkgs[o1[k1] as int].name_spec() == m);
                assert(replay_sets(pkgs, o1, n1, bundled, m) is Some);
                let v1 = replay_sets(pkgs, o1, n1, bundled, m)->Some_0;
                let k3 = choose|k3: int|
                    0 <= k3 < n1 && (#[trigger] pkgs[o1[k3] as int].name_spec()) == m && v1
                        == mode_value(pkgs, o1[k3] as int, bundled);
                assert(k3 == k1);
                assert(v1 == v2);
            },
            None => {
            },
        }
    }
}

/// Replaying reads only the names and paths of the enumeration's
/// members: two package sequences agreeing on those replay identically.
proof fn lemma_replay_same_views(
    doc: JsonData,
    pkgs_a: Seq<Typescript>,
    pkgs_b: Seq<Typescript>,
    order: Seq<usize>,
    upto: int,
    bundled: bool,
)
    requires
        upto <= order.len(),
        forall|k: int|
            0 <= k < order.len() ==> (((#[trigger] order[k]) as int) < pkgs_a.len() && (
            order[k] as int) < pkgs_b.len() && pkgs_a[order[k] as int].name_spec()
                == pkgs_b[order[k] as int].name_spec() && pkgs_a[order[k] as int].path_spec()
                == pkgs_b[order[k] as int].path_spec()),
    ensures
        replay_doc(doc, pkgs_a, order, upto, bundled) == replay_doc(
            doc,
            pkgs_b,
            order,
            upto,
            bundled,
        ),
    decreases upto,
{
    if upto > 0 {
        lemma_replay_same_views(doc, pkgs_a, pkgs_b, order, upto - 1, bundled);
    }
}

/// The effect that persists package `i`'s manifest holding document `d`.
pub open spec fn write_eff(pkgs: Seq<Typescript>, i: int, d: JsonData) -> EffectData {
    EffectData::WriteManifest {
        path: manifest_file_spec(pkgs[i].path_spec()),
        text: pretty_of(d),
    }
}

/// The effect that builds package `i`.
pub open spec fn build_eff(pkgs: Seq<Typescript>, i: int) -> EffectData {
    EffectData::Build { path: pkgs[i].path_spec() }
}

/// The effect that produces package `i`'s archive in the staging root.
pub open spec fn make_archive_eff(pkgs: Seq<Typescript>, i: int) -> EffectData {
    EffectData::MakeArchive {
        package_path: pkgs[i].path_spec(),
        tarball_file: tarball_file_spec(pkgs[i].name_spec()),
    }
}

/// The effect that copies package `i`'s staged archive into the local
/// cache of the target package `t`.
pub open spec fn copy_eff(pkgs: Seq<Typescript>, i: int, t: int) -> EffectData {
    EffectData::CopyArchive {
        from: tarball_file_spec(pkgs[i].name_spec()),
        to: pkgs[t].path_spec() + "/"@ + local_bundle_file_spec(pkgs[i].name_spec()),
    }
}

/// The manifest writes emitted while the first `upto` processed packages
/// are replayed into the package `i` holding `doc0` at the start of the
/// traversal: one write per prior package that `doc0` declares.
pub open spec fn replay_effects(
    pkgs: Seq<Typescript>,
    doc0: JsonData,
    i: int,
    order: Seq<usize>,
    upto: int,
    bundled: bool,
) -> Seq<EffectData>
    decreases upto,
{
    if upto <= 0 {
        Seq::empty()
    } else {
        replay_effects(pkgs, doc0, i, order, upto - 1, bundled) + if declares(
            doc0,
            pkgs[order[upto - 1] as int].name_spec(),
        ) {
            seq![write_eff(pkgs, i, replay_doc(doc0, pkgs, order, upto, bundled))]
        } else {
            Seq::empty()
        }
    }
}

/// All effects of the traversal step that processes `order[k]`: the
/// replays into it, its build (or archive production and copy), and the
/// write of the target's manifest when the target declares it.
pub open spec fn step_effects(
    pkgs: Seq<Typescript>,
    t: int,
    order: Seq<usize>,
    k: int,
    bundled: bool,
) -> Seq<EffectData> {
    let d = order[k] as int;
    replay_effects(pkgs, pkgs[d].doc_spec(), d, order, k, bundled) + (if bundled {
        seq![make_archive_eff(pkgs, d), copy_eff(pkgs, d, t)]
    } else {
        seq![build_eff(pkgs, d)]
    }) + (if declares(pkgs[t].doc_spec(), pkgs[d].name_spec()) {
        seq![write_eff(pkgs, t, replay_doc(pkgs[t].doc_spec(), pkgs, order, k + 1, bundled))]
    } else {
        Seq::empty()
    })
}

/// The effects of the first `upto` traversal steps, in order.
pub open spec fn run_effects(
    pkgs: Seq<Typescript>,
    t: int,
    order: Seq<usize>,
    upto: int,
    bundled: bool,
) -> Seq<EffectData>
    decreases upto,
{
    if upto <= 0 {
        Seq::empty()
    } else {
        run_effects(pkgs, t, order, upto - 1, bundled) + step_effects(
            pkgs,
            t,
            order,
            upto - 1,
            bundled,
        )
    }
}

/// How a finished traversal relates the new package states to the old:
/// names, paths and untouched manifests are unchanged; each processed
/// dependency holds the replays of its predecessors; the target holds
/// the rewrites for every processed dependency.
pub open spec fn docs_replayed(
    pkgs0: Seq<Typescript>,
    pkgs1: Seq<Typescript>,
    order: Seq<usize>,
    t: int,
    bundled: bool,
) -> bool {
    &&& pkgs1.len() == pkgs0.len()
    &&& forall|i: int|
        0 <= i < pkgs1.len() ==> ((#[trigger] pkgs1[i]).name_spec() == pkgs0[i].name_spec()
            && pkgs1[i].path_spec() == pkgs0[i].path_spec() && pkgs1[i].wf())
    &&& forall|k: int|
        0 <= k < order.len() ==> (#[trigger] pkgs1[order[k] as int]).doc_spec() == replay_doc(
            pkgs0[order[k] as int].doc_spec(),
            pkgs0,
            order,
            k,
            bundled,
        )
    &&& pkgs1[t].doc_spec() == replay_doc(
        pkgs0[t].doc_spec(),
        pkgs0,
        order,
        order.len() as int,
        bundled,
    )
    &&& forall|i: int|
        0 <= i < pkgs1.len() && i != t && !order.contains(i as usize) ==> (
        #[trigger] pkgs1[i]).doc_spec() == pkgs0[i].doc_spec()
}

/// What a finished traversal for the package at `path` promises, over
/// some dependency-first enumeration of that package's closure.
pub open spec fn traversal_post(
    pkgs0: Seq<Typescript>,
    pkgs1: Seq<Typescript>,
    n: nat,
    edges: Set<(int, int)>,
    path: Seq<char>,
    bundled: bool,
    effs: Seq<EffectData>,
) -> bool {
    exists|t: usize, order: Seq<usize>|
        {
            &&& (t as int) < pkgs0.len()
            &&& pkgs0[t as int].path_spec() == path
            &&& #[trigger] order_ok(n, edges, t, order)
            &&& docs_replayed(pkgs0, pkgs1, order, t as int, bundled)
            &&& effs == run_effects(pkgs0, t as int, order, order.len() as int, bundled)
        }
}

/// Law: the second of two consecutive traversals over an unchanged
/// registry leaves every dependency descriptor of every manifest exactly
/// as the first pass left it — whichever admissible dependency-first
/// enumeration each walk used — given the registration edge
/// characterization and names unique among the packages, as the data
/// model holds them.  (With two same-named packages the surviving value
/// depends on which is written last, so only walks enumerating in the
/// same order agree.)
#[verifier::rlimit(100)]
pub proof fn lemma_second_run_changes_nothing(
    pkgs0: Seq<Typescript>,
    pkgs1: Seq<Typescript>,
    pkgs2: Seq<Typescript>,
    n: nat,
    edges: Set<(int, int)>,
    t: usize,
    o1: Seq<usize>,
    o2: Seq<usize>,
    bundled: bool,
    i: usize,
    m: Seq<char>,
)
    requires
        n == pkgs0.len(),
        (t as int) < pkgs0.len(),
        order_ok(n, edges, t, o1),
        order_ok(n, edges, t, o2),
        docs_replayed(pkgs0, pkgs1, o1, t as int, bundled),
        docs_replayed(pkgs1, pkgs2, o2, t as int, bundled),
        forall|a: int, b: int|
            #[trigger] edges.contains((a, b)) <==> (0 <= a < pkgs0.len() && 0 <= b
                < pkgs0.len() && a != b && declares(
                pkgs0[a].doc_spec(),
                pkgs0[b].name_spec(),
            )),
        forall|i1: int, i2: int|
            0 <= i1 < i2 < pkgs0.len() ==> (#[trigger] pkgs0[i1].name_spec()) != (
            #[trigger] pkgs0[i2].name_spec()),
        (i as int) < pkgs2.len(),
    ensures
        dep_string(pkgs2[i as int].doc_spec(), m) == dep_string(pkgs1[i as int].doc_spec(), m),
{
    let ii = i as int;
    let len1 = o1.len() as int;
    let len2 = o2.len() as int;
    assert forall|k: int|
        0 <= k < o2.len() implies (((#[trigger] o2[k]) as int) < pkgs1.len() && (o2[k] as int)
        < pkgs0.len() && pkgs1[o2[k] as int].name_spec() == pkgs0[o2[k] as int].name_spec()
        && pkgs1[o2[k] as int].path_spec() == pkgs0[o2[k] as int].path_spec()) by {
        assert((o2[k] as int) < n);
    }
    if i == t {
        lemma_replay_same_views(pkgs1[t as int].doc_spec(), pkgs1, pkgs0, o2, len2, bundled);
        assert forall|k1: int, k2: int|
            0 <= k1 < o1.len() && 0 <= k2 < o1.len() && k1 != k2 implies (
        #[trigger] pkgs0[o1[k1] as int].name_spec()) != (
        #[trigger] pkgs0[o1[k2] as int].name_spec()) by {
            assert(o1[k1] != o1[k2]);
            let a = o1[k1] as int;
            let b = o1[k2] as int;
            if a < b {
                assert(pkgs0[a].name_spec() != pkgs0[b].name_spec());
            } else {
                assert(pkgs0[b].name_spec() != pkgs0[a].name_spec());
            }
        }
        lemma_update_idempotent_across_orders(
            pkgs0[t as int].doc_spec(),
            pkgs0,
            n,
            edges,
            t,
            o1,
            o2,
            bundled,
            m,
        );
    } else if o2.contains(i) {
        let k2 = choose|k2: int| 0 <= k2 < o2.len() && o2[k2] == i;
        assert(reaches(n, edges, t as int, i as int));
        assert(o1.contains(i));
        let k1 = choose|k1: int| 0 <= k1 < o1.len() && o1[k1] == i;
        let d0 = pkgs0[ii].doc_spec();
        let d1 = pkgs1[ii].doc_spec();
        assert(d1 == replay_doc(d0, pkgs0, o1, k1, bundled));
        assert(pkgs2[ii].doc_spec() == replay_doc(d1, pkgs1, o2, k2, bundled));
        lemma_replay_same_views(d1, pkgs1, pkgs0, o2, k2, bundled);
        assert(pkgs2[ii].doc_spec() == replay_doc(d1, pkgs0, o2, k2, bundled));
        lemma_replay_declares(d0, pkgs0, o1, k1, bundled, m);
        lemma_replay_dep_string(d1, pkgs0, o2, k2, bundled, m);
        if declares(d0, m) {
            lemma_replay_sets_member(pkgs0, o2, k2, bundled, m);
            match replay_sets(pkgs0, o2, k2, bundled, m) {
                Some(v2) => {
                    let kb = choose|kb: int|
                        0 <= kb < k2 && (#[trigger] pkgs0[o2[kb] as int].name_spec()) == m && v2
                            == mode_value(pkgs0, o2[kb] as int, bundled);
                    let bnode = o2[kb];
                    assert(bnode != i);
                    assert(declares(d0, pkgs0[bnode as int].name_spec()));
                    assert(edges.contains((ii, bnode as int)));
                    assert(edges.contains((o1[k1] as int, bnode as int)));
                    assert(o1.take(k1).contains(bnode));
                    let q = choose|q: int|
                        0 <= q < o1.take(k1).len() && o1.take(k1)[q] == bnode;
                    assert(o1[q] == bnode && 0 <= q < k1);
                    assert(pkgs0[o1[q] as int].name_spec() == m);
                    lemma_replay_sets_member(pkgs0, o1, k1, bundled, m);
                    assert(replay_sets(pkgs0, o1, k1, bundled, m) is Some);
                    let v1 = replay_sets(pkgs0, o1, k1, bundled, m)->Some_0;
                    let ka = choose|ka: int|
                        0 <= ka < k1 && (#[trigger] pkgs0[o1[ka] as int].name_spec()) == m && v1
                            == mode_value(pkgs0, o1[ka] as int, bundled);
                    assert(o1[ka] == bnode) by {
                        if o1[ka] != bnode {
                            let a = o1[ka] as int;
                            let b = bnode as int;
                            if a < b {
                                assert(pkgs0[a].name_spec() != pkgs0[b].name_spec());
                            } else {
                                assert(pkgs0[b].name_spec() != pkgs0[a].name_spec());
                            }
                        }
                    }
                    assert(v1 == v2);
                    lemma_replay_dep_string(d0, pkgs0, o1, k1, bundled, m);
                    assert(dep_string(d1, m) == Some(v1));
                },
                None => {},
            }
        }
    } else {
        assert(pkgs2[ii].doc_spec() == pkgs1[ii].doc_spec());
    }
}

/// Law: the run-twice form of the idempotence property, composed from
/// the traversal contracts of two consecutive calls alone: after the
/// second run every dependency descriptor field equals its state after
/// the first.
pub proof fn lemma_update_run_twice(
    pkgs0: Seq<Typescript>,
    pkgs1: Seq<Typescript>,
    pkgs2: Seq<Typescript>,
    n: nat,
    edges: Set<(int, int)>,
    path: Seq<char>,
    bundled: bool,
    effs1: Seq<EffectData>,
    effs2: Seq<EffectData>,
    i: usize,
    m: Seq<char>,
)
    requires
        traversal_post(pkgs0, pkgs1, n, edges, path, bundled, effs1),
        traversal_post(pkgs1, pkgs2, n, edges, path, bundled, effs2),
        n == pkgs0.len(),
        forall|a: int, b: int|
            #[trigger] edges.contains((a, b)) <==> (0 <= a < pkgs0.len() && 0 <= b
                < pkgs0.len() && a != b && declares(
                pkgs0[a].doc_spec(),
                pkgs0[b].name_spec(),
            )),
        forall|i1: int, i2: int|
            0 <= i1 < i2 < pkgs0.len() ==> (#[trigger] pkgs0[i1].name_spec()) != (
            #[trigger] pkgs0[i2].name_spec()),
        forall|i1: int, i2: int|
            0 <= i1 < i2 < pkgs0.len() ==> (#[trigger] pkgs0[i1].path_spec()) != (
            #[trigger] pkgs0[i2].path_spec()),
        (i as int) < pkgs2.len(),
    ensures
        dep_string(pkgs2[i as int].doc_spec(), m) == dep_string(pkgs1[i as int].doc_spec(), m),
{
    let (t1, o1) = choose|t1: usize, o1: Seq<usize>|
        {
            &&& (t1 as int) < pkgs0.len()
            &&& pkgs0[t1 as int].path_spec() == path
            &&& #[trigger] order_ok(n, edges, t1, o1)
            &&& docs_replayed(pkgs0, pkgs1, o1, t1 as int, bundled)
            &&& effs1 == run_effects(pkgs0, t1 as int, o1, o1.len() as int, bundled)
        };
    let (t2, o2) = choose|t2: usize, o2: Seq<usize>|
        {
            &&& (t2 as int) < pkgs1.len()
            &&& pkgs1[t2 as int].path_spec() == path
            &&& #[trigger] order_ok(n, edges, t2, o2)
            &&& docs_replayed(pkgs1, pkgs2, o2, t2 as int, bundled)
            &&& effs2 == run_effects(pkgs1, t2 as int, o2, o2.len() as int, bundled)
        };
    assert(pkgs1[t2 as int].path_spec() == pkgs0[t2 as int].path_spec());
    assert(t1 == t2) by {
        if t1 != t2 {
            let a = t1 as int;
            let b = t2 as int;
            if a < b {
                assert(pkgs0[a].path_spec() != pkgs0[b].path_spec());
            } else {
                assert(pkgs0[b].path_spec() != pkgs0[a].path_spec());
            }
        }
    }
    lemma_second_run_changes_nothing(
        pkgs0,
        pkgs1,
        pkgs2,
        n,
        edges,
        t1,
        o1,
        o2,
        bundled,
        i,
        m,
    );
}

/// The registry: the package set, keyed by root path, and the graph over
/// it.  Single owner, single writer.
pub struct Registry {
    /// The registered packages; the graph's node `i` is `packages[i]`.
    pub packages: Vec<Typescript>,
    /// Edges: `i -> j` when package `i` declares a dependency named like
    /// package `j`.
    pub graph: OrderedDependencyGraph,
}

impl Registry {
    /// The registry is consistent: every package is well formed, paths
    /// are unique, and the graph holds the edge `i -> j` exactly when
    /// package `i`'s manifest declares a dependency named like package
    /// `j` — whatever order the two were registered in.
    pub open spec fn wf(&self) -> bool {
        &&& self.graph.wf()
        &&& self.graph.node_count_spec() == self.packages@.len()
        &&& forall|i: int| 0 <= i < self.packages@.len() ==> (#[trigger] self.packages@[i]).wf()
        &&& forall|i: int, j: int|
            0 <= i < j < self.packages@.len() ==> (#[trigger] self.packages@[i]).path_spec() != (
            #[trigger] self.packages@[j]).path_spec()
        &&& forall|i: int, j: int|
            #[trigger] self.graph.edges_spec().contains((i, j)) <==> (0 <= i
                < self.packages@.len() && 0 <= j < self.packages@.len() && i != j && declares(
                self.packages@[i].doc_spec(),
                self.packages@[j].name_spec(),
            ))
    }

    /// An empty registry.
    pub fn new() -> (r: Registry)
        ensures
            r.wf(),
            r.packages@.len() == 0,
    {
        let r = Registry { packages: Vec::new(), graph: OrderedDependencyGraph::new() };
        proof {
            assert forall|i: int, j: int|
                #[trigger] r.graph.edges_spec().contains((i, j)) <==> (0 <= i < r.packages@.len()
                    && 0 <= j < r.packages@.len() && i != j && declares(
                    r.packages@[i].doc_spec(),
                    r.packages@[j].name_spec(),
                )) by {
                assert(!r.graph.edges_spec().contains((i, j)));
            }
        }
        r
    }

    /// The index of the registered package rooted at `path`, if any.
    fn find_index(&self, path: &str) -> (r: Option<usize>)
        ensures
            match r {
                Some(i) => (i as int) < self.packages@.len() && self.packages@[i as int].path_spec()
                    == path@,
                None => forall|i: int|
                    0 <= i < self.packages@.len() ==> (#[trigger] self.packages@[i]).path_spec()
                        != path@,
            },
    {
        let mut i: usize = 0;
        while i < self.packages.len()
            invariant
                i <= self.packages@.len(),
                forall|j: int|
                    0 <= j < i ==> (#[trigger] self.packages@[j]).path_spec() != path@,
            decreases self.packages@.len() - i,
        {
            let p = self.packages[i].get_path();
            if crate::util::str_eq(p.as_str(), path) {
                return Some(i);
            }
            i = i + 1;
        }
        None
    }

    /// Registers a package: tests it against every already registered
    /// package in both directions and records the edges that hold, then
    /// takes ownership.  The package set is keyed by root path: a root
    /// registered before has its entry replaced, with the edges in both
    /// directions recomputed against the new manifest.
    #[verifier::loop_isolation(false)]
    #[verifier::rlimit(80)]
    pub fn add(&mut self, package: Typescript)
        requires
            old(self).wf(),
            package.wf(),
        ensures
            final(self).wf(),
            (forall|i: int|
                0 <= i < old(self).packages@.len() ==> (#[trigger] old(
                    self,
                ).packages@[i]).path_spec() != package.path_spec()) ==> final(self).packages@
                == old(self).packages@.push(package),
            forall|i: int|
                (0 <= i < old(self).packages@.len() && (#[trigger] old(
                    self,
                ).packages@[i]).path_spec() == package.path_spec()) ==> final(self).packages@
                    == old(self).packages@.update(i, package),
    {
        let path = package.get_path();
        match self.find_index(path.as_str()) {
            Some(existing) => {
                self.replace_at(existing, package);
                return ;
            },
            None => {},
        }
        let new_id = self.graph.add_node();
        let n = self.packages.len();
        let name_new = package.get_name();
        let mut j: usize = 0;
        while j < n
            invariant
                self.packages@ == old(self).packages@,
                self.graph.wf(),
                self.graph.node_count_spec() == n + 1,
                new_id == n,
                j <= n,
                forall|a: int, b: int|
                    #[trigger] self.graph.edges_spec().contains((a, b)) <==> (old(
                        self,
                    ).graph.edges_spec().contains((a, b)) || (a == n as int && 0 <= b < j
                        && declares(package.doc_spec(), self.packages@[b].name_spec())) || (b
                        == n as int && 0 <= a < j && declares(
                        self.packages@[a].doc_spec(),
                        package.name_spec(),
                    ))),
            decreases n - j,
        {
            let other_name = self.packages[j].get_name();
            if package.depends_on(other_name.as_str()) {
                self.graph.register_dependency(new_id, j);
            }
            let dep_back = {
                let other = &self.packages[j];
                other.depends_on(name_new.as_str())
            };
            if dep_back {
                self.graph.register_dependency(j, new_id);
            }
            j = j + 1;
        }
        self.packages.push(package);
        proof {
            assert forall|i: int, j2: int|
                #[trigger] self.graph.edges_spec().contains((i, j2)) <==> (0 <= i
                    < self.packages@.len() && 0 <= j2 < self.packages@.len() && i != j2
                    && declares(
                    self.packages@[i].doc_spec(),
                    self.packages@[j2].name_spec(),
                )) by {
                if old(self).graph.edges_spec().contains((i, j2)) {
                    assert(0 <= i < n as int && 0 <= j2 < n as int);
                    assert(self.packages@[i] == old(self).packages@[i]);
                    assert(self.packages@[j2] == old(self).packages@[j2]);
                }
                if 0 <= i < n as int && 0 <= j2 < n as int && i != j2 && declares(
                    self.packages@[i].doc_spec(),
                    self.packages@[j2].name_spec(),
                ) {
                    assert(old(self).graph.edges_spec().contains((i, j2)));
                }
            }
        }
    }

    /// Replaces the package registered at index `existing` — the one
    /// sharing the new package's root path — recomputing every edge that
    /// touches it against the new manifest, in both directions.
    #[verifier::loop_isolation(false)]
    #[verifier::rlimit(80)]
    fn replace_at(&mut self, existing: usize, package: Typescript)
        requires
            old(self).wf(),
            package.wf(),
            (existing as int) < old(self).packages@.len(),
            old(self).packages@[existing as int].path_spec() == package.path_spec(),
        ensures
            final(self).wf(),
            final(self).packages@ == old(self).packages@.update(existing as int, package),
    {
        self.graph.unregister_node_edges(existing);
        let n = self.packages.len();
        let ghost ei = existing as int;
        let name_new = package.get_name();
        let mut j: usize = 0;
        while j < n
            invariant
                self.packages@ == old(self).packages@,
                self.graph.wf(),
                self.graph.node_count_spec() == n as nat,
                (existing as int) < n,
                j <= n,
                name_new@ == package.name_spec(),
                forall|a: int, b: int|
                    #[trigger] self.graph.edges_spec().contains((a, b)) <==> ((old(
                        self,
                    ).graph.edges_spec().contains((a, b)) && a != ei && b != ei) || (a == ei && 0
                        <= b < j && b != ei && declares(
                        package.doc_spec(),
                        self.packages@[b].name_spec(),
                    )) || (b == ei && 0 <= a < j && a != ei && declares(
                        self.packages@[a].doc_spec(),
                        package.name_spec(),
                    ))),
            decreases n - j,
        {
            if j != existing {
                let other_name = self.packages[j].get_name();
                if package.depends_on(other_name.as_str()) {
                    self.graph.register_dependency(existing, j);
                }
                let dep_back = {
                    let other = &self.packages[j];
                    other.depends_on(name_new.as_str())
                };
                if dep_back {
                    self.graph.register_dependency(j, existing);
                }
            }
            j = j + 1;
        }
        self.packages[existing] = package;
        proof {
            assert(self.packages@ == old(self).packages@.update(ei, package));
            assert forall|i2: int, j2: int|
                0 <= i2 < j2 < self.packages@.len() implies (#[trigger] self.packages@[i2]).path_spec()
                != (#[trigger] self.packages@[j2]).path_spec() by {
                assert(old(self).packages@[i2].path_spec() != old(self).packages@[j2].path_spec());
            }
            assert forall|a: int, b: int|
                #[trigger] self.graph.edges_spec().contains((a, b)) <==> (0 <= a
                    < self.packages@.len() && 0 <= b < self.packages@.len() && a != b && declares(
                    self.packages@[a].doc_spec(),
                    self.packages@[b].name_spec(),
                )) by {
                if a != ei && b != ei {
                    if old(self).graph.edges_spec().contains((a, b)) {
                        assert(0 <= a < n as int && 0 <= b < n as int);
                    }
                    if 0 <= a < n as int && 0 <= b < n as int {
                        assert(self.packages@[a] == old(self).packages@[a]);
                        assert(self.packages@[b] == old(self).packages@[b]);
                    }
                } else {
                    if 0 <= a < n as int && 0 <= b < n as int && a != b {
                        if a == ei {
                            assert(self.packages@[a] == package);
                            assert(self.packages@[b] == old(self).packages@[b]);
                        } else {
                            assert(self.packages@[b] == package);
                            assert(self.packages@[a] == old(self).packages@[a]);
                        }
                    }
                }
            }
        }
    }

    /// The effect that copies a produced archive into the target's local
    /// cache, so the rewritten manifest entry stays valid independent of
    /// the staging root.
    fn copy_tarball(dependency: &Bundle, target_path: &str) -> (e: Effect)
        ensures
            e@ == (EffectData::CopyArchive {
                from: tarball_file_spec(dependency.name_spec()),
                to: target_path@ + "/"@ + local_bundle_file_spec(dependency.name_spec()),
            }),
    {
        let from = dependency.get_tarball_file();
        let local = dependency.get_local_bundle_file();
        let to = crate::util::join3(target_path, "/", local.as_str());
        Effect::CopyArchive { from, to }
    }

    /// One traversal of the target's dependency closure, leaves first:
    /// each dependency receives the rewrites of those processed before
    /// it, is built (or bundled and copied), and is written into the
    /// target's manifest.  The target itself is not built here.
    #[verifier::loop_isolation(false)]
    #[verifier::rlimit(100)]
    pub fn for_each_dependency(&mut self, path: &str, bundled: bool) -> (r: Result<
        Vec<Effect>,
        LpmError,
    >)
        requires
            old(self).wf(),
        ensures
            final(self).wf(),
            final(self).graph == old(self).graph,
            match r {
                Ok(effects) => traversal_post(
                    old(self).packages@,
                    final(self).packages@,
                    old(self).graph.node_count_spec(),
                    old(self).graph.edges_spec(),
                    path@,
                    bundled,
                    effects.deep_view(),
                ),
                Err(e) => {
                    &&& e is Graph
                    &&& *final(self) == *old(self)
                    &&& (!has_path(old(self).packages@, path@) || (exists|t_i: int, c: Seq<int>|
                        0 <= t_i < old(self).packages@.len() && old(
                            self,
                        ).packages@[t_i].path_spec() == path@ && #[trigger] cycle_reachable_from(
                            old(self).graph.node_count_spec(),
                            old(self).graph.edges_spec(),
                            t_i,
                            c,
                        )))
                },
            },
    {
        let t = match self.find_index(path) {
            Some(t) => t,
            None => {
                return Err(
                    LpmError::Graph("the path is not a registered package".to_owned()),
                );
            },
        };
        let order = match self.graph.dependencies_of(t) {
            Ok(order) => order,
            Err(e) => {
                return Err(e);
            },
        };
        let ghost pkgs0 = self.packages@;
        let ghost edges0 = self.graph.edges_spec();
        let ghost count0 = self.graph.node_count_spec();
        let mut effects: Vec<Effect> = Vec::new();
        let mut k: usize = 0;
        while k < order.len()
            invariant
                self.wf(),
                self.graph == old(self).graph,
                order_ok(count0, edges0, t, order@),
                (t as int) < pkgs0.len(),
                k <= order@.len(),
                self.packages@.len() == pkgs0.len(),
                forall|i: int|
                    0 <= i < pkgs0.len() ==> ((#[trigger] self.packages@[i]).name_spec()
                        == pkgs0[i].name_spec() && self.packages@[i].path_spec()
                        == pkgs0[i].path_spec()),
                forall|kk: int|
                    0 <= kk < k ==> (#[trigger] self.packages@[order@[kk] as int]).doc_spec()
                        == replay_doc(
                        pkgs0[order@[kk] as int].doc_spec(),
                        pkgs0,
                        order@,
                        kk,
                        bundled,
                    ),
                forall|kk: int|
                    k <= kk < order@.len() ==> (#[trigger] self.packages@[order@[kk] as int]).doc_spec()
                        == pkgs0[order@[kk] as int].doc_spec(),
                self.packages@[t as int].doc_spec() == replay_doc(
                    pkgs0[t as int].doc_spec(),
                    pkgs0,
                    order@,
                    k as int,
                    bundled,
                ),
                forall|i: int|
                    0 <= i < pkgs0.len() && i != t as int && !order@.contains(i as usize) ==> (
                    #[trigger] self.packages@[i]).doc_spec() == pkgs0[i].doc_spec(),
                effects.deep_view() == run_effects(pkgs0, t as int, order@, k as int, bundled),
            decreases order@.len() - k,
        {
            let d = order[k];
            proof {
                assert(order@[k as int] == d);
                assert((d as int) < pkgs0.len());
                assert(!order@.contains(t));
                assert(order@.contains(d));
                assert(d != t);
            }
            let ghost doc_d0 = pkgs0[d as int].doc_spec();
            let ghost step_base = effects.deep_view();
            // replay every package processed earlier in this traversal
            let mut j: usize = 0;
            while j < k
                invariant
                    self.wf(),
                    self.graph == old(self).graph,
                    order_ok(count0, edges0, t, order@),
                    (t as int) < pkgs0.len(),
                    j <= k < order@.len(),
                    order@[k as int] == d,
                    (d as int) < pkgs0.len(),
                    d != t,
                    self.packages@.len() == pkgs0.len(),
                    forall|i: int|
                        0 <= i < pkgs0.len() ==> ((#[trigger] self.packages@[i]).name_spec()
                            == pkgs0[i].name_spec() && self.packages@[i].path_spec()
                            == pkgs0[i].path_spec()),
                    forall|kk: int|
                        0 <= kk < k ==> (#[trigger] self.packages@[order@[kk] as int]).doc_spec()
                            == replay_doc(
                            pkgs0[order@[kk] as int].doc_spec(),
                            pkgs0,
                            order@,
                            kk,
                            bundled,
                        ),
                    self.packages@[d as int].doc_spec() == replay_doc(
                        doc_d0,
                        pkgs0,
                        order@,
                        j as int,
                        bundled,
                    ),
                    forall|kk: int|
                        k < kk < order@.len() ==> (#[trigger] self.packages@[order@[kk] as int]).doc_spec()
                            == pkgs0[order@[kk] as int].doc_spec(),
                    self.packages@[t as int].doc_spec() == replay_doc(
                        pkgs0[t as int].doc_spec(),
                        pkgs0,
                        order@,
                        k as int,
                        bundled,
                    ),
                    forall|i: int|
                        0 <= i < pkgs0.len() && i != t as int && !order@.contains(i as usize)
                            ==> (#[trigger] self.packages@[i]).doc_spec() == pkgs0[i].doc_spec(),
                    doc_d0 == pkgs0[d as int].doc_spec(),
                    effects.deep_view() == step_base + replay_effects(
                        pkgs0,
                        doc_d0,
                        d as int,
                        order@,
                        j as int,
                        bundled,
                    ),
                    step_base == run_effects(pkgs0, t as int, order@, k as int, bundled),
                decreases k - j,
            {
                let p = order[j];
                proof {
                    assert(order@[j as int] == p);
                    assert((p as int) < pkgs0.len());
                    assert(p != d);
                }
                let source = self.packages[p].duplicate();
                let (dep_name, dep_value) = if bundled {
                    let b = Bundle::new(source);
                    proof {
                        b.lemma_bundle_specs();
                    }
                    (b.get_name(), b.get_version_value())
                } else {
                    proof {
                        source.lemma_source_specs();
                    }
                    (source.get_name(), source.get_version_value())
                };
                proof {
                    assert(dep_name@ == pkgs0[p as int].name_spec());
                    assert(dep_value@ == mode_value(pkgs0, p as int, bundled));
                    lemma_replay_declares(doc_d0, pkgs0, order@, j as int, bundled, dep_name@);
                }
                let dep_pkg = &mut self.packages[d];
                let ghost effs_pre = effects.deep_view();
                let (changed, eff) = dep_pkg.update(dep_name.as_str(), dep_value.as_str());
                match eff {
                    Some(e) => {
                        proof {
                            assert(e@ == write_eff(
                                pkgs0,
                                d as int,
                                replay_doc(doc_d0, pkgs0, order@, j + 1, bundled),
                            ));
                        }
                        effects.push(e);
                        proof {
                            assert(effects.deep_view() =~= effs_pre.push(e@));
                        }
                    },
                    None => {},
                }
                proof {
                    assert(self.packages@[d as int].doc_spec() == replay_doc(
                        doc_d0,
                        pkgs0,
                        order@,
                        j + 1,
                        bundled,
                    ));
                    assert(replay_effects(pkgs0, doc_d0, d as int, order@, j + 1, bundled)
                        == replay_effects(pkgs0, doc_d0, d as int, order@, j as int, bundled)
                        + (if declares(doc_d0, pkgs0[order@[j as int] as int].name_spec()) {
                        seq![
                            write_eff(
                                pkgs0,
                                d as int,
                                replay_doc(doc_d0, pkgs0, order@, j + 1, bundled),
                            ),
                        ]
                    } else {
                        Seq::empty()
                    }));
                    assert(effects.deep_view() =~= step_base + replay_effects(
                        pkgs0,
                        doc_d0,
                        d as int,
                        order@,
                        j + 1,
                        bundled,
                    ));
                    assert forall|i: int, j2: int|
                        #[trigger] self.graph.edges_spec().contains((i, j2)) <==> (0 <= i
                            < self.packages@.len() && 0 <= j2 < self.packages@.len() && i != j2
                            && declares(
                            self.packages@[i].doc_spec(),
                            self.packages@[j2].name_spec(),
                        )) by {
                        lemma_set_dep_dep_string(
                            replay_doc(doc_d0, pkgs0, order@, j as int, bundled),
                            dep_name@,
                            dep_value@,
                            self.packages@[j2].name_spec(),
                        );
                    }
                }
                j = j + 1;
            }
            // build the dependency (or produce and place its archive)
            let ghost replays = replay_effects(pkgs0, doc_d0, d as int, order@, k as int, bundled);
            let ghost prep_seq: Seq<EffectData> = if bundled {
                seq![make_archive_eff(pkgs0, d as int), copy_eff(pkgs0, d as int, t as int)]
            } else {
                seq![build_eff(pkgs0, d as int)]
            };
            let ghost effs_at_prep = effects.deep_view();
            if bundled {
                let b = Bundle::new(self.packages[d].duplicate());
                proof {
                    b.lemma_bundle_specs();
                }
                effects.push(b.prepare());
                let target_path = self.packages[t].get_path();
                effects.push(Registry::copy_tarball(&b, target_path.as_str()));
                proof {
                    assert(effects.deep_view() =~= effs_at_prep + prep_seq);
                }
            } else {
                let e = {
                    let dep_pkg = &self.packages[d];
                    proof {
                        dep_pkg.lemma_source_specs();
                    }
                    dep_pkg.prepare()
                };
                effects.push(e);
                proof {
                    assert(effects.deep_view() =~= effs_at_prep + prep_seq);
                }
            }
            // rewrite the target's manifest entry for this dependency
            let source = self.packages[d].duplicate();
            let (dep_name, dep_value) = if bundled {
                let b = Bundle::new(source);
                proof {
                    b.lemma_bundle_specs();
                }
                (b.get_name(), b.get_version_value())
            } else {
                proof {
                    source.lemma_source_specs();
                }
                (source.get_name(), source.get_version_value())
            };
            proof {
                assert(dep_name@ == pkgs0[d as int].name_spec());
                assert(dep_value@ == mode_value(pkgs0, d as int, bundled));
                lemma_replay_declares(
                    pkgs0[t as int].doc_spec(),
                    pkgs0,
                    order@,
                    k as int,
                    bundled,
                    dep_name@,
                );
            }
            let target_pkg = &mut self.packages[t];
            let ghost effs_pre_w = effects.deep_view();
            let (changed, eff) = target_pkg.update(dep_name.as_str(), dep_value.as_str());
            match eff {
                Some(e) => {
                    proof {
                        assert(e@ == write_eff(
                            pkgs0,
                            t as int,
                            replay_doc(pkgs0[t as int].doc_spec(), pkgs0, order@, k + 1, bundled),
                        ));
                    }
                    effects.push(e);
                    proof {
                        assert(effects.deep_view() =~= effs_pre_w.push(e@));
                    }
                },
                None => {},
            }
            proof {
                let ghost write_part: Seq<EffectData> = if declares(
                    pkgs0[t as int].doc_spec(),
                    pkgs0[d as int].name_spec(),
                ) {
                    seq![
                        write_eff(
                            pkgs0,
                            t as int,
                            replay_doc(pkgs0[t as int].doc_spec(), pkgs0, order@, k + 1, bundled),
                        ),
                    ]
                } else {
                    Seq::empty()
                };
                assert(step_effects(pkgs0, t as int, order@, k as int, bundled) == replays
                    + prep_seq + write_part);
                assert(run_effects(pkgs0, t as int, order@, k + 1, bundled) == run_effects(
                    pkgs0,
                    t as int,
                    order@,
                    k as int,
                    bundled,
                ) + step_effects(pkgs0, t as int, order@, k as int, bundled));
                assert(self.packages@[t as int].doc_spec() == replay_doc(
                    pkgs0[t as int].doc_spec(),
                    pkgs0,
                    order@,
                    k + 1,
                    bundled,
                ));
                assert forall|i: int, j2: int|
                    #[trigger] self.graph.edges_spec().contains((i, j2)) <==> (0 <= i
                        < self.packages@.len() && 0 <= j2 < self.packages@.len() && i != j2
                        && declares(
                        self.packages@[i].doc_spec(),
                        self.packages@[j2].name_spec(),
                    )) by {
                    lemma_set_dep_dep_string(
                        replay_doc(pkgs0[t as int].doc_spec(), pkgs0, order@, k as int, bundled),
                        dep_name@,
                        dep_value@,
                        self.packages@[j2].name_spec(),
                    );
                }
                assert(effects.deep_view() =~= run_effects(
                    pkgs0,
                    t as int,
                    order@,
                    k + 1,
                    bundled,
                ));
            }
            k = k + 1;
        }
        proof {
            assert(docs_replayed(pkgs0, self.packages@, order@, t as int, bundled));
            assert(order_ok(count0, edges0, t, order@));
            assert(effects.deep_view() == run_effects(
                pkgs0,
                t as int,
                order@,
                order@.len() as int,
                bundled,
            ));
            assert(traversal_post(
                pkgs0,
                self.packages@,
                count0,
                edges0,
                path@,
                bundled,
                effects.deep_view(),
            ));
        }
        Ok(effects)
    }

    /// Rewrites and rebuilds the target's whole dependency closure,
    /// leaves first, then builds the target itself.
    pub fn update_dependencies(&mut self, path: &str) -> (r: Result<Vec<Effect>, LpmError>)
        requires
            old(self).wf(),
        ensures
            final(self).wf(),
            match r {
                Ok(effects) => {
                    &&& effects.deep_view().len() >= 1
                    &&& effects.deep_view().last() == (EffectData::Build { path: path@ })
                    &&& traversal_post(
                        old(self).packages@,
                        final(self).packages@,
                        old(self).graph.node_count_spec(),
                        old(self).graph.edges_spec(),
                        path@,
                        false,
                        effects.deep_view().drop_last(),
                    )
                },
                Err(e) => {
                    &&& e is Graph
                    &&& *final(self) == *old(self)
                    &&& (!has_path(old(self).packages@, path@) || (exists|t_i: int, c: Seq<int>|
                        0 <= t_i < old(self).packages@.len() && old(
                            self,
                        ).packages@[t_i].path_spec() == path@ && #[trigger] cycle_reachable_from(
                            old(self).graph.node_count_spec(),
                            old(self).graph.edges_spec(),
                            t_i,
                            c,
                        )))
                },
            },
    {
        let mut effects = self.for_each_dependency(path, false)?;
        let ghost before = effects.deep_view();
        effects.push(Effect::Build { path: path.to_owned() });
        proof {
            assert(effects.deep_view().drop_last() =~= before);
        }
        Ok(effects)
    }

    /// Rewrites and rebuilds the closure as `update_dependencies` does,
    /// except each dependency is bundled: its archive is produced, copied
    /// into the target's local cache, and the target's manifest entry is
    /// rewritten to that copy.  The target itself is then built plain.
    pub fn bundle_dependencies(&mut self, path: &str) -> (r: Result<Vec<Effect>, LpmError>)
        requires
            old(self).wf(),
        ensures
            final(self).wf(),
            match r {
                Ok(effects) => {
                    &&& effects.deep_view().len() >= 1
                    &&& effects.deep_view().last() == (EffectData::Build { path: path@ })
                    &&& traversal_post(
                        old(self).packages@,
                        final(self).packages@,
                        old(self).graph.node_count_spec(),
                        old(self).graph.edges_spec(),
                        path@,
                        true,
                        effects.deep_view().drop_last(),
                    )
                },
                Err(e) => {
                    &&& e is Graph
                    &&& *final(self) == *old(self)
                    &&& (!has_path(old(self).packages@, path@) || (exists|t_i: int, c: Seq<int>|
                        0 <= t_i < old(self).packages@.len() && old(
                            self,
                        ).packages@[t_i].path_spec() == path@ && #[trigger] cycle_reachable_from(
                            old(self).graph.node_count_spec(),
                            old(self).graph.edges_spec(),
                            t_i,
                            c,
                        )))
                },
            },
    {
        let mut effects = self.for_each_dependency(path, true)?;
        let ghost before = effects.deep_view();
        effects.push(Effect::Build { path: path.to_owned() });
        proof {
            assert(effects.deep_view().drop_last() =~= before);
        }
        Ok(effects)
    }
}

/// The effects of resetting: for each of the first `upto` packages that
/// directly declares `name`, the write of its rewritten manifest and its
/// rebuild, in registration order.
pub open spec fn reset_effects(
    pkgs: Seq<Typescript>,
    name: Seq<char>,
    version: Seq<char>,
    upto: int,
) -> Seq<EffectData>
    decreases upto,
{
    if upto <= 0 {
        Seq::empty()
    } else {
        reset_effects(pkgs, name, version, upto - 1) + if declares(
            pkgs[upto - 1].doc_spec(),
            name,
        ) {
            seq![
                write_eff(pkgs, upto - 1, set_dep(pkgs[upto - 1].doc_spec(), name, version)),
                build_eff(pkgs, upto - 1),
            ]
        } else {
            Seq::empty()
        }
    }
}

/// Whether a reset can resolve a version at all: always with an explicit
/// version, else exactly when a registry lookup response is at hand and
/// names one.
pub open spec fn reset_resolves(version: Option<String>, registry_response: Option<&str>) -> bool {
    match version {
        Some(_) => true,
        None => match registry_response {
            Some(b) => npm_resolved(b@) is Some,
            None => false,
        },
    }
}

/// The version a reset resolves to: the explicit version when one is
/// given, else what the registry lookup response names.
pub open spec fn reset_version_spec(
    version: Option<String>,
    registry_response: Option<&str>,
) -> Seq<char> {
    match version {
        Some(v) => v@,
        None => match registry_response {
            Some(b) => match npm_resolved(b@) {
                Some(v) => v,
                None => Seq::empty(),
            },
            None => Seq::empty(),
        },
    }
}

impl Registry {
    /// Rewrites the entry for the package rooted at `dependency_path`,
    /// in every directly depending package's manifest, to a resolved
    /// published version, and rebuilds each such package.  Intentionally
    /// not transitive: a package two hops away is untouched — exactly
    /// those packages whose manifests directly declare the dependency
    /// are rewritten, every one of them to the same resolved version.
    ///
    /// The version is the explicit one when given; otherwise it is
    /// resolved out of the registry lookup response fetched by the
    /// runner, and a missing or unusable response is a network error.
    #[verifier::loop_isolation(false)]
    #[verifier::rlimit(50)]
    pub fn reset_dependency(
        &mut self,
        dependency_path: &str,
        version: Option<String>,
        registry_response: Option<&str>,
    ) -> (r: Result<Vec<Effect>, LpmError>)
        requires
            old(self).wf(),
        ensures
            final(self).wf(),
            match r {
                Ok(effects) => reset_resolves(version, registry_response) && exists|dep: int|
                    {
                        &&& 0 <= dep < old(self).packages@.len()
                        &&& (#[trigger] old(self).packages@[dep]).path_spec()
                            == dependency_path@
                        &&& final(self).packages@.len() == old(self).packages@.len()
                        &&& (forall|i: int|
                            0 <= i < old(self).packages@.len() ==> {
                                let name = old(self).packages@[dep].name_spec();
                                let v = reset_version_spec(version, registry_response);
                                &&& (#[trigger] final(self).packages@[i]).name_spec() == old(
                                    self,
                                ).packages@[i].name_spec()
                                &&& final(self).packages@[i].path_spec() == old(
                                    self,
                                ).packages@[i].path_spec()
                                &&& final(self).packages@[i].doc_spec() == set_dep(
                                    old(self).packages@[i].doc_spec(),
                                    name,
                                    v,
                                )
                            })
                        &&& effects.deep_view() == reset_effects(
                            old(self).packages@,
                            old(self).packages@[dep].name_spec(),
                            reset_version_spec(version, registry_response),
                            old(self).packages@.len() as int,
                        )
                    },
                Err(e) => {
                    &&& *final(self) == *old(self)
                    &&& (e is Graph || e is Network)
                    &&& ((e is Graph) <==> !has_path(old(self).packages@, dependency_path@))
                    &&& ((e is Network) <==> (has_path(old(self).packages@, dependency_path@)
                        && !reset_resolves(version, registry_response)))
                },
            },
    {
        let dep = match self.find_index(dependency_path) {
            Some(dep) => dep,
            None => {
                return Err(
                    LpmError::Graph("the path is not a registered package".to_owned()),
                );
            },
        };
        let resolved: String = match version {
            Some(v) => v,
            None => match registry_response {
                Some(body) => match Npm::get_latest_version_value(body) {
                    Ok(v) => v,
                    Err(e) => {
                        return Err(e);
                    },
                },
                None => {
                    return Err(
                        LpmError::Network("no registry lookup response was given".to_owned()),
                    );
                },
            },
        };
        let dep_name = self.packages[dep].get_name();
        let ghost pkgs0 = self.packages@;
        let ghost name_g = dep_name@;
        let ghost v_g = resolved@;
        let mut effects: Vec<Effect> = Vec::new();
        let n = self.packages.len();
        let mut i: usize = 0;
        while i < n
            invariant
                self.wf(),
                self.graph == old(self).graph,
                i <= n,
                n as nat == pkgs0.len(),
                (dep as int) < pkgs0.len(),
                self.packages@.len() == pkgs0.len(),
                name_g == pkgs0[dep as int].name_spec(),
                v_g == resolved@,
                name_g == dep_name@,
                forall|k: int|
                    0 <= k < pkgs0.len() ==> ((#[trigger] self.packages@[k]).name_spec()
                        == pkgs0[k].name_spec() && self.packages@[k].path_spec()
                        == pkgs0[k].path_spec()),
                forall|k: int|
                    0 <= k < i ==> (#[trigger] self.packages@[k]).doc_spec() == set_dep(
                        pkgs0[k].doc_spec(),
                        name_g,
                        v_g,
                    ),
                forall|k: int|
                    i <= k < pkgs0.len() ==> (#[trigger] self.packages@[k]).doc_spec()
                        == pkgs0[k].doc_spec(),
                effects.deep_view() == reset_effects(pkgs0, name_g, v_g, i as int),
            decreases n - i,
        {
            let ghost effs_pre = effects.deep_view();
            let pkg = &mut self.packages[i];
            let (changed, eff) = pkg.update(dep_name.as_str(), resolved.as_str());
            match eff {
                Some(e) => {
                    proof {
                        assert(e@ == write_eff(
                            pkgs0,
                            i as int,
                            set_dep(pkgs0[i as int].doc_spec(), name_g, v_g),
                        ));
                    }
                    effects.push(e);
                    let built = {
                        let p = &self.packages[i];
                        proof {
                            p.lemma_source_specs();
                        }
                        p.prepare()
                    };
                    effects.push(built);
                    proof {
                        assert(effects.deep_view() =~= effs_pre + seq![
                            write_eff(
                                pkgs0,
                                i as int,
                                set_dep(pkgs0[i as int].doc_spec(), name_g, v_g),
                            ),
                            build_eff(pkgs0, i as int),
                        ]);
                    }
                },
                None => {},
            }
            proof {
                assert(effects.deep_view() =~= reset_effects(pkgs0, name_g, v_g, i + 1));
                assert forall|a: int, b: int|
                    #[trigger] self.graph.edges_spec().contains((a, b)) <==> (0 <= a
                        < self.packages@.len() && 0 <= b < self.packages@.len() && a != b
                        && declares(
                        self.packages@[a].doc_spec(),
                        self.packages@[b].name_spec(),
                    )) by {
                    lemma_set_dep_dep_string(
                        pkgs0[i as int].doc_spec(),
                        name_g,
                        v_g,
                        self.packages@[b].name_spec(),
                    );
                }
            }
            i = i + 1;
        }
        Ok(effects)
    }
}

/// Law: a reset touches only packages whose manifests directly declare
/// the dependency's name.  Any other package — one two hops away among
/// them — keeps its document exactly as it was: the rewrite every reset
/// applies is the identity on a manifest without that declared entry.
pub proof fn lemma_reset_only_direct(d: JsonData, name: Seq<char>, version: Seq<char>)
    requires
        !declares(d, name),
    ensures
        set_dep(d, name, version) == d,
{
}

/// Law: after any sequence of registrations, in either order, the graph
/// holds the edge `i -> j` exactly when package `i`'s manifest declares
/// a dependency named exactly like package `j`'s name — and the reverse
/// edge only when package `j` separately declares package `i`.
pub proof fn lemma_registration_edges(r: &Registry, i: int, j: int)
    requires
        r.wf(),
    ensures
        r.graph.edges_spec().contains((i, j)) <==> (0 <= i < r.packages@.len() && 0 <= j
            < r.packages@.len() && i != j && declares(
            r.packages@[i].doc_spec(),
            r.packages@[j].name_spec(),
        )),
{
}

} // verus!
