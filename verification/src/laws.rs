//! The guarantees the update protocol gives, each proved over the run model
//! in `crate::model`.
//!
//! Every law quantifies over an arbitrary initial store and arbitrary
//! inputs. Where a law needs the codec to be unambiguous it asks for
//! `deps_wf` — declared names non-empty and declared versions free of `:` —
//! and where one speaks of the package's own record it excludes a package
//! that declares itself as a dependency, since such a self-edge changes
//! which dependencies count as tracked between two runs.

use vstd::prelude::*;
use crate::keys::{
    KeyV,
    decode_key,
    encode_spec,
    is_fq_key,
    key_of_parts,
    lemma_dep_fq_key,
    lemma_fq_key_injective,
    spec_build_system,
};
use crate::manifest::DepV;
use crate::model::{
    all_fq,
    cascade,
    dep_fq,
    dep_key,
    deps_wf,
    lemma_all_fq_stale,
    lemma_link_all_adds,
    lemma_link_all_frame,
    lemma_link_all_noop,
    lemma_link_all_other,
    lemma_link_all_same_tracked,
    lemma_no_tracked,
    lemma_remove_edges_frame,
    lemma_remove_edges_untouched,
    lemma_stale_contains,
    lemma_stale_none,
    lemma_untracked_not_in_tracked,
    link_all,
    old_consumers_of,
    old_deps_of,
    rebuild_of,
    remove_edges,
    run_update,
    stale_deps,
};
use crate::store::{
    RecordV,
    attr_contains,
    committed_record,
    dedup,
    lemma_dedup_contains,
};

verus! {

/// An untracked dependency is a no-op: updating a package that declares a
/// dependency with no record neither creates a record for that dependency
/// nor lets its key into the package's persisted dependency set.
pub proof fn lemma_untracked_dependency_is_noop(
    m0: Map<KeyV, RecordV>,
    name: Seq<char>,
    version: Seq<char>,
    bpn: Seq<char>,
    deps: Seq<DepV>,
    i: int,
)
    requires
        deps_wf(deps),
        0 <= i < deps.len(),
        deps[i].version is Some,
        !m0.contains_key(dep_key(deps[i])),
        dep_key(deps[i]) != key_of_parts(spec_build_system(), name, version),
    ensures
        ({
            let res = run_update(m0, name, version, bpn, deps);
            let key = key_of_parts(spec_build_system(), name, version);
            &&& !res.store.contains_key(dep_key(deps[i]))
            &&& res.store.contains_key(key)
            &&& !attr_contains(res.store[key].dependencies, dep_fq(deps[i]))
        }),
{
    let fq = encode_spec(spec_build_system(), name, version);
    let key = key_of_parts(spec_build_system(), name, version);
    let dk = dep_key(deps[i]);
    let dfq = dep_fq(deps[i]);
    lemma_link_all_frame(m0, fq, deps);
    let la = link_all(m0, fq, deps);
    lemma_dep_fq_key(deps[i].name, deps[i].version->0);
    lemma_untracked_not_in_tracked(m0, fq, deps, dk, dfq);
    lemma_dedup_contains(la.1, dfq);
    let prev1 = if la.0.contains_key(key) {
        Some(la.0[key])
    } else {
        None
    };
    let m1 = la.0.insert(key, committed_record(prev1, bpn, la.1));
    let stale = stale_deps(old_deps_of(la.0, key), la.1);
    if all_fq(stale) {
        lemma_remove_edges_frame(m1, fq, stale);
    }
}

/// A tracked dependency edge is bidirectional after one run: the dependency
/// record lists the updated package as a consumer, and the package record
/// lists the dependency's key.
pub proof fn lemma_linked_edge_bidirectional(
    m0: Map<KeyV, RecordV>,
    name: Seq<char>,
    version: Seq<char>,
    bpn: Seq<char>,
    deps: Seq<DepV>,
    i: int,
)
    requires
        deps_wf(deps),
        0 <= i < deps.len(),
        deps[i].version is Some,
        m0.contains_key(dep_key(deps[i])),
        dep_key(deps[i]) != key_of_parts(spec_build_system(), name, version),
    ensures
        ({
            let res = run_update(m0, name, version, bpn, deps);
            let key = key_of_parts(spec_build_system(), name, version);
            let dk = dep_key(deps[i]);
            &&& res.store.contains_key(dk)
            &&& attr_contains(res.store[dk].consumers, encode_spec(spec_build_system(), name, version))
            &&& res.store.contains_key(key)
            &&& attr_contains(res.store[key].dependencies, dep_fq(deps[i]))
        }),
{
    let fq = encode_spec(spec_build_system(), name, version);
    let key = key_of_parts(spec_build_system(), name, version);
    let dk = dep_key(deps[i]);
    let dfq = dep_fq(deps[i]);
    lemma_link_all_frame(m0, fq, deps);
    lemma_link_all_adds(m0, fq, deps, i);
    let la = link_all(m0, fq, deps);
    lemma_dep_fq_key(deps[i].name, deps[i].version->0);
    lemma_dedup_contains(la.1, dfq);
    let prev1 = if la.0.contains_key(key) {
        Some(la.0[key])
    } else {
        None
    };
    let m1 = la.0.insert(key, committed_record(prev1, bpn, la.1));
    let pd = old_deps_of(la.0, key);
    let stale = stale_deps(pd, la.1);
    assert(la.1.len() > 0) by {
        let ix = choose|ix: int| 0 <= ix < la.1.len() && la.1[ix] == dfq;
    }
    if all_fq(stale) {
        lemma_remove_edges_frame(m1, fq, stale);
        assert forall|ix: int| 0 <= ix < stale.len() implies decode_key(#[trigger] stale[ix])
            != dk by {
            if decode_key(stale[ix]) == dk {
                lemma_fq_key_injective(stale[ix], dfq);
                assert(stale.contains(stale[ix]));
                lemma_stale_contains(pd, la.1, stale[ix]);
            }
        }
        lemma_remove_edges_untouched(m1, fq, stale, dk);
    }
}

/// An empty tracked set deletes the dependency attribute: when no declared
/// dependency is tracked, the package record ends the run with no
/// dependency set at all, not an empty one.
pub proof fn lemma_empty_dependency_set_deletes(
    m0: Map<KeyV, RecordV>,
    name: Seq<char>,
    version: Seq<char>,
    bpn: Seq<char>,
    deps: Seq<DepV>,
)
    requires
        forall|i: int|
            0 <= i < deps.len() ==> ((#[trigger] deps[i]).version is Some ==> !m0.contains_key(
                dep_key(deps[i]),
            )),
    ensures
        ({
            let res = run_update(m0, name, version, bpn, deps);
            let key = key_of_parts(spec_build_system(), name, version);
            &&& res.store.contains_key(key)
            &&& res.store[key].dependencies is None
        }),
{
    let fq = encode_spec(spec_build_system(), name, version);
    let key = key_of_parts(spec_build_system(), name, version);
    lemma_no_tracked(m0, fq, deps);
    lemma_link_all_frame(m0, fq, deps);
    let la = link_all(m0, fq, deps);
    let prev1 = if la.0.contains_key(key) {
        Some(la.0[key])
    } else {
        None
    };
    let m1 = la.0.insert(key, committed_record(prev1, bpn, la.1));
    let stale = stale_deps(old_deps_of(la.0, key), la.1);
    if all_fq(stale) {
        lemma_remove_edges_frame(m1, fq, stale);
    }
}

/// Idempotence: a second run with the same manifest and build-project
/// input, with no interference in between, leaves the store exactly as the
/// first run left it. A package that declares itself as a dependency is
/// excluded: its own first run creates the very record that would turn the
/// self-dependency tracked only the second time.
pub proof fn lemma_update_idempotent(
    m0: Map<KeyV, RecordV>,
    name: Seq<char>,
    version: Seq<char>,
    bpn: Seq<char>,
    deps: Seq<DepV>,
)
    requires
        deps_wf(deps),
        forall|i: int|
            0 <= i < deps.len() ==> ((#[trigger] deps[i]).version is Some ==> dep_key(deps[i])
                != key_of_parts(spec_build_system(), name, version)),
    ensures
        run_update(run_update(m0, name, version, bpn, deps).store, name, version, bpn, deps).store
            == run_update(m0, name, version, bpn, deps).store,
{
    let fq = encode_spec(spec_build_system(), name, version);
    let key = key_of_parts(spec_build_system(), name, version);
    let la1 = link_all(m0, fq, deps);
    lemma_link_all_frame(m0, fq, deps);
    lemma_link_all_other(m0, fq, deps, key);
    let prev1 = if la1.0.contains_key(key) {
        Some(la1.0[key])
    } else {
        None
    };
    let cr1 = committed_record(prev1, bpn, la1.1);
    let m1 = la1.0.insert(key, cr1);
    let pd1 = old_deps_of(la1.0, key);
    let stale1 = stale_deps(pd1, la1.1);
    let mm = run_update(m0, name, version, bpn, deps).store;
    if all_fq(stale1) {
        lemma_remove_edges_frame(m1, fq, stale1);
        assert(mm == remove_edges(m1, fq, stale1));
    } else {
        assert(mm == m1);
    }
    assert(mm.contains_key(key));
    assert(mm[key].dependencies == cr1.dependencies);
    assert(mm[key].build_project_name == Some(bpn));
    assert forall|k: KeyV| #[trigger] mm.contains_key(k) <==> (m0.contains_key(k)
        || k == key) by {
        assert(m1.contains_key(k) <==> la1.0.contains_key(k) || k == key);
        assert(la1.0.contains_key(k) <==> m0.contains_key(k));
    }
    assert forall|i: int|
        0 <= i < deps.len() && (#[trigger] deps[i]).version is Some && m0.contains_key(
            dep_key(deps[i]),
        ) implies attr_contains(mm[dep_key(deps[i])].consumers, fq) by {
        let dk = dep_key(deps[i]);
        lemma_link_all_adds(m0, fq, deps, i);
        assert(m1[dk] == la1.0[dk]);
        if all_fq(stale1) {
            lemma_dep_fq_key(deps[i].name, deps[i].version->0);
            assert forall|ix: int|
                0 <= ix < stale1.len() implies decode_key(#[trigger] stale1[ix]) != dk by {
                if decode_key(stale1[ix]) == dk {
                    lemma_fq_key_injective(stale1[ix], dep_fq(deps[i]));
                    assert(stale1.contains(stale1[ix]));
                    lemma_stale_contains(pd1, la1.1, stale1[ix]);
                }
            }
            lemma_remove_edges_untouched(m1, fq, stale1, dk);
        }
    }
    let la2 = link_all(mm, fq, deps);
    lemma_link_all_frame(mm, fq, deps);
    lemma_link_all_other(mm, fq, deps, key);
    assert forall|i: int|
        0 <= i < deps.len() implies ((#[trigger] deps[i]).version is Some ==> (mm.contains_key(
        dep_key(deps[i]),
    ) <==> m0.contains_key(dep_key(deps[i])))) by {
        if deps[i].version is Some {
            assert(dep_key(deps[i]) != key);
            assert(mm.contains_key(dep_key(deps[i])) <==> (m0.contains_key(dep_key(deps[i]))
                || dep_key(deps[i]) == key));
        }
    }
    lemma_link_all_same_tracked(mm, m0, fq, deps);
    assert(la2.1 == la1.1);
    assert forall|i: int|
        0 <= i < deps.len() implies (((#[trigger] deps[i]).version is Some && mm.contains_key(
        dep_key(deps[i]),
    )) ==> attr_contains(mm[dep_key(deps[i])].consumers, fq)) by {
        if deps[i].version is Some && mm.contains_key(dep_key(deps[i])) {
            assert(m0.contains_key(dep_key(deps[i])));
        }
    }
    lemma_link_all_noop(mm, fq, deps);
    assert(la2.0 == mm);
    let prev2 = if la2.0.contains_key(key) {
        Some(la2.0[key])
    } else {
        None
    };
    let cr2 = committed_record(prev2, bpn, la2.1);
    assert(prev2 == Some(mm[key]));
    assert(cr2 == mm[key]);
    let m1b = la2.0.insert(key, cr2);
    assert(m1b =~= mm);
    let pd2 = old_deps_of(la2.0, key);
    if la1.1.len() == 0 {
        assert(pd2 =~= Seq::<Seq<char>>::empty());
        assert(stale_deps(pd2, la2.1) =~= Seq::<Seq<char>>::empty());
    } else {
        assert(pd2 == dedup(la1.1));
        assert forall|x: int| 0 <= x < pd2.len() implies la2.1.contains(#[trigger] pd2[x]) by {
            assert(pd2.contains(pd2[x]));
            lemma_dedup_contains(la1.1, pd2[x]);
        }
        lemma_stale_none(pd2, la2.1);
    }
    let stale2 = stale_deps(pd2, la2.1);
    assert(stale2 =~= Seq::<Seq<char>>::empty());
    assert(all_fq(stale2));
    assert(remove_edges(m1b, fq, stale2) == m1b);
    assert(run_update(mm, name, version, bpn, deps).store == m1b);
    assert(m1b == mm);
}

/// Stale edges are cleaned up: a package that previously depended on two
/// tracked dependencies and now declares only the first loses its consumer
/// entry at the second, keeps it at the first, and persists exactly the
/// first as its dependency set.
pub proof fn lemma_stale_edge_cleanup(
    m0: Map<KeyV, RecordV>,
    name: Seq<char>,
    version: Seq<char>,
    bpn: Seq<char>,
    d1: DepV,
    kd2: KeyV,
    fqd2: Seq<char>,
)
    requires
        deps_wf(seq![d1]),
        d1.version is Some,
        m0.contains_key(dep_key(d1)),
        m0.contains_key(kd2),
        is_fq_key(fqd2),
        decode_key(fqd2) == kd2,
        fqd2 != dep_fq(d1),
        kd2 != dep_key(d1),
        kd2 != key_of_parts(spec_build_system(), name, version),
        dep_key(d1) != key_of_parts(spec_build_system(), name, version),
        m0.contains_key(key_of_parts(spec_build_system(), name, version)),
        m0[key_of_parts(spec_build_system(), name, version)].dependencies == Some(
            seq![dep_fq(d1), fqd2],
        ),
        attr_contains(m0[dep_key(d1)].consumers, encode_spec(spec_build_system(), name, version)),
        attr_contains(m0[kd2].consumers, encode_spec(spec_build_system(), name, version)),
        all_fq(old_consumers_of(m0, key_of_parts(spec_build_system(), name, version))),
    ensures
        ({
            let res = run_update(m0, name, version, bpn, seq![d1]);
            let key = key_of_parts(spec_build_system(), name, version);
            let fq = encode_spec(spec_build_system(), name, version);
            &&& res.ok
            &&& res.store.contains_key(kd2)
            &&& !attr_contains(res.store[kd2].consumers, fq)
            &&& res.store.contains_key(dep_key(d1))
            &&& attr_contains(res.store[dep_key(d1)].consumers, fq)
            &&& res.store[key].dependencies == Some(seq![dep_fq(d1)])
        }),
{
    let deps = seq![d1];
    let fq = encode_spec(spec_build_system(), name, version);
    let key = key_of_parts(spec_build_system(), name, version);
    let dk1 = dep_key(d1);
    assert(deps.drop_last() =~= Seq::<DepV>::empty());
    assert(deps.last() == d1);
    let la = link_all(m0, fq, deps);
    let lp = link_all(m0, fq, deps.drop_last());
    assert(lp.0 == m0);
    assert(lp.1 =~= Seq::<Seq<char>>::empty());
    assert(la.0 == m0.insert(dk1, crate::store::consumer_added(m0[dk1], fq)));
    assert(Seq::<Seq<char>>::empty().push(dep_fq(d1)) =~= seq![dep_fq(d1)]);
    assert(la.1 == seq![dep_fq(d1)]);
    crate::store::lemma_attr_add_facts(m0[dk1].consumers, fq);
    assert(la.0[key] == m0[key]);
    let pd = old_deps_of(la.0, key);
    assert(pd == seq![dep_fq(d1), fqd2]);
    assert(seq![dep_fq(d1)].contains(dep_fq(d1))) by {
        assert(seq![dep_fq(d1)][0] == dep_fq(d1));
    }
    assert(!seq![dep_fq(d1)].contains(fqd2)) by {
        if seq![dep_fq(d1)].contains(fqd2) {
            let ix = choose|ix: int|
                0 <= ix < seq![dep_fq(d1)].len() && seq![dep_fq(d1)][ix] == fqd2;
            assert(seq![dep_fq(d1)][0] == dep_fq(d1));
        }
    }
    assert(pd.drop_last() =~= seq![dep_fq(d1)]);
    assert(pd.last() == fqd2);
    assert(seq![dep_fq(d1)].drop_last() =~= Seq::<Seq<char>>::empty());
    assert(stale_deps(Seq::<Seq<char>>::empty(), la.1) =~= Seq::<Seq<char>>::empty());
    assert(stale_deps(seq![dep_fq(d1)], la.1) =~= Seq::<Seq<char>>::empty());
    let stale = stale_deps(pd, la.1);
    assert(stale =~= seq![fqd2]);
    assert(all_fq(stale)) by {
        assert forall|ix: int| 0 <= ix < stale.len() implies is_fq_key(#[trigger] stale[ix]) by {
            assert(stale[ix] == fqd2);
        }
    }
    let m1 = la.0.insert(key, committed_record(Some(la.0[key]), bpn, la.1));
    assert(seq![fqd2].drop_last() =~= Seq::<Seq<char>>::empty());
    assert(seq![fqd2].last() == fqd2);
    assert(remove_edges(m1, fq, Seq::<Seq<char>>::empty()) == m1);
    let m2 = remove_edges(m1, fq, stale);
    assert(m1.contains_key(kd2));
    assert(m1[kd2] == m0[kd2]);
    crate::store::lemma_attr_remove_facts(m1[kd2].consumers, fq);
    assert(m2 == m1.insert(kd2, crate::store::consumer_removed(m1[kd2], fq)));
    assert(dedup(Seq::<Seq<char>>::empty()) =~= Seq::<Seq<char>>::empty());
    assert(dedup(la.1) =~= seq![dep_fq(d1)]);
    assert(old_consumers_of(la.0, key) == old_consumers_of(m0, key));
}

/// The cascade is correct: a consumer whose own record still lists the
/// updated package among its dependencies, and which names a build project,
/// has exactly that project started, once.
pub proof fn lemma_cascade_triggers_consumer(
    m0: Map<KeyV, RecordV>,
    name: Seq<char>,
    version: Seq<char>,
    bpn: Seq<char>,
    deps: Seq<DepV>,
    cfq: Seq<char>,
    proj: Seq<char>,
)
    requires
        m0.contains_key(key_of_parts(spec_build_system(), name, version)),
        m0[key_of_parts(spec_build_system(), name, version)].consumers == Some(seq![cfq]),
        is_fq_key(cfq),
        decode_key(cfq) != key_of_parts(spec_build_system(), name, version),
        m0.contains_key(decode_key(cfq)),
        attr_contains(
            m0[decode_key(cfq)].dependencies,
            encode_spec(spec_build_system(), name, version),
        ),
        m0[decode_key(cfq)].build_project_name == Some(proj),
        all_fq(old_deps_of(m0, key_of_parts(spec_build_system(), name, version))),
        forall|i: int|
            0 <= i < deps.len() ==> ((#[trigger] deps[i]).version is Some ==> dep_key(deps[i])
                != key_of_parts(spec_build_system(), name, version)),
    ensures
        ({
            let res = run_update(m0, name, version, bpn, deps);
            &&& res.ok
            &&& res.triggers == seq![proj]
        }),
{
    let fq = encode_spec(spec_build_system(), name, version);
    let key = key_of_parts(spec_build_system(), name, version);
    let kc = decode_key(cfq);
    lemma_link_all_frame(m0, fq, deps);
    lemma_link_all_other(m0, fq, deps, key);
    let la = link_all(m0, fq, deps);
    assert(la.0[key] == m0[key]);
    let pd = old_deps_of(la.0, key);
    assert(pd == old_deps_of(m0, key));
    lemma_all_fq_stale(pd, la.1);
    let stale = stale_deps(pd, la.1);
    let m1 = la.0.insert(key, committed_record(Some(la.0[key]), bpn, la.1));
    lemma_remove_edges_frame(m1, fq, stale);
    let m2 = remove_edges(m1, fq, stale);
    let pc = old_consumers_of(la.0, key);
    assert(pc == seq![cfq]);
    assert(all_fq(pc)) by {
        assert forall|ix: int| 0 <= ix < pc.len() implies is_fq_key(#[trigger] pc[ix]) by {
            assert(pc[ix] == cfq);
        }
    }
    assert(m1.contains_key(kc));
    assert(m1[kc] == la.0[kc]);
    assert(m2[kc].dependencies == m0[kc].dependencies);
    assert(m2[kc].build_project_name == Some(proj));
    assert(pc.drop_last() =~= Seq::<Seq<char>>::empty());
    assert(pc.last() == cfq);
    assert(rebuild_of(m2, fq, cfq) == Some(proj));
    assert(cascade(m2, fq, Seq::<Seq<char>>::empty()) =~= Seq::<Seq<char>>::empty());
    assert(cascade(m2, fq, pc) =~= seq![proj]);
}

/// The cascade race guard: a recorded consumer whose own record no longer
/// lists the updated package among its dependencies — or which is not
/// tracked at all any more — has no build started.
pub proof fn lemma_cascade_race_guard(
    m0: Map<KeyV, RecordV>,
    name: Seq<char>,
    version: Seq<char>,
    bpn: Seq<char>,
    deps: Seq<DepV>,
    cfq: Seq<char>,
)
    requires
        m0.contains_key(key_of_parts(spec_build_system(), name, version)),
        m0[key_of_parts(spec_build_system(), name, version)].consumers == Some(seq![cfq]),
        is_fq_key(cfq),
        decode_key(cfq) != key_of_parts(spec_build_system(), name, version),
        m0.contains_key(decode_key(cfq)) ==> !attr_contains(
            m0[decode_key(cfq)].dependencies,
            encode_spec(spec_build_system(), name, version),
        ),
        all_fq(old_deps_of(m0, key_of_parts(spec_build_system(), name, version))),
        forall|i: int|
            0 <= i < deps.len() ==> ((#[trigger] deps[i]).version is Some ==> dep_key(deps[i])
                != key_of_parts(spec_build_system(), name, version)),
    ensures
        ({
            let res = run_update(m0, name, version, bpn, deps);
            &&& res.ok
            &&& res.triggers == Seq::<Seq<char>>::empty()
        }),
{
    let fq = encode_spec(spec_build_system(), name, version);
    let key = key_of_parts(spec_build_system(), name, version);
    let kc = decode_key(cfq);
    lemma_link_all_frame(m0, fq, deps);
    lemma_link_all_other(m0, fq, deps, key);
    let la = link_all(m0, fq, deps);
    assert(la.0[key] == m0[key]);
    let pd = old_deps_of(la.0, key);
    assert(pd == old_deps_of(m0, key));
    lemma_all_fq_stale(pd, la.1);
    let stale = stale_deps(pd, la.1);
    let m1 = la.0.insert(key, committed_record(Some(la.0[key]), bpn, la.1));
    lemma_remove_edges_frame(m1, fq, stale);
    let m2 = remove_edges(m1, fq, stale);
    let pc = old_consumers_of(la.0, key);
    assert(pc == seq![cfq]);
    assert(all_fq(pc)) by {
        assert forall|ix: int| 0 <= ix < pc.len() implies is_fq_key(#[trigger] pc[ix]) by {
            assert(pc[ix] == cfq);
        }
    }
    if m0.contains_key(kc) {
        assert(m1[kc] == la.0[kc]);
        assert(m2[kc].dependencies == m0[kc].dependencies);
    }
    assert(pc.drop_last() =~= Seq::<Seq<char>>::empty());
    assert(pc.last() == cfq);
    assert(rebuild_of(m2, fq, cfq) is None);
    assert(cascade(m2, fq, Seq::<Seq<char>>::empty()) =~= Seq::<Seq<char>>::empty());
    assert(cascade(m2, fq, pc) =~= Seq::<Seq<char>>::empty());
}

} // verus!
