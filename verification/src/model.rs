//! The mathematical meaning of one metadata update run.
//!
//! Each function here computes, over a map of record values, what one stage
//! of the protocol leaves behind: linking the declared dependencies,
//! committing the package's own record, removing the stale consumer edges,
//! and deciding the rebuild cascade. `run_update` composes them into the
//! meaning of a whole run; the executable protocol is proved to produce
//! exactly these values, and the crate's laws are stated about them.
//!
//! The stages mirror the protocol's order: a fatal error at a stage leaves
//! the effects of the earlier stages in place — nothing is rolled back.

use vstd::prelude::*;
use crate::keys::{
    KeyV,
    decode_key,
    encode_spec,
    is_fq_key,
    key_of_parts,
    spec_build_system,
};
use crate::manifest::DepV;
use crate::store::{
    RecordV,
    attr_contains,
    attr_seq,
    committed_record,
    consumer_added,
    consumer_removed,
};

verus! {

/// The fully qualified key of a versioned declared dependency.
pub open spec fn dep_fq(d: DepV) -> Seq<char>
    recommends
        d.version is Some,
{
    encode_spec(spec_build_system(), d.name, d.version->0)
}

/// The structured key of a versioned declared dependency.
pub open spec fn dep_key(d: DepV) -> KeyV
    recommends
        d.version is Some,
{
    key_of_parts(spec_build_system(), d.name, d.version->0)
}

/// Linking one declared dependency: an unversioned dependency is skipped
/// without a store call; a versioned one joins the tracked set exactly when
/// the store already holds a record for it, which then gains the updated
/// package as a consumer.
pub open spec fn link_step(m: Map<KeyV, RecordV>, fq: Seq<char>, d: DepV) -> (
    Map<KeyV, RecordV>,
    Option<Seq<char>>,
) {
    match d.version {
        None => (m, None),
        Some(_) => {
            if m.contains_key(dep_key(d)) {
                (m.insert(dep_key(d), consumer_added(m[dep_key(d)], fq)), Some(dep_fq(d)))
            } else {
                (m, None)
            }
        },
    }
}

/// Linking every declared dependency in order; the second component is the
/// new tracked-dependency list, one fully qualified key per linked
/// dependency.
pub open spec fn link_all(m: Map<KeyV, RecordV>, fq: Seq<char>, deps: Seq<DepV>) -> (
    Map<KeyV, RecordV>,
    Seq<Seq<char>>,
)
    decreases deps.len(),
{
    if deps.len() == 0 {
        (m, Seq::empty())
    } else {
        let prev = link_all(m, fq, deps.drop_last());
        let st = link_step(prev.0, fq, deps.last());
        (
            st.0,
            match st.1 {
                Some(t) => prev.1.push(t),
                None => prev.1,
            },
        )
    }
}

/// The dependency set previously recorded for `key`, empty when absent.
pub open spec fn old_deps_of(m: Map<KeyV, RecordV>, key: KeyV) -> Seq<Seq<char>> {
    if m.contains_key(key) {
        attr_seq(m[key].dependencies)
    } else {
        Seq::empty()
    }
}

/// The consumer set previously recorded for `key`, empty when absent.
pub open spec fn old_consumers_of(m: Map<KeyV, RecordV>, key: KeyV) -> Seq<Seq<char>> {
    if m.contains_key(key) {
        attr_seq(m[key].consumers)
    } else {
        Seq::empty()
    }
}

/// The stale edges: previously recorded dependencies that the new set no
/// longer holds, in their recorded order.
pub open spec fn stale_deps(old_deps: Seq<Seq<char>>, new_deps: Seq<Seq<char>>) -> Seq<Seq<char>>
    decreases old_deps.len(),
{
    if old_deps.len() == 0 {
        Seq::empty()
    } else {
        let r = stale_deps(old_deps.drop_last(), new_deps);
        if new_deps.contains(old_deps.last()) {
            r
        } else {
            r.push(old_deps.last())
        }
    }
}

/// Every key of the list parses as a fully qualified key.
pub open spec fn all_fq(ds: Seq<Seq<char>>) -> bool {
    forall|i: int| 0 <= i < ds.len() ==> is_fq_key(#[trigger] ds[i])
}

/// Removing the updated package from the consumers of the record one stored
/// key addresses, conditioned on that record existing.
pub open spec fn remove_step(m: Map<KeyV, RecordV>, fq: Seq<char>, d: Seq<char>) -> Map<
    KeyV,
    RecordV,
> {
    let k = decode_key(d);
    if m.contains_key(k) {
        m.insert(k, consumer_removed(m[k], fq))
    } else {
        m
    }
}

/// Removing every stale edge, in order.
pub open spec fn remove_edges(m: Map<KeyV, RecordV>, fq: Seq<char>, ds: Seq<Seq<char>>) -> Map<
    KeyV,
    RecordV,
>
    decreases ds.len(),
{
    if ds.len() == 0 {
        m
    } else {
        remove_step(remove_edges(m, fq, ds.drop_last()), fq, ds.last())
    }
}

/// The rebuild decision over one consumer's freshly read record: a build is
/// owed exactly when the record exists, its dependency set still holds the
/// updated package, and it names a build project.
pub open spec fn rebuild_decision_spec(fq: Seq<char>, rec: Option<RecordV>) -> Option<Seq<char>> {
    match rec {
        Some(r) => if attr_contains(r.dependencies, fq) {
            r.build_project_name
        } else {
            None
        },
        None => None,
    }
}

/// The rebuild owed for one recorded consumer key, read against `m`.
pub open spec fn rebuild_of(m: Map<KeyV, RecordV>, fq: Seq<char>, c: Seq<char>) -> Option<
    Seq<char>,
> {
    let k = decode_key(c);
    rebuild_decision_spec(
        fq,
        if m.contains_key(k) {
            Some(m[k])
        } else {
            None
        },
    )
}

/// Nothing, or one element.
pub open spec fn opt_to_seq(o: Option<Seq<char>>) -> Seq<Seq<char>> {
    match o {
        Some(p) => seq![p],
        None => Seq::empty(),
    }
}

/// The build projects the cascade starts, one per still-valid consumer, in
/// the recorded order.
pub open spec fn cascade(m: Map<KeyV, RecordV>, fq: Seq<char>, cons: Seq<Seq<char>>) -> Seq<
    Seq<char>,
>
    decreases cons.len(),
{
    if cons.len() == 0 {
        Seq::empty()
    } else {
        let t = cascade(m, fq, cons.drop_last());
        match rebuild_of(m, fq, cons.last()) {
            Some(p) => t.push(p),
            None => t,
        }
    }
}

/// What one run leaves behind: the store, whether the run succeeded, and the
/// build projects it started, in order.
pub ghost struct RunResult {
    pub store: Map<KeyV, RecordV>,
    pub ok: bool,
    pub triggers: Seq<Seq<char>>,
}

/// Committing the package's own record and reconciling the graph around it.
///
/// The commit itself always applies. The run then fails — leaving the
/// commit, and any removals already owed, in place — exactly when a stored
/// key it must decode does not parse; such a key is data corruption the
/// protocol cannot safely proceed past. Stale edges are all decoded before
/// the first removal is issued, and the recorded consumers are all decoded
/// before the first rebuild check runs.
pub open spec fn run_update_project(
    m: Map<KeyV, RecordV>,
    key: KeyV,
    fq: Seq<char>,
    bpn: Seq<char>,
    new_deps: Seq<Seq<char>>,
) -> RunResult {
    let prev_deps = old_deps_of(m, key);
    let prev_cons = old_consumers_of(m, key);
    let m1 = m.insert(
        key,
        committed_record(
            if m.contains_key(key) {
                Some(m[key])
            } else {
                None
            },
            bpn,
            new_deps,
        ),
    );
    let stale = stale_deps(prev_deps, new_deps);
    if !all_fq(stale) {
        RunResult { store: m1, ok: false, triggers: Seq::empty() }
    } else {
        let m2 = remove_edges(m1, fq, stale);
        if !all_fq(prev_cons) {
            RunResult { store: m2, ok: false, triggers: Seq::empty() }
        } else {
            RunResult { store: m2, ok: true, triggers: cascade(m2, fq, prev_cons) }
        }
    }
}

/// One whole metadata update run for the package `name`/`version`: link the
/// declared dependencies, commit the record, reconcile, cascade.
pub open spec fn run_update(
    m: Map<KeyV, RecordV>,
    name: Seq<char>,
    version: Seq<char>,
    bpn: Seq<char>,
    deps: Seq<DepV>,
) -> RunResult {
    let fq = encode_spec(spec_build_system(), name, version);
    let key = key_of_parts(spec_build_system(), name, version);
    let linked = link_all(m, fq, deps);
    run_update_project(linked.0, key, fq, bpn, linked.1)
}

/// Declared dependencies whose parts leave the codec unambiguous: a
/// versioned dependency has a non-empty name and a non-empty version free of
/// `:`.
pub open spec fn deps_wf(deps: Seq<DepV>) -> bool {
    forall|i: int|
        0 <= i < deps.len() ==> ((#[trigger] deps[i]).version matches Some(v) ==> deps[i].name.len()
            > 0 && v.len() > 0 && crate::keys::colon_free(v))
}

/// Linking records no new package and deletes none, and touches no
/// dependency set and no build project name: it only ever adds consumers.
pub proof fn lemma_link_all_frame(m: Map<KeyV, RecordV>, fq: Seq<char>, deps: Seq<DepV>)
    ensures
        forall|k: KeyV| #[trigger] link_all(m, fq, deps).0.contains_key(k) <==> m.contains_key(k),
        forall|k: KeyV|
            m.contains_key(k) ==> (#[trigger] link_all(m, fq, deps).0[k]).dependencies
                == m[k].dependencies && link_all(m, fq, deps).0[k].build_project_name
                == m[k].build_project_name,
    decreases deps.len(),
{
    if deps.len() > 0 {
        lemma_link_all_frame(m, fq, deps.drop_last());
    }
}

/// Linking leaves every record other than the declared dependencies' own
/// entirely unchanged.
pub proof fn lemma_link_all_other(m: Map<KeyV, RecordV>, fq: Seq<char>, deps: Seq<DepV>, k: KeyV)
    requires
        forall|i: int|
            0 <= i < deps.len() ==> ((#[trigger] deps[i]).version is Some ==> dep_key(deps[i])
                != k),
    ensures
        m.contains_key(k) ==> link_all(m, fq, deps).0[k] == m[k],
    decreases deps.len(),
{
    if deps.len() > 0 {
        assert(deps[deps.len() - 1] == deps.last());
        lemma_link_all_other(m, fq, deps.drop_last(), k);
    }
}

/// A versioned dependency whose record exists ends up in the tracked set,
/// with the updated package among its consumers.
pub proof fn lemma_link_all_adds(m: Map<KeyV, RecordV>, fq: Seq<char>, deps: Seq<DepV>, i: int)
    requires
        0 <= i < deps.len(),
        deps[i].version is Some,
        m.contains_key(dep_key(deps[i])),
    ensures
        attr_contains(link_all(m, fq, deps).0[dep_key(deps[i])].consumers, fq),
        link_all(m, fq, deps).1.contains(dep_fq(deps[i])),
    decreases deps.len(),
{
    let dk = dep_key(deps[i]);
    let lp = link_all(m, fq, deps.drop_last());
    lemma_link_all_frame(m, fq, deps.drop_last());
    if i == deps.len() - 1 {
        crate::store::lemma_attr_add_facts(lp.0[dk].consumers, fq);
        let t = link_all(m, fq, deps).1;
        assert(t[t.len() - 1] == dep_fq(deps[i]));
    } else {
        assert(deps.drop_last()[i] == deps[i]);
        lemma_link_all_adds(m, fq, deps.drop_last(), i);
        match deps.last().version {
            None => {},
            Some(_) => {
                let dk2 = dep_key(deps.last());
                if lp.0.contains_key(dk2) {
                    crate::store::lemma_attr_add_facts(lp.0[dk2].consumers, fq);
                    crate::store::lemma_push_contains(lp.1, dep_fq(deps.last()), dep_fq(deps[i]));
                }
            },
        }
    }
}

/// Two stores that agree on which declared dependencies are tracked produce
/// the same tracked set.
pub proof fn lemma_link_all_same_tracked(
    ma: Map<KeyV, RecordV>,
    mb: Map<KeyV, RecordV>,
    fq: Seq<char>,
    deps: Seq<DepV>,
)
    requires
        forall|i: int|
            0 <= i < deps.len() ==> ((#[trigger] deps[i]).version is Some ==> (ma.contains_key(
                dep_key(deps[i]),
            ) <==> mb.contains_key(dep_key(deps[i])))),
    ensures
        link_all(ma, fq, deps).1 == link_all(mb, fq, deps).1,
    decreases deps.len(),
{
    if deps.len() > 0 {
        assert(deps[deps.len() - 1] == deps.last());
        lemma_link_all_same_tracked(ma, mb, fq, deps.drop_last());
        lemma_link_all_frame(ma, fq, deps.drop_last());
        lemma_link_all_frame(mb, fq, deps.drop_last());
    }
}

/// Linking into a store that already lists the updated package as a consumer
/// of every tracked declared dependency changes nothing.
pub proof fn lemma_link_all_noop(m: Map<KeyV, RecordV>, fq: Seq<char>, deps: Seq<DepV>)
    requires
        forall|i: int|
            0 <= i < deps.len() ==> (((#[trigger] deps[i]).version is Some && m.contains_key(
                dep_key(deps[i]),
            )) ==> attr_contains(m[dep_key(deps[i])].consumers, fq)),
    ensures
        link_all(m, fq, deps).0 == m,
    decreases deps.len(),
{
    if deps.len() > 0 {
        assert(deps[deps.len() - 1] == deps.last());
        lemma_link_all_noop(m, fq, deps.drop_last());
        match deps.last().version {
            None => {},
            Some(_) => {
                let dk = dep_key(deps.last());
                if m.contains_key(dk) {
                    crate::store::lemma_attr_add_noop(m[dk].consumers, fq);
                    assert(consumer_added(m[dk], fq) == m[dk]);
                    assert(m.insert(dk, m[dk]) =~= m);
                }
            },
        }
    }
}

/// When no versioned declared dependency is tracked, the tracked set is
/// empty.
pub proof fn lemma_no_tracked(m: Map<KeyV, RecordV>, fq: Seq<char>, deps: Seq<DepV>)
    requires
        forall|i: int|
            0 <= i < deps.len() ==> ((#[trigger] deps[i]).version is Some ==> !m.contains_key(
                dep_key(deps[i]),
            )),
    ensures
        link_all(m, fq, deps).1 == Seq::<Seq<char>>::empty(),
    decreases deps.len(),
{
    if deps.len() > 0 {
        assert(deps[deps.len() - 1] == deps.last());
        lemma_no_tracked(m, fq, deps.drop_last());
        lemma_link_all_frame(m, fq, deps.drop_last());
    }
}

/// The fully qualified key of an untracked dependency never enters the
/// tracked set, provided the declared parts leave the codec unambiguous.
pub proof fn lemma_untracked_not_in_tracked(
    m: Map<KeyV, RecordV>,
    fq: Seq<char>,
    deps: Seq<DepV>,
    dk: KeyV,
    dfq: Seq<char>,
)
    requires
        deps_wf(deps),
        !m.contains_key(dk),
        is_fq_key(dfq),
        crate::keys::decode_key(dfq) == dk,
    ensures
        !link_all(m, fq, deps).1.contains(dfq),
    decreases deps.len(),
{
    if deps.len() > 0 {
        assert forall|i: int|
            0 <= i < deps.drop_last().len() implies ((#[trigger] deps.drop_last()[i]).version
            matches Some(v) ==> deps.drop_last()[i].name.len() > 0 && v.len() > 0
            && crate::keys::colon_free(v)) by {
            assert(deps.drop_last()[i] == deps[i]);
        }
        lemma_untracked_not_in_tracked(m, fq, deps.drop_last(), dk, dfq);
        let lp = link_all(m, fq, deps.drop_last());
        lemma_link_all_frame(m, fq, deps.drop_last());
        assert(deps[deps.len() - 1] == deps.last());
        match deps.last().version {
            None => {},
            Some(_) => {
                if lp.0.contains_key(dep_key(deps.last())) {
                    let t = dep_fq(deps.last());
                    if t == dfq {
                        crate::keys::lemma_dep_fq_key(deps.last().name, deps.last().version->0);
                        assert(false);
                    }
                    crate::store::lemma_push_contains(lp.1, t, dfq);
                }
            },
        }
    }
}

/// Reconciliation records no new package and deletes none, and touches no
/// dependency set and no build project name: it only ever removes consumers.
pub proof fn lemma_remove_edges_frame(m: Map<KeyV, RecordV>, fq: Seq<char>, ds: Seq<Seq<char>>)
    ensures
        forall|k: KeyV| #[trigger] remove_edges(m, fq, ds).contains_key(k) <==> m.contains_key(k),
        forall|k: KeyV|
            m.contains_key(k) ==> (#[trigger] remove_edges(m, fq, ds)[k]).dependencies
                == m[k].dependencies && remove_edges(m, fq, ds)[k].build_project_name
                == m[k].build_project_name,
    decreases ds.len(),
{
    if ds.len() > 0 {
        lemma_remove_edges_frame(m, fq, ds.drop_last());
    }
}

/// Reconciliation leaves every record whose key none of the stale edges
/// decodes to entirely unchanged.
pub proof fn lemma_remove_edges_untouched(
    m: Map<KeyV, RecordV>,
    fq: Seq<char>,
    ds: Seq<Seq<char>>,
    k: KeyV,
)
    requires
        forall|i: int| 0 <= i < ds.len() ==> crate::keys::decode_key(#[trigger] ds[i]) != k,
    ensures
        m.contains_key(k) ==> remove_edges(m, fq, ds)[k] == m[k],
    decreases ds.len(),
{
    if ds.len() > 0 {
        assert(ds[ds.len() - 1] == ds.last());
        lemma_remove_edges_untouched(m, fq, ds.drop_last(), k);
    }
}

/// Every previously recorded dependency the new set keeps is no stale edge;
/// when the new set keeps them all, there is nothing to remove.
pub proof fn lemma_stale_none(old_deps: Seq<Seq<char>>, new_deps: Seq<Seq<char>>)
    requires
        forall|x: int| 0 <= x < old_deps.len() ==> new_deps.contains(#[trigger] old_deps[x]),
    ensures
        stale_deps(old_deps, new_deps) == Seq::<Seq<char>>::empty(),
    decreases old_deps.len(),
{
    if old_deps.len() > 0 {
        assert(old_deps[old_deps.len() - 1] == old_deps.last());
        assert forall|x: int|
            0 <= x < old_deps.drop_last().len() implies new_deps.contains(
            #[trigger] old_deps.drop_last()[x],
        ) by {
            assert(old_deps.drop_last()[x] == old_deps[x]);
        }
        lemma_stale_none(old_deps.drop_last(), new_deps);
    }
}

/// When every previously recorded dependency parses, so does every stale
/// edge.
pub proof fn lemma_all_fq_stale(old_deps: Seq<Seq<char>>, new_deps: Seq<Seq<char>>)
    requires
        all_fq(old_deps),
    ensures
        all_fq(stale_deps(old_deps, new_deps)),
{
    let st = stale_deps(old_deps, new_deps);
    assert forall|ix: int| 0 <= ix < st.len() implies is_fq_key(#[trigger] st[ix]) by {
        assert(st.contains(st[ix]));
        lemma_stale_contains(old_deps, new_deps, st[ix]);
        let iy = choose|iy: int| 0 <= iy < old_deps.len() && old_deps[iy] == st[ix];
        assert(is_fq_key(old_deps[iy]));
    }
}

/// Membership in the stale-edge list: exactly the old keys the new set lacks.
pub proof fn lemma_stale_contains(
    old_deps: Seq<Seq<char>>,
    new_deps: Seq<Seq<char>>,
    y: Seq<char>,
)
    ensures
        stale_deps(old_deps, new_deps).contains(y) <==> old_deps.contains(y)
            && !new_deps.contains(y),
    decreases old_deps.len(),
{
    if old_deps.len() > 0 {
        lemma_stale_contains(old_deps.drop_last(), new_deps, y);
        crate::store::lemma_drop_last_contains(old_deps, y);
        if !new_deps.contains(old_deps.last()) {
            crate::store::lemma_push_contains(
                stale_deps(old_deps.drop_last(), new_deps),
                old_deps.last(),
                y,
            );
        }
    }
}

} // verus!
