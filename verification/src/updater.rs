//! The update protocol itself.
//!
//! `CrateMetadataUpdater` runs the whole protocol against the in-memory
//! store and a log of started builds, and is verified to produce exactly the
//! run the model in `crate::model` describes. The free functions here are
//! the protocol's individual decisions — what to link, how to judge a
//! conditional write's outcome, whether a consumer is still owed a rebuild —
//! shared with clients that drive a remote store through the same steps.

use vstd::prelude::*;
use vstd::string::*;
use crate::errors::Error;
use crate::keys::{
    PackageKey,
    decode_key,
    encode_spec,
    get_encoded_primary_key,
    is_fq_key,
    key_of_parts,
    lemma_decode_parts_key,
    spec_build_system,
};
use crate::manifest::{CrateHelper, Dependency};
use crate::model::{
    all_fq,
    cascade,
    dep_fq,
    dep_key,
    lemma_stale_contains,
    link_all,
    link_step,
    old_consumers_of,
    old_deps_of,
    opt_to_seq,
    rebuild_decision_spec,
    rebuild_of,
    remove_edges,
    run_update,
    run_update_project,
    stale_deps,
};
use crate::store::{
    Record,
    RecordV,
    Store,
    StoreOutcome,
    attr_seq,
    committed_record,
    consumer_removed,
    contains_string,
    strings_view,
};

verus! {

/// What is known of the build that produced the package being updated.
pub struct BuildDetails {
    pub build_project_name: String,
}

/// The build project a build identifier of the shape `"project:id"` names:
/// everything before the first `:`, or the whole identifier when it has
/// none.
pub open spec fn build_project_of(s: Seq<char>) -> Seq<char> {
    if exists|j: int| 0 <= j < s.len() && s[j] == ':' {
        s.take(
            choose|j: int|
                0 <= j < s.len() && s[j] == ':' && (forall|x: int| 0 <= x < j ==> s[x] != ':'),
        )
    } else {
        s
    }
}

impl BuildDetails {
    /// Extracts the build project name from a build identifier.
    pub fn from_build_id(build_id: &String) -> (r: BuildDetails)
        ensures
            r.build_project_name@ == build_project_of(build_id@),
    {
        let s: &str = build_id.as_str();
        let n: usize = s.unicode_len();
        let mut j: usize = 0;
        while j < n
            invariant
                s@ == build_id@,
                n == s@.len(),
                j <= n,
                forall|x: int| 0 <= x < j ==> s@[x] != ':',
            decreases n - j,
        {
            if s.get_char(j) == ':' {
                proof {
                    let j0 = choose|j0: int|
                        0 <= j0 < s@.len() && s@[j0] == ':' && (forall|x: int|
                            0 <= x < j0 ==> s@[x] != ':');
                    assert(s@[j as int] == ':');
                    assert(j0 == j as int);
                }
                return BuildDetails { build_project_name: String::from_str(s.substring_char(0, j)) };
            }
            j = j + 1;
        }
        BuildDetails { build_project_name: build_id.clone() }
    }
}

/// The link a declared dependency asks for: the key of the record that must
/// already exist for the edge to be recorded. An unversioned dependency asks
/// for none and is skipped without a store call.
pub fn link_request(dep: &Dependency) -> (r: Option<PackageKey>)
    ensures
        match r {
            Some(k) => {
                &&& dep@.version is Some
                &&& k.build_system@ == spec_build_system()
                &&& k.name@ == dep.name@
                &&& Some(k.version@) == dep@.version
            },
            None => dep@.version is None,
        },
{
    match &dep.version {
        Some(v) => Some(
            PackageKey {
                build_system: String::from_str("rust"),
                name: dep.name.clone(),
                version: v.clone(),
            },
        ),
        None => None,
    }
}

/// Judging the store's answer to a conditional link: success hands back the
/// dependency's fully qualified key for the tracked set, a failed existence
/// condition means "not tracked" and is no error, and anything else is
/// fatal.
pub fn link_outcome(fq_dep_key: String, outcome: StoreOutcome) -> (r: Result<
    Option<String>,
    Error,
>)
    ensures
        match outcome {
            StoreOutcome::Success => r matches Ok(o) && o matches Some(s) && s == fq_dep_key,
            StoreOutcome::ConditionFailed => r matches Ok(o) && o is None,
            StoreOutcome::Failure(_) => r is Err,
        },
{
    match outcome {
        StoreOutcome::Success => Ok(Some(fq_dep_key)),
        StoreOutcome::ConditionFailed => Ok(None),
        StoreOutcome::Failure(msg) => Err(store_error(msg)),
    }
}

/// Judging the store's answer to a conditional removal: a failed existence
/// condition means there was nothing to clean up, which is as good as
/// success; anything else but success is fatal.
pub fn removal_outcome(outcome: StoreOutcome) -> (r: Result<(), Error>)
    ensures
        match outcome {
            StoreOutcome::Success => r is Ok,
            StoreOutcome::ConditionFailed => r is Ok,
            StoreOutcome::Failure(_) => r is Err,
        },
{
    match outcome {
        StoreOutcome::Success => Ok(()),
        StoreOutcome::ConditionFailed => Ok(()),
        StoreOutcome::Failure(msg) => Err(store_error(msg)),
    }
}

fn store_error(msg: String) -> (r: Error) {
    let mut text = String::from_str("store error: ");
    text.append(msg.as_str());
    Error::with_msg(text)
}

/// The view of an optional record.
pub open spec fn opt_record_view(r: Option<Record>) -> Option<RecordV> {
    match r {
        Some(rec) => Some(rec@),
        None => None,
    }
}

/// The rebuild decision over a consumer's freshly read record: the name of
/// the build project to start, if the record exists, still lists the updated
/// package among its dependencies, and names one.
pub fn rebuild_decision(pkg_fq: &String, record: &Option<Record>) -> (r: Option<String>)
    ensures
        ({
            let d = rebuild_decision_spec(pkg_fq@, opt_record_view(*record));
            match r {
                Some(s) => d == Some(s@),
                None => d is None,
            }
        }),
{
    match record {
        Some(rec) => {
            let still_depends = match &rec.dependencies {
                Some(d) => contains_string(d, pkg_fq),
                None => false,
            };
            if still_depends {
                match &rec.build_project_name {
                    Some(p) => Some(p.clone()),
                    None => None,
                }
            } else {
                None
            }
        },
        None => None,
    }
}

impl PackageKey {
    /// The identity of the manifest's own package within this ecosystem.
    pub fn from_crate(crt: CrateHelper) -> (k: PackageKey)
        ensures
            k.build_system@ == spec_build_system(),
            k.name == crt.name,
            k.version == crt.version,
    {
        PackageKey {
            build_system: String::from_str("rust"),
            name: crt.name,
            version: crt.version,
        }
    }
}

/// The protocol, run against the in-memory store: every store write the
/// remote protocol would issue, issued in the same order, and every build
/// start recorded in `triggered`.
pub struct CrateMetadataUpdater {
    pub store: Store,
    pub triggered: Vec<String>,
}

impl CrateMetadataUpdater {
    /// The store is well-formed.
    pub open spec fn wf(&self) -> bool {
        self.store.wf()
    }

    /// An updater over the given store that has started no build yet.
    pub fn new(store: Store) -> (r: CrateMetadataUpdater)
        requires
            store.wf(),
        ensures
            r.wf(),
            r.store@ == store@,
            r.triggered@.len() == 0,
    {
        CrateMetadataUpdater { store, triggered: Vec::new() }
    }

    /// One dependency link: registers the updated package as a consumer of
    /// the declared dependency, conditioned on the dependency being tracked,
    /// and reports the dependency's fully qualified key when it is.
    pub fn add_consumer_to_dependency(&mut self, crt: &CrateHelper, dep: &Dependency) -> (r:
        Result<Option<String>, Error>)
        requires
            old(self).wf(),
        ensures
            final(self).wf(),
            final(self).triggered == old(self).triggered,
            ({
                let st = link_step(
                    old(self).store@,
                    crate::keys::encode_spec(spec_build_system(), crt.name@, crt.version@),
                    dep@,
                );
                &&& final(self).store@ == st.0
                &&& match r {
                    Ok(o) => match st.1 {
                        Some(t) => o matches Some(s) && s@ == t,
                        None => o is None,
                    },
                    Err(_) => false,
                }
            }),
    {
        let consumer_key = get_encoded_primary_key(&crt.name, &crt.version);
        match link_request(dep) {
            None => Ok(None),
            Some(dkey) => {
                let fq_dep_name = dkey.to_fq_key();
                let skey = dkey.structured_key();
                proof {
                    assert(skey@ == dep_key(dep@));
                    assert(fq_dep_name@ == dep_fq(dep@));
                }
                let outcome = self.store.add_consumer(&skey, &consumer_key);
                link_outcome(fq_dep_name, outcome)
            },
        }
    }

    /// One stale-edge removal: removes the updated package from the
    /// consumers of a dependency it no longer declares, conditioned on that
    /// dependency still being tracked; an untracked one leaves nothing to
    /// clean up.
    pub fn rm_consumer_from_dependency(&mut self, pkg_key: &PackageKey, old_dep_key: PackageKey)
        -> (r: Result<(), Error>)
        requires
            old(self).wf(),
        ensures
            final(self).wf(),
            final(self).triggered == old(self).triggered,
            r is Ok,
            final(self).store@ == (if old(self).store@.contains_key(old_dep_key.key_spec()) {
                old(self).store@.insert(
                    old_dep_key.key_spec(),
                    consumer_removed(
                        old(self).store@[old_dep_key.key_spec()],
                        pkg_key.fq_spec(),
                    ),
                )
            } else {
                old(self).store@
            }),
    {
        let consumer_key = pkg_key.to_fq_key();
        let skey = old_dep_key.structured_key();
        let outcome = self.store.remove_consumer(&skey, &consumer_key);
        removal_outcome(outcome)
    }

    /// One rebuild check: re-reads the consumer's own record and starts a
    /// build of its project exactly when it still depends on the updated
    /// package. A consumer key that does not parse is data corruption and
    /// fatal.
    pub fn rebuild_consumer(&mut self, pkg_key: &PackageKey, consumer_key: &String) -> (r: Result<
        (),
        Error,
    >)
        requires
            old(self).wf(),
        ensures
            final(self).wf(),
            final(self).store@ == old(self).store@,
            match r {
                Ok(_) => {
                    &&& is_fq_key(consumer_key@)
                    &&& strings_view(final(self).triggered@) == strings_view(
                        old(self).triggered@,
                    ) + opt_to_seq(
                        rebuild_of(old(self).store@, pkg_key.fq_spec(), consumer_key@),
                    )
                },
                Err(_) => !is_fq_key(consumer_key@) && final(self).triggered == old(
                    self,
                ).triggered,
            },
    {
        let primary_key = pkg_key.to_fq_key();
        let ckey = match PackageKey::from_fq_key(consumer_key) {
            Ok(k) => k,
            Err(e) => return Err(e),
        };
        proof {
            lemma_decode_parts_key(consumer_key@);
        }
        let skey = ckey.structured_key();
        let record = self.store.read(&skey);
        match rebuild_decision(&primary_key, &record) {
            Some(project) => {
                self.triggered.push(project);
                proof {
                    assert(strings_view(self.triggered@) =~= strings_view(old(self).triggered@)
                        + opt_to_seq(
                        rebuild_of(old(self).store@, pkg_key.fq_spec(), consumer_key@),
                    ));
                }
                Ok(())
            },
            None => {
                proof {
                    assert(strings_view(self.triggered@) =~= strings_view(old(self).triggered@)
                        + opt_to_seq(
                        rebuild_of(old(self).store@, pkg_key.fq_spec(), consumer_key@),
                    ));
                }
                Ok(())
            },
        }
    }

    /// Commits the package's own record and reconciles the graph around it:
    /// writes the record while obtaining its previous state, removes every
    /// consumer edge the new dependency set no longer justifies, and runs
    /// the rebuild cascade over the previously recorded consumers. Every
    /// stale edge is decoded before the first removal is issued, and every
    /// recorded consumer before the first rebuild check; a key that does not
    /// parse aborts the run right there, leaving the earlier stages' effects
    /// in place.
    pub fn update_project(
        &mut self,
        pkg_key: &PackageKey,
        build_details: &BuildDetails,
        tracked_deps: Vec<String>,
    ) -> (r: Result<(), Error>)
        requires
            old(self).wf(),
        ensures
            final(self).wf(),
            ({
                let res = run_update_project(
                    old(self).store@,
                    pkg_key.key_spec(),
                    pkg_key.fq_spec(),
                    build_details.build_project_name@,
                    strings_view(tracked_deps@),
                );
                &&& final(self).store@ == res.store
                &&& (r is Ok <==> res.ok)
                &&& strings_view(final(self).triggered@) == strings_view(old(self).triggered@)
                    + res.triggers
            }),
    {
        let ghost m0 = self.store@;
        let ghost t0 = self.triggered;
        let ghost key = pkg_key.key_spec();
        let ghost fq = pkg_key.fq_spec();
        let ghost new_deps_v = strings_view(tracked_deps@);
        let ghost prev_deps = old_deps_of(m0, key);
        let ghost prev_cons = old_consumers_of(m0, key);
        let ghost stale_full = stale_deps(prev_deps, new_deps_v);

        let skey = pkg_key.structured_key();
        let prev = self.store.write_record(
            &skey,
            &build_details.build_project_name,
            &tracked_deps,
        );
        let ghost m1 = self.store@;

        let mut old_deps_vec: Vec<String> = Vec::new();
        let mut old_cons_vec: Vec<String> = Vec::new();
        match prev {
            Some(rec) => {
                proof {
                    assert(rec@ == m0[key]);
                }
                match rec.dependencies {
                    Some(v) => {
                        old_deps_vec = v;
                    },
                    None => {},
                }
                match rec.consumers {
                    Some(v) => {
                        old_cons_vec = v;
                    },
                    None => {},
                }
            },
            None => {},
        }
        proof {
            assert(strings_view(old_deps_vec@) =~= prev_deps);
            assert(strings_view(old_cons_vec@) =~= prev_cons);
        }

        let mut stale_keys: Vec<PackageKey> = Vec::new();
        let n_old = old_deps_vec.len();
        let mut j: usize = 0;
        while j < n_old
            invariant
                old(self).store@ == m0,
                old(self).triggered == t0,
                self.wf(),
                self.store@ == m1,
                self.triggered == t0,
                key == pkg_key.key_spec(),
                fq == pkg_key.fq_spec(),
                new_deps_v == strings_view(tracked_deps@),
                prev_deps == old_deps_of(m0, key),
                prev_cons == old_consumers_of(m0, key),
                prev_deps == strings_view(old_deps_vec@),
                stale_full == stale_deps(prev_deps, new_deps_v),
                m1 == m0.insert(
                    key,
                    committed_record(
                        if m0.contains_key(key) {
                            Some(m0[key])
                        } else {
                            None
                        },
                        build_details.build_project_name@,
                        new_deps_v,
                    ),
                ),
                n_old == old_deps_vec@.len(),
                j <= n_old,
                all_fq(stale_deps(prev_deps.take(j as int), new_deps_v)),
                stale_keys@.len() == stale_deps(prev_deps.take(j as int), new_deps_v).len(),
                forall|x: int|
                    0 <= x < stale_keys@.len() ==> #[trigger] stale_keys@[x].key_spec()
                        == decode_key(stale_deps(prev_deps.take(j as int), new_deps_v)[x]),
            decreases n_old - j,
        {
            proof {
                assert(prev_deps.take(j as int + 1).drop_last() =~= prev_deps.take(j as int));
                assert(prev_deps.take(j as int + 1).last() == prev_deps[j as int]);
                assert(prev_deps[j as int] == old_deps_vec@[j as int]@);
            }
            let d = &old_deps_vec[j];
            if !contains_string(&tracked_deps, d) {
                match PackageKey::from_fq_key(d) {
                    Ok(k) => {
                        proof {
                            lemma_decode_parts_key(d@);
                            assert(k.key_spec() == decode_key(d@));
                            assert(stale_deps(prev_deps.take(j as int + 1), new_deps_v)
                                =~= stale_deps(prev_deps.take(j as int), new_deps_v).push(d@));
                        }
                        stale_keys.push(k);
                    },
                    Err(e) => {
                        proof {
                            assert(prev_deps.contains(d@));
                            lemma_stale_contains(prev_deps, new_deps_v, d@);
                            assert(stale_full.contains(d@));
                            let ix = choose|ix: int|
                                0 <= ix < stale_full.len() && stale_full[ix] == d@;
                            assert(!is_fq_key(stale_full[ix]));
                            assert(!all_fq(stale_full));
                            assert(strings_view(self.triggered@) =~= strings_view(t0@)
                                + Seq::<Seq<char>>::empty());
                        }
                        return Err(e);
                    },
                }
            } else {
                proof {
                    assert(stale_deps(prev_deps.take(j as int + 1), new_deps_v) == stale_deps(
                        prev_deps.take(j as int),
                        new_deps_v,
                    ));
                }
            }
            j = j + 1;
        }
        proof {
            assert(prev_deps.take(n_old as int) =~= prev_deps);
            assert(all_fq(stale_full));
        }

        let n_stale = stale_keys.len();
        let mut j2: usize = 0;
        while j2 < n_stale
            invariant
                old(self).store@ == m0,
                old(self).triggered == t0,
                self.wf(),
                self.triggered == t0,
                key == pkg_key.key_spec(),
                fq == pkg_key.fq_spec(),
                new_deps_v == strings_view(tracked_deps@),
                prev_deps == old_deps_of(m0, key),
                prev_cons == old_consumers_of(m0, key),
                stale_full == stale_deps(prev_deps, new_deps_v),
                all_fq(stale_full),
                m1 == m0.insert(
                    key,
                    committed_record(
                        if m0.contains_key(key) {
                            Some(m0[key])
                        } else {
                            None
                        },
                        build_details.build_project_name@,
                        new_deps_v,
                    ),
                ),
                n_stale == stale_keys@.len(),
                stale_keys@.len() == stale_full.len(),
                j2 <= n_stale,
                forall|x: int|
                    0 <= x < stale_keys@.len() ==> #[trigger] stale_keys@[x].key_spec()
                        == decode_key(stale_full[x]),
                self.store@ == remove_edges(m1, fq, stale_full.take(j2 as int)),
            decreases n_stale - j2,
        {
            proof {
                assert(stale_full.take(j2 as int + 1).drop_last() =~= stale_full.take(j2 as int));
                assert(stale_full.take(j2 as int + 1).last() == stale_full[j2 as int]);
            }
            let k = stale_keys[j2].duplicate();
            proof {
                assert(stale_keys@[j2 as int].key_spec() == decode_key(stale_full[j2 as int]));
                assert(k.key_spec() == decode_key(stale_full[j2 as int]));
            }
            match self.rm_consumer_from_dependency(pkg_key, k) {
                Ok(_) => {
                    proof {
                        assert(self.store@ == crate::model::remove_step(
                            remove_edges(m1, fq, stale_full.take(j2 as int)),
                            fq,
                            stale_full[j2 as int],
                        ));
                        assert(self.store@ == remove_edges(
                            m1,
                            fq,
                            stale_full.take(j2 as int + 1),
                        ));
                    }
                },
                Err(e) => {
                    return Err(e);
                },
            }
            j2 = j2 + 1;
        }
        proof {
            assert(stale_full.take(n_stale as int) =~= stale_full);
        }
        let ghost m2 = self.store@;

        let n_cons = old_cons_vec.len();
        let mut j3: usize = 0;
        while j3 < n_cons
            invariant
                old(self).store@ == m0,
                old(self).triggered == t0,
                self.wf(),
                self.store@ == m2,
                self.triggered == t0,
                key == pkg_key.key_spec(),
                fq == pkg_key.fq_spec(),
                new_deps_v == strings_view(tracked_deps@),
                prev_deps == old_deps_of(m0, key),
                prev_cons == old_consumers_of(m0, key),
                prev_cons == strings_view(old_cons_vec@),
                stale_full == stale_deps(prev_deps, new_deps_v),
                all_fq(stale_full),
                m1 == m0.insert(
                    key,
                    committed_record(
                        if m0.contains_key(key) {
                            Some(m0[key])
                        } else {
                            None
                        },
                        build_details.build_project_name@,
                        new_deps_v,
                    ),
                ),
                m2 == remove_edges(m1, fq, stale_full),
                n_cons == old_cons_vec@.len(),
                j3 <= n_cons,
                forall|x: int| 0 <= x < j3 ==> is_fq_key(#[trigger] prev_cons[x]),
            decreases n_cons - j3,
        {
            proof {
                assert(prev_cons[j3 as int] == old_cons_vec@[j3 as int]@);
            }
            match PackageKey::from_fq_key(&old_cons_vec[j3]) {
                Ok(_) => {},
                Err(e) => {
                    proof {
                        assert(!is_fq_key(prev_cons[j3 as int]));
                        assert(!all_fq(prev_cons));
                        assert(strings_view(self.triggered@) =~= strings_view(t0@)
                            + Seq::<Seq<char>>::empty());
                    }
                    return Err(e);
                },
            }
            j3 = j3 + 1;
        }
        proof {
            assert(all_fq(prev_cons));
        }

        let ghost t0v = strings_view(t0@);
        let mut j4: usize = 0;
        while j4 < n_cons
            invariant
                old(self).store@ == m0,
                old(self).triggered == t0,
                self.wf(),
                self.store@ == m2,
                key == pkg_key.key_spec(),
                fq == pkg_key.fq_spec(),
                new_deps_v == strings_view(tracked_deps@),
                prev_deps == old_deps_of(m0, key),
                prev_cons == old_consumers_of(m0, key),
                prev_cons == strings_view(old_cons_vec@),
                stale_full == stale_deps(prev_deps, new_deps_v),
                all_fq(stale_full),
                all_fq(prev_cons),
                m1 == m0.insert(
                    key,
                    committed_record(
                        if m0.contains_key(key) {
                            Some(m0[key])
                        } else {
                            None
                        },
                        build_details.build_project_name@,
                        new_deps_v,
                    ),
                ),
                m2 == remove_edges(m1, fq, stale_full),
                t0v == strings_view(t0@),
                n_cons == old_cons_vec@.len(),
                j4 <= n_cons,
                strings_view(self.triggered@) == t0v + cascade(m2, fq, prev_cons.take(j4 as int)),
            decreases n_cons - j4,
        {
            proof {
                assert(prev_cons.take(j4 as int + 1).drop_last() =~= prev_cons.take(j4 as int));
                assert(prev_cons.take(j4 as int + 1).last() == prev_cons[j4 as int]);
                assert(prev_cons[j4 as int] == old_cons_vec@[j4 as int]@);
                assert(is_fq_key(prev_cons[j4 as int]));
            }
            match self.rebuild_consumer(pkg_key, &old_cons_vec[j4]) {
                Ok(_) => {
                    proof {
                        assert(strings_view(self.triggered@) =~= t0v + cascade(
                            m2,
                            fq,
                            prev_cons.take(j4 as int + 1),
                        ));
                    }
                },
                Err(e) => {
                    return Err(e);
                },
            }
            j4 = j4 + 1;
        }
        proof {
            assert(prev_cons.take(n_cons as int) =~= prev_cons);
        }
        Ok(())
    }

    /// One full metadata update for the package the manifest describes:
    /// links every declared dependency, commits the package's own record
    /// with the tracked set that resulted, and reconciles and cascades from
    /// the record's previous state.
    pub fn update_metadata(&mut self, build_details: BuildDetails, crt: CrateHelper) -> (r: Result<
        (),
        Error,
    >)
        requires
            old(self).wf(),
        ensures
            final(self).wf(),
            ({
                let res = run_update(
                    old(self).store@,
                    crt.name@,
                    crt.version@,
                    build_details.build_project_name@,
                    crt.deps_spec(),
                );
                &&& final(self).store@ == res.store
                &&& (r is Ok <==> res.ok)
                &&& strings_view(final(self).triggered@) == strings_view(old(self).triggered@)
                    + res.triggers
            }),
    {
        let ghost m0 = self.store@;
        let ghost t0 = self.triggered;
        let ghost fq = encode_spec(spec_build_system(), crt.name@, crt.version@);
        let ghost depsv = crt.deps_spec();
        let mut tracked_deps: Vec<String> = Vec::new();
        let n = crt.dependencies.len();
        let mut j: usize = 0;
        while j < n
            invariant
                old(self).store@ == m0,
                old(self).triggered == t0,
                self.wf(),
                self.triggered == t0,
                fq == encode_spec(spec_build_system(), crt.name@, crt.version@),
                depsv == crt.deps_spec(),
                n == crt.dependencies@.len(),
                j <= n,
                self.store@ == link_all(m0, fq, depsv.take(j as int)).0,
                strings_view(tracked_deps@) == link_all(m0, fq, depsv.take(j as int)).1,
            decreases n - j,
        {
            proof {
                assert(depsv.take(j as int + 1).drop_last() =~= depsv.take(j as int));
                assert(depsv.take(j as int + 1).last() == crt.dependencies@[j as int]@);
            }
            let dep = &crt.dependencies[j];
            match self.add_consumer_to_dependency(&crt, dep) {
                Ok(o) => match o {
                    Some(t) => {
                        tracked_deps.push(t);
                        proof {
                            assert(strings_view(tracked_deps@) =~= link_all(
                                m0,
                                fq,
                                depsv.take(j as int + 1),
                            ).1);
                        }
                    },
                    None => {
                        proof {
                            assert(strings_view(tracked_deps@) =~= link_all(
                                m0,
                                fq,
                                depsv.take(j as int + 1),
                            ).1);
                        }
                    },
                },
                Err(e) => {
                    return Err(e);
                },
            }
            j = j + 1;
        }
        proof {
            assert(depsv.take(n as int) =~= depsv);
        }
        let pkg_key = PackageKey::from_crate(crt);
        proof {
            assert(pkg_key.key_spec() == key_of_parts(spec_build_system(), crt.name@, crt.version@));
            assert(pkg_key.fq_spec() == fq);
        }
        self.update_project(&pkg_key, &build_details, tracked_deps)
    }
}

} // verus!
