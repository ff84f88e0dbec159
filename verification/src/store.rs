//! The graph store: one record per package, addressed by structured key.
//!
//! The remote store offers exactly four operations on package records —
//! conditional set-add, conditional set-remove, write-returning-previous and
//! point read — and no transaction spanning more than one key. This module
//! gives those operations to the rest of the crate with their precise
//! semantics: `Store` is an in-memory store with the same behaviour, against
//! which the update protocol is verified, and the `StoreOutcome` type is the
//! three-way result every conditional write is judged by.
//!
//! Set attributes follow the remote store's rules: a set attribute is never
//! stored empty. Adding to a missing attribute creates it; removing the last
//! element deletes it.

use vstd::prelude::*;
use vstd::string::*;
use crate::keys::{KeyV, StructuredKey};

verus! {

/// The views of a sequence of strings, in order.
pub open spec fn strings_view(s: Seq<String>) -> Seq<Seq<char>> {
    Seq::new(s.len(), |i: int| s[i]@)
}

/// No value occurs twice.
pub open spec fn no_dups(s: Seq<Seq<char>>) -> bool {
    forall|x: int, y: int| 0 <= x < y < s.len() ==> s[x] != s[y]
}

/// `s` with every occurrence of `x` removed, keeping the order of the rest.
pub open spec fn remove_all(s: Seq<Seq<char>>, x: Seq<char>) -> Seq<Seq<char>>
    decreases s.len(),
{
    if s.len() == 0 {
        Seq::empty()
    } else {
        let r = remove_all(s.drop_last(), x);
        if s.last() == x {
            r
        } else {
            r.push(s.last())
        }
    }
}

/// `s` with later duplicates dropped: each value keeps its first position.
pub open spec fn dedup(s: Seq<Seq<char>>) -> Seq<Seq<char>>
    decreases s.len(),
{
    if s.len() == 0 {
        Seq::empty()
    } else {
        let d = dedup(s.drop_last());
        if d.contains(s.last()) {
            d
        } else {
            d.push(s.last())
        }
    }
}

/// A set attribute: `None` is the absent attribute, `Some` is never empty.
pub open spec fn set_attr_wf(a: Option<Seq<Seq<char>>>) -> bool {
    a matches Some(s) ==> s.len() > 0 && no_dups(s)
}

/// The members of a set attribute, the absent attribute having none.
pub open spec fn attr_seq(a: Option<Seq<Seq<char>>>) -> Seq<Seq<char>> {
    match a {
        Some(s) => s,
        None => Seq::empty(),
    }
}

/// Whether a set attribute holds `x`.
pub open spec fn attr_contains(a: Option<Seq<Seq<char>>>, x: Seq<char>) -> bool {
    attr_seq(a).contains(x)
}

/// A set-add: creates the attribute when absent, keeps it unchanged when it
/// already holds `x`.
pub open spec fn attr_add(a: Option<Seq<Seq<char>>>, x: Seq<char>) -> Option<Seq<Seq<char>>> {
    match a {
        None => Some(seq![x]),
        Some(s) => if s.contains(x) {
            Some(s)
        } else {
            Some(s.push(x))
        },
    }
}

/// A set-remove: deletes the attribute when the last member goes.
pub open spec fn attr_remove(a: Option<Seq<Seq<char>>>, x: Seq<char>) -> Option<Seq<Seq<char>>> {
    match a {
        None => None,
        Some(s) => {
            let r = remove_all(s, x);
            if r.len() == 0 {
                None
            } else {
                Some(r)
            }
        },
    }
}

/// One package record. Existence of a record is what "tracked" means; any of
/// the three attributes can be absent.
pub struct Record {
    pub build_project_name: Option<String>,
    pub dependencies: Option<Vec<String>>,
    pub consumers: Option<Vec<String>>,
}

/// The mathematical value of a package record.
pub ghost struct RecordV {
    pub build_project_name: Option<Seq<char>>,
    pub dependencies: Option<Seq<Seq<char>>>,
    pub consumers: Option<Seq<Seq<char>>>,
}

impl View for Record {
    type V = RecordV;

    open spec fn view(&self) -> RecordV {
        RecordV {
            build_project_name: match self.build_project_name {
                Some(s) => Some(s@),
                None => None,
            },
            dependencies: match self.dependencies {
                Some(v) => Some(strings_view(v@)),
                None => None,
            },
            consumers: match self.consumers {
                Some(v) => Some(strings_view(v@)),
                None => None,
            },
        }
    }
}

/// Both set attributes of the record obey the store's set rules.
pub open spec fn record_wf(r: RecordV) -> bool {
    &&& set_attr_wf(r.dependencies)
    &&& set_attr_wf(r.consumers)
}

/// `r` after a set-add of `fq` to its consumers.
pub open spec fn consumer_added(r: RecordV, fq: Seq<char>) -> RecordV {
    RecordV { consumers: attr_add(r.consumers, fq), ..r }
}

/// `r` after a set-remove of `fq` from its consumers.
pub open spec fn consumer_removed(r: RecordV, fq: Seq<char>) -> RecordV {
    RecordV { consumers: attr_remove(r.consumers, fq), ..r }
}

/// The record a write-returning-previous leaves behind: the build project
/// name and the dependency set are replaced — the dependency attribute being
/// deleted rather than stored empty — and the consumers are untouched.
pub open spec fn committed_record(
    prev: Option<RecordV>,
    bpn: Seq<char>,
    new_deps: Seq<Seq<char>>,
) -> RecordV {
    RecordV {
        build_project_name: Some(bpn),
        dependencies: if new_deps.len() == 0 {
            None
        } else {
            Some(dedup(new_deps))
        },
        consumers: match prev {
            Some(r) => r.consumers,
            None => None,
        },
    }
}

/// How the store answers a conditional write: the write applied, its
/// existence condition failed (the expected "not tracked" outcome), or the
/// store itself failed.
pub enum StoreOutcome {
    Success,
    ConditionFailed,
    Failure(String),
}

struct Entry {
    key: StructuredKey,
    record: Record,
}

/// An in-memory store of package records with the remote store's semantics.
pub struct Store {
    entries: Vec<Entry>,
}

spec fn entries_map(s: Seq<Entry>) -> Map<KeyV, RecordV>
    decreases s.len(),
{
    if s.len() == 0 {
        Map::empty()
    } else {
        entries_map(s.drop_last()).insert(s.last().key@, s.last().record@)
    }
}

impl View for Store {
    type V = Map<KeyV, RecordV>;

    closed spec fn view(&self) -> Map<KeyV, RecordV> {
        entries_map(self.entries@)
    }
}

spec fn entries_unique(s: Seq<Entry>) -> bool {
    forall|x: int, y: int| 0 <= x < y < s.len() ==> s[x].key@ != s[y].key@
}

proof fn lemma_entries_map_index(s: Seq<Entry>, i: int)
    requires
        entries_unique(s),
        0 <= i < s.len(),
    ensures
        entries_map(s).contains_key(s[i].key@),
        entries_map(s)[s[i].key@] == s[i].record@,
    decreases s.len(),
{
    if i < s.len() - 1 {
        lemma_entries_map_index(s.drop_last(), i);
    }
}

proof fn lemma_entries_map_absent(s: Seq<Entry>, k: KeyV)
    requires
        forall|i: int| 0 <= i < s.len() ==> s[i].key@ != k,
    ensures
        !entries_map(s).contains_key(k),
    decreases s.len(),
{
    if s.len() > 0 {
        lemma_entries_map_absent(s.drop_last(), k);
    }
}

proof fn lemma_entries_map_update(s: Seq<Entry>, i: int, e: Entry)
    requires
        entries_unique(s),
        0 <= i < s.len(),
        e.key@ == s[i].key@,
    ensures
        entries_map(s.update(i, e)) == entries_map(s).insert(e.key@, e.record@),
    decreases s.len(),
{
    let su = s.update(i, e);
    if i == s.len() - 1 {
        assert(su.drop_last() =~= s.drop_last());
        assert(entries_map(su) =~= entries_map(s).insert(e.key@, e.record@));
    } else {
        assert(su.drop_last() =~= s.drop_last().update(i, e));
        lemma_entries_map_update(s.drop_last(), i, e);
        assert(su.last() == s.last());
        assert(entries_map(su) =~= entries_map(s).insert(e.key@, e.record@));
    }
}

proof fn lemma_entries_map_push(s: Seq<Entry>, e: Entry)
    ensures
        entries_map(s.push(e)) == entries_map(s).insert(e.key@, e.record@),
{
    assert(s.push(e).drop_last() =~= s);
    assert(s.push(e).last() == e);
}

impl Store {
    /// Every key addresses at most one record, and every record obeys the
    /// store's set-attribute rules.
    pub closed spec fn wf(&self) -> bool {
        &&& entries_unique(self.entries@)
        &&& forall|i: int|
            0 <= i < self.entries@.len() ==> record_wf(#[trigger] self.entries@[i].record@)
    }

    /// An empty store: nothing is tracked.
    pub fn new() -> (r: Store)
        ensures
            r.wf(),
            r@ == Map::<KeyV, RecordV>::empty(),
    {
        Store { entries: Vec::new() }
    }

    fn find(&self, key: &StructuredKey) -> (r: Option<usize>)
        requires
            self.wf(),
        ensures
            match r {
                Some(i) => {
                    &&& i < self.entries@.len()
                    &&& self.entries@[i as int].key@ == key@
                    &&& self@.contains_key(key@)
                    &&& self@[key@] == self.entries@[i as int].record@
                },
                None => !self@.contains_key(key@),
            },
    {
        let n = self.entries.len();
        let mut j: usize = 0;
        while j < n
            invariant
                self.wf(),
                n == self.entries@.len(),
                j <= n,
                forall|x: int| 0 <= x < j ==> self.entries@[x].key@ != key@,
            decreases n - j,
        {
            let e = &self.entries[j];
            if e.key.package_name == key.package_name && e.key.version == key.version {
                proof {
                    lemma_entries_map_index(self.entries@, j as int);
                }
                return Some(j);
            }
            j = j + 1;
        }
        proof {
            lemma_entries_map_absent(self.entries@, key@);
        }
        None
    }

    /// A point read: the record at `key`, or nothing when the package is not
    /// tracked.
    pub fn read(&self, key: &StructuredKey) -> (r: Option<Record>)
        requires
            self.wf(),
        ensures
            match r {
                Some(rec) => self@.contains_key(key@) && rec@ == self@[key@],
                None => !self@.contains_key(key@),
            },
    {
        match self.find(key) {
            Some(i) => Some(self.entries[i].record.duplicate()),
            None => None,
        }
    }

    /// Conditional set-add: adds `consumer_fq` to the consumers of the
    /// record at `key`, conditioned on that record existing. The condition
    /// failing changes nothing and is the expected "not tracked" outcome;
    /// this in-memory store itself never fails.
    pub fn add_consumer(&mut self, key: &StructuredKey, consumer_fq: &String) -> (r: StoreOutcome)
        requires
            old(self).wf(),
        ensures
            final(self).wf(),
            old(self)@.contains_key(key@) ==> {
                &&& r is Success
                &&& final(self)@ == old(self)@.insert(
                    key@,
                    consumer_added(old(self)@[key@], consumer_fq@),
                )
            },
            !old(self)@.contains_key(key@) ==> r is ConditionFailed && final(self)@ == old(
                self,
            )@,
    {
        match self.find(key) {
            Some(i) => {
                let ghost old_rec = self@[key@];
                let new_consumers: Option<Vec<String>> = match &self.entries[i].record.consumers {
                    None => {
                        let mut v0: Vec<String> = Vec::new();
                        v0.push(consumer_fq.clone());
                        proof {
                            assert(strings_view(v0@) =~= seq![consumer_fq@]);
                        }
                        Some(v0)
                    },
                    Some(v) => {
                        if contains_string(v, consumer_fq) {
                            Some(clone_string_vec(v))
                        } else {
                            let mut v2 = clone_string_vec(v);
                            v2.push(consumer_fq.clone());
                            proof {
                                assert(strings_view(v2@) =~= strings_view(v@).push(consumer_fq@));
                                lemma_push_no_dups(strings_view(v@), consumer_fq@);
                            }
                            Some(v2)
                        }
                    },
                };
                self.entries[i].record.consumers = new_consumers;
                proof {
                    assert(self.entries@[i as int].record@ == consumer_added(
                        old_rec,
                        consumer_fq@,
                    ));
                    lemma_entries_map_update(
                        old(self).entries@,
                        i as int,
                        self.entries@[i as int],
                    );
                }
                StoreOutcome::Success
            },
            None => StoreOutcome::ConditionFailed,
        }
    }

    /// Conditional set-remove: removes `consumer_fq` from the consumers of
    /// the record at `key`, conditioned on that record existing, deleting the
    /// attribute when its last member goes. The condition failing changes
    /// nothing and is the expected "not tracked" outcome; this in-memory
    /// store itself never fails.
    pub fn remove_consumer(&mut self, key: &StructuredKey, consumer_fq: &String) -> (r:
        StoreOutcome)
        requires
            old(self).wf(),
        ensures
            final(self).wf(),
            old(self)@.contains_key(key@) ==> {
                &&& r is Success
                &&& final(self)@ == old(self)@.insert(
                    key@,
                    consumer_removed(old(self)@[key@], consumer_fq@),
                )
            },
            !old(self)@.contains_key(key@) ==> r is ConditionFailed && final(self)@ == old(
                self,
            )@,
    {
        match self.find(key) {
            Some(i) => {
                let ghost old_rec = self@[key@];
                let new_consumers: Option<Vec<String>> = match &self.entries[i].record.consumers {
                    None => None,
                    Some(v) => {
                        let v2 = remove_string(v, consumer_fq);
                        proof {
                            lemma_remove_all_no_dups(strings_view(v@), consumer_fq@);
                        }
                        if v2.is_empty() {
                            None
                        } else {
                            Some(v2)
                        }
                    },
                };
                self.entries[i].record.consumers = new_consumers;
                proof {
                    assert(self.entries@[i as int].record@ == consumer_removed(
                        old_rec,
                        consumer_fq@,
                    ));
                    lemma_entries_map_update(
                        old(self).entries@,
                        i as int,
                        self.entries@[i as int],
                    );
                }
                StoreOutcome::Success
            },
            None => StoreOutcome::ConditionFailed,
        }
    }

    /// The write-returning-previous: replaces the build project name and the
    /// dependency set — deleting the dependency attribute when `new_deps` is
    /// empty — leaves the consumers untouched, creates the record when
    /// absent, and returns the record as it stood immediately before the
    /// write.
    pub fn write_record(
        &mut self,
        key: &StructuredKey,
        build_project_name: &String,
        new_deps: &Vec<String>,
    ) -> (r: Option<Record>)
        requires
            old(self).wf(),
        ensures
            final(self).wf(),
            final(self)@ == old(self)@.insert(
                key@,
                committed_record(
                    if old(self)@.contains_key(key@) {
                        Some(old(self)@[key@])
                    } else {
                        None
                    },
                    build_project_name@,
                    strings_view(new_deps@),
                ),
            ),
            match r {
                Some(rec) => old(self)@.contains_key(key@) && rec@ == old(self)@[key@],
                None => !old(self)@.contains_key(key@),
            },
    {
        let deps_attr: Option<Vec<String>> = if new_deps.len() == 0 {
            None
        } else {
            proof {
                lemma_dedup_no_dups(strings_view(new_deps@));
            }
            Some(to_set(new_deps))
        };
        match self.find(key) {
            Some(i) => {
                let prev = self.entries[i].record.duplicate();
                let new_rec = Record {
                    build_project_name: Some(build_project_name.clone()),
                    dependencies: deps_attr,
                    consumers: clone_opt_string_vec(&self.entries[i].record.consumers),
                };
                self.entries[i].record = new_rec;
                proof {
                    lemma_entries_map_update(
                        old(self).entries@,
                        i as int,
                        self.entries@[i as int],
                    );
                }
                Some(prev)
            },
            None => {
                proof {
                    assert forall|x: int|
                        0 <= x < self.entries@.len() implies self.entries@[x].key@ != key@ by {
                        lemma_entries_map_index(self.entries@, x);
                    }
                }
                let rec = Record {
                    build_project_name: Some(build_project_name.clone()),
                    dependencies: deps_attr,
                    consumers: None,
                };
                self.entries.push(Entry { key: key.duplicate(), record: rec });
                proof {
                    lemma_entries_map_push(
                        old(self).entries@,
                        self.entries@[self.entries@.len() - 1],
                    );
                    assert(self.entries@.drop_last() =~= old(self).entries@);
                }
                None
            },
        }
    }
}

impl Record {
    /// An equal record, field by field.
    pub fn duplicate(&self) -> (r: Record)
        ensures
            r@ == self@,
    {
        Record {
            build_project_name: clone_opt_string(&self.build_project_name),
            dependencies: clone_opt_string_vec(&self.dependencies),
            consumers: clone_opt_string_vec(&self.consumers),
        }
    }
}

fn clone_opt_string(s: &Option<String>) -> (r: Option<String>)
    ensures
        match s {
            Some(x) => r matches Some(y) && y@ == x@,
            None => r is None,
        },
{
    match s {
        Some(x) => Some(x.clone()),
        None => None,
    }
}

fn clone_opt_string_vec(v: &Option<Vec<String>>) -> (r: Option<Vec<String>>)
    ensures
        match v {
            Some(x) => r matches Some(y) && strings_view(y@) == strings_view(x@),
            None => r is None,
        },
{
    match v {
        Some(x) => Some(clone_string_vec(x)),
        None => None,
    }
}

fn clone_string_vec(v: &Vec<String>) -> (r: Vec<String>)
    ensures
        strings_view(r@) == strings_view(v@),
{
    let n = v.len();
    let mut out: Vec<String> = Vec::new();
    let mut j: usize = 0;
    while j < n
        invariant
            n == v@.len(),
            j <= n,
            out@.len() == j,
            forall|x: int| 0 <= x < j ==> out@[x]@ == v@[x]@,
        decreases n - j,
    {
        out.push(v[j].clone());
        j = j + 1;
    }
    proof {
        assert(strings_view(out@) =~= strings_view(v@));
    }
    out
}

/// Whether one of the strings of `v` equals `s`.
pub fn contains_string(v: &Vec<String>, s: &String) -> (r: bool)
    ensures
        r == strings_view(v@).contains(s@),
{
    let n = v.len();
    let mut j: usize = 0;
    while j < n
        invariant
            n == v@.len(),
            j <= n,
            forall|x: int| 0 <= x < j ==> v@[x]@ != s@,
        decreases n - j,
    {
        if v[j] == *s {
            proof {
                assert(strings_view(v@)[j as int] == s@);
            }
            return true;
        }
        j = j + 1;
    }
    proof {
        assert forall|x: int| 0 <= x < strings_view(v@).len() implies strings_view(v@)[x]
            != s@ by {}
    }
    false
}

/// The distinct strings of `v`, each at its first position: the set value a
/// store write makes of a member list.
pub fn to_set(v: &Vec<String>) -> (r: Vec<String>)
    ensures
        strings_view(r@) == dedup(strings_view(v@)),
{
    let n = v.len();
    let mut out: Vec<String> = Vec::new();
    let mut j: usize = 0;
    while j < n
        invariant
            n == v@.len(),
            j <= n,
            strings_view(out@) == dedup(strings_view(v@).take(j as int)),
        decreases n - j,
    {
        proof {
            assert(strings_view(v@).take(j as int + 1).drop_last() =~= strings_view(v@).take(
                j as int,
            ));
            assert(strings_view(v@).take(j as int + 1).last() == v@[j as int]@);
        }
        if !contains_string(&out, &v[j]) {
            out.push(v[j].clone());
            proof {
                assert(strings_view(out@).drop_last() =~= dedup(strings_view(v@).take(j as int)));
                assert(strings_view(out@) =~= dedup(strings_view(v@).take(j as int + 1)));
            }
        } else {
            proof {
                assert(strings_view(out@) =~= dedup(strings_view(v@).take(j as int + 1)));
            }
        }
        j = j + 1;
    }
    proof {
        assert(strings_view(v@).take(n as int) =~= strings_view(v@));
    }
    out
}

/// Membership in a pushed sequence.
pub proof fn lemma_push_contains(s: Seq<Seq<char>>, e: Seq<char>, y: Seq<char>)
    ensures
        s.push(e).contains(y) <==> s.contains(y) || y == e,
{
    if s.push(e).contains(y) {
        let i = choose|i: int| 0 <= i < s.push(e).len() && s.push(e)[i] == y;
        if i < s.len() {
            assert(s[i] == y);
        }
    }
    if s.contains(y) {
        let i = choose|i: int| 0 <= i < s.len() && s[i] == y;
        assert(s.push(e)[i] == y);
    }
    if y == e {
        assert(s.push(e)[s.len() as int] == y);
    }
}

/// Membership against the last element.
pub proof fn lemma_drop_last_contains(s: Seq<Seq<char>>, y: Seq<char>)
    requires
        s.len() > 0,
    ensures
        s.contains(y) <==> s.drop_last().contains(y) || y == s.last(),
{
    if s.contains(y) {
        let i = choose|i: int| 0 <= i < s.len() && s[i] == y;
        if i < s.len() - 1 {
            assert(s.drop_last()[i] == y);
        }
    }
    if s.drop_last().contains(y) {
        let i = choose|i: int| 0 <= i < s.drop_last().len() && s.drop_last()[i] == y;
        assert(s[i] == y);
    }
    if y == s.last() {
        assert(s[s.len() - 1] == y);
    }
}

/// Pushing a fresh element keeps a sequence duplicate-free.
pub proof fn lemma_push_no_dups(s: Seq<Seq<char>>, e: Seq<char>)
    requires
        no_dups(s),
        !s.contains(e),
    ensures
        no_dups(s.push(e)),
{
    assert forall|a: int, b: int| 0 <= a < b < s.push(e).len() implies s.push(e)[a] != s.push(
        e,
    )[b] by {
        if b == s.len() {
            assert(s.push(e)[a] == s[a]);
            if s[a] == e {
                assert(s.contains(e));
            }
        }
    }
}

/// A set-remove holds exactly the other members.
pub proof fn lemma_remove_all_contains(s: Seq<Seq<char>>, x: Seq<char>, y: Seq<char>)
    ensures
        remove_all(s, x).contains(y) <==> s.contains(y) && y != x,
    decreases s.len(),
{
    if s.len() > 0 {
        lemma_remove_all_contains(s.drop_last(), x, y);
        lemma_drop_last_contains(s, y);
        if s.last() != x {
            lemma_push_contains(remove_all(s.drop_last(), x), s.last(), y);
        }
    }
}

/// A set-remove keeps a sequence duplicate-free.
pub proof fn lemma_remove_all_no_dups(s: Seq<Seq<char>>, x: Seq<char>)
    requires
        no_dups(s),
    ensures
        no_dups(remove_all(s, x)),
    decreases s.len(),
{
    if s.len() > 0 {
        assert forall|a: int, b: int|
            0 <= a < b < s.drop_last().len() implies s.drop_last()[a] != s.drop_last()[b] by {
            assert(s[a] == s.drop_last()[a]);
            assert(s[b] == s.drop_last()[b]);
        }
        lemma_remove_all_no_dups(s.drop_last(), x);
        if s.last() != x {
            if remove_all(s.drop_last(), x).contains(s.last()) {
                lemma_remove_all_contains(s.drop_last(), x, s.last());
                let i = choose|i: int|
                    0 <= i < s.drop_last().len() && s.drop_last()[i] == s.last();
                assert(s[i] == s.last());
                assert(false);
            }
            lemma_push_no_dups(remove_all(s.drop_last(), x), s.last());
        }
    }
}

/// A set-add holds the new member and exactly the old ones besides.
pub proof fn lemma_attr_add_facts(a: Option<Seq<Seq<char>>>, x: Seq<char>)
    ensures
        attr_contains(attr_add(a, x), x),
        forall|y: Seq<char>| #[trigger] attr_contains(attr_add(a, x), y) <==> attr_contains(a, y)
            || y == x,
{
    assert forall|y: Seq<char>| #[trigger] attr_contains(attr_add(a, x), y) <==> attr_contains(
        a,
        y,
    ) || y == x by {
        match a {
            None => {
                assert(seq![x][0] == x);
                if attr_contains(attr_add(a, x), y) {
                    let i = choose|i: int| 0 <= i < seq![x].len() && seq![x][i] == y;
                    assert(y == x);
                }
            },
            Some(s) => {
                if !s.contains(x) {
                    lemma_push_contains(s, x, y);
                }
            },
        }
    }
    assert(attr_contains(attr_add(a, x), x));
}

/// A set-add of a member already present changes nothing.
pub proof fn lemma_attr_add_noop(a: Option<Seq<Seq<char>>>, x: Seq<char>)
    requires
        attr_contains(a, x),
    ensures
        attr_add(a, x) == a,
{
}

/// A set-remove lacks the removed member and holds exactly the old ones
/// besides.
pub proof fn lemma_attr_remove_facts(a: Option<Seq<Seq<char>>>, x: Seq<char>)
    ensures
        !attr_contains(attr_remove(a, x), x),
        forall|y: Seq<char>| #[trigger] attr_contains(attr_remove(a, x), y) <==> attr_contains(
            a,
            y,
        ) && y != x,
{
    assert forall|y: Seq<char>| #[trigger] attr_contains(attr_remove(a, x), y) <==> attr_contains(
        a,
        y,
    ) && y != x by {
        match a {
            None => {},
            Some(s) => {
                lemma_remove_all_contains(s, x, y);
                if remove_all(s, x).len() == 0 && s.contains(y) && y != x {
                    assert(remove_all(s, x).contains(y));
                }
            },
        }
    }
    assert(!attr_contains(attr_remove(a, x), x));
}

/// Dropping duplicates keeps exactly the members.
pub proof fn lemma_dedup_contains(s: Seq<Seq<char>>, y: Seq<char>)
    ensures
        dedup(s).contains(y) <==> s.contains(y),
    decreases s.len(),
{
    if s.len() > 0 {
        lemma_dedup_contains(s.drop_last(), y);
        lemma_drop_last_contains(s, y);
        if !dedup(s.drop_last()).contains(s.last()) {
            lemma_push_contains(dedup(s.drop_last()), s.last(), y);
        }
    }
}

/// What `dedup` returns is duplicate-free.
pub proof fn lemma_dedup_no_dups(s: Seq<Seq<char>>)
    ensures
        no_dups(dedup(s)),
        s.len() > 0 ==> dedup(s).len() > 0,
    decreases s.len(),
{
    if s.len() > 0 {
        lemma_dedup_no_dups(s.drop_last());
        if !dedup(s.drop_last()).contains(s.last()) {
            lemma_push_no_dups(dedup(s.drop_last()), s.last());
        }
    }
}

fn remove_string(v: &Vec<String>, s: &String) -> (r: Vec<String>)
    ensures
        strings_view(r@) == remove_all(strings_view(v@), s@),
{
    let n = v.len();
    let mut out: Vec<String> = Vec::new();
    let mut j: usize = 0;
    while j < n
        invariant
            n == v@.len(),
            j <= n,
            strings_view(out@) == remove_all(strings_view(v@).take(j as int), s@),
        decreases n - j,
    {
        proof {
            assert(strings_view(v@).take(j as int + 1).drop_last() =~= strings_view(v@).take(
                j as int,
            ));
            assert(strings_view(v@).take(j as int + 1).last() == v@[j as int]@);
        }
        if !(v[j] == *s) {
            out.push(v[j].clone());
            proof {
                assert(strings_view(out@).drop_last() =~= remove_all(
                    strings_view(v@).take(j as int),
                    s@,
                ));
                assert(strings_view(out@) =~= remove_all(
                    strings_view(v@).take(j as int + 1),
                    s@,
                ));
            }
        } else {
            proof {
                assert(strings_view(out@) =~= remove_all(strings_view(v@).take(j as int + 1), s@));
            }
        }
        j = j + 1;
    }
    proof {
        assert(strings_view(v@).take(n as int) =~= strings_view(v@));
    }
    out
}

} // verus!
