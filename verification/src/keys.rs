//! Package identity and its two lossless representations.
//!
//! A package is identified by an ecosystem tag, a name and a concrete
//! version. The *fully qualified key* `"<ecosystem>/<name>:<version>"` is the
//! value stored inside dependency and consumer sets; the *structured key*
//! (`package_name = "<ecosystem>/<name>"`, `version`) addresses the package's
//! record in the store.
//!
//! Parsing a fully qualified key mirrors a greedy match of
//! `(.+)/(.+):(.+)` over the whole string: the ecosystem part extends to the
//! last `/` that still leaves a parsable remainder, and the name part then
//! extends to the last usable `:`. `decode_spec` states that choice
//! declaratively; `from_fq_key` implements it and is proved against it.

use vstd::prelude::*;
use vstd::string::*;
use crate::errors::Error;

verus! {

/// The ecosystem tag under which every package handled by this crate is filed.
pub open spec fn spec_build_system() -> Seq<char> {
    "rust"@
}

/// The fully qualified key formed from the three identity parts.
pub open spec fn encode_spec(build_system: Seq<char>, name: Seq<char>, version: Seq<char>) -> Seq<char> {
    build_system + seq!['/'] + name + seq![':'] + version
}

/// `(i, k)` cut `s` into three non-empty parts `s[..i] / s[i+1..k] : s[k+1..]`.
pub open spec fn valid_split(s: Seq<char>, i: int, k: int) -> bool {
    &&& 1 <= i
    &&& i + 1 < k
    &&& k + 1 < s.len()
    &&& s[i] == '/'
    &&& s[k] == ':'
}

/// `s` has the shape `ecosystem/name:version` with all three parts non-empty.
pub open spec fn is_fq_key(s: Seq<char>) -> bool {
    exists|i: int, k: int| valid_split(s, i, k)
}

/// The split a greedy left-to-right match chooses: the rightmost `/` that
/// still leaves a parsable remainder, then the rightmost usable `:`.
pub open spec fn greedy_split(s: Seq<char>, i: int, k: int) -> bool {
    &&& valid_split(s, i, k)
    &&& forall|i2: int, k2: int| valid_split(s, i2, k2) ==> i2 <= i
    &&& forall|k2: int| valid_split(s, i, k2) ==> k2 <= k
}

/// The positions of the two delimiters of the greedy split of `s`.
pub open spec fn fq_split(s: Seq<char>) -> (int, int) {
    choose|i: int, k: int| greedy_split(s, i, k)
}

/// What parsing a fully qualified key returns: the three identity parts,
/// or nothing when the string is malformed.
pub open spec fn decode_spec(s: Seq<char>) -> Option<(Seq<char>, Seq<char>, Seq<char>)> {
    if is_fq_key(s) {
        let ik = fq_split(s);
        Some((s.take(ik.0), s.subrange(ik.0 + 1, ik.1), s.skip(ik.1 + 1)))
    } else {
        None
    }
}

/// The mathematical structured key: the pair addressing a record in the store.
pub ghost struct KeyV {
    pub package_name: Seq<char>,
    pub version: Seq<char>,
}

/// The structured key formed from the three identity parts.
pub open spec fn key_of_parts(build_system: Seq<char>, name: Seq<char>, version: Seq<char>) -> KeyV {
    KeyV { package_name: build_system + seq!['/'] + name, version }
}

/// The fully qualified key a structured key corresponds to.
pub open spec fn fq_of_key(k: KeyV) -> Seq<char> {
    k.package_name + seq![':'] + k.version
}

/// The structured key of a parsable fully qualified key: everything up to the
/// greedy `:` is the package name, everything after it the version.
pub open spec fn decode_key(s: Seq<char>) -> KeyV {
    let ik = fq_split(s);
    KeyV { package_name: s.take(ik.1), version: s.skip(ik.1 + 1) }
}

/// No `/` and no `:` anywhere in `s`.
pub open spec fn delimiter_free(s: Seq<char>) -> bool {
    forall|j: int| 0 <= j < s.len() ==> s[j] != '/' && s[j] != ':'
}

/// No `:` anywhere in `s`.
pub open spec fn colon_free(s: Seq<char>) -> bool {
    forall|j: int| 0 <= j < s.len() ==> s[j] != ':'
}

/// The greedy split is unique.
pub proof fn lemma_greedy_unique(s: Seq<char>, i1: int, k1: int, i2: int, k2: int)
    requires
        greedy_split(s, i1, k1),
        greedy_split(s, i2, k2),
    ensures
        i1 == i2,
        k1 == k2,
{
    assert(valid_split(s, i1, k1));
    assert(valid_split(s, i2, k2));
}

proof fn lemma_max_valid_i(s: Seq<char>, b: int) -> (i: int)
    requires
        exists|i0: int, k0: int| valid_split(s, i0, k0),
        forall|i2: int, k2: int| valid_split(s, i2, k2) ==> i2 <= b,
    ensures
        exists|k: int| valid_split(s, i, k),
        forall|i2: int, k2: int| valid_split(s, i2, k2) ==> i2 <= i,
    decreases b,
{
    let (i0, k0) = choose|i0: int, k0: int| valid_split(s, i0, k0);
    assert(valid_split(s, i0, k0));
    if exists|k: int| valid_split(s, b, k) {
        b
    } else {
        lemma_max_valid_i(s, b - 1)
    }
}

proof fn lemma_max_valid_k(s: Seq<char>, i: int, b: int) -> (k: int)
    requires
        exists|k0: int| valid_split(s, i, k0),
        forall|k2: int| valid_split(s, i, k2) ==> k2 <= b,
    ensures
        valid_split(s, i, k),
        forall|k2: int| valid_split(s, i, k2) ==> k2 <= k,
    decreases b,
{
    let k0 = choose|k0: int| valid_split(s, i, k0);
    assert(valid_split(s, i, k0));
    if valid_split(s, i, b) {
        b
    } else {
        lemma_max_valid_k(s, i, b - 1)
    }
}

/// Every parsable string has a greedy split.
pub proof fn lemma_greedy_exists(s: Seq<char>)
    requires
        is_fq_key(s),
    ensures
        exists|i: int, k: int| greedy_split(s, i, k),
{
    let i = lemma_max_valid_i(s, s.len() - 4);
    let k = lemma_max_valid_k(s, i, s.len() - 2);
    assert(greedy_split(s, i, k));
}

/// The pair `fq_split` names is in fact the greedy split.
pub proof fn lemma_fq_split_props(s: Seq<char>)
    requires
        is_fq_key(s),
    ensures
        greedy_split(s, fq_split(s).0, fq_split(s).1),
{
    lemma_greedy_exists(s);
}

/// Re-encoding what `decode_spec` and `decode_key` return gives the original
/// string back: no information is lost by parsing.
pub proof fn lemma_fq_reconstruct(s: Seq<char>)
    requires
        is_fq_key(s),
    ensures
        ({
            let ik = fq_split(s);
            &&& valid_split(s, ik.0, ik.1)
            &&& encode_spec(s.take(ik.0), s.subrange(ik.0 + 1, ik.1), s.skip(ik.1 + 1)) == s
            &&& fq_of_key(decode_key(s)) == s
        }),
{
    lemma_fq_split_props(s);
    let ik = fq_split(s);
    assert(encode_spec(s.take(ik.0), s.subrange(ik.0 + 1, ik.1), s.skip(ik.1 + 1)) =~= s);
    assert(fq_of_key(decode_key(s)) =~= s);
}

/// The structured key assembled from the three decoded parts is the same as
/// the one cut directly at the greedy `:`.
pub proof fn lemma_decode_parts_key(s: Seq<char>)
    requires
        is_fq_key(s),
    ensures
        ({
            let ik = fq_split(s);
            key_of_parts(s.take(ik.0), s.subrange(ik.0 + 1, ik.1), s.skip(ik.1 + 1)) == decode_key(
                s,
            )
        }),
{
    lemma_fq_split_props(s);
    let ik = fq_split(s);
    assert(s.take(ik.0) + seq!['/'] + s.subrange(ik.0 + 1, ik.1) =~= s.take(ik.1));
}

/// Two parsable fully qualified keys with the same structured key are the
/// same string: the structured key loses nothing either.
pub proof fn lemma_fq_key_injective(a: Seq<char>, b: Seq<char>)
    requires
        is_fq_key(a),
        is_fq_key(b),
        decode_key(a) == decode_key(b),
    ensures
        a == b,
{
    lemma_fq_reconstruct(a);
    lemma_fq_reconstruct(b);
}

/// Round trip of the codec: a key encoded from non-empty, delimiter-free
/// parts decodes to exactly those parts.
pub proof fn lemma_encode_decode(e: Seq<char>, n: Seq<char>, v: Seq<char>)
    requires
        e.len() > 0,
        n.len() > 0,
        v.len() > 0,
        delimiter_free(e),
        delimiter_free(n),
        delimiter_free(v),
    ensures
        is_fq_key(encode_spec(e, n, v)),
        decode_spec(encode_spec(e, n, v)) == Some((e, n, v)),
{
    let s = encode_spec(e, n, v);
    let i0: int = e.len() as int;
    let k0: int = e.len() as int + 1 + n.len() as int;
    assert(s[i0] == '/');
    assert(s[k0] == ':');
    assert(valid_split(s, i0, k0));
    assert forall|j: int| 0 <= j < s.len() && s[j] == '/' implies j == i0 by {
        if j < i0 {
            assert(s[j] == e[j]);
        } else if i0 < j < k0 {
            assert(s[j] == n[j - i0 - 1]);
        } else if j > k0 {
            assert(s[j] == v[j - k0 - 1]);
        }
    }
    assert forall|j: int| 0 <= j < s.len() && s[j] == ':' implies j == k0 by {
        if j < i0 {
            assert(s[j] == e[j]);
        } else if i0 < j < k0 {
            assert(s[j] == n[j - i0 - 1]);
        } else if j > k0 {
            assert(s[j] == v[j - k0 - 1]);
        }
    }
    assert(greedy_split(s, i0, k0));
    lemma_fq_split_props(s);
    lemma_greedy_unique(s, i0, k0, fq_split(s).0, fq_split(s).1);
    assert(s.take(i0) =~= e);
    assert(s.subrange(i0 + 1, k0) =~= n);
    assert(s.skip(k0 + 1) =~= v);
}

/// The fully qualified key of a package of this crate's ecosystem decodes to
/// the structured key built from the same name and version, provided the
/// version holds no `:` (a version with one would shift the greedy cut).
pub proof fn lemma_dep_fq_key(n: Seq<char>, v: Seq<char>)
    requires
        n.len() > 0,
        v.len() > 0,
        colon_free(v),
    ensures
        is_fq_key(encode_spec(spec_build_system(), n, v)),
        decode_key(encode_spec(spec_build_system(), n, v)) == key_of_parts(
            spec_build_system(),
            n,
            v,
        ),
{
    reveal_strlit("rust");
    let e = spec_build_system();
    let s = encode_spec(e, n, v);
    let k0: int = 5 + n.len() as int;
    assert(s[4] == '/');
    assert(s[k0] == ':');
    assert(valid_split(s, 4, k0));
    lemma_fq_split_props(s);
    let gi = fq_split(s).0;
    let gk = fq_split(s).1;
    assert forall|j: int| k0 < j < s.len() implies s[j] != ':' by {
        assert(s[j] == v[j - k0 - 1]);
    }
    assert(s[gk] == ':');
    assert(gk <= k0);
    assert(valid_split(s, gi, k0));
    assert(k0 <= gk);
    assert(s.take(k0) =~= e + seq!['/'] + n);
    assert(s.skip(k0 + 1) =~= v);
}

/// Identifies one concrete, built package.
pub struct PackageKey {
    pub build_system: String,
    pub name: String,
    pub version: String,
}

/// The exact store address of a package record.
pub struct StructuredKey {
    pub package_name: String,
    pub version: String,
}

impl View for StructuredKey {
    type V = KeyV;

    open spec fn view(&self) -> KeyV {
        KeyV { package_name: self.package_name@, version: self.version@ }
    }
}

impl StructuredKey {
    /// An equal key, field by field.
    pub fn duplicate(&self) -> (r: StructuredKey)
        ensures
            r@ == self@,
    {
        StructuredKey {
            package_name: self.package_name.clone(),
            version: self.version.clone(),
        }
    }
}

impl PackageKey {
    /// An equal key, field by field.
    pub fn duplicate(&self) -> (r: PackageKey)
        ensures
            r.build_system@ == self.build_system@,
            r.name@ == self.name@,
            r.version@ == self.version@,
    {
        PackageKey {
            build_system: self.build_system.clone(),
            name: self.name.clone(),
            version: self.version.clone(),
        }
    }

    /// The fully qualified key of this package, as a sequence of characters.
    pub open spec fn fq_spec(&self) -> Seq<char> {
        encode_spec(self.build_system@, self.name@, self.version@)
    }

    /// The structured key of this package, as a mathematical value.
    pub open spec fn key_spec(&self) -> KeyV {
        key_of_parts(self.build_system@, self.name@, self.version@)
    }

    /// Parses a fully qualified key, greedily as described at the top of
    /// this module; fails exactly on strings without the
    /// `ecosystem/name:version` shape.
    pub fn from_fq_key(fq_key: &String) -> (r: Result<PackageKey, Error>)
        ensures
            match r {
                Ok(key) => {
                    &&& is_fq_key(fq_key@)
                    &&& decode_spec(fq_key@) == Some(
                        (key.build_system@, key.name@, key.version@),
                    )
                },
                Err(_) => !is_fq_key(fq_key@),
            },
    {
        let s: &str = fq_key.as_str();
        let n: usize = s.unicode_len();
        if n < 5 {
            proof {
                assert(!is_fq_key(s@)) by {
                    if is_fq_key(s@) {
                        let (i0, k0) = choose|i0: int, k0: int| valid_split(s@, i0, k0);
                        assert(valid_split(s@, i0, k0));
                    }
                }
            }
            return Err(Error::with_msg(malformed_key_msg(fq_key)));
        }
        let mut i: usize = n - 4;
        while 1 <= i
            invariant
                s@ == fq_key@,
                n == s@.len(),
                5 <= n,
                i <= n - 4,
                forall|i2: int, k2: int| valid_split(s@, i2, k2) ==> i2 <= i as int,
            decreases i,
        {
            if s.get_char(i) == '/' {
                let mut k: usize = n - 2;
                while i + 2 <= k
                    invariant
                        s@ == fq_key@,
                        n == s@.len(),
                        5 <= n,
                        1 <= i <= n - 4,
                        i + 1 <= k <= n - 2,
                        s@[i as int] == '/',
                        forall|i2: int, k2: int| valid_split(s@, i2, k2) ==> i2 <= i as int,
                        forall|k2: int| valid_split(s@, i as int, k2) ==> k2 <= k as int,
                    decreases k,
                {
                    if s.get_char(k) == ':' {
                        proof {
                            assert(valid_split(s@, i as int, k as int));
                            assert(greedy_split(s@, i as int, k as int));
                            assert(is_fq_key(s@));
                            lemma_fq_split_props(s@);
                            lemma_greedy_unique(
                                s@,
                                i as int,
                                k as int,
                                fq_split(s@).0,
                                fq_split(s@).1,
                            );
                            assert(decode_spec(s@) == Some(
                                (
                                    s@.subrange(0, i as int),
                                    s@.subrange(i as int + 1, k as int),
                                    s@.subrange(k as int + 1, n as int),
                                ),
                            ));
                        }
                        let build_system = String::from_str(s.substring_char(0, i));
                        let name = String::from_str(s.substring_char(i + 1, k));
                        let version = String::from_str(s.substring_char(k + 1, n));
                        return Ok(PackageKey { build_system, name, version });
                    }
                    k = k - 1;
                }
            }
            i = i - 1;
        }
        proof {
            assert(!is_fq_key(s@)) by {
                if is_fq_key(s@) {
                    let (i0, k0) = choose|i0: int, k0: int| valid_split(s@, i0, k0);
                    assert(valid_split(s@, i0, k0));
                }
            }
        }
        Err(Error::with_msg(malformed_key_msg(fq_key)))
    }

    /// Formats the fully qualified key `"<ecosystem>/<name>:<version>"`.
    pub fn to_fq_key(&self) -> (r: String)
        ensures
            r@ == self.fq_spec(),
    {
        let mut r = self.build_system.clone();
        r.append("/");
        r.append(self.name.as_str());
        r.append(":");
        r.append(self.version.as_str());
        proof {
            reveal_strlit("/");
            reveal_strlit(":");
            assert(r@ =~= self.fq_spec());
        }
        r
    }

    /// The store address of this package's record.
    pub fn structured_key(&self) -> (r: StructuredKey)
        ensures
            r@ == self.key_spec(),
    {
        let mut pn = self.build_system.clone();
        pn.append("/");
        pn.append(self.name.as_str());
        proof {
            reveal_strlit("/");
            assert(pn@ =~= self.build_system@ + seq!['/'] + self.name@);
        }
        StructuredKey { package_name: pn, version: self.version.clone() }
    }
}

/// Formats the fully qualified key of a package of this crate's ecosystem
/// directly from its name and version.
pub fn get_encoded_primary_key(name: &String, version: &String) -> (r: String)
    ensures
        r@ == encode_spec(spec_build_system(), name@, version@),
{
    let mut r = String::from_str("rust/");
    r.append(name.as_str());
    r.append(":");
    r.append(version.as_str());
    proof {
        reveal_strlit("rust/");
        reveal_strlit("rust");
        reveal_strlit(":");
        assert(r@ =~= encode_spec(spec_build_system(), name@, version@));
    }
    r
}

fn malformed_key_msg(fq_key: &String) -> (r: String) {
    let mut msg = String::from_str("fully qualified key is in unexpected format: ");
    msg.append(fq_key.as_str());
    msg
}

} // verus!
