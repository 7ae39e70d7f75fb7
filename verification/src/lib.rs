//! A set of structured data files, addressed as one datastore.
//!
//! A dotted keypath such as `a.b.c` is ambiguous between filesystem path
//! segments and keys inside a file. The keypath parser and the candidate
//! generator live in [`keypath`]; this root module holds the datastore
//! handle, the generic document tree, and the resolution logic that walks
//! the candidates in precedence order until one matches.
//!
//! Reading files and parsing their bytes are the callers' collaborators:
//! a caller probes each candidate path, hands the parsed document in as a
//! [`Node`] tree, and receives the decision. [`resolve`] runs the whole
//! search against an in-memory store of such trees.

use vstd::prelude::*;

pub mod keypath;

use crate::keypath::{
    candidate_at, keypath_components, keypath_valid, num_candidates, views, KeyPath,
    KeyPathParseError,
};

verus! {

/// Error surface of the datastore operations.
#[derive(Debug, PartialEq, Eq)]
pub enum Error {
    /// A requested file was not found or could not be read.
    IOError,
    /// Data could not be parsed into the expected shape.
    DataParseError,
    /// A requested key was not found in the data.
    KeyNotFound,
    /// An empty key vector was passed to a key-chain lookup.
    EmptyKeyVector,
    /// The keypath string itself failed to parse.
    KeyPathError(KeyPathParseError),
}

/// One node of a parsed document.
///
/// `data` is the node's payload, carried through untouched for the caller
/// to decode; `children` is `Some` exactly when the node is a mapping, and
/// then holds its string-keyed entries in document order.
#[derive(Debug, PartialEq)]
pub struct Node<V> {
    /// The payload the caller decodes a matched node from.
    pub data: V,
    /// The mapping entries, when this node is a mapping.
    pub children: Option<Vec<(String, Node<V>)>>,
}

/// The value at `key` among mapping entries: the first entry whose key
/// matches.
pub open spec fn entries_get<V>(es: Seq<(String, Node<V>)>, key: Seq<char>) -> Option<Node<V>>
    decreases es.len(),
{
    if es.len() == 0 {
        None
    } else if es[0].0@ == key {
        Some(es[0].1)
    } else {
        entries_get(es.drop_first(), key)
    }
}

/// What a key-chain lookup in mapping entries returns: an empty chain is
/// refused, each key but the last must lead to a mapping entry, and the
/// node under the last key is the result.
pub open spec fn recurse_spec<V>(es: Seq<(String, Node<V>)>, keys: Seq<Seq<char>>) -> Result<
    Node<V>,
    Error,
>
    decreases keys.len(),
{
    if keys.len() == 0 {
        Err(Error::EmptyKeyVector)
    } else {
        match entries_get(es, keys[0]) {
            None => Err(Error::KeyNotFound),
            Some(node) => if keys.len() == 1 {
                Ok(node)
            } else {
                match node.children {
                    None => Err(Error::KeyNotFound),
                    Some(sub) => recurse_spec(sub@, keys.drop_first()),
                }
            },
        }
    }
}

/// Find the value at `key` among mapping entries.
fn entries_find<'a, V>(es: &'a Vec<(String, Node<V>)>, key: &String) -> (r: Option<&'a Node<V>>)
    ensures
        match entries_get(es@, key@) {
            None => r is None,
            Some(n) => r matches Some(m) && *m == n,
        },
{
    let mut i: usize = 0;
    proof {
        assert(es@.subrange(0, es@.len() as int) =~= es@);
    }
    while i < es.len()
        invariant
            i <= es@.len(),
            entries_get(es@, key@) == entries_get(es@.subrange(i as int, es@.len() as int), key@),
        decreases es@.len() - i,
    {
        proof {
            assert(es@.subrange(i as int, es@.len() as int)[0] == es@[i as int]);
        }
        if es[i].0 == *key {
            return Some(&es[i].1);
        }
        proof {
            assert(es@.subrange(i as int, es@.len() as int).drop_first() =~= es@.subrange(
                i + 1,
                es@.len() as int,
            ));
        }
        i += 1;
    }
    None
}

/// Walk `keys` through nested mapping entries, one level per key: each key
/// but the last must lead to a mapping, and the node under the last key is
/// returned. An empty key list is `EmptyKeyVector`; a missing key or a
/// non-mapping on the way is `KeyNotFound`.
pub fn yaml_mapping_recurse<'a, V>(map: &'a Vec<(String, Node<V>)>, keys: &Vec<String>) -> (r:
    Result<&'a Node<V>, Error>)
    ensures
        r is Ok <==> recurse_spec(map@, views(keys@)) is Ok,
        r matches Ok(n) ==> recurse_spec(map@, views(keys@)) == Ok::<Node<V>, Error>(*n),
        r matches Err(e) ==> recurse_spec(map@, views(keys@)) == Err::<Node<V>, Error>(e),
{
    let ghost ks = views(keys@);
    if keys.len() == 0 {
        return Err(Error::EmptyKeyVector);
    }
    let mut cur: &'a Vec<(String, Node<V>)> = map;
    let mut i: usize = 0;
    proof {
        assert(ks.subrange(0, ks.len() as int) =~= ks);
    }
    while i < keys.len() - 1
        invariant
            keys@.len() >= 1,
            i < keys@.len(),
            ks == views(keys@),
            recurse_spec(map@, ks) == recurse_spec(cur@, ks.subrange(i as int, ks.len() as int)),
        decreases keys@.len() - i,
    {
        proof {
            assert(ks.subrange(i as int, ks.len() as int)[0] == keys@[i as int]@);
        }
        match entries_find(cur, &keys[i]) {
            None => {
                return Err(Error::KeyNotFound);
            },
            Some(node) => {
                match &node.children {
                    None => {
                        return Err(Error::KeyNotFound);
                    },
                    Some(sub) => {
                        proof {
                            assert(ks.subrange(i as int, ks.len() as int).drop_first()
                                =~= ks.subrange(i + 1, ks.len() as int));
                        }
                        cur = sub;
                    },
                }
            },
        }
        i += 1;
    }
    proof {
        assert(ks.subrange(i as int, ks.len() as int).len() == 1);
        assert(ks.subrange(i as int, ks.len() as int)[0] == keys@[i as int]@);
    }
    match entries_find(cur, &keys[i]) {
        None => Err(Error::KeyNotFound),
        Some(node) => Ok(node),
    }
}

/// What one filesystem probe saw of a candidate path.
#[derive(Debug)]
pub enum Probe<'a, V> {
    /// The file does not exist or could not be read.
    Missing,
    /// The file exists but its bytes are not a parsable document.
    Unparsable,
    /// The parsed document.
    Doc(&'a Node<V>),
}

/// The decision for one candidate. A `Miss` is soft: the search moves on
/// to the next candidate.
#[derive(Debug)]
pub enum Outcome<'a, V> {
    /// No match here; try the next candidate.
    Miss,
    /// The whole document is the result (no residual keys).
    WholeDoc(&'a Node<V>),
    /// The node found under the residual keys is the result.
    KeyValue(&'a Node<V>),
}

/// The document a probe carries, if any.
pub open spec fn probe_doc<'a, V>(probe: Probe<'a, V>) -> Option<Node<V>> {
    match probe {
        Probe::Doc(n) => Some(*n),
        _ => None,
    }
}

/// The outcome of one candidate given the probed document (`None` when
/// the file was missing or unparsable) and the residual keys: the whole
/// document when there are no keys, the node under the keys when the walk
/// succeeds, and no outcome otherwise.
pub open spec fn outcome_spec<V>(doc: Option<Node<V>>, keys: Seq<Seq<char>>) -> Option<
    (Node<V>, bool),
> {
    match doc {
        None => None,
        Some(node) => if keys.len() == 0 {
            Some((node, true))
        } else {
            match node.children {
                None => None,
                Some(entries) => match recurse_spec(entries@, keys) {
                    Ok(n) => Some((n, false)),
                    Err(_) => None,
                },
            }
        },
    }
}

/// Decide one candidate. A missing or unparsable file is a soft miss;
/// with no residual keys the whole document matches; otherwise the
/// residual keys are walked through nested mappings, and any failure of
/// that walk is a soft miss.
pub fn try_candidate<'a, V>(probe: Probe<'a, V>, keys: &Vec<String>) -> (r: Outcome<'a, V>)
    ensures
        match outcome_spec(probe_doc(probe), views(keys@)) {
            None => r is Miss,
            Some(p) => if p.1 {
                r matches Outcome::WholeDoc(m) && *m == p.0
            } else {
                r matches Outcome::KeyValue(m) && *m == p.0
            },
        },
{
    match probe {
        Probe::Missing => Outcome::Miss,
        Probe::Unparsable => Outcome::Miss,
        Probe::Doc(node) => {
            if keys.len() == 0 {
                Outcome::WholeDoc(node)
            } else {
                match &node.children {
                    None => Outcome::Miss,
                    Some(entries) => match yaml_mapping_recurse(entries, keys) {
                        Ok(n) => Outcome::KeyValue(n),
                        Err(_) => Outcome::Miss,
                    },
                }
            }
        },
    }
}

/// What an in-memory store holds at `path`. An entry whose document is
/// `None` stands for a file whose bytes do not parse; a path with no entry
/// is a missing file. The first entry for a path wins.
pub open spec fn store_doc<V>(files: Seq<(String, Option<Node<V>>)>, path: Seq<char>) -> Option<
    Node<V>,
>
    decreases files.len(),
{
    if files.len() == 0 {
        None
    } else if files[0].0@ == path {
        files[0].1
    } else {
        store_doc(files.drop_first(), path)
    }
}

/// Look a path up in an in-memory store.
fn store_find<'a, V>(files: &'a Vec<(String, Option<Node<V>>)>, path: &String) -> (r: Option<
    &'a Node<V>,
>)
    ensures
        match store_doc(files@, path@) {
            None => r is None,
            Some(d) => r matches Some(n) && *n == d,
        },
{
    let mut i: usize = 0;
    proof {
        assert(files@.subrange(0, files@.len() as int) =~= files@);
    }
    while i < files.len()
        invariant
            i <= files@.len(),
            store_doc(files@, path@) == store_doc(
                files@.subrange(i as int, files@.len() as int),
                path@,
            ),
        decreases files@.len() - i,
    {
        proof {
            assert(files@.subrange(i as int, files@.len() as int)[0] == files@[i as int]);
        }
        if files[i].0 == *path {
            return match &files[i].1 {
                Some(d) => Some(d),
                None => None,
            };
        }
        proof {
            assert(files@.subrange(i as int, files@.len() as int).drop_first() =~= files@.subrange(
                i + 1,
                files@.len() as int,
            ));
        }
        i += 1;
    }
    None
}

/// The outcome of candidate `j` against an in-memory store.
pub open spec fn hit_at<V>(
    files: Seq<(String, Option<Node<V>>)>,
    cs: Seq<Seq<char>>,
    exts: Seq<Seq<char>>,
    j: int,
) -> Option<(Node<V>, bool)> {
    outcome_spec(store_doc(files, candidate_at(cs, exts, j).0), candidate_at(cs, exts, j).1)
}

/// The first candidate at or after `j` with an outcome, and that outcome.
pub open spec fn first_hit_from<V>(
    files: Seq<(String, Option<Node<V>>)>,
    cs: Seq<Seq<char>>,
    exts: Seq<Seq<char>>,
    j: int,
) -> Option<(int, (Node<V>, bool))>
    decreases num_candidates(cs, exts) - j,
{
    if j < 0 || j >= num_candidates(cs, exts) {
        None
    } else {
        match hit_at(files, cs, exts, j) {
            Some(h) => Some((j, h)),
            None => first_hit_from(files, cs, exts, j + 1),
        }
    }
}

/// The result of a successful resolution: the matched node, and whether it
/// is a whole document (no residual keys were left) or the value under the
/// final residual key.
#[derive(Debug)]
pub struct Resolved<'a, V> {
    /// The matched node.
    pub node: &'a Node<V>,
    /// True when the match consumed every component as path, so the whole
    /// document is the result.
    pub whole_file: bool,
}

/// Resolve a raw keypath against an in-memory store of parsed documents:
/// parse the keypath, then try every candidate interpretation in
/// precedence order (longest path prefix first) and return the first
/// match. An invalid keypath is a hard error before any candidate is
/// tried; exhausting the candidates is `KeyNotFound`.
pub fn resolve<'a, V>(
    files: &'a Vec<(String, Option<Node<V>>)>,
    raw_keypath: &str,
    extensions: &Vec<String>,
) -> (r: Result<Resolved<'a, V>, Error>)
    ensures
        !keypath_valid(raw_keypath@) ==> (r matches Err(e) && e == Error::KeyPathError(
            KeyPathParseError::InvalidKeyPath,
        )),
        keypath_valid(raw_keypath@) ==> (match first_hit_from(
            files@,
            keypath_components(raw_keypath@),
            views(extensions@),
            0,
        ) {
            None => r matches Err(e) && e == Error::KeyNotFound,
            Some(h) => r matches Ok(res) && *res.node == h.1.0 && res.whole_file == h.1.1,
        }),
{
    let ghost cs = keypath_components(raw_keypath@);
    let ghost exts = views(extensions@);
    let kp = match KeyPath::try_from(raw_keypath) {
        Err(_) => {
            return Err(Error::KeyPathError(KeyPathParseError::InvalidKeyPath));
        },
        Ok(kp) => kp,
    };
    let mut it = kp.candidates(extensions);
    loop
        invariant
            it.wf(),
            keypath_valid(raw_keypath@),
            cs == keypath_components(raw_keypath@),
            exts == views(extensions@),
            views(it.components@) == cs,
            views(it.extensions@) == exts,
            it.back as int == it.total(),
            it.total() == num_candidates(cs, exts),
            first_hit_from(files@, cs, exts, 0) == first_hit_from(
                files@,
                cs,
                exts,
                it.front as int,
            ),
        decreases it.back as int - it.front as int,
    {
        let ghost j = it.front as int;
        match it.next() {
            None => {
                return Err(Error::KeyNotFound);
            },
            Some((path, keys)) => {
                let probe = match store_find(files, &path) {
                    None => Probe::Missing,
                    Some(d) => Probe::Doc(d),
                };
                proof {
                    assert(path@ == candidate_at(cs, exts, j).0);
                    assert(views(keys@) == candidate_at(cs, exts, j).1);
                    assert(probe_doc(probe) == store_doc(files@, candidate_at(cs, exts, j).0));
                }
                match try_candidate(probe, &keys) {
                    Outcome::Miss => {
                        proof {
                            assert(hit_at(files@, cs, exts, j) is None);
                            assert(first_hit_from(files@, cs, exts, j) == first_hit_from(
                                files@,
                                cs,
                                exts,
                                j + 1,
                            ));
                        }
                    },
                    Outcome::WholeDoc(n) => {
                        proof {
                            assert(hit_at(files@, cs, exts, j) == Some((*n, true)));
                        }
                        return Ok(Resolved { node: n, whole_file: true });
                    },
                    Outcome::KeyValue(n) => {
                        proof {
                            assert(hit_at(files@, cs, exts, j) == Some((*n, false)));
                        }
                        return Ok(Resolved { node: n, whole_file: false });
                    },
                }
            },
        }
    }
}

/// Handle for a datastore rooted at a directory.
///
/// Open with [`open`](Datastore::open). The handle only records the root;
/// it performs no I/O.
#[derive(Debug)]
pub struct Datastore {
    /// The filesystem root of the datastore. All lookups are done relative
    /// to this path.
    root: String,
}

impl Datastore {
    /// The root path this handle was opened with.
    pub closed spec fn root_spec(&self) -> Seq<char> {
        self.root@
    }

    /// Open a handle to a datastore at the given root path.
    ///
    /// At present, this doesn't actually perform any operations.
    pub fn open(path: &str) -> (r: Datastore)
        ensures
            r.root_spec() == path@,
    {
        Datastore { root: String::from_str(path) }
    }

    /// The root path this handle was opened with.
    pub fn root(&self) -> (r: &str)
        ensures
            r@ == self.root_spec(),
    {
        self.root.as_str()
    }
}

/// LAW: resolution never backtracks past a match and absorbs every soft
/// miss: the hit the search reports is the first candidate at or after `j`
/// with an outcome, every candidate before it has none, and an exhausted
/// search means no candidate at all had one.
pub proof fn lemma_first_hit_minimal<V>(
    files: Seq<(String, Option<Node<V>>)>,
    cs: Seq<Seq<char>>,
    exts: Seq<Seq<char>>,
    j: int,
)
    requires
        0 <= j,
    ensures
        first_hit_from(files, cs, exts, j) matches Some(h) ==> j <= h.0 < num_candidates(cs, exts)
            && hit_at(files, cs, exts, h.0) == Some(h.1) && (forall|k: int|
            j <= k < h.0 ==> #[trigger] hit_at(files, cs, exts, k) is None),
        first_hit_from(files, cs, exts, j) is None ==> forall|k: int|
            j <= k < num_candidates(cs, exts) ==> #[trigger] hit_at(files, cs, exts, k) is None,
    decreases num_candidates(cs, exts) - j,
{
    if j < num_candidates(cs, exts) {
        if hit_at(files, cs, exts, j) is None {
            lemma_first_hit_minimal(files, cs, exts, j + 1);
        }
    }
}

/// LAW: an empty key list is refused as `EmptyKeyVector`, and only an
/// empty key list is: a key-chain lookup given at least one key never
/// reports `EmptyKeyVector`, so that error is distinct from `KeyNotFound`.
pub proof fn lemma_empty_key_vector<V>(es: Seq<(String, Node<V>)>, keys: Seq<Seq<char>>)
    ensures
        keys.len() == 0 ==> recurse_spec(es, keys) == Err::<Node<V>, Error>(Error::EmptyKeyVector),
        keys.len() > 0 ==> recurse_spec(es, keys) != Err::<Node<V>, Error>(Error::EmptyKeyVector),
    decreases keys.len(),
{
    if keys.len() > 1 {
        match entries_get(es, keys[0]) {
            None => {},
            Some(node) => {
                match node.children {
                    None => {},
                    Some(sub) => {
                        lemma_empty_key_vector(sub@, keys.drop_first());
                    },
                }
            },
        }
    }
}

} // verus!
