//! Per-tag collections and the classification driver.
//!
//! Classification offers each path to the collections in declaration
//! order; the first collection whose pattern matches claims the path
//! exclusively, and a path matching no pattern is silently dropped.  The
//! spec functions `spec_offer` and `spec_classify_upto` state that fold
//! exactly; `classify` is proved to produce precisely their value.

use vstd::prelude::*;

use crate::key::{key_eq, key_of_caps, FileKey};
use crate::parser::Declaration;
use crate::pattern::Pattern;
use crate::types::{KeyPart, TagName};
use vstd::string::StringExecFns;

verus! {

/// The mathematical form of one key-to-paths bucket list.
pub open spec fn coll_view(files: Seq<(FileKey, Vec<String>)>) -> Seq<
    (Seq<(Seq<char>, Seq<char>)>, Seq<Seq<char>>),
> {
    files.map_values(
        |b: (FileKey, Vec<String>)| (b.0@, b.1@.map_values(|p: String| p@)),
    )
}

/// Appending one path under one key: the first bucket of that key grows,
/// or a new bucket opens at the end.
pub open spec fn spec_add(
    buckets: Seq<(Seq<(Seq<char>, Seq<char>)>, Seq<Seq<char>>)>,
    key: Seq<(Seq<char>, Seq<char>)>,
    path: Seq<char>,
) -> Seq<(Seq<(Seq<char>, Seq<char>)>, Seq<Seq<char>>)>
    decreases buckets.len(),
{
    if buckets.len() == 0 {
        seq![(key, seq![path])]
    } else if buckets[0].0 == key {
        seq![(buckets[0].0, buckets[0].1.push(path))] + buckets.skip(1)
    } else {
        seq![buckets[0]] + spec_add(buckets.skip(1), key, path)
    }
}

proof fn lemma_spec_add_at(
    buckets: Seq<(Seq<(Seq<char>, Seq<char>)>, Seq<Seq<char>>)>,
    key: Seq<(Seq<char>, Seq<char>)>,
    path: Seq<char>,
    i: int,
)
    requires
        0 <= i < buckets.len(),
        buckets[i].0 == key,
        forall|j: int| 0 <= j < i ==> buckets[j].0 != key,
    ensures
        spec_add(buckets, key, path) == buckets.update(
            i,
            (buckets[i].0, buckets[i].1.push(path)),
        ),
    decreases i,
{
    if i == 0 {
        assert(spec_add(buckets, key, path) =~= buckets.update(
            0,
            (buckets[0].0, buckets[0].1.push(path)),
        ));
    } else {
        assert(buckets.skip(1)[i - 1] == buckets[i]);
        assert(forall|j: int| 0 <= j < i - 1 ==> buckets.skip(1)[j] == buckets[j + 1]);
        lemma_spec_add_at(buckets.skip(1), key, path, i - 1);
        assert(spec_add(buckets, key, path) =~= buckets.update(
            i,
            (buckets[i].0, buckets[i].1.push(path)),
        ));
    }
}

proof fn lemma_spec_add_new(
    buckets: Seq<(Seq<(Seq<char>, Seq<char>)>, Seq<Seq<char>>)>,
    key: Seq<(Seq<char>, Seq<char>)>,
    path: Seq<char>,
)
    requires
        forall|j: int| 0 <= j < buckets.len() ==> (#[trigger] buckets[j]).0 != key,
    ensures
        spec_add(buckets, key, path) == buckets.push((key, seq![path])),
    decreases buckets.len(),
{
    if buckets.len() == 0 {
        assert(spec_add(buckets, key, path) =~= buckets.push((key, seq![path])));
    } else {
        lemma_spec_add_new(buckets.skip(1), key, path);
        assert(spec_add(buckets, key, path) =~= buckets.push((key, seq![path])));
    }
}

/// One tag's collection: the tag, its compiled pattern, and the mapping
/// from extracted keys to the paths that produced them, in order of
/// discovery.
#[derive(Debug)]
pub struct FileCollection {
    pub tag: TagName,
    pub pattern: Pattern,
    pub files: Vec<(FileKey, Vec<String>)>,
}

impl FileCollection {
    pub open spec fn wf(self) -> bool {
        self.pattern.wf()
    }

    /// An empty collection for one tag and its compiled pattern.
    pub fn new(tag: TagName, pattern: Pattern) -> (r: Self)
        requires
            pattern.wf(),
        ensures
            r.wf(),
            r.tag == tag,
            r.pattern == pattern,
            r.files@.len() == 0,
    {
        Self { tag, pattern, files: Vec::new() }
    }

    /// Offers one path: on a match the path joins the bucket of its
    /// extracted key (within-bucket order is order of discovery) and the
    /// call reports success; otherwise the collection is unchanged.
    pub fn add_if_matches(&mut self, path: &str) -> (r: bool)
        requires
            old(self).wf(),
        ensures
            final(self).wf(),
            final(self).tag == old(self).tag,
            final(self).pattern == old(self).pattern,
            r == (old(self).pattern.spec_match(path@) is Some),
            !r ==> final(self).files@ == old(self).files@,
            r ==> (old(self).pattern.spec_match(path@) matches Some(caps) && coll_view(
                final(self).files@,
            ) == spec_add(
                coll_view(old(self).files@),
                key_of_caps(
                    old(self).pattern.placeholders@.map_values(|p: KeyPart| p.0@),
                    caps,
                ),
                path@,
            )),
    {
        let m = self.pattern.parse(path);
        match m {
            None => false,
            Some(key) => {
                let ghost buckets0 = coll_view(self.files@);
                let p = String::from_str(path);
                let mut i: usize = 0;
                while i < self.files.len()
                    invariant
                        i <= self.files@.len(),
                        forall|j: int| 0 <= j < i ==> coll_view(self.files@)[j].0 != key@,
                        buckets0 == coll_view(self.files@),
                        old(self).wf(),
                        old(self).pattern.spec_match(path@) is Some,
                        self.tag == old(self).tag,
                        self.pattern == old(self).pattern,
                        self.files@ == old(self).files@,
                        key@ == key_of_caps(
                            old(self).pattern.placeholders@.map_values(|p: KeyPart| p.0@),
                            old(self).pattern.spec_match(path@)->Some_0,
                        ),
                        p@ == path@,
                    decreases self.files@.len() - i,
                {
                    if key_eq(&self.files[i].0, &key) {
                        let mut row = self.files.remove(i);
                        row.1.push(p);
                        self.files.insert(i, row);
                        proof {
                            lemma_spec_add_at(buckets0, key@, path@, i as int);
                            assert(coll_view(self.files@) =~~= spec_add(buckets0, key@, path@));
                        }
                        return true;
                    }
                    assert(coll_view(self.files@)[i as int].0 == self.files@[i as int].0@);
                    i = i + 1;
                }
                let mut paths: Vec<String> = Vec::new();
                paths.push(p);
                self.files.push((key, paths));
                proof {
                    lemma_spec_add_new(buckets0, key@, path@);
                    assert(coll_view(self.files@) =~~= spec_add(buckets0, key@, path@));
                }
                true
            },
        }
    }
}

/// The mathematical form of one collection: tag text, pattern, buckets.
pub open spec fn coll_v(c: FileCollection) -> (
    Seq<char>,
    Pattern,
    Seq<(Seq<(Seq<char>, Seq<char>)>, Seq<Seq<char>>)>,
) {
    (c.tag.0@, c.pattern, coll_view(c.files@))
}

pub open spec fn colls_view(cs: Seq<FileCollection>) -> Seq<
    (Seq<char>, Pattern, Seq<(Seq<(Seq<char>, Seq<char>)>, Seq<Seq<char>>)>),
> {
    cs.map_values(|c: FileCollection| coll_v(c))
}

/// The key a pattern extracts from a path it matches.
pub open spec fn offer_key(p: Pattern, path: Seq<char>) -> Seq<(Seq<char>, Seq<char>)> {
    key_of_caps(p.placeholders@.map_values(|q: KeyPart| q.0@), p.spec_match(path)->Some_0)
}

/// Offering one path to the collections from `i` on, in declared order:
/// the first whose pattern matches claims it; matching none, it is
/// dropped.
pub open spec fn spec_offer(
    cs: Seq<(Seq<char>, Pattern, Seq<(Seq<(Seq<char>, Seq<char>)>, Seq<Seq<char>>)>)>,
    path: Seq<char>,
    i: int,
) -> Seq<(Seq<char>, Pattern, Seq<(Seq<(Seq<char>, Seq<char>)>, Seq<Seq<char>>)>)>
    decreases cs.len() - i,
{
    if i < 0 || i >= cs.len() {
        cs
    } else if cs[i].1.spec_match(path) is Some {
        cs.update(i, (cs[i].0, cs[i].1, spec_add(cs[i].2, offer_key(cs[i].1, path), path)))
    } else {
        spec_offer(cs, path, i + 1)
    }
}

/// Classification of the first `j` paths, in order.
pub open spec fn spec_classify_upto(
    cs0: Seq<(Seq<char>, Pattern, Seq<(Seq<(Seq<char>, Seq<char>)>, Seq<Seq<char>>)>)>,
    paths: Seq<Seq<char>>,
    j: int,
) -> Seq<(Seq<char>, Pattern, Seq<(Seq<(Seq<char>, Seq<char>)>, Seq<Seq<char>>)>)>
    decreases j,
{
    if j <= 0 {
        cs0
    } else {
        spec_offer(spec_classify_upto(cs0, paths, j - 1), paths[j - 1], 0)
    }
}

/// Empty collections for the declared tag/pattern pairs, in declaration
/// order.
pub open spec fn init_colls(es: Seq<(TagName, Pattern)>) -> Seq<
    (Seq<char>, Pattern, Seq<(Seq<(Seq<char>, Seq<char>)>, Seq<Seq<char>>)>),
> {
    es.map_values(
        |e: (TagName, Pattern)|
            (
                e.0.0@,
                e.1,
                Seq::<(Seq<(Seq<char>, Seq<char>)>, Seq<Seq<char>>)>::empty(),
            ),
    )
}

proof fn lemma_spec_offer_at(
    cs: Seq<(Seq<char>, Pattern, Seq<(Seq<(Seq<char>, Seq<char>)>, Seq<Seq<char>>)>)>,
    path: Seq<char>,
    k: int,
    i: int,
)
    requires
        0 <= k <= i < cs.len(),
        cs[i].1.spec_match(path) is Some,
        forall|t: int| k <= t < i ==> (#[trigger] cs[t]).1.spec_match(path) is None,
    ensures
        spec_offer(cs, path, k) == cs.update(
            i,
            (cs[i].0, cs[i].1, spec_add(cs[i].2, offer_key(cs[i].1, path), path)),
        ),
    decreases i - k,
{
    if k < i {
        lemma_spec_offer_at(cs, path, k + 1, i);
    }
}

proof fn lemma_spec_offer_none(
    cs: Seq<(Seq<char>, Pattern, Seq<(Seq<(Seq<char>, Seq<char>)>, Seq<Seq<char>>)>)>,
    path: Seq<char>,
    k: int,
)
    requires
        0 <= k,
        forall|t: int| k <= t < cs.len() ==> (#[trigger] cs[t]).1.spec_match(path) is None,
    ensures
        spec_offer(cs, path, k) == cs,
    decreases cs.len() - k,
{
    if k < cs.len() {
        lemma_spec_offer_none(cs, path, k + 1);
    }
}

/// Whether some bucket of a collection holds the path.
pub open spec fn coll_has_path(
    bs: Seq<(Seq<(Seq<char>, Seq<char>)>, Seq<Seq<char>>)>,
    p: Seq<char>,
) -> bool {
    exists|b: int, x: int|
        0 <= b < bs.len() && 0 <= x < bs[b].1.len() && bs[b].1[x] == p
}

proof fn lemma_offer_shape(
    cs: Seq<(Seq<char>, Pattern, Seq<(Seq<(Seq<char>, Seq<char>)>, Seq<Seq<char>>)>)>,
    path: Seq<char>,
    k: int,
)
    ensures
        spec_offer(cs, path, k).len() == cs.len(),
        forall|i: int|
            0 <= i < cs.len() ==> (#[trigger] spec_offer(cs, path, k)[i]).0 == cs[i].0
                && spec_offer(cs, path, k)[i].1 == cs[i].1,
    decreases cs.len() - k,
{
    if 0 <= k < cs.len() && !(cs[k].1.spec_match(path) is Some) {
        lemma_offer_shape(cs, path, k + 1);
    }
}

proof fn lemma_spec_add_paths(
    bs: Seq<(Seq<(Seq<char>, Seq<char>)>, Seq<Seq<char>>)>,
    key: Seq<(Seq<char>, Seq<char>)>,
    p: Seq<char>,
    q: Seq<char>,
)
    requires
        coll_has_path(spec_add(bs, key, p), q),
    ensures
        coll_has_path(bs, q) || q == p,
    decreases bs.len(),
{
    let r = spec_add(bs, key, p);
    let (b, x) = choose|b: int, x: int|
        0 <= b < r.len() && 0 <= x < r[b].1.len() && r[b].1[x] == q;
    if bs.len() == 0 {
    } else if bs[0].0 == key {
        if b == 0 {
            if x < bs[0].1.len() {
                assert(bs[0].1[x] == q);
            }
        } else {
            assert(r[b] == bs[b]);
            assert(coll_has_path(bs, q));
        }
    } else {
        if b == 0 {
            assert(r[0] == bs[0]);
        } else {
            assert(r[b] == spec_add(bs.skip(1), key, p)[b - 1]);
            assert(coll_has_path(spec_add(bs.skip(1), key, p), q));
            lemma_spec_add_paths(bs.skip(1), key, p, q);
            if coll_has_path(bs.skip(1), q) {
                let (b2, x2) = choose|b2: int, x2: int|
                    0 <= b2 < bs.skip(1).len() && 0 <= x2 < bs.skip(1)[b2].1.len() && bs.skip(
                        1,
                    )[b2].1[x2] == q;
                assert(bs[b2 + 1].1[x2] == q);
            }
        }
    }
}

proof fn lemma_offer_paths(
    cs: Seq<(Seq<char>, Pattern, Seq<(Seq<(Seq<char>, Seq<char>)>, Seq<Seq<char>>)>)>,
    path: Seq<char>,
    k: int,
    i: int,
    q: Seq<char>,
)
    requires
        0 <= k,
        0 <= i < cs.len(),
        coll_has_path(spec_offer(cs, path, k)[i].2, q),
    ensures
        coll_has_path(cs[i].2, q) || (q == path && k <= i && cs[i].1.spec_match(path) is Some
            && forall|t: int| k <= t < i ==> (#[trigger] cs[t]).1.spec_match(path) is None),
    decreases cs.len() - k,
{
    if k >= cs.len() {
    } else if cs[k].1.spec_match(path) is Some {
        if i == k {
            lemma_spec_add_paths(cs[k].2, offer_key(cs[k].1, path), path, q);
        }
    } else {
        lemma_offer_paths(cs, path, k + 1, i, q);
    }
}

/// Classification claims each path for at most the first matching tag:
/// a path standing in the collection of tag `i` was among the offered
/// paths, is matched by that tag's pattern, and is matched by no pattern
/// declared before it — so a path matching no declared pattern stands in
/// no collection at all, and one matching several belongs only to the
/// first in declared order.
pub proof fn lemma_classification_membership(
    es: Seq<(TagName, Pattern)>,
    paths: Seq<Seq<char>>,
    j: int,
    i: int,
    q: Seq<char>,
)
    requires
        0 <= i < es.len(),
        0 <= j <= paths.len(),
        coll_has_path(spec_classify_upto(init_colls(es), paths, j)[i].2, q),
    ensures
        exists|jj: int| 0 <= jj < j && paths[jj] == q,
        es[i].1.spec_match(q) is Some,
        forall|t: int| 0 <= t < i ==> (#[trigger] es[t]).1.spec_match(q) is None,
    decreases j,
{
    lemma_classify_shape(init_colls(es), paths, j);
    assert(init_colls(es)[i].2.len() == 0);
    if j <= 0 {
        assert(!coll_has_path(init_colls(es)[i].2, q));
    } else {
        let prev = spec_classify_upto(init_colls(es), paths, j - 1);
        lemma_classify_shape(init_colls(es), paths, j - 1);
        lemma_offer_paths(prev, paths[j - 1], 0, i, q);
        if coll_has_path(prev[i].2, q) {
            lemma_classification_membership(es, paths, j - 1, i, q);
        } else {
            assert(prev[i].1 == init_colls(es)[i].1);
            assert(init_colls(es)[i].1 == es[i].1);
            assert(paths[j - 1] == q);
            assert forall|t: int| 0 <= t < i implies (#[trigger] es[t]).1.spec_match(q) is None by {
                assert(prev[t].1.spec_match(paths[j - 1]) is None);
                assert(prev[t].1 == init_colls(es)[t].1);
                assert(init_colls(es)[t].1 == es[t].1);
            }
        }
    }
}

proof fn lemma_spec_add_keeps(
    bs: Seq<(Seq<(Seq<char>, Seq<char>)>, Seq<Seq<char>>)>,
    key: Seq<(Seq<char>, Seq<char>)>,
    p: Seq<char>,
    q: Seq<char>,
)
    requires
        coll_has_path(bs, q),
    ensures
        coll_has_path(spec_add(bs, key, p), q),
    decreases bs.len(),
{
    let r = spec_add(bs, key, p);
    let (b, x) = choose|b: int, x: int|
        0 <= b < bs.len() && 0 <= x < bs[b].1.len() && bs[b].1[x] == q;
    if bs[0].0 == key {
        if b == 0 {
            assert(r[0].1[x] == q);
        } else {
            assert(r[b].1[x] == q);
        }
    } else {
        if b == 0 {
            assert(r[0].1[x] == q);
        } else {
            assert(bs.skip(1)[b - 1].1[x] == q);
            lemma_spec_add_keeps(bs.skip(1), key, p, q);
            let (b2, x2) = choose|b2: int, x2: int|
                0 <= b2 < spec_add(bs.skip(1), key, p).len() && 0 <= x2 < spec_add(
                    bs.skip(1),
                    key,
                    p,
                )[b2].1.len() && spec_add(bs.skip(1), key, p)[b2].1[x2] == q;
            assert(r[b2 + 1].1[x2] == q);
        }
    }
}

proof fn lemma_spec_add_gains(
    bs: Seq<(Seq<(Seq<char>, Seq<char>)>, Seq<Seq<char>>)>,
    key: Seq<(Seq<char>, Seq<char>)>,
    p: Seq<char>,
)
    ensures
        coll_has_path(spec_add(bs, key, p), p),
    decreases bs.len(),
{
    let r = spec_add(bs, key, p);
    if bs.len() == 0 {
        assert(r[0].1[0] == p);
    } else if bs[0].0 == key {
        assert(r[0].1[bs[0].1.len() as int] == p);
    } else {
        lemma_spec_add_gains(bs.skip(1), key, p);
        let (b2, x2) = choose|b2: int, x2: int|
            0 <= b2 < spec_add(bs.skip(1), key, p).len() && 0 <= x2 < spec_add(
                bs.skip(1),
                key,
                p,
            )[b2].1.len() && spec_add(bs.skip(1), key, p)[b2].1[x2] == p;
        assert(r[b2 + 1].1[x2] == p);
    }
}

proof fn lemma_offer_keeps(
    cs: Seq<(Seq<char>, Pattern, Seq<(Seq<(Seq<char>, Seq<char>)>, Seq<Seq<char>>)>)>,
    path: Seq<char>,
    k: int,
    i: int,
    q: Seq<char>,
)
    requires
        0 <= i < cs.len(),
        coll_has_path(cs[i].2, q),
    ensures
        coll_has_path(spec_offer(cs, path, k)[i].2, q),
    decreases cs.len() - k,
{
    if k < 0 || k >= cs.len() {
    } else if cs[k].1.spec_match(path) is Some {
        if i == k {
            lemma_spec_add_keeps(cs[k].2, offer_key(cs[k].1, path), path, q);
        }
    } else {
        lemma_offer_keeps(cs, path, k + 1, i, q);
    }
}

proof fn lemma_offer_claims_first(
    cs: Seq<(Seq<char>, Pattern, Seq<(Seq<(Seq<char>, Seq<char>)>, Seq<Seq<char>>)>)>,
    path: Seq<char>,
    k: int,
    i: int,
)
    requires
        0 <= k <= i < cs.len(),
        cs[i].1.spec_match(path) is Some,
        forall|t: int| k <= t < i ==> (#[trigger] cs[t]).1.spec_match(path) is None,
    ensures
        coll_has_path(spec_offer(cs, path, k)[i].2, path),
    decreases i - k,
{
    if k == i {
        lemma_spec_add_gains(cs[i].2, offer_key(cs[i].1, path), path);
    } else {
        lemma_offer_claims_first(cs, path, k + 1, i);
    }
}

/// The converse inclusion: every offered path that some declared pattern
/// matches stands in the collection of the first matching tag.  Together
/// with `lemma_classification_membership`, membership in a collection
/// depends only on which paths were offered — never on the order the
/// traversal produced them in.
pub proof fn lemma_matching_path_included(
    es: Seq<(TagName, Pattern)>,
    paths: Seq<Seq<char>>,
    j: int,
    jj: int,
    i: int,
)
    requires
        0 <= i < es.len(),
        0 <= jj < j <= paths.len(),
        es[i].1.spec_match(paths[jj]) is Some,
        forall|t: int| 0 <= t < i ==> (#[trigger] es[t]).1.spec_match(paths[jj]) is None,
    ensures
        coll_has_path(spec_classify_upto(init_colls(es), paths, j)[i].2, paths[jj]),
    decreases j,
{
    let q = paths[jj];
    let prev = spec_classify_upto(init_colls(es), paths, j - 1);
    lemma_classify_shape(init_colls(es), paths, j - 1);
    assert(prev[i].1 == init_colls(es)[i].1);
    assert(init_colls(es)[i].1 == es[i].1);
    if jj < j - 1 {
        lemma_matching_path_included(es, paths, j - 1, jj, i);
        lemma_offer_keeps(prev, paths[j - 1], 0, i, q);
    } else {
        assert forall|t: int| 0 <= t < i implies (#[trigger] prev[t]).1.spec_match(q) is None by {
            assert(prev[t].1 == init_colls(es)[t].1);
            assert(init_colls(es)[t].1 == es[t].1);
        }
        lemma_offer_claims_first(prev, q, 0, i);
    }
}

/// Classification membership in full: a path stands in the collection of
/// tag `i` exactly when it was among the offered paths, its pattern
/// matches, and no earlier-declared pattern does.  The right-hand side
/// does not mention the order of the offered paths: traversal order never
/// affects which collection a path lands in.
pub proof fn lemma_classification_iff(
    es: Seq<(TagName, Pattern)>,
    paths: Seq<Seq<char>>,
    i: int,
    q: Seq<char>,
)
    requires
        0 <= i < es.len(),
    ensures
        coll_has_path(
            spec_classify_upto(init_colls(es), paths, paths.len() as int)[i].2,
            q,
        ) <==> ((exists|jj: int| 0 <= jj < paths.len() && paths[jj] == q)
            && es[i].1.spec_match(q) is Some && forall|t: int|
            0 <= t < i ==> (#[trigger] es[t]).1.spec_match(q) is None),
{
    if coll_has_path(spec_classify_upto(init_colls(es), paths, paths.len() as int)[i].2, q) {
        lemma_classification_membership(es, paths, paths.len() as int, i, q);
    }
    if (exists|jj: int| 0 <= jj < paths.len() && paths[jj] == q) && es[i].1.spec_match(q) is Some
        && (forall|t: int| 0 <= t < i ==> (#[trigger] es[t]).1.spec_match(q) is None) {
        let jj = choose|jj: int| 0 <= jj < paths.len() && paths[jj] == q;
        lemma_matching_path_included(es, paths, paths.len() as int, jj, i);
    }
}

proof fn lemma_classify_shape(
    cs0: Seq<(Seq<char>, Pattern, Seq<(Seq<(Seq<char>, Seq<char>)>, Seq<Seq<char>>)>)>,
    paths: Seq<Seq<char>>,
    j: int,
)
    ensures
        spec_classify_upto(cs0, paths, j).len() == cs0.len(),
        forall|i: int|
            0 <= i < cs0.len() ==> (#[trigger] spec_classify_upto(cs0, paths, j)[i]).0
                == cs0[i].0 && spec_classify_upto(cs0, paths, j)[i].1 == cs0[i].1,
    decreases j,
{
    if j > 0 {
        lemma_classify_shape(cs0, paths, j - 1);
        lemma_offer_shape(spec_classify_upto(cs0, paths, j - 1), paths[j - 1], 0);
    }
}

/// The classification driver: builds one empty collection per declared
/// tag, then offers every path to the collections in declaration order;
/// the first whose pattern matches claims the path exclusively, and a
/// path matching none is dropped.
pub fn classify(declaration: Declaration, paths: &Vec<String>) -> (r: Vec<FileCollection>)
    requires
        declaration.wf(),
    ensures
        colls_view(r@) == spec_classify_upto(
            init_colls(declaration.0@),
            paths@.map_values(|p: String| p@),
            paths@.len() as int,
        ),
        forall|i: int| 0 <= i < r@.len() ==> (#[trigger] r@[i]).wf(),
        r@.len() == declaration.0@.len(),
{
    let ghost d0 = declaration.0@;
    let ghost pv = paths@.map_values(|p: String| p@);
    let mut entries = declaration.0;
    let mut cols: Vec<FileCollection> = Vec::new();
    while entries.len() > 0
        invariant
            entries@ == d0.skip(cols@.len() as int),
            cols@.len() <= d0.len(),
            forall|i: int| 0 <= i < d0.len() ==> (#[trigger] d0[i]).1.wf(),
            forall|i: int| 0 <= i < cols@.len() ==> (#[trigger] cols@[i]).wf(),
            forall|i: int|
                0 <= i < cols@.len() ==> coll_v(#[trigger] cols@[i]) == init_colls(d0)[i],
        decreases entries@.len(),
    {
        let ghost k = cols@.len() as int;
        assert(entries@[0] == d0[k]);
        let e = entries.remove(0);
        cols.push(FileCollection::new(e.0, e.1));
        proof {
            assert(entries@ =~= d0.skip(k + 1));
            assert(coll_v(cols@[k]) =~~= init_colls(d0)[k]);
        }
    }
    proof {
        assert(colls_view(cols@) =~~= init_colls(d0));
        assert(spec_classify_upto(init_colls(d0), pv, 0) == init_colls(d0));
    }
    let mut j: usize = 0;
    while j < paths.len()
        invariant
            j <= paths@.len(),
            pv == paths@.map_values(|p: String| p@),
            colls_view(cols@) == spec_classify_upto(init_colls(d0), pv, j as int),
            forall|i: int| 0 <= i < cols@.len() ==> (#[trigger] cols@[i]).wf(),
            cols@.len() == d0.len(),
        decreases paths@.len() - j,
    {
        let ghost before = colls_view(cols@);
        let ghost pathv = pv[j as int];
        assert(pathv == paths@[j as int]@);
        let mut i: usize = 0;
        let mut claimed = false;
        while i < cols.len() && !claimed
            invariant
                i <= cols@.len(),
                pathv == paths@[j as int]@,
                j < paths@.len(),
                forall|t: int| 0 <= t < cols@.len() ==> (#[trigger] cols@[t]).wf(),
                cols@.len() == d0.len(),
                !claimed ==> colls_view(cols@) == before && forall|t: int|
                    0 <= t < i ==> colls_view(cols@)[t].1.spec_match(pathv) is None,
                claimed ==> colls_view(cols@) == spec_offer(before, pathv, 0),
            decreases cols@.len() - i + (if claimed {
                0int
            } else {
                1int
            }),
        {
            let ghost colsb = cols@;
            let mut c = cols.remove(i);
            let hit = c.add_if_matches(paths[j].as_str());
            cols.insert(i, c);
            proof {
                assert(cols@ =~= colsb.update(i as int, cols@[i as int]));
            }
            if hit {
                claimed = true;
                proof {
                    lemma_spec_offer_at(before, pathv, 0, i as int);
                    assert(colls_view(cols@) =~~= spec_offer(before, pathv, 0));
                }
            } else {
                proof {
                    assert(colls_view(cols@) =~~= before);
                    assert(colls_view(cols@)[i as int].1 == cols@[i as int].pattern);
                }
                i = i + 1;
            }
        }
        proof {
            if !claimed {
                lemma_spec_offer_none(before, pathv, 0);
                assert(colls_view(cols@) == spec_offer(before, pathv, 0));
            }
            assert(spec_classify_upto(init_colls(d0), pv, j + 1) == spec_offer(
                spec_classify_upto(init_colls(d0), pv, j as int),
                pv[j as int],
                0,
            ));
        }
        j = j + 1;
    }
    proof {
        assert(pv.len() == paths@.len());
    }
    cols
}

} // verus!
