//! Extracted keys: the mapping from placeholder names to captured texts.
//!
//! A key is held as a list of (name, value) pairs kept in canonical
//! (alphabetic) order of names, never in declaration order, so that key
//! equality and the flattened composite form are reproducible whatever
//! order paths or placeholders were seen in.

use vstd::prelude::*;

use crate::text::{lex_lt, lemma_lex_lt_trichotomy, push_char, string_of};
use crate::types::KeyPart;
use vstd::string::StringExecFns;

verus! {

/// The pairs of a key vector, as mathematical sequences.
pub open spec fn kv_view(kv: Seq<(KeyPart, String)>) -> Seq<(Seq<char>, Seq<char>)> {
    kv.map_values(|p: (KeyPart, String)| (p.0.0@, p.1@))
}

/// Strictly sorted by name in lexicographic order.
pub open spec fn pairs_sorted(ps: Seq<(Seq<char>, Seq<char>)>) -> bool {
    forall|i: int, j: int| 0 <= i < j < ps.len() ==> lex_lt(ps[i].0, ps[j].0)
}

/// Insertion of one pair before the first strictly greater name.
pub open spec fn kinsert(
    ps: Seq<(Seq<char>, Seq<char>)>,
    p: (Seq<char>, Seq<char>),
) -> Seq<(Seq<char>, Seq<char>)>
    decreases ps.len(),
{
    if ps.len() == 0 {
        seq![p]
    } else if lex_lt(p.0, ps[0].0) {
        seq![p] + ps
    } else {
        seq![ps[0]] + kinsert(ps.skip(1), p)
    }
}

/// The canonical key built from placeholder names and captures given in
/// declaration order: each pair inserted at its alphabetic place.
pub open spec fn key_of_caps(names: Seq<Seq<char>>, caps: Seq<Seq<char>>) -> Seq<
    (Seq<char>, Seq<char>),
>
    decreases names.len(),
{
    if names.len() == 0 {
        Seq::empty()
    } else {
        kinsert(
            key_of_caps(names.drop_last(), caps.drop_last()),
            (names.last(), caps.last()),
        )
    }
}

pub proof fn lemma_kinsert_multiset(ps: Seq<(Seq<char>, Seq<char>)>, p: (Seq<char>, Seq<char>))
    ensures
        kinsert(ps, p).to_multiset() == ps.to_multiset().insert(p),
        kinsert(ps, p).len() == ps.len() + 1,
    decreases ps.len(),
{
    broadcast use vstd::seq_lib::group_to_multiset_ensures;

    if ps.len() == 0 {
        assert(kinsert(ps, p) =~= seq![p]);
        assert(seq![p].to_multiset() =~= ps.to_multiset().insert(p));
    } else if lex_lt(p.0, ps[0].0) {
        assert(seq![p] + ps =~= ps.insert(0, p));
    } else {
        lemma_kinsert_multiset(ps.skip(1), p);
        assert(seq![ps[0]] + kinsert(ps.skip(1), p) =~= kinsert(ps.skip(1), p).insert(0, ps[0]));
        assert(ps =~= ps.skip(1).insert(0, ps[0]));
        assert(kinsert(ps, p).to_multiset() =~= ps.to_multiset().insert(p));
    }
}

/// Inserting a fresh name into a strictly sorted key keeps it strictly
/// sorted.
pub proof fn lemma_kinsert_sorted(ps: Seq<(Seq<char>, Seq<char>)>, p: (Seq<char>, Seq<char>))
    requires
        pairs_sorted(ps),
        forall|i: int| 0 <= i < ps.len() ==> (#[trigger] ps[i]).0 != p.0,
    ensures
        pairs_sorted(kinsert(ps, p)),
    decreases ps.len(),
{
    broadcast use vstd::seq_lib::group_to_multiset_ensures;

    if ps.len() == 0 {
    } else if lex_lt(p.0, ps[0].0) {
        let r = seq![p] + ps;
        assert forall|i: int, j: int| 0 <= i < j < r.len() implies lex_lt(r[i].0, r[j].0) by {
            if i == 0 {
                if j > 1 {
                    assert(lex_lt(ps[0].0, ps[j - 1].0));
                    lemma_lex_lt_trans(p.0, ps[0].0, ps[j - 1].0);
                }
            }
        }
    } else {
        lemma_lex_lt_trichotomy(p.0, ps[0].0);
        assert(lex_lt(ps[0].0, p.0));
        assert(forall|i: int|
            0 <= i < ps.skip(1).len() ==> (#[trigger] ps.skip(1)[i]).0 != p.0);
        lemma_kinsert_sorted(ps.skip(1), p);
        lemma_kinsert_multiset(ps.skip(1), p);
        let rest = kinsert(ps.skip(1), p);
        let r = seq![ps[0]] + rest;
        assert forall|i: int, j: int| 0 <= i < j < r.len() implies lex_lt(r[i].0, r[j].0) by {
            if i == 0 {
                let q = rest[j - 1];
                assert(rest.to_multiset().contains(q));
                assert(ps.skip(1).to_multiset().insert(p).contains(q));
                if q == p {
                    assert(lex_lt(ps[0].0, q.0));
                } else {
                    assert(ps.skip(1).to_multiset().contains(q));
                    let t = choose|t: int| 0 <= t < ps.skip(1).len() && ps.skip(1)[t] == q;
                    assert(lex_lt(ps[0].0, ps[t + 1].0));
                }
            }
        }
    }
}

/// Lexicographic order is transitive.
pub proof fn lemma_lex_lt_trans(a: Seq<char>, b: Seq<char>, c: Seq<char>)
    requires
        lex_lt(a, b),
        lex_lt(b, c),
    ensures
        lex_lt(a, c),
    decreases a.len() + b.len() + c.len(),
{
    if b.len() == 0 || c.len() == 0 {
    } else if a.len() == 0 {
    } else {
        if a[0] == b[0] && b[0] == c[0] {
            lemma_lex_lt_trans(a.skip(1), b.skip(1), c.skip(1));
        }
    }
}

/// The flattened composite form: captured values in canonical order,
/// joined by an underscore.
pub open spec fn key_string(ps: Seq<(Seq<char>, Seq<char>)>) -> Seq<char>
    decreases ps.len(),
{
    if ps.len() == 0 {
        Seq::empty()
    } else if ps.len() == 1 {
        ps[0].1
    } else {
        ps[0].1 + seq!['_'] + key_string(ps.skip(1))
    }
}

pub proof fn lemma_key_string_push(ps: Seq<(Seq<char>, Seq<char>)>, p: (Seq<char>, Seq<char>))
    ensures
        key_string(ps.push(p)) == if ps.len() == 0 {
            p.1
        } else {
            key_string(ps) + seq!['_'] + p.1
        },
    decreases ps.len(),
{
    if ps.len() == 0 {
        assert(ps.push(p)[0] == p);
    } else {
        lemma_key_string_push(ps.skip(1), p);
        assert(ps.push(p).skip(1) =~= ps.skip(1).push(p));
        if ps.len() == 1 {
            assert(key_string(ps.push(p)) =~= ps[0].1 + seq!['_'] + p.1);
            assert(key_string(ps) == ps[0].1);
        } else {
            assert(key_string(ps.push(p)) =~= key_string(ps) + seq!['_'] + p.1);
        }
    }
}

/// The (name, capture) pairs in declaration order.
pub open spec fn zip_caps(names: Seq<Seq<char>>, caps: Seq<Seq<char>>) -> Seq<
    (Seq<char>, Seq<char>),
> {
    Seq::new(names.len(), |i: int| (names[i], caps[i]))
}

/// A key holds exactly the declared (name, capture) pairs, whatever order
/// they were declared in.
pub proof fn lemma_key_of_caps_multiset(names: Seq<Seq<char>>, caps: Seq<Seq<char>>)
    requires
        names.len() == caps.len(),
    ensures
        key_of_caps(names, caps).to_multiset() == zip_caps(names, caps).to_multiset(),
        key_of_caps(names, caps).len() == names.len(),
    decreases names.len(),
{
    broadcast use vstd::seq_lib::group_to_multiset_ensures;

    if names.len() > 0 {
        lemma_key_of_caps_multiset(names.drop_last(), caps.drop_last());
        lemma_kinsert_multiset(
            key_of_caps(names.drop_last(), caps.drop_last()),
            (names.last(), caps.last()),
        );
        assert(zip_caps(names.drop_last(), caps.drop_last()) =~= zip_caps(
            names,
            caps,
        ).drop_last());
        assert(zip_caps(names, caps) =~= zip_caps(names, caps).drop_last().push(
            (names.last(), caps.last()),
        ));
    }
}

/// Canonical ordering law: with pairwise distinct placeholder names, the
/// key's pairs stand strictly sorted by name in lexicographic order —
/// never in declaration or insertion order — so key equality and the
/// composite string form are reproducible whatever order the names were
/// declared in.
pub proof fn lemma_key_of_caps_sorted(names: Seq<Seq<char>>, caps: Seq<Seq<char>>)
    requires
        names.len() == caps.len(),
        forall|i: int, j: int| 0 <= i < j < names.len() ==> names[i] != names[j],
    ensures
        pairs_sorted(key_of_caps(names, caps)),
    decreases names.len(),
{
    broadcast use vstd::seq_lib::group_to_multiset_ensures;

    if names.len() > 0 {
        let prev = key_of_caps(names.drop_last(), caps.drop_last());
        lemma_key_of_caps_sorted(names.drop_last(), caps.drop_last());
        lemma_key_of_caps_multiset(names.drop_last(), caps.drop_last());
        assert forall|i: int| 0 <= i < prev.len() implies (#[trigger] prev[i]).0 != names.last()
        by {
            assert(prev.to_multiset().contains(prev[i]));
            assert(zip_caps(names.drop_last(), caps.drop_last()).to_multiset().contains(prev[i]));
            let t = choose|t: int|
                0 <= t < zip_caps(names.drop_last(), caps.drop_last()).len() && zip_caps(
                    names.drop_last(),
                    caps.drop_last(),
                )[t] == prev[i];
            assert(names[t] != names[names.len() - 1]);
        }
        lemma_kinsert_sorted(prev, (names.last(), caps.last()));
    }
}

/// A per-file key: placeholder names mapped to the captured texts, in
/// canonical name order.
#[derive(Debug, Hash, PartialEq, Eq)]
pub struct FileKey(pub Vec<(KeyPart, String)>);

impl View for FileKey {
    type V = Seq<(Seq<char>, Seq<char>)>;

    open spec fn view(&self) -> Seq<(Seq<char>, Seq<char>)> {
        kv_view(self.0@)
    }
}

impl FileKey {
    /// The composite string form: captured values in canonical name order
    /// joined by an underscore.
    pub fn as_string(&self) -> (r: String)
        ensures
            r@ == key_string(self@),
    {
        let mut r = String::new();
        let mut i: usize = 0;
        while i < self.0.len()
            invariant
                i <= self.0@.len(),
                r@ == key_string(self@.take(i as int)),
            decreases self.0@.len() - i,
        {
            if i > 0 {
                push_char(&mut r, '_');
            }
            r.append(self.0[i].1.as_str());
            proof {
                lemma_key_string_push(self@.take(i as int), self@[i as int]);
                assert(self@.take(i + 1) =~= self@.take(i as int).push(self@[i as int]));
            }
            i = i + 1;
        }
        proof {
            assert(self@.take(self.0@.len() as int) =~= self@);
        }
        r
    }
}

/// Whether two keys hold the same names and captured texts.
pub fn key_eq(a: &FileKey, b: &FileKey) -> (r: bool)
    ensures
        r == (a@ == b@),
{
    if a.0.len() != b.0.len() {
        assert(a@.len() != b@.len());
        return false;
    }
    let mut i: usize = 0;
    while i < a.0.len()
        invariant
            i <= a.0@.len(),
            a.0@.len() == b.0@.len(),
            forall|t: int| 0 <= t < i ==> a@[t] == b@[t],
        decreases a.0@.len() - i,
    {
        let pa = &a.0[i];
        let pb = &b.0[i];
        if !(pa.0.0 == pb.0.0 && pa.1 == pb.1) {
            assert(a@[i as int] != b@[i as int]);
            return false;
        }
        assert(a@[i as int] == b@[i as int]);
        i = i + 1;
    }
    assert(a@ =~~= b@);
    true
}

/// Insert one pair at its canonical place, mirroring `kinsert`.
pub fn insert_pair(kv: Vec<(KeyPart, String)>, kp: KeyPart, val: String) -> (r: Vec<
    (KeyPart, String),
>)
    ensures
        kv_view(r@) == kinsert(kv_view(kv@), (kp.0@, val@)),
    decreases kv@.len(),
{
    let ghost goal = kinsert(kv_view(kv@), (kp.0@, val@));
    if kv.len() == 0 {
        let mut r: Vec<(KeyPart, String)> = Vec::new();
        r.push((kp, val));
        assert(kv_view(r@) =~~= goal);
        r
    } else if crate::text::str_lex_lt(kp.0.as_str(), kv[0].0.0.as_str()) {
        let mut r = kv;
        r.insert(0, (kp, val));
        assert(kv_view(r@) =~~= goal);
        r
    } else {
        let ghost orig = kv@;
        assert(kv_view(orig)[0] == (orig[0].0.0@, orig[0].1@));
        let mut tail = kv;
        let head = tail.remove(0);
        assert(tail@ =~= orig.skip(1));
        assert(kv_view(tail@) =~~= kv_view(orig).skip(1));
        let rest = insert_pair(tail, kp, val);
        let mut r = rest;
        r.insert(0, head);
        assert(kv_view(r@) =~~= seq![kv_view(orig)[0]] + kinsert(
            kv_view(orig).skip(1),
            (kp.0@, val@),
        ));
        assert(kv_view(r@) =~~= goal);
        r
    }
}

/// The canonical key for names and captures given in declaration order.
pub fn build_key(names: &Vec<KeyPart>, caps: &Vec<Vec<char>>) -> (r: FileKey)
    requires
        names@.len() == caps@.len(),
    ensures
        r@ == key_of_caps(
            names@.map_values(|k: KeyPart| k.0@),
            caps@.map_values(|c: Vec<char>| c@),
        ),
{
    let ghost ns = names@.map_values(|k: KeyPart| k.0@);
    let ghost cs = caps@.map_values(|c: Vec<char>| c@);
    let mut kv: Vec<(KeyPart, String)> = Vec::new();
    let mut i: usize = 0;
    assert(kv_view(kv@) =~~= key_of_caps(ns.take(0), cs.take(0)));
    while i < names.len()
        invariant
            i <= names@.len(),
            names@.len() == caps@.len(),
            ns == names@.map_values(|k: KeyPart| k.0@),
            cs == caps@.map_values(|c: Vec<char>| c@),
            kv_view(kv@) == key_of_caps(ns.take(i as int), cs.take(i as int)),
        decreases names@.len() - i,
    {
        let name = KeyPart(names[i].0.clone());
        let val = string_of(&caps[i]);
        kv = insert_pair(kv, name, val);
        proof {
            assert(ns.take(i + 1).drop_last() =~= ns.take(i as int));
            assert(cs.take(i + 1).drop_last() =~= cs.take(i as int));
            assert(ns.take(i + 1).last() == ns[i as int]);
            assert(cs.take(i + 1).last() == cs[i as int]);
        }
        i = i + 1;
    }
    proof {
        assert(ns.take(ns.len() as int) =~= ns);
        assert(cs.take(cs.len() as int) =~= cs);
    }
    FileKey(kv)
}

} // verus!
