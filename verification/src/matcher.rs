//! The executable matcher: a backtracking search over a pattern's
//! segments, proved to return exactly the value of the `smatch_*` spec
//! functions of `pattern`.

use vstd::prelude::*;

use crate::key::{build_key, key_of_caps, FileKey};
use crate::pattern::{
    char_in_class, is_component_run, lemma_caps_at, no_slash, opts_len, seq_in_class,
    smatch_at, smatch_elems, smatch_opts, smatch_ph, smatch_segs, smatch_skip, smatch_split,
    smatch_wild, CharClass, Element, Pattern, Segment,
};
use crate::text::{chars_of, copy_range};
use crate::types::KeyPart;

verus! {

/// The captured texts of a capture vector.
pub open spec fn vv(v: Vec<Vec<char>>) -> Seq<Seq<char>> {
    v@.map_values(|x: Vec<char>| x@)
}

/// The captured texts of an optional capture vector.
pub open spec fn caps_view(r: Option<Vec<Vec<char>>>) -> Option<Seq<Seq<char>>> {
    match r {
        Some(v) => Some(vv(v)),
        None => None,
    }
}

/// Whether one character is in a placeholder's class.
fn class_check(cls: CharClass, c: char) -> (r: bool)
    ensures
        r == char_in_class(cls, c),
{
    match cls {
        CharClass::Any => c != '/',
        CharClass::Digit => c >= '0' && c <= '9',
        CharClass::Alnum => (c >= '0' && c <= '9') || (c >= 'a' && c <= 'z') || (c >= 'A' && c
            <= 'Z'),
    }
}

/// Whether `l` is a prefix of `s[si..send]`.
fn prefix_eq(s: &Vec<char>, si: usize, send: usize, l: &Vec<char>) -> (r: bool)
    requires
        si <= send <= s@.len(),
    ensures
        r == (l@.len() <= send - si && s@.subrange(si as int, send as int).take(l@.len() as int)
            == l@),
{
    let ghost sub = s@.subrange(si as int, send as int);
    if l.len() > send - si {
        return false;
    }
    let mut j: usize = 0;
    while j < l.len()
        invariant
            si <= send <= s@.len(),
            j <= l@.len() <= send - si,
            sub == s@.subrange(si as int, send as int),
            forall|t: int| 0 <= t < j ==> #[trigger] sub[t] == l@[t],
        decreases l@.len() - j,
    {
        assert(sub[j as int] == s@[si + j]);
        if s[si + j] != l[j] {
            assert(sub.take(l@.len() as int)[j as int] == sub[j as int]);
            return false;
        }
        j = j + 1;
    }
    assert(sub.take(l@.len() as int) =~= l@);
    true
}

/// Whether every character of `s[si..send]` is in the class.
fn range_in_class(cls: CharClass, s: &Vec<char>, si: usize, send: usize) -> (r: bool)
    requires
        si <= send <= s@.len(),
    ensures
        r == seq_in_class(cls, s@.subrange(si as int, send as int)),
{
    let ghost sub = s@.subrange(si as int, send as int);
    let mut j: usize = si;
    while j < send
        invariant
            si <= j <= send <= s@.len(),
            sub == s@.subrange(si as int, send as int),
            forall|t: int| 0 <= t < j - si ==> char_in_class(cls, #[trigger] sub[t]),
        decreases send - j,
    {
        assert(sub[j - si] == s@[j as int]);
        if !class_check(cls, s[j]) {
            return false;
        }
        j = j + 1;
    }
    true
}

/// Whether `s[si..send]` is a run of zero or more whole components.
fn comp_run_check(s: &Vec<char>, si: usize, send: usize) -> (r: bool)
    requires
        si <= send <= s@.len(),
    ensures
        r == is_component_run(s@.subrange(si as int, send as int)),
{
    let ghost sub = s@.subrange(si as int, send as int);
    if si == send {
        return true;
    }
    if s[si] == '/' {
        assert(sub[0] == '/');
        return false;
    }
    if s[send - 1] == '/' {
        assert(sub[sub.len() - 1] == '/');
        return false;
    }
    let mut j: usize = si;
    while j < send - 1
        invariant
            si <= j <= send <= s@.len(),
            si < send,
            sub == s@.subrange(si as int, send as int),
            forall|t: int| 0 <= t < j - si ==> !(#[trigger] sub[t] == '/' && sub[t + 1] == '/'),
        decreases send - j,
    {
        assert(sub[j - si] == s@[j as int] && sub[j + 1 - si] == s@[j + 1]);
        if s[j] == '/' && s[j + 1] == '/' {
            return false;
        }
        j = j + 1;
    }
    assert(sub[0] != '/' && sub[sub.len() - 1] != '/');
    true
}

/// Matches the elements `es[ei..]` against exactly `s[si..send]`.
fn match_elems(es: &Vec<Element>, ei: usize, s: &Vec<char>, si: usize, send: usize) -> (r: Option<
    Vec<Vec<char>>,
>)
    requires
        ei <= es@.len(),
        si <= send <= s@.len(),
    ensures
        caps_view(r) == smatch_elems(es@.skip(ei as int), s@.subrange(si as int, send as int)),
    decreases es@.len() - ei, send + 2 - si, 1int, 0int,
{
    let ghost esk = es@.skip(ei as int);
    let ghost sub = s@.subrange(si as int, send as int);
    if ei == es.len() {
        if si == send {
            let r: Vec<Vec<char>> = Vec::new();
            assert(vv(r) =~~= Seq::<Seq<char>>::empty());
            return Some(r);
        }
        return None;
    }
    assert(esk[0] == es@[ei as int]);
    assert(esk.skip(1) =~= es@.skip(ei + 1));
    match &es[ei] {
        Element::Literal(l) => {
            if prefix_eq(s, si, send, l) {
                let nsi = si + l.len();
                assert(sub.skip(l@.len() as int) =~= s@.subrange(nsi as int, send as int));
                match_elems(es, ei + 1, s, nsi, send)
            } else {
                None
            }
        },
        Element::Wildcard => {
            assert(sub.take(0) =~= Seq::<char>::empty());
            match_wild(es, ei, s, si, 0, send)
        },
        Element::Options(_) => match_opts(es, ei, s, si, 0, send),
        Element::Placeholder { name, class, min, max } => {
            if *min <= send - si {
                let k = *min;
                if range_in_class(*class, s, si, si + k) {
                    assert(sub.take(k as int) =~= s@.subrange(si as int, (si + k) as int));
                    match_ph(es, ei, s, si, k, send)
                } else {
                    assert(sub.take(k as int) =~= s@.subrange(si as int, (si + k) as int));
                    assert(smatch_ph(esk, sub, k as int) is None);
                    None
                }
            } else {
                None
            }
        },
    }
}

/// Searches the wildcard width `k` upward, mirroring `smatch_wild`.
fn match_wild(es: &Vec<Element>, ei: usize, s: &Vec<char>, si: usize, k: usize, send: usize) -> (r:
    Option<Vec<Vec<char>>>)
    requires
        ei < es@.len(),
        si <= send <= s@.len(),
        si + k <= send,
        no_slash(s@.subrange(si as int, send as int).take(k as int)),
        es@.skip(ei as int)[0] is Wildcard,
    ensures
        caps_view(r) == smatch_wild(es@.skip(ei as int), s@.subrange(si as int, send as int),
            k as int,
        ),
    decreases es@.len() - ei, send + 1 - si - k, 0int, 0int,
{
    let ghost esk = es@.skip(ei as int);
    let ghost sub = s@.subrange(si as int, send as int);
    let n = es.len();
    assert(esk.skip(1) =~= es@.skip(ei + 1));
    assert(sub.skip(k as int) =~= s@.subrange((si + k) as int, send as int));
    let inner = match_elems(es, ei + 1, s, si + k, send);
    match inner {
        Some(caps) => Some(caps),
        None => {
            if si + k < send {
                assert(sub[k as int] == s@[si + k]);
                if s[si + k] != '/' {
                    assert(sub.take(k + 1) =~= sub.take(k as int).push(sub[k as int]));
                    match_wild(es, ei, s, si, k + 1, send)
                } else {
                    None
                }
            } else {
                None
            }
        },
    }
}

/// Searches the placeholder width `k` upward, mirroring `smatch_ph`.
fn match_ph(es: &Vec<Element>, ei: usize, s: &Vec<char>, si: usize, k: usize, send: usize) -> (r:
    Option<Vec<Vec<char>>>)
    requires
        ei < es@.len(),
        si <= send <= s@.len(),
        si + k <= send,
        es@.skip(ei as int)[0] is Placeholder,
        es@.skip(ei as int)[0]->min <= k,
        seq_in_class(
            es@.skip(ei as int)[0]->class,
            s@.subrange(si as int, send as int).take(k as int),
        ),
    ensures
        caps_view(r) == smatch_ph(es@.skip(ei as int), s@.subrange(si as int, send as int),
            k as int,
        ),
    decreases es@.len() - ei, send + 1 - si - k, 0int, 0int,
{
    let ghost esk = es@.skip(ei as int);
    let ghost sub = s@.subrange(si as int, send as int);
    let n = es.len();
    assert(esk.skip(1) =~= es@.skip(ei + 1));
    assert(sub.skip(k as int) =~= s@.subrange((si + k) as int, send as int));
    match &es[ei] {
        Element::Placeholder { name, class, min, max } => {
            let inner = match_elems(es, ei + 1, s, si + k, send);
            match inner {
                Some(mut caps) => {
                    let cap = copy_range(s, si, si + k);
                    assert(cap@ =~= sub.take(k as int));
                    let mut out: Vec<Vec<char>> = Vec::new();
                    out.push(cap);
                    out.append(&mut caps);
                    assert(vv(out) =~~= seq![sub.take(k as int)] + smatch_elems(
                        esk.skip(1),
                        sub.skip(k as int),
                    )->Some_0);
                    Some(out)
                },
                None => {
                    if si + k < send {
                        assert(sub[k as int] == s@[si + k]);
                        let next_ok = class_check(*class, s[si + k]) && match max {
                            Some(m) => k + 1 <= *m,
                            None => true,
                        };
                        if next_ok {
                            assert(sub.take(k + 1) =~= sub.take(k as int).push(sub[k as int]));
                            match_ph(es, ei, s, si, k + 1, send)
                        } else {
                            None
                        }
                    } else {
                        None
                    }
                },
            }
        },
        _ => None,
    }
}

/// Tries the alternatives of the option group in order, mirroring
/// `smatch_opts`.
fn match_opts(es: &Vec<Element>, ei: usize, s: &Vec<char>, si: usize, j: usize, send: usize) -> (r:
    Option<Vec<Vec<char>>>)
    requires
        ei < es@.len(),
        si <= send <= s@.len(),
        es@.skip(ei as int)[0] is Options,
    ensures
        caps_view(r) == smatch_opts(es@.skip(ei as int), s@.subrange(si as int, send as int),
            j as int,
        ),
    decreases es@.len() - ei, send + 2 - si, 0int, opts_len(es@.skip(ei as int)) - j,
{
    let ghost esk = es@.skip(ei as int);
    let ghost sub = s@.subrange(si as int, send as int);
    let n = es.len();
    assert(esk.skip(1) =~= es@.skip(ei + 1));
    match &es[ei] {
        Element::Options(alts) => {
            if j >= alts.len() {
                return None;
            }
            let a = &alts[j];
            let attempt = if prefix_eq(s, si, send, a) {
                let nsi = si + a.len();
                assert(sub.skip(a@.len() as int) =~= s@.subrange(nsi as int, send as int));
                match_elems(es, ei + 1, s, nsi, send)
            } else {
                None
            };
            match attempt {
                Some(caps) => Some(caps),
                None => {
                    if j + 1 < alts.len() {
                        match_opts(es, ei, s, si, j + 1, send)
                    } else {
                        None
                    }
                },
            }
        },
        _ => None,
    }
}

/// Matches the segments `segs[gi..]` against exactly `s[si..send]`.
fn match_segs(segs: &Vec<Segment>, gi: usize, s: &Vec<char>, si: usize, send: usize) -> (r: Option<
    Vec<Vec<char>>,
>)
    requires
        gi <= segs@.len(),
        si <= send <= s@.len(),
    ensures
        caps_view(r) == smatch_segs(segs@.skip(gi as int), s@.subrange(si as int, send as int)),
    decreases send - si, segs@.len() - gi, 1int, 0int,
{
    let ghost gsk = segs@.skip(gi as int);
    let ghost sub = s@.subrange(si as int, send as int);
    if gi == segs.len() {
        if si == send {
            let r: Vec<Vec<char>> = Vec::new();
            assert(vv(r) =~~= Seq::<Seq<char>>::empty());
            return Some(r);
        }
        return None;
    }
    assert(gsk[0] == segs@[gi as int]);
    assert(gsk.skip(1) =~= segs@.skip(gi + 1));
    match &segs[gi] {
        Segment::Elems(es) => {
            if gi + 1 == segs.len() {
                let r = match_elems(es, 0, s, si, send);
                assert(es@.skip(0) =~= es@);
                r
            } else {
                match_split(segs, gi, s, si, si, send)
            }
        },
        Segment::Skip => {
            if gi + 1 == segs.len() {
                if comp_run_check(s, si, send) {
                    let r: Vec<Vec<char>> = Vec::new();
                    assert(vv(r) =~~= Seq::<Seq<char>>::empty());
                    Some(r)
                } else {
                    None
                }
            } else {
                match match_segs(segs, gi + 1, s, si, send) {
                    Some(caps) => Some(caps),
                    None => match_skip(segs, gi, s, si, si, send),
                }
            }
        },
    }
}

/// Scans for the separator closing the first segment, mirroring
/// `smatch_split`.
fn match_split(
    segs: &Vec<Segment>,
    gi: usize,
    s: &Vec<char>,
    si: usize,
    k: usize,
    send: usize,
) -> (r: Option<Vec<Vec<char>>>)
    requires
        gi + 2 <= segs@.len(),
        si <= k <= send <= s@.len(),
        segs@.skip(gi as int)[0] is Elems,
    ensures
        caps_view(r) == smatch_split(segs@.skip(gi as int), s@.subrange(si as int, send as int), (k
            - si) as int),
    decreases send - si, segs@.len() - gi, 0int, send - k,
{
    let ghost gsk = segs@.skip(gi as int);
    let ghost sub = s@.subrange(si as int, send as int);
    let m = segs.len();
    assert(gsk.skip(1) =~= segs@.skip(gi + 1));
    if k >= send {
        return None;
    }
    assert(sub[k - si] == s@[k as int]);
    if s[k] == '/' {
        match &segs[gi] {
            Segment::Elems(es) => {
                assert(sub.take(k - si) =~= s@.subrange(si as int, k as int));
                assert(es@.skip(0) =~= es@);
                match match_elems(es, 0, s, si, k) {
                    Some(mut c1) => {
                        assert(sub.skip(k - si + 1) =~= s@.subrange(k + 1, send as int));
                        match match_segs(segs, gi + 1, s, k + 1, send) {
                            Some(mut c2) => {
                                let ghost v1 = vv(c1);
                                let ghost v2 = vv(c2);
                                c1.append(&mut c2);
                                assert(vv(c1) =~~= v1 + v2);
                                Some(c1)
                            },
                            None => None,
                        }
                    },
                    None => None,
                }
            },
            _ => None,
        }
    } else {
        match_split(segs, gi, s, si, k + 1, send)
    }
}

/// Lets a leading `**` swallow whole components, mirroring `smatch_skip`.
fn match_skip(
    segs: &Vec<Segment>,
    gi: usize,
    s: &Vec<char>,
    si: usize,
    k: usize,
    send: usize,
) -> (r: Option<Vec<Vec<char>>>)
    requires
        gi < segs@.len(),
        si <= k <= send <= s@.len(),
    ensures
        caps_view(r) == smatch_skip(segs@.skip(gi as int), s@.subrange(si as int, send as int), (k
            - si) as int),
    decreases send - si, segs@.len() - gi, 0int, send - k,
{
    let ghost gsk = segs@.skip(gi as int);
    let ghost sub = s@.subrange(si as int, send as int);
    if k >= send {
        return None;
    }
    assert(sub[k - si] == s@[k as int]);
    if s[k] == '/' {
        if k > si {
            assert(sub.skip(k - si + 1) =~= s@.subrange(k + 1, send as int));
            match_segs(segs, gi, s, k + 1, send)
        } else {
            None
        }
    } else {
        match_skip(segs, gi, s, si, k + 1, send)
    }
}

impl Pattern {
    /// Matches one path text against this pattern.  `None` is no error: the
    /// path is simply not part of this pattern's collection.  On a match,
    /// the extracted key maps exactly this pattern's placeholders to their
    /// captured texts, in canonical name order.
    pub fn parse(&self, path: &str) -> (r: Option<FileKey>)
        requires
            self.wf(),
        ensures
            r is Some == self.spec_match(path@) is Some,
            r matches Some(k) ==> (self.spec_match(path@) matches Some(caps) && k@ == key_of_caps(
                self.placeholders@.map_values(|p: KeyPart| p.0@),
                caps,
            )),
    {
        let chars = chars_of(path);
        match match_at(&self.segments, &chars, 0) {
            Some(caps) => {
                proof {
                    lemma_caps_at(self.segments@, chars@, 0);
                    assert(vv(caps) =~~= caps@.map_values(|c: Vec<char>| c@));
                    assert(caps@.len() == self.placeholders@.len());
                }
                let k = build_key(&self.placeholders, &caps);
                Some(k)
            },
            None => None,
        }
    }
}

/// Tries every start position left to right, mirroring `smatch_at`.
pub fn match_at(segs: &Vec<Segment>, s: &Vec<char>, i: usize) -> (r: Option<Vec<Vec<char>>>)
    requires
        i <= s@.len(),
    ensures
        caps_view(r) == smatch_at(segs@, s@, i as int),
    decreases s@.len() + 1 - i,
{
    assert(segs@.skip(0) =~= segs@);
    assert(s@.subrange(i as int, s@.len() as int) =~= s@.skip(i as int));
    match match_segs(segs, 0, s, i, s.len()) {
        Some(caps) => Some(caps),
        None => {
            if i < s.len() {
                match_at(segs, s, i + 1)
            } else {
                None
            }
        },
    }
}

} // verus!
