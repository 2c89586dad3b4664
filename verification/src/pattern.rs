//! The compiled form of one declared pattern and its matcher.
//!
//! A pattern is an ordered list of path segments; a segment is either the
//! skip-many-segments wildcard `**` or a list of elements (literal text,
//! the in-segment wildcard `*`, an option group, or a named placeholder).
//! Matching is anchored at the end of the candidate path but not at the
//! start: a pattern accepts any path one of whose suffixes fits it.
//!
//! The matcher is deterministic: boundaries inside a segment are tried
//! shortest-first, alternatives of an option group in written order, and
//! start positions left to right, and the first fit wins.  The spec
//! functions `smatch_*` below are the exact mathematical statement of that
//! search; every executable function is proved to return precisely their
//! value.

use vstd::prelude::*;

use crate::text::{is_ident, lex_lt};
use crate::types::KeyPart;

verus! {

/// The character class a placeholder may capture from.
#[derive(Debug, Clone, Copy, PartialEq, Eq, Structural)]
pub enum CharClass {
    /// Any character but the path separator.
    Any,
    /// Decimal digits only.
    Digit,
    /// ASCII letters and decimal digits only.
    Alnum,
}

/// One element of a path segment.
#[derive(Debug)]
pub enum Element {
    /// Verbatim text; never empty, never containing the separator.
    Literal(Vec<char>),
    /// `*`: any run of characters excluding the separator.
    Wildcard,
    /// `(a|b|c)`: alternation among literal strings.
    Options(Vec<Vec<char>>),
    /// `{name:flags}`: a named capturing slot with its resolved class and
    /// length bounds (`None` meaning unbounded above).
    Placeholder { name: KeyPart, class: CharClass, min: usize, max: Option<usize> },
}

/// One slash-separated segment of a pattern.
#[derive(Debug)]
pub enum Segment {
    /// `**`: zero or more whole intermediate path components.
    Skip,
    /// An ordered list of elements matched within one component.
    Elems(Vec<Element>),
}

pub open spec fn char_in_class(cls: CharClass, c: char) -> bool {
    match cls {
        CharClass::Any => c != '/',
        CharClass::Digit => crate::text::is_digit(c),
        CharClass::Alnum => crate::text::is_alnum(c),
    }
}

pub open spec fn seq_in_class(cls: CharClass, s: Seq<char>) -> bool {
    forall|i: int| 0 <= i < s.len() ==> char_in_class(cls, #[trigger] s[i])
}

pub open spec fn no_slash(s: Seq<char>) -> bool {
    forall|i: int| 0 <= i < s.len() ==> #[trigger] s[i] != '/'
}

/// The length bound of a placeholder admits a capture of length `n`.
pub open spec fn ph_len_ok(min: usize, max: Option<usize>, n: int) -> bool {
    min <= n && match max {
        Some(m) => n <= m,
        None => true,
    }
}

/// Zero or more path components joined by the separator: empty, or with no
/// leading, trailing or doubled separator.
pub open spec fn is_component_run(s: Seq<char>) -> bool {
    s.len() == 0 || (s[0] != '/' && s[s.len() - 1] != '/' && forall|i: int|
        0 <= i < s.len() - 1 ==> !(#[trigger] s[i] == '/' && s[i + 1] == '/'))
}

pub open spec fn opts_len(es: Seq<Element>) -> int {
    if es.len() > 0 {
        match es[0] {
            Element::Options(alts) => alts@.len() as int,
            _ => 0,
        }
    } else {
        0
    }
}

/// Deterministic match of an element list against exactly the whole of `s`,
/// returning the captured placeholder values in declaration order.
pub open spec fn smatch_elems(es: Seq<Element>, s: Seq<char>) -> Option<Seq<Seq<char>>>
    decreases es.len(), s.len() + 2, 1int, 0int,
{
    if es.len() == 0 {
        if s.len() == 0 {
            Some(Seq::empty())
        } else {
            None
        }
    } else {
        match es[0] {
            Element::Literal(l) => {
                if l@.len() <= s.len() && s.take(l@.len() as int) == l@ {
                    smatch_elems(es.skip(1), s.skip(l@.len() as int))
                } else {
                    None
                }
            },
            Element::Wildcard => smatch_wild(es, s, 0),
            Element::Options(_) => smatch_opts(es, s, 0),
            Element::Placeholder { name, class, min, max } => {
                if min <= s.len() {
                    smatch_ph(es, s, min as int)
                } else {
                    None
                }
            },
        }
    }
}

/// Search for the shortest wildcard width `k` from which the rest of the
/// element list matches.
pub open spec fn smatch_wild(es: Seq<Element>, s: Seq<char>, k: int) -> Option<Seq<Seq<char>>>
    decreases es.len(), s.len() + 1 - k, 0int, 0int,
{
    if !(0 <= k <= s.len()) || es.len() == 0 || !no_slash(s.take(k)) {
        None
    } else {
        match smatch_elems(es.skip(1), s.skip(k)) {
            Some(caps) => Some(caps),
            None => {
                if k < s.len() && s[k] != '/' {
                    smatch_wild(es, s, k + 1)
                } else {
                    None
                }
            },
        }
    }
}

/// Search for the shortest admissible capture width `k` for the placeholder
/// heading `es`.
pub open spec fn smatch_ph(es: Seq<Element>, s: Seq<char>, k: int) -> Option<Seq<Seq<char>>>
    decreases es.len(), s.len() + 1 - k, 0int, 0int,
{
    if es.len() == 0 {
        None
    } else {
        match es[0] {
            Element::Placeholder { name, class, min, max } => {
                if !(min <= k <= s.len()) || !seq_in_class(class, s.take(k)) {
                    None
                } else {
                    match smatch_elems(es.skip(1), s.skip(k)) {
                        Some(caps) => Some(seq![s.take(k)] + caps),
                        None => {
                            if k < s.len() && char_in_class(class, s[k]) && ph_len_ok(
                                min,
                                max,
                                k + 1,
                            ) {
                                smatch_ph(es, s, k + 1)
                            } else {
                                None
                            }
                        },
                    }
                }
            },
            _ => None,
        }
    }
}

/// Try the alternatives of the option group heading `es`, in written order.
pub open spec fn smatch_opts(es: Seq<Element>, s: Seq<char>, j: int) -> Option<Seq<Seq<char>>>
    decreases es.len(), s.len() + 2, 0int, opts_len(es) - j,
{
    if es.len() == 0 {
        None
    } else {
        match es[0] {
            Element::Options(alts) => {
                if !(0 <= j < alts@.len()) {
                    None
                } else {
                    let a = alts@[j]@;
                    let attempt = if a.len() <= s.len() && s.take(a.len() as int) == a {
                        smatch_elems(es.skip(1), s.skip(a.len() as int))
                    } else {
                        None
                    };
                    match attempt {
                        Some(caps) => Some(caps),
                        None => {
                            if j + 1 < alts@.len() {
                                smatch_opts(es, s, j + 1)
                            } else {
                                None
                            }
                        },
                    }
                }
            },
            _ => None,
        }
    }
}

/// Deterministic match of a segment list against exactly the whole of `s`.
pub open spec fn smatch_segs(segs: Seq<Segment>, s: Seq<char>) -> Option<Seq<Seq<char>>>
    decreases s.len(), segs.len(), 1int, 0int,
{
    if segs.len() == 0 {
        if s.len() == 0 {
            Some(Seq::empty())
        } else {
            None
        }
    } else {
        match segs[0] {
            Segment::Elems(es) => {
                if segs.len() == 1 {
                    smatch_elems(es@, s)
                } else {
                    smatch_split(segs, s, 0)
                }
            },
            Segment::Skip => {
                if segs.len() == 1 {
                    if is_component_run(s) {
                        Some(Seq::empty())
                    } else {
                        None
                    }
                } else {
                    match smatch_segs(segs.skip(1), s) {
                        Some(caps) => Some(caps),
                        None => smatch_skip(segs, s, 0),
                    }
                }
            },
        }
    }
}

/// Find the separator closing the first segment: elements never match the
/// separator, so the boundary is the first separator of `s`.
pub open spec fn smatch_split(segs: Seq<Segment>, s: Seq<char>, k: int) -> Option<Seq<Seq<char>>>
    decreases s.len(), segs.len(), 0int, s.len() - k,
{
    if !(0 <= k) || k >= s.len() || segs.len() < 2 {
        None
    } else if s[k] == '/' {
        match segs[0] {
            Segment::Elems(es) => match smatch_elems(es@, s.take(k)) {
                Some(c1) => match smatch_segs(segs.skip(1), s.skip(k + 1)) {
                    Some(c2) => Some(c1 + c2),
                    None => None,
                },
                None => None,
            },
            _ => None,
        }
    } else {
        smatch_split(segs, s, k + 1)
    }
}

/// Let a leading `**` swallow one whole component (up to the first
/// separator) and try again; a doubled separator stops the search.
pub open spec fn smatch_skip(segs: Seq<Segment>, s: Seq<char>, k: int) -> Option<Seq<Seq<char>>>
    decreases s.len(), segs.len(), 0int, s.len() - k,
{
    if !(0 <= k) || k >= s.len() {
        None
    } else if s[k] == '/' {
        if k >= 1 {
            smatch_segs(segs, s.skip(k + 1))
        } else {
            None
        }
    } else {
        smatch_skip(segs, s, k + 1)
    }
}

/// Try every start position left to right: the pattern accepts any path
/// one of whose suffixes it matches exactly.
pub open spec fn smatch_at(segs: Seq<Segment>, s: Seq<char>, i: int) -> Option<Seq<Seq<char>>>
    decreases s.len() + 1 - i,
{
    if !(0 <= i <= s.len()) {
        None
    } else {
        match smatch_segs(segs, s.skip(i)) {
            Some(caps) => Some(caps),
            None => {
                if i < s.len() {
                    smatch_at(segs, s, i + 1)
                } else {
                    None
                }
            },
        }
    }
}

/// The placeholder elements of an element list, in written order.
pub open spec fn phs_of_elems(es: Seq<Element>) -> Seq<Element>
    decreases es.len(),
{
    if es.len() == 0 {
        Seq::empty()
    } else {
        (match es[0] {
            Element::Placeholder { .. } => seq![es[0]],
            _ => Seq::<Element>::empty(),
        }) + phs_of_elems(es.skip(1))
    }
}

/// The placeholder elements of a segment list, in written order.
pub open spec fn phs_of_segs(segs: Seq<Segment>) -> Seq<Element>
    decreases segs.len(),
{
    if segs.len() == 0 {
        Seq::empty()
    } else {
        (match segs[0] {
            Segment::Elems(es) => phs_of_elems(es@),
            Segment::Skip => Seq::<Element>::empty(),
        }) + phs_of_segs(segs.skip(1))
    }
}

/// The name of a placeholder element.
pub open spec fn ph_name(e: Element) -> Seq<char> {
    match e {
        Element::Placeholder { name, .. } => name.0@,
        _ => Seq::empty(),
    }
}

/// A capture admissible for a placeholder element: inside its character
/// class and within its length bounds.
pub open spec fn cap_admissible(e: Element, cap: Seq<char>) -> bool {
    match e {
        Element::Placeholder { name, class, min, max } => seq_in_class(class, cap) && ph_len_ok(
            min,
            max,
            cap.len() as int,
        ),
        _ => false,
    }
}

pub open spec fn element_wf(e: Element) -> bool {
    match e {
        Element::Literal(l) => l@.len() > 0 && no_slash(l@),
        Element::Wildcard => true,
        Element::Options(alts) => alts@.len() > 0 && forall|i: int|
            0 <= i < alts@.len() ==> (#[trigger] alts@[i])@.len() > 0 && no_slash(alts@[i]@),
        Element::Placeholder { name, class, min, max } => is_ident(name.0@) && match max {
            Some(m) => min <= m,
            None => true,
        },
    }
}

pub open spec fn segment_wf(g: Segment) -> bool {
    match g {
        Segment::Skip => true,
        Segment::Elems(es) => es@.len() > 0 && forall|i: int|
            0 <= i < es@.len() ==> element_wf(#[trigger] es@[i]),
    }
}

/// Capture admissibility for `smatch_elems`: a successful match yields one
/// capture per placeholder, in order, each inside its class and bounds.
proof fn lemma_caps_elems(es: Seq<Element>, s: Seq<char>)
    requires
        forall|i: int| 0 <= i < es.len() ==> element_wf(#[trigger] es[i]),
    ensures
        smatch_elems(es, s) matches Some(caps) ==> caps.len() == phs_of_elems(es).len() && forall|
            i: int,
        | 0 <= i < caps.len() ==> cap_admissible(phs_of_elems(es)[i], caps[i]),
    decreases es.len(), s.len() + 2, 1int, 0int,
{
    if es.len() > 0 {
        assert(forall|i: int|
            0 <= i < es.skip(1).len() ==> element_wf(#[trigger] es.skip(1)[i]));
        match es[0] {
            Element::Literal(l) => {
                if l@.len() <= s.len() && s.take(l@.len() as int) == l@ {
                    lemma_caps_elems(es.skip(1), s.skip(l@.len() as int));
                    assert(phs_of_elems(es) =~= phs_of_elems(es.skip(1)));
                }
            },
            Element::Wildcard => {
                lemma_caps_wild(es, s, 0);
            },
            Element::Options(_) => {
                lemma_caps_opts(es, s, 0);
            },
            Element::Placeholder { name, class, min, max } => {
                if min <= s.len() {
                    lemma_caps_ph(es, s, min as int);
                }
            },
        }
    }
}

proof fn lemma_caps_wild(es: Seq<Element>, s: Seq<char>, k: int)
    requires
        forall|i: int| 0 <= i < es.len() ==> element_wf(#[trigger] es[i]),
        es.len() > 0,
        es[0] is Wildcard,
    ensures
        smatch_wild(es, s, k) matches Some(caps) ==> caps.len() == phs_of_elems(es).len()
            && forall|i: int|
            0 <= i < caps.len() ==> cap_admissible(phs_of_elems(es)[i], caps[i]),
    decreases es.len(), s.len() + 1 - k, 0int, 0int,
{
    if 0 <= k <= s.len() && no_slash(s.take(k)) {
        assert(forall|i: int|
            0 <= i < es.skip(1).len() ==> element_wf(#[trigger] es.skip(1)[i]));
        lemma_caps_elems(es.skip(1), s.skip(k));
        assert(phs_of_elems(es) =~= phs_of_elems(es.skip(1)));
        if smatch_elems(es.skip(1), s.skip(k)) is None && k < s.len() && s[k] != '/' {
            lemma_caps_wild(es, s, k + 1);
        }
    }
}

proof fn lemma_caps_ph(es: Seq<Element>, s: Seq<char>, k: int)
    requires
        forall|i: int| 0 <= i < es.len() ==> element_wf(#[trigger] es[i]),
        es.len() > 0,
        es[0] is Placeholder,
        ph_len_ok(es[0]->min, es[0]->max, k),
    ensures
        smatch_ph(es, s, k) matches Some(caps) ==> caps.len() == phs_of_elems(es).len() && forall|
            i: int,
        | 0 <= i < caps.len() ==> cap_admissible(phs_of_elems(es)[i], caps[i]),
    decreases es.len(), s.len() + 1 - k, 0int, 0int,
{
    match es[0] {
        Element::Placeholder { name, class, min, max } => {
            if min <= k <= s.len() && seq_in_class(class, s.take(k)) {
                assert(forall|i: int|
                    0 <= i < es.skip(1).len() ==> element_wf(#[trigger] es.skip(1)[i]));
                lemma_caps_elems(es.skip(1), s.skip(k));
                assert(phs_of_elems(es) =~= seq![es[0]] + phs_of_elems(es.skip(1)));
                match smatch_elems(es.skip(1), s.skip(k)) {
                    Some(caps) => {
                        assert(cap_admissible(es[0], s.take(k)));
                        assert forall|i: int|
                            0 <= i < (seq![s.take(k)] + caps).len() implies cap_admissible(
                            phs_of_elems(es)[i],
                            (seq![s.take(k)] + caps)[i],
                        ) by {
                            if i > 0 {
                                assert(phs_of_elems(es)[i] == phs_of_elems(es.skip(1))[i - 1]);
                                assert((seq![s.take(k)] + caps)[i] == caps[i - 1]);
                            }
                        }
                    },
                    None => {
                        if k < s.len() && char_in_class(class, s[k]) && ph_len_ok(min, max, k + 1) {
                            lemma_caps_ph(es, s, k + 1);
                        }
                    },
                }
            }
        },
        _ => {},
    }
}

proof fn lemma_caps_opts(es: Seq<Element>, s: Seq<char>, j: int)
    requires
        forall|i: int| 0 <= i < es.len() ==> element_wf(#[trigger] es[i]),
        es.len() > 0,
        es[0] is Options,
    ensures
        smatch_opts(es, s, j) matches Some(caps) ==> caps.len() == phs_of_elems(es).len()
            && forall|i: int|
            0 <= i < caps.len() ==> cap_admissible(phs_of_elems(es)[i], caps[i]),
    decreases es.len(), s.len() + 2, 0int, opts_len(es) - j,
{
    match es[0] {
        Element::Options(alts) => {
            if 0 <= j < alts@.len() {
                assert(forall|i: int|
                    0 <= i < es.skip(1).len() ==> element_wf(#[trigger] es.skip(1)[i]));
                let a = alts@[j]@;
                if a.len() <= s.len() && s.take(a.len() as int) == a {
                    lemma_caps_elems(es.skip(1), s.skip(a.len() as int));
                    assert(phs_of_elems(es) =~= phs_of_elems(es.skip(1)));
                }
                lemma_caps_opts(es, s, j + 1);
            }
        },
        _ => {},
    }
}

/// Capture admissibility for `smatch_segs`.
proof fn lemma_caps_segs(segs: Seq<Segment>, s: Seq<char>)
    requires
        forall|i: int| 0 <= i < segs.len() ==> segment_wf(#[trigger] segs[i]),
    ensures
        smatch_segs(segs, s) matches Some(caps) ==> caps.len() == phs_of_segs(segs).len()
            && forall|i: int|
            0 <= i < caps.len() ==> cap_admissible(phs_of_segs(segs)[i], caps[i]),
    decreases s.len(), segs.len(), 1int, 0int,
{
    if segs.len() > 0 {
        assert(forall|i: int|
            0 <= i < segs.skip(1).len() ==> segment_wf(#[trigger] segs.skip(1)[i]));
        match segs[0] {
            Segment::Elems(es) => {
                if segs.len() == 1 {
                    lemma_caps_elems(es@, s);
                    assert(segs.skip(1).len() == 0);
                    assert(phs_of_segs(segs.skip(1)) =~= Seq::<Element>::empty());
                    assert(phs_of_segs(segs) =~= phs_of_elems(es@));
                } else {
                    lemma_caps_split(segs, s, 0);
                }
            },
            Segment::Skip => {
                if segs.len() == 1 {
                    assert(segs.skip(1).len() == 0);
                    assert(phs_of_segs(segs.skip(1)) =~= Seq::<Element>::empty());
                    assert(phs_of_segs(segs) =~= Seq::<Element>::empty());
                } else {
                    lemma_caps_segs(segs.skip(1), s);
                    assert(phs_of_segs(segs) =~= phs_of_segs(segs.skip(1)));
                    if smatch_segs(segs.skip(1), s) is None {
                        lemma_caps_skip(segs, s, 0);
                    }
                }
            },
        }
    }
}

proof fn lemma_caps_split(segs: Seq<Segment>, s: Seq<char>, k: int)
    requires
        forall|i: int| 0 <= i < segs.len() ==> segment_wf(#[trigger] segs[i]),
        segs.len() >= 2,
        segs[0] is Elems,
    ensures
        smatch_split(segs, s, k) matches Some(caps) ==> caps.len() == phs_of_segs(segs).len()
            && forall|i: int|
            0 <= i < caps.len() ==> cap_admissible(phs_of_segs(segs)[i], caps[i]),
    decreases s.len(), segs.len(), 0int, s.len() - k,
{
    if 0 <= k < s.len() {
        assert(forall|i: int|
            0 <= i < segs.skip(1).len() ==> segment_wf(#[trigger] segs.skip(1)[i]));
        if s[k] == '/' {
            match segs[0] {
                Segment::Elems(es) => {
                    lemma_caps_elems(es@, s.take(k));
                    lemma_caps_segs(segs.skip(1), s.skip(k + 1));
                    assert(phs_of_segs(segs) =~= phs_of_elems(es@) + phs_of_segs(segs.skip(1)));
                    match smatch_elems(es@, s.take(k)) {
                        Some(c1) => {
                            match smatch_segs(segs.skip(1), s.skip(k + 1)) {
                                Some(c2) => {
                                    assert forall|i: int| 0 <= i < (c1 + c2).len() implies
                                        cap_admissible(phs_of_segs(segs)[i], (c1 + c2)[i]) by {
                                        if i < c1.len() {
                                            assert((c1 + c2)[i] == c1[i]);
                                            assert(phs_of_segs(segs)[i] == phs_of_elems(es@)[i]);
                                        } else {
                                            assert((c1 + c2)[i] == c2[i - c1.len()]);
                                            assert(phs_of_segs(segs)[i] == phs_of_segs(
                                                segs.skip(1),
                                            )[i - c1.len()]);
                                        }
                                    }
                                },
                                None => {},
                            }
                        },
                        None => {},
                    }
                },
                _ => {},
            }
        } else {
            lemma_caps_split(segs, s, k + 1);
        }
    }
}

proof fn lemma_caps_skip(segs: Seq<Segment>, s: Seq<char>, k: int)
    requires
        forall|i: int| 0 <= i < segs.len() ==> segment_wf(#[trigger] segs[i]),
        segs.len() >= 1,
    ensures
        smatch_skip(segs, s, k) matches Some(caps) ==> caps.len() == phs_of_segs(segs).len()
            && forall|i: int|
            0 <= i < caps.len() ==> cap_admissible(phs_of_segs(segs)[i], caps[i]),
    decreases s.len(), segs.len(), 0int, s.len() - k,
{
    if 0 <= k < s.len() {
        if s[k] == '/' {
            if k >= 1 {
                lemma_caps_segs(segs, s.skip(k + 1));
            }
        } else {
            lemma_caps_skip(segs, s, k + 1);
        }
    }
}

/// Capture admissibility for the whole suffix search.
pub proof fn lemma_caps_at(segs: Seq<Segment>, s: Seq<char>, i: int)
    requires
        forall|t: int| 0 <= t < segs.len() ==> segment_wf(#[trigger] segs[t]),
    ensures
        smatch_at(segs, s, i) matches Some(caps) ==> caps.len() == phs_of_segs(segs).len()
            && forall|t: int|
            0 <= t < caps.len() ==> cap_admissible(phs_of_segs(segs)[t], caps[t]),
    decreases s.len() + 1 - i,
{
    if 0 <= i <= s.len() {
        lemma_caps_segs(segs, s.skip(i));
        if smatch_segs(segs, s.skip(i)) is None && i < s.len() {
            lemma_caps_at(segs, s, i + 1);
        }
    }
}

/// The compiled matcher for one declared pattern, with the ordered
/// registry of the placeholder names it declares.
#[derive(Debug)]
pub struct Pattern {
    pub segments: Vec<Segment>,
    pub placeholders: Vec<KeyPart>,
}

impl Pattern {
    /// Compilation establishes this: segments are well-formed, the
    /// placeholder registry lists exactly the segments' placeholder names
    /// in written order, and no name repeats.
    pub open spec fn wf(self) -> bool {
        &&& forall|i: int|
            0 <= i < self.segments@.len() ==> segment_wf(#[trigger] self.segments@[i])
        &&& self.placeholders@.len() == phs_of_segs(self.segments@).len()
        &&& forall|i: int|
            0 <= i < self.placeholders@.len() ==> (#[trigger] self.placeholders@[i]).0@ == ph_name(
                phs_of_segs(self.segments@)[i],
            )
        &&& forall|i: int, j: int|
            0 <= i < j < self.placeholders@.len() ==> self.placeholders@[i].0@
                != self.placeholders@[j].0@
    }

    /// The deterministic match of this pattern against a path text.
    pub open spec fn spec_match(self, path: Seq<char>) -> Option<Seq<Seq<char>>> {
        smatch_at(self.segments@, path, 0)
    }
}

/// Captured values always respect the declared flags: a match yields one
/// capture per declared placeholder, and a digit-flagged placeholder never
/// captures a non-digit character, an alphanumeric-flagged one never
/// captures outside letters and digits, and a length-flagged one only
/// captures texts inside its bounds.
pub proof fn lemma_capture_flags(p: Pattern, path: Seq<char>)
    requires
        p.wf(),
    ensures
        p.spec_match(path) matches Some(caps) ==> caps.len() == p.placeholders@.len() && forall|
            i: int,
        | 0 <= i < caps.len() ==> cap_admissible(phs_of_segs(p.segments@)[i], caps[i]),
{
    lemma_caps_at(p.segments@, path, 0);
}

} // verus!
