//! The declaration grammar and its compiler.
//!
//! A declaration is one anonymous pattern (implicit tag `main`) or
//! semicolon-separated `tag=pattern` entries.  A pattern is slash-separated
//! segments; a segment is `**` or a run of elements: literal text, `*`, an
//! option group `(a|b|c)`, or a placeholder `{name}` / `{name:flags}`.
//! Flags may be separated by commas or juxtaposed: `d` (digits only), `a`
//! (letters and digits only), `+` (one or more characters), `N` (exactly N
//! characters), `>N` (at least N), `<N` (between 1 and N), `N-M` (between N
//! and M).  Within one flag category the last flag written wins.  A length
//! number has at most eight digits.  A placeholder name repeated inside one
//! pattern is rejected at compile time.
//!
//! The `*_ok` spec functions below define exactly which texts the grammar
//! accepts; `parse_declaration` is proved to succeed precisely on those.

use vstd::prelude::*;

use crate::error::Error;
use crate::pattern::{
    element_wf, ph_name, phs_of_elems, phs_of_segs, segment_wf, CharClass, Element, Pattern,
    Segment,
};
use crate::text::{chars_of, check_ident, is_digit, is_ident, is_ident_char, string_of};
use crate::types::{KeyPart, TagName};
use vstd::string::StringExecFns;

verus! {

/// A character admissible in literal text and option alternatives: all but
/// the structural characters of the grammar.
pub open spec fn is_plain(c: char) -> bool {
    c != '/' && c != '*' && c != '(' && c != ')' && c != '{' && c != '}' && c != '|' && c != ';'
        && c != '='
}

/// The first position in `[i, end)` holding `c`, else `end`.
pub open spec fn scan_until(t: Seq<char>, i: int, end: int, c: char) -> int
    decreases end - i,
{
    if i < 0 || i >= end {
        end
    } else if t[i] == c {
        i
    } else {
        scan_until(t, i + 1, end, c)
    }
}

/// The first position in `[i, end)` not holding a plain character, else `end`.
pub open spec fn scan_plain(t: Seq<char>, i: int, end: int) -> int
    decreases end - i,
{
    if i < 0 || i >= end {
        end
    } else if !is_plain(t[i]) {
        i
    } else {
        scan_plain(t, i + 1, end)
    }
}

/// The first position in `[i, end)` not holding an identifier character.
pub open spec fn scan_ident(t: Seq<char>, i: int, end: int) -> int
    decreases end - i,
{
    if i < 0 || i >= end {
        end
    } else if !is_ident_char(t[i]) {
        i
    } else {
        scan_ident(t, i + 1, end)
    }
}

/// The first position in `[i, end)` not holding a digit.
pub open spec fn scan_digits(t: Seq<char>, i: int, end: int) -> int
    decreases end - i,
{
    if i < 0 || i >= end {
        end
    } else if !is_digit(t[i]) {
        i
    } else {
        scan_digits(t, i + 1, end)
    }
}

proof fn lemma_scan_until_range(t: Seq<char>, i: int, end: int, c: char)
    ensures
        0 <= i <= end ==> i <= scan_until(t, i, end, c) <= end,
    decreases end - i,
{
    if 0 <= i < end && t[i] != c {
        lemma_scan_until_range(t, i + 1, end, c);
    }
}

proof fn lemma_scan_plain_range(t: Seq<char>, i: int, end: int)
    ensures
        0 <= i <= end ==> i <= scan_plain(t, i, end) <= end,
    decreases end - i,
{
    if 0 <= i < end && is_plain(t[i]) {
        lemma_scan_plain_range(t, i + 1, end);
    }
}

proof fn lemma_scan_digits_range(t: Seq<char>, i: int, end: int)
    ensures
        0 <= i <= end ==> i <= scan_digits(t, i, end) <= end,
    decreases end - i,
{
    if 0 <= i < end && is_digit(t[i]) {
        lemma_scan_digits_range(t, i + 1, end);
    }
}

/// The value of the digit run `t[i..j)`.
pub open spec fn num_val(t: Seq<char>, i: int, j: int) -> int
    decreases j - i,
{
    if j <= i {
        0
    } else {
        10 * num_val(t, i, j - 1) + (t[j - 1] as int - '0' as int)
    }
}

/// The position after a well-formed flag list and its closing brace
/// starting at `i`, if any.
pub open spec fn flags_tail(t: Seq<char>, i: int, end: int) -> Option<int>
    decreases end - i, 0int,
    via flags_tail_dec
{
    if i < 0 || i >= end {
        None
    } else if t[i] == 'd' || t[i] == 'a' || t[i] == '+' {
        flags_after(t, i + 1, end)
    } else if t[i] == '>' || t[i] == '<' {
        let j = scan_digits(t, i + 1, end);
        if j == i + 1 || j - (i + 1) > 8 {
            None
        } else if t[i] == '<' && num_val(t, i + 1, j) < 1 {
            None
        } else {
            flags_after(t, j, end)
        }
    } else if is_digit(t[i]) {
        let j = scan_digits(t, i, end);
        if j - i > 8 {
            None
        } else if j < end && t[j] == '-' {
            let k = scan_digits(t, j + 1, end);
            if k == j + 1 || k - (j + 1) > 8 {
                None
            } else if num_val(t, i, j) > num_val(t, j + 1, k) {
                None
            } else {
                flags_after(t, k, end)
            }
        } else {
            flags_after(t, j, end)
        }
    } else {
        None
    }
}

#[via_fn]
proof fn flags_tail_dec(t: Seq<char>, i: int, end: int) {
    lemma_scan_digits_range(t, i + 1, end);
    lemma_scan_digits_range(t, i, end);
    lemma_scan_digits_range(t, scan_digits(t, i, end) + 1, end);
}

/// After one flag: the closing brace ends the list, a comma or another
/// flag continues it.
pub open spec fn flags_after(t: Seq<char>, i: int, end: int) -> Option<int>
    decreases end - i, 1int,
{
    if i < 0 || i >= end {
        None
    } else if t[i] == '}' {
        Some(i + 1)
    } else if t[i] == ',' {
        flags_tail(t, i + 1, end)
    } else {
        flags_tail(t, i, end)
    }
}

/// The position after a well-formed placeholder body (name, optional
/// flags, closing brace) starting at `i`, if any.
pub open spec fn ph_ok(t: Seq<char>, i: int, end: int) -> Option<int> {
    let j = scan_ident(t, i, end);
    if !is_ident(t.subrange(i, j)) {
        None
    } else if j < end && t[j] == '}' {
        Some(j + 1)
    } else if j < end && t[j] == ':' {
        flags_tail(t, j + 1, end)
    } else {
        None
    }
}

/// The position after a well-formed option group body (alternatives and
/// closing parenthesis) starting at `i`, if any.
pub open spec fn opts_ok(t: Seq<char>, i: int, end: int) -> Option<int>
    decreases end - i,
    via opts_ok_dec
{
    if i < 0 {
        None
    } else {
        let j = scan_plain(t, i, end);
        if j == i {
            None
        } else if j < end && t[j] == ')' {
            Some(j + 1)
        } else if j < end && t[j] == '|' {
            opts_ok(t, j + 1, end)
        } else {
            None
        }
    }
}

#[via_fn]
proof fn opts_ok_dec(t: Seq<char>, i: int, end: int) {
    lemma_scan_plain_range(t, i, end);
}

/// The position after one well-formed element starting at `i`, if any.
pub open spec fn elem_ok(t: Seq<char>, i: int, end: int) -> Option<int> {
    if i < 0 || i >= end {
        None
    } else if t[i] == '*' {
        Some(i + 1)
    } else if t[i] == '{' {
        ph_ok(t, i + 1, end)
    } else if t[i] == '(' {
        opts_ok(t, i + 1, end)
    } else if is_plain(t[i]) {
        Some(scan_plain(t, i, end))
    } else {
        None
    }
}

/// Whether well-formed elements cover `[i, end)` exactly.
pub open spec fn elems_cover(t: Seq<char>, i: int, end: int) -> bool
    decreases end - i,
{
    if i >= end {
        true
    } else {
        match elem_ok(t, i, end) {
            Some(j) => if i < j <= end {
                elems_cover(t, j, end)
            } else {
                false
            },
            None => false,
        }
    }
}

/// Whether `[i, j)` is the skip-many-segments wildcard `**`.
pub open spec fn seg_is_skip(t: Seq<char>, i: int, j: int) -> bool {
    j - i == 2 && t[i] == '*' && t[i + 1] == '*'
}

/// Whether `[i, end)` is a well-formed pattern: one or more slash-separated
/// segments, each `**` or a nonempty element run.
pub open spec fn pat_ok_from(t: Seq<char>, i: int, end: int) -> bool
    decreases end - i + 1,
    via pat_ok_from_dec
{
    if i < 0 {
        false
    } else {
        let j = scan_until(t, i, end, '/');
        let seg = seg_is_skip(t, i, j) || (j > i && elems_cover(t, i, j));
        if !seg {
            false
        } else if j < end {
            pat_ok_from(t, j + 1, end)
        } else {
            true
        }
    }
}

#[via_fn]
proof fn pat_ok_from_dec(t: Seq<char>, i: int, end: int) {
    lemma_scan_until_range(t, i, end, '/');
}

/// The placeholder names declared by the elements covering `[i, end)`, in
/// written order.
pub open spec fn names_in_elems(t: Seq<char>, i: int, end: int) -> Seq<Seq<char>>
    decreases end - i,
{
    if i >= end {
        Seq::empty()
    } else {
        match elem_ok(t, i, end) {
            Some(j) => if i < j <= end {
                (if t[i] == '{' {
                    seq![t.subrange(i + 1, scan_ident(t, i + 1, end))]
                } else {
                    Seq::<Seq<char>>::empty()
                }) + names_in_elems(t, j, end)
            } else {
                Seq::empty()
            },
            None => Seq::empty(),
        }
    }
}

/// The placeholder names declared by the pattern `[i, end)`, in written
/// order.
pub open spec fn names_from(t: Seq<char>, i: int, end: int) -> Seq<Seq<char>>
    decreases end - i + 1,
    via names_from_dec
{
    if i < 0 {
        Seq::empty()
    } else {
        let j = scan_until(t, i, end, '/');
        (if seg_is_skip(t, i, j) {
            Seq::<Seq<char>>::empty()
        } else {
            names_in_elems(t, i, j)
        }) + (if j < end {
            names_from(t, j + 1, end)
        } else {
            Seq::<Seq<char>>::empty()
        })
    }
}

#[via_fn]
proof fn names_from_dec(t: Seq<char>, i: int, end: int) {
    lemma_scan_until_range(t, i, end, '/');
}

/// No name occurs twice.
pub open spec fn distinct_names(ns: Seq<Seq<char>>) -> bool {
    forall|i: int, j: int| 0 <= i < j < ns.len() ==> ns[i] != ns[j]
}

/// A well-formed pattern text whose placeholder names are pairwise
/// distinct: exactly the texts the compiler accepts.
pub open spec fn pat_valid(t: Seq<char>, i: int, end: int) -> bool {
    pat_ok_from(t, i, end) && distinct_names(names_from(t, i, end))
}

/// Whether the declaration text holds an `=`, which selects the named
/// form.
pub open spec fn contains_eq(s: Seq<char>) -> bool {
    exists|i: int| 0 <= i < s.len() && s[i] == '='
}

/// Whether every `tag=pattern` entry from `i` on is well-formed.
pub open spec fn entries_ok_from(s: Seq<char>, i: int) -> bool
    decreases s.len() - i + 1,
    via entries_ok_from_dec
{
    if i < 0 {
        false
    } else {
        let j = scan_until(s, i, s.len() as int, ';');
        let k = scan_until(s, i, j, '=');
        &&& is_ident(s.subrange(i, k))
        &&& k < j
        &&& pat_valid(s, k + 1, j)
        &&& (j < s.len() ==> entries_ok_from(s, j + 1))
    }
}

#[via_fn]
proof fn entries_ok_from_dec(s: Seq<char>, i: int) {
    lemma_scan_until_range(s, i, s.len() as int, ';');
}

/// The tag names of the entries from `i` on, as written.
pub open spec fn decl_tags_from(s: Seq<char>, i: int) -> Seq<Seq<char>>
    decreases s.len() - i + 1,
    via decl_tags_from_dec
{
    if i < 0 {
        Seq::empty()
    } else {
        let j = scan_until(s, i, s.len() as int, ';');
        let k = scan_until(s, i, j, '=');
        seq![s.subrange(i, k)] + (if j < s.len() {
            decl_tags_from(s, j + 1)
        } else {
            Seq::<Seq<char>>::empty()
        })
    }
}

#[via_fn]
proof fn decl_tags_from_dec(s: Seq<char>, i: int) {
    lemma_scan_until_range(s, i, s.len() as int, ';');
}

/// The first entry name failing identifier syntax before any other fault,
/// scanning entries left to right.
pub open spec fn bad_tag_from(s: Seq<char>, i: int) -> Option<Seq<char>>
    decreases s.len() - i + 1,
    via bad_tag_from_dec
{
    if i < 0 {
        None
    } else {
        let j = scan_until(s, i, s.len() as int, ';');
        let k = scan_until(s, i, j, '=');
        if !is_ident(s.subrange(i, k)) {
            Some(s.subrange(i, k))
        } else if !(k < j && pat_valid(s, k + 1, j)) {
            None
        } else if j < s.len() {
            bad_tag_from(s, j + 1)
        } else {
            None
        }
    }
}

#[via_fn]
proof fn bad_tag_from_dec(s: Seq<char>, i: int) {
    lemma_scan_until_range(s, i, s.len() as int, ';');
}

/// The whole declaration text is well-formed.
pub open spec fn decl_ok(s: Seq<char>) -> bool {
    if contains_eq(s) {
        entries_ok_from(s, 0) && distinct_names(decl_tags_from(s, 0))
    } else {
        pat_valid(s, 0, s.len() as int)
    }
}

/// The tags the declaration declares, in written order (`main` for the
/// anonymous form).
pub open spec fn decl_tags(s: Seq<char>) -> Seq<Seq<char>> {
    if contains_eq(s) {
        decl_tags_from(s, 0)
    } else {
        seq!["main"@]
    }
}

/// The first fault of the declaration text that is a tag-syntax fault, if
/// the faults before it are none.
pub open spec fn decl_bad_tag(s: Seq<char>) -> Option<Seq<char>> {
    if contains_eq(s) {
        bad_tag_from(s, 0)
    } else {
        None
    }
}

/// The ordered tag/pattern pairs compiled from one declaration.
#[derive(Debug)]
pub struct Declaration(pub Vec<(TagName, Pattern)>);

impl Declaration {
    /// The declared tags, in declaration order: the priority order of
    /// classification.
    pub open spec fn tags(self) -> Seq<Seq<char>> {
        self.0@.map_values(|e: (TagName, Pattern)| e.0.0@)
    }

    /// Every pattern well-formed, every tag a valid identifier, no tag
    /// repeated.
    pub open spec fn wf(self) -> bool {
        &&& forall|i: int| 0 <= i < self.0@.len() ==> (#[trigger] self.0@[i]).1.wf()
        &&& forall|i: int| 0 <= i < self.0@.len() ==> is_ident((#[trigger] self.0@[i]).0.0@)
        &&& distinct_names(self.tags())
    }

    /// Whether a tag of this name was declared.
    pub fn has_tag(&self, name: &TagName) -> (r: bool)
        ensures
            r == self.tags().contains(name.0@),
    {
        let mut i: usize = 0;
        while i < self.0.len()
            invariant
                i <= self.0@.len(),
                forall|t: int| 0 <= t < i ==> self.tags()[t] != name.0@,
            decreases self.0@.len() - i,
        {
            assert(self.tags()[i as int] == self.0@[i as int].0.0@);
            if self.0[i].0.0 == name.0 {
                assert(self.tags().contains(name.0@));
                return true;
            }
            i = i + 1;
        }
        assert(forall|t: int| 0 <= t < self.tags().len() ==> self.tags()[t] != name.0@);
        false
    }
}

fn invalid_pattern(m: &str) -> (r: Error)
    ensures
        r matches Error::InvalidPattern(_),
{
    Error::InvalidPattern(String::from_str(m))
}

fn scan_until_x(s: &Vec<char>, i: usize, end: usize, c: char) -> (r: usize)
    requires
        i <= end <= s@.len(),
    ensures
        i <= r <= end,
        r as int == scan_until(s@, i as int, end as int, c),
    decreases end - i,
{
    if i >= end {
        end
    } else if s[i] == c {
        i
    } else {
        scan_until_x(s, i + 1, end, c)
    }
}

fn scan_plain_x(s: &Vec<char>, i: usize, end: usize) -> (r: usize)
    requires
        i <= end <= s@.len(),
    ensures
        i <= r <= end,
        r as int == scan_plain(s@, i as int, end as int),
        forall|t: int| i <= t < r ==> is_plain(#[trigger] s@[t]),
    decreases end - i,
{
    if i >= end {
        end
    } else {
        let c = s[i];
        let plain = c != '/' && c != '*' && c != '(' && c != ')' && c != '{' && c != '}' && c
            != '|' && c != ';' && c != '=';
        if !plain {
            i
        } else {
            scan_plain_x(s, i + 1, end)
        }
    }
}

fn scan_ident_x(s: &Vec<char>, i: usize, end: usize) -> (r: usize)
    requires
        i <= end <= s@.len(),
    ensures
        i <= r <= end,
        r as int == scan_ident(s@, i as int, end as int),
    decreases end - i,
{
    if i >= end {
        end
    } else {
        let c = s[i];
        let ok = (c >= '0' && c <= '9') || (c >= 'a' && c <= 'z') || (c >= 'A' && c <= 'Z') || c
            == '_';
        if !ok {
            i
        } else {
            scan_ident_x(s, i + 1, end)
        }
    }
}

fn scan_digits_x(s: &Vec<char>, i: usize, end: usize) -> (r: usize)
    requires
        i <= end <= s@.len(),
    ensures
        i <= r <= end,
        r as int == scan_digits(s@, i as int, end as int),
        forall|t: int| i <= t < r ==> is_digit(#[trigger] s@[t]),
    decreases end - i,
{
    if i >= end {
        end
    } else {
        let c = s[i];
        if !(c >= '0' && c <= '9') {
            i
        } else {
            scan_digits_x(s, i + 1, end)
        }
    }
}

spec fn pow10(n: nat) -> int
    decreases n,
{
    if n == 0 {
        1
    } else {
        10 * pow10((n - 1) as nat)
    }
}

proof fn lemma_pow10_mono(a: nat, b: nat)
    requires
        a <= b,
    ensures
        1 <= pow10(a) <= pow10(b),
    decreases b,
{
    if b > 0 {
        if a == b {
            lemma_pow10_mono((a - 1) as nat, (b - 1) as nat);
        } else {
            lemma_pow10_mono(a, (b - 1) as nat);
        }
    }
}

proof fn lemma_num_val_bound(t: Seq<char>, i: int, j: int)
    requires
        i <= j,
        forall|u: int| i <= u < j ==> is_digit(#[trigger] t[u]),
    ensures
        0 <= num_val(t, i, j) < pow10((j - i) as nat),
    decreases j - i,
{
    if j > i {
        lemma_num_val_bound(t, i, j - 1);
    }
}

/// The numeric value of the digit run `s[i..j)`; at most eight digits, so
/// it always fits.
fn parse_num(s: &Vec<char>, i: usize, j: usize) -> (v: usize)
    requires
        i <= j <= s@.len(),
        j - i <= 8,
        forall|t: int| i <= t < j ==> is_digit(#[trigger] s@[t]),
    ensures
        v as int == num_val(s@, i as int, j as int),
{
    let mut acc: u64 = 0;
    let mut t: usize = i;
    while t < j
        invariant
            i <= t <= j <= s@.len(),
            j - i <= 8,
            forall|u: int| i <= u < j ==> is_digit(#[trigger] s@[u]),
            acc as int == num_val(s@, i as int, t as int),
            (acc as int) < pow10((t - i) as nat),
        decreases j - t,
    {
        let c = s[t];
        assert(is_digit(s@[t as int]));
        proof {
            lemma_pow10_mono((t - i) as nat, 7nat);
            assert(pow10(7nat) == 10000000) by {
                assert(pow10(0nat) == 1);
                assert(pow10(1nat) == 10);
                assert(pow10(2nat) == 100);
                assert(pow10(3nat) == 1000);
                assert(pow10(4nat) == 10000);
                assert(pow10(5nat) == 100000);
                assert(pow10(6nat) == 1000000);
                assert(pow10(7nat) == 10000000);
            }
        }
        let d: u64 = ((c as u32) - ('0' as u32)) as u64;
        assert(d as int == c as int - '0' as int);
        acc = acc * 10 + d;
        assert(acc as int == num_val(s@, i as int, t + 1));
        t = t + 1;
    }
    proof {
        lemma_pow10_mono((j - i) as nat, 8nat);
        assert(pow10(8nat) == 100000000) by {
            assert(pow10(0nat) == 1);
            assert(pow10(1nat) == 10);
            assert(pow10(2nat) == 100);
            assert(pow10(3nat) == 1000);
            assert(pow10(4nat) == 10000);
            assert(pow10(5nat) == 100000);
            assert(pow10(6nat) == 1000000);
            assert(pow10(7nat) == 10000000);
            assert(pow10(8nat) == 100000000);
        }
    }
    acc as usize
}

/// Parses a flag list from `i` up to its closing brace, carrying the
/// class and length bounds resolved so far; within one category the last
/// flag wins.
fn parse_flags(
    s: &Vec<char>,
    i: usize,
    end: usize,
    cls: CharClass,
    mn: usize,
    mx: Option<usize>,
) -> (r: Result<(CharClass, usize, Option<usize>, usize), Error>)
    requires
        i <= end <= s@.len(),
        mx matches Some(m) ==> mn <= m,
    ensures
        r is Ok <==> flags_tail(s@, i as int, end as int) is Some,
        r matches Ok(q) ==> flags_tail(s@, i as int, end as int) == Some(q.3 as int) && i < q.3
            <= end && (q.2 matches Some(m) ==> q.1 <= m),
        r matches Err(e) ==> e matches Error::InvalidPattern(_),
    decreases end - i, 0int,
{
    if i >= end {
        return Err(invalid_pattern("unterminated placeholder flags"));
    }
    let c = s[i];
    if c == 'd' {
        parse_flags_after(s, i + 1, end, CharClass::Digit, mn, mx)
    } else if c == 'a' {
        parse_flags_after(s, i + 1, end, CharClass::Alnum, mn, mx)
    } else if c == '+' {
        parse_flags_after(s, i + 1, end, cls, 1, Option::None)
    } else if c == '>' || c == '<' {
        let j = scan_digits_x(s, i + 1, end);
        if j == i + 1 {
            return Err(invalid_pattern("length flag needs digits"));
        }
        if j - (i + 1) > 8 {
            return Err(invalid_pattern("length flag too large"));
        }
        let v = parse_num(s, i + 1, j);
        if c == '<' {
            if v < 1 {
                return Err(invalid_pattern("maximum length must be positive"));
            }
            parse_flags_after(s, j, end, cls, 1, Option::Some(v))
        } else {
            parse_flags_after(s, j, end, cls, v, Option::None)
        }
    } else if c >= '0' && c <= '9' {
        let j = scan_digits_x(s, i, end);
        proof {
            lemma_scan_digits_range(s@, i + 1, end as int);
            assert(j > i);
        }
        if j - i > 8 {
            return Err(invalid_pattern("length flag too large"));
        }
        let v = parse_num(s, i, j);
        if j < end && s[j] == '-' {
            let k = scan_digits_x(s, j + 1, end);
            if k == j + 1 {
                return Err(invalid_pattern("length range needs digits"));
            }
            if k - (j + 1) > 8 {
                return Err(invalid_pattern("length flag too large"));
            }
            let w = parse_num(s, j + 1, k);
            if v > w {
                return Err(invalid_pattern("length range inverted"));
            }
            parse_flags_after(s, k, end, cls, v, Option::Some(w))
        } else {
            parse_flags_after(s, j, end, cls, v, Option::Some(v))
        }
    } else {
        Err(invalid_pattern("unknown flag"))
    }
}

/// After one flag: the closing brace ends the list, a comma or another
/// flag continues it.
fn parse_flags_after(
    s: &Vec<char>,
    i: usize,
    end: usize,
    cls: CharClass,
    mn: usize,
    mx: Option<usize>,
) -> (r: Result<(CharClass, usize, Option<usize>, usize), Error>)
    requires
        i <= end <= s@.len(),
        mx matches Some(m) ==> mn <= m,
    ensures
        r is Ok <==> flags_after(s@, i as int, end as int) is Some,
        r matches Ok(q) ==> flags_after(s@, i as int, end as int) == Some(q.3 as int) && i < q.3
            <= end && (q.2 matches Some(m) ==> q.1 <= m),
        r matches Err(e) ==> e matches Error::InvalidPattern(_),
    decreases end - i, 1int,
{
    if i >= end {
        return Err(invalid_pattern("unterminated placeholder flags"));
    }
    if s[i] == '}' {
        Ok((cls, mn, mx, i + 1))
    } else if s[i] == ',' {
        parse_flags(s, i + 1, end, cls, mn, mx)
    } else {
        parse_flags(s, i, end, cls, mn, mx)
    }
}

/// Parses the alternatives of an option group up to its closing
/// parenthesis.
fn parse_opts(s: &Vec<char>, i: usize, end: usize) -> (r: Result<(Vec<Vec<char>>, usize), Error>)
    requires
        i <= end <= s@.len(),
    ensures
        r is Ok <==> opts_ok(s@, i as int, end as int) is Some,
        r matches Ok(q) ==> opts_ok(s@, i as int, end as int) == Some(q.1 as int) && i < q.1 <= end
            && q.0@.len() > 0 && forall|t: int|
            0 <= t < q.0@.len() ==> (#[trigger] q.0@[t])@.len() > 0 && crate::pattern::no_slash(
                q.0@[t]@,
            ),
        r matches Err(e) ==> e matches Error::InvalidPattern(_),
    decreases end - i,
{
    let j = scan_plain_x(s, i, end);
    if j == i {
        return Err(invalid_pattern("empty option alternative"));
    }
    let alt = crate::text::copy_range(s, i, j);
    if j < end && s[j] == ')' {
        let mut alts: Vec<Vec<char>> = Vec::new();
        alts.push(alt);
        Ok((alts, j + 1))
    } else if j < end && s[j] == '|' {
        match parse_opts(s, j + 1, end) {
            Ok((mut rest, nx)) => {
                rest.insert(0, alt);
                Ok((rest, nx))
            },
            Err(e) => Err(e),
        }
    } else {
        Err(invalid_pattern("unterminated option group"))
    }
}

/// Parses one element run covering `[i, end)` exactly, collecting the
/// compiled elements and the placeholder names in written order.
fn parse_elems(s: &Vec<char>, i: usize, end: usize) -> (r: Result<
    (Vec<Element>, Vec<KeyPart>),
    Error,
>)
    requires
        i <= end <= s@.len(),
    ensures
        r is Ok <==> elems_cover(s@, i as int, end as int),
        r matches Ok(q) ==> ({
            &&& forall|t: int| 0 <= t < q.0@.len() ==> element_wf(#[trigger] q.0@[t])
            &&& (i < end ==> q.0@.len() > 0)
            &&& q.1@.map_values(|k: KeyPart| k.0@) == names_in_elems(s@, i as int, end as int)
            &&& phs_of_elems(q.0@).len() == q.1@.len()
            &&& forall|t: int|
                0 <= t < q.1@.len() ==> ph_name(phs_of_elems(q.0@)[t]) == (#[trigger] q.1@[t]).0@
        }),
        r matches Err(e) ==> e matches Error::InvalidPattern(_),
    decreases end - i,
{
    if i >= end {
        let r0: Vec<Element> = Vec::new();
        let r1: Vec<KeyPart> = Vec::new();
        proof {
            assert(phs_of_elems(r0@) =~= Seq::<Element>::empty());
            assert(r1@.map_values(|k: KeyPart| k.0@) =~~= names_in_elems(
                s@,
                i as int,
                end as int,
            ));
        }
        return Ok((r0, r1));
    }
    let c = s[i];
    let (elem, nm, next): (Element, Option<KeyPart>, usize) = if c == '*' {
        assert(elem_ok(s@, i as int, end as int) == Some(i + 1 as int));
        (Element::Wildcard, Option::None, i + 1)
    } else if c == '{' {
        let jn = scan_ident_x(s, i + 1, end);
        if !check_ident(s, i + 1, jn) {
            assert(elem_ok(s@, i as int, end as int) is None);
            return Err(invalid_pattern("invalid placeholder name"));
        }
        let name_chars = crate::text::copy_range(s, i + 1, jn);
        let name_string = string_of(&name_chars);
        let name_copy = name_string.clone();
        let kp = KeyPart(name_string);
        let kp2 = KeyPart(name_copy);
        if jn < end && s[jn] == '}' {
            assert(elem_ok(s@, i as int, end as int) == Some(jn + 1 as int));
            (
                Element::Placeholder { name: kp, class: CharClass::Any, min: 0, max: Option::None },
                Option::Some(kp2),
                jn + 1,
            )
        } else if jn < end && s[jn] == ':' {
            match parse_flags(s, jn + 1, end, CharClass::Any, 0, Option::None) {
                Ok((cls, mn, mx, nx)) => {
                    assert(elem_ok(s@, i as int, end as int) == Some(nx as int));
                    (
                        Element::Placeholder { name: kp, class: cls, min: mn, max: mx },
                        Option::Some(kp2),
                        nx,
                    )
                },
                Err(e) => {
                    assert(elem_ok(s@, i as int, end as int) is None);
                    return Err(e);
                },
            }
        } else {
            assert(elem_ok(s@, i as int, end as int) is None);
            return Err(invalid_pattern("unterminated placeholder"));
        }
    } else if c == '(' {
        match parse_opts(s, i + 1, end) {
            Ok((alts, nx)) => {
                assert(elem_ok(s@, i as int, end as int) == Some(nx as int));
                (Element::Options(alts), Option::None, nx)
            },
            Err(e) => {
                assert(elem_ok(s@, i as int, end as int) is None);
                return Err(e);
            },
        }
    } else {
        let plain = c != '/' && c != ')' && c != '}' && c != '|' && c != ';' && c != '=';
        if !plain {
            assert(elem_ok(s@, i as int, end as int) is None);
            return Err(invalid_pattern("unexpected character in pattern"));
        }
        let j2 = scan_plain_x(s, i, end);
        proof {
            lemma_scan_plain_range(s@, i + 1, end as int);
            assert(j2 > i);
        }
        let lit = crate::text::copy_range(s, i, j2);
        assert(crate::pattern::no_slash(lit@));
        assert(elem_ok(s@, i as int, end as int) == Some(j2 as int));
        (Element::Literal(lit), Option::None, j2)
    };
    assert(i < next <= end);
    let ghost is_ph = s@[i as int] == '{';
    match parse_elems(s, next, end) {
        Err(e) => Err(e),
        Ok((es_rest, ns_rest)) => {
            let ghost es0 = es_rest@;
            let ghost ns0 = ns_rest@;
            let mut es = es_rest;
            let mut ns = ns_rest;
            es.insert(0, elem);
            let ghost the_elem = elem;
            match nm {
                Option::Some(kp2) => {
                    ns.insert(0, kp2);
                },
                Option::None => {},
            }
            proof {
                assert(es@ =~= seq![the_elem] + es0);
                assert(es@[0] == the_elem);
                assert(es@.skip(1) =~= es0);
                if is_ph {
                    assert(the_elem is Placeholder);
                    assert(phs_of_elems(es@) =~= seq![the_elem] + phs_of_elems(es0));
                    assert(ns@ =~= seq![ns@[0]] + ns0);
                } else {
                    assert(!(the_elem is Placeholder));
                    assert(phs_of_elems(es@) =~= phs_of_elems(es0));
                }
                assert(ns@.map_values(|k: KeyPart| k.0@) =~~= names_in_elems(
                    s@,
                    i as int,
                    end as int,
                ));
            }
            Ok((es, ns))
        },
    }
}

/// Parses the slash-separated segments covering `[i, end)` exactly.
fn parse_segments(s: &Vec<char>, i: usize, end: usize) -> (r: Result<
    (Vec<Segment>, Vec<KeyPart>),
    Error,
>)
    requires
        i <= end <= s@.len(),
    ensures
        r is Ok <==> pat_ok_from(s@, i as int, end as int),
        r matches Ok(q) ==> ({
            &&& forall|t: int| 0 <= t < q.0@.len() ==> segment_wf(#[trigger] q.0@[t])
            &&& q.1@.map_values(|k: KeyPart| k.0@) == names_from(s@, i as int, end as int)
            &&& phs_of_segs(q.0@).len() == q.1@.len()
            &&& forall|t: int|
                0 <= t < q.1@.len() ==> ph_name(phs_of_segs(q.0@)[t]) == (#[trigger] q.1@[t]).0@
        }),
        r matches Err(e) ==> e matches Error::InvalidPattern(_),
    decreases end - i + 1,
{
    let j = scan_until_x(s, i, end, '/');
    let is_skip = j - i == 2 && s[i] == '*' && s[i + 1] == '*';
    let (seg, segnames): (Segment, Vec<KeyPart>) = if is_skip {
        (Segment::Skip, Vec::new())
    } else if j == i {
        return Err(invalid_pattern("empty path segment"));
    } else {
        match parse_elems(s, i, j) {
            Ok((es, ns)) => (Segment::Elems(es), ns),
            Err(e) => {
                return Err(e);
            },
        }
    };
    let ghost the_seg = seg;
    let ghost names0 = segnames@;
    if j == end {
        let mut segs: Vec<Segment> = Vec::new();
        segs.push(seg);
        proof {
            assert(segs@ =~= seq![the_seg]);
            assert(segs@.skip(1) =~= Seq::<Segment>::empty());
            assert(phs_of_segs(segs@.skip(1)) =~= Seq::<Element>::empty());
            assert(segnames@.map_values(|k: KeyPart| k.0@) =~~= names_from(
                s@,
                i as int,
                end as int,
            ));
        }
        Ok((segs, segnames))
    } else {
        match parse_segments(s, j + 1, end) {
            Err(e) => Err(e),
            Ok((rsegs, rnames)) => {
                let ghost rsegs0 = rsegs@;
                let ghost rnames0 = rnames@;
                let mut segs = rsegs;
                segs.insert(0, seg);
                let mut names = segnames;
                let mut rn = rnames;
                names.append(&mut rn);
                proof {
                    assert(segs@ =~= seq![the_seg] + rsegs0);
                    assert(segs@[0] == the_seg);
                    assert(segs@.skip(1) =~= rsegs0);
                    assert(names@ =~= names0 + rnames0);
                    assert(phs_of_segs(segs@) =~= (match the_seg {
                        Segment::Elems(es) => phs_of_elems(es@),
                        Segment::Skip => Seq::<Element>::empty(),
                    }) + phs_of_segs(rsegs0));
                    assert forall|t: int| 0 <= t < names@.len() implies ph_name(
                        phs_of_segs(segs@)[t],
                    ) == (#[trigger] names@[t]).0@ by {
                        if t < names0.len() {
                            assert(names@[t] == names0[t]);
                        } else {
                            assert(names@[t] == rnames0[t - names0.len()]);
                        }
                    }
                    assert(names@.map_values(|k: KeyPart| k.0@) =~~= names_from(
                        s@,
                        i as int,
                        end as int,
                    ));
                }
                Ok((segs, names))
            },
        }
    }
}

/// Whether no placeholder name occurs twice.
fn names_distinct_check(ns: &Vec<KeyPart>) -> (r: bool)
    ensures
        r == distinct_names(ns@.map_values(|k: KeyPart| k.0@)),
{
    let ghost m = ns@.map_values(|k: KeyPart| k.0@);
    let mut a: usize = 0;
    while a < ns.len()
        invariant
            a <= ns@.len(),
            m == ns@.map_values(|k: KeyPart| k.0@),
            forall|x: int, y: int| 0 <= x < y < ns@.len() && x < a ==> m[x] != m[y],
        decreases ns@.len() - a,
    {
        let mut b: usize = a + 1;
        while b < ns.len()
            invariant
                a < ns@.len(),
                a + 1 <= b <= ns@.len() || b == a + 1,
                m == ns@.map_values(|k: KeyPart| k.0@),
                forall|y: int| a < y < b ==> m[a as int] != m[y],
            decreases ns@.len() - b,
        {
            if ns[a].0 == ns[b].0 {
                assert(m[a as int] == m[b as int]);
                assert(!distinct_names(m));
                return false;
            }
            b = b + 1;
        }
        a = a + 1;
    }
    true
}

/// Whether no tag occurs twice.
fn tags_distinct_check(v: &Vec<(TagName, Pattern)>) -> (r: bool)
    ensures
        r == distinct_names(v@.map_values(|e: (TagName, Pattern)| e.0.0@)),
{
    let ghost m = v@.map_values(|e: (TagName, Pattern)| e.0.0@);
    let mut a: usize = 0;
    while a < v.len()
        invariant
            a <= v@.len(),
            m == v@.map_values(|e: (TagName, Pattern)| e.0.0@),
            forall|x: int, y: int| 0 <= x < y < v@.len() && x < a ==> m[x] != m[y],
        decreases v@.len() - a,
    {
        let mut b: usize = a + 1;
        while b < v.len()
            invariant
                a < v@.len(),
                a + 1 <= b <= v@.len() || b == a + 1,
                m == v@.map_values(|e: (TagName, Pattern)| e.0.0@),
                forall|y: int| a < y < b ==> m[a as int] != m[y],
            decreases v@.len() - b,
        {
            if v[a].0.0 == v[b].0.0 {
                assert(m[a as int] == m[b as int]);
                assert(!distinct_names(m));
                return false;
            }
            b = b + 1;
        }
        a = a + 1;
    }
    true
}

/// Compiles one pattern text `[from, end)` into a matcher.
fn parse_pattern_range(s: &Vec<char>, from: usize, end: usize) -> (r: Result<Pattern, Error>)
    requires
        from <= end <= s@.len(),
    ensures
        r is Ok <==> pat_valid(s@, from as int, end as int),
        r matches Ok(p) ==> p.wf() && p.placeholders@.map_values(|q: KeyPart| q.0@) == names_from(
            s@,
            from as int,
            end as int,
        ),
        r matches Err(e) ==> e matches Error::InvalidPattern(_),
{
    match parse_segments(s, from, end) {
        Err(e) => Err(e),
        Ok((segs, names)) => {
            if names_distinct_check(&names) {
                let p = Pattern { segments: segs, placeholders: names };
                proof {
                    let m = p.placeholders@.map_values(|q: KeyPart| q.0@);
                    assert(forall|x: int|
                        0 <= x < p.placeholders@.len() ==> m[x] == (
                        #[trigger] p.placeholders@[x]).0@);
                }
                Ok(p)
            } else {
                Err(invalid_pattern("duplicate placeholder name"))
            }
        },
    }
}

/// If every entry from `i` on is well-formed, no tag-syntax fault is the
/// first fault.
proof fn lemma_entries_ok_no_bad_tag(s: Seq<char>, i: int)
    requires
        entries_ok_from(s, i),
    ensures
        bad_tag_from(s, i) is None,
    decreases s.len() - i + 1,
{
    lemma_scan_until_range(s, i, s.len() as int, ';');
    let j = scan_until(s, i, s.len() as int, ';');
    if 0 <= i && j < s.len() {
        lemma_entries_ok_no_bad_tag(s, j + 1);
    }
}

/// Parses the `tag=pattern` entries from `i` on.
fn parse_entries(s: &Vec<char>, i: usize) -> (r: Result<Vec<(TagName, Pattern)>, Error>)
    requires
        i <= s@.len(),
    ensures
        r is Ok <==> entries_ok_from(s@, i as int),
        r matches Ok(v) ==> ({
            &&& forall|t: int| 0 <= t < v@.len() ==> (#[trigger] v@[t]).1.wf()
            &&& forall|t: int| 0 <= t < v@.len() ==> is_ident((#[trigger] v@[t]).0.0@)
            &&& v@.map_values(|e: (TagName, Pattern)| e.0.0@) == decl_tags_from(s@, i as int)
        }),
        r matches Err(e) ==> (match bad_tag_from(s@, i as int) {
            Some(nm) => e matches Error::InvalidTag(m) && m@ == nm,
            None => e matches Error::InvalidPattern(_),
        }),
    decreases s@.len() - i,
{
    let n = s.len();
    let j = scan_until_x(s, i, n, ';');
    let k = scan_until_x(s, i, j, '=');
    if !check_ident(s, i, k) {
        let tagtxt = crate::text::copy_range(s, i, k);
        return Err(Error::InvalidTag(string_of(&tagtxt)));
    }
    if k == j {
        return Err(invalid_pattern("entry needs a '=' between tag and pattern"));
    }
    match parse_pattern_range(s, k + 1, j) {
        Err(e) => Err(e),
        Ok(p) => {
            let tagtxt = crate::text::copy_range(s, i, k);
            let tag = TagName(string_of(&tagtxt));
            if j == n {
                let mut v: Vec<(TagName, Pattern)> = Vec::new();
                v.push((tag, p));
                proof {
                    assert(v@.map_values(|e: (TagName, Pattern)| e.0.0@) =~~= decl_tags_from(
                        s@,
                        i as int,
                    ));
                }
                Ok(v)
            } else {
                match parse_entries(s, j + 1) {
                    Err(e) => Err(e),
                    Ok(rest) => {
                        let ghost rest0 = rest@;
                        let mut v = rest;
                        v.insert(0, (tag, p));
                        proof {
                            assert(v@ =~= seq![(tag, p)] + rest0);
                            assert(v@.map_values(|e: (TagName, Pattern)| e.0.0@)
                                =~~= decl_tags_from(s@, i as int));
                        }
                        Ok(v)
                    },
                }
            }
        },
    }
}

/// Whether the declaration text holds an `=`.
fn contains_eq_x(s: &Vec<char>) -> (r: bool)
    ensures
        r == contains_eq(s@),
{
    let mut i: usize = 0;
    while i < s.len()
        invariant
            i <= s@.len(),
            forall|t: int| 0 <= t < i ==> s@[t] != '=',
        decreases s@.len() - i,
    {
        if s[i] == '=' {
            assert(contains_eq(s@));
            return true;
        }
        i = i + 1;
    }
    false
}

/// Compiles a whole declaration: one anonymous pattern under the implicit
/// tag `main`, or semicolon-separated `tag=pattern` entries in declaration
/// order.  Succeeds exactly on grammar-conforming texts; a tag failing
/// identifier syntax is reported as `InvalidTag`, every other fault as
/// `InvalidPattern`.
pub fn parse_declaration(input: &str) -> (r: Result<Declaration, Error>)
    ensures
        r is Ok <==> decl_ok(input@),
        r matches Ok(d) ==> d.wf() && d.tags() == decl_tags(input@),
        r matches Err(e) ==> (match decl_bad_tag(input@) {
            Some(nm) => e matches Error::InvalidTag(m) && m@ == nm,
            None => e matches Error::InvalidPattern(_),
        }),
{
    let s = chars_of(input);
    let n = s.len();
    if contains_eq_x(&s) {
        match parse_entries(&s, 0) {
            Err(e) => Err(e),
            Ok(v) => {
                if tags_distinct_check(&v) {
                    let d = Declaration(v);
                    Ok(d)
                } else {
                    proof {
                        lemma_entries_ok_no_bad_tag(s@, 0);
                    }
                    Err(invalid_pattern("duplicate tag"))
                }
            },
        }
    } else {
        match parse_pattern_range(&s, 0, n) {
            Err(e) => Err(e),
            Ok(p) => {
                let mut v: Vec<(TagName, Pattern)> = Vec::new();
                v.push((TagName(String::from_str("main")), p));
                let d = Declaration(v);
                proof {
                    reveal_strlit("main");
                    assert(is_ident("main"@));
                    assert(d.tags() =~~= seq!["main"@]);
                }
                Ok(d)
            },
        }
    }
}

} // verus!
