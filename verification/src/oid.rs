//! Object identifiers: non-empty sequences of 32-bit sub-identifiers with a
//! lexicographic total order and a dotted-decimal text form.

use vstd::prelude::*;

pub use crate::trie::OidTrie;

verus! {

/// Strict lexicographic order on sub-identifier sequences: the order in which
/// an SNMP walk visits names. A strict prefix precedes every extension of it.
pub open spec fn oid_lt(a: Seq<u32>, b: Seq<u32>) -> bool
    decreases a.len(),
{
    if a.len() == 0 {
        b.len() > 0
    } else if b.len() == 0 {
        false
    } else if a[0] < b[0] {
        true
    } else if a[0] == b[0] {
        oid_lt(a.drop_first(), b.drop_first())
    } else {
        false
    }
}

/// `p` is an initial segment of `s`.
pub open spec fn is_prefix_of(p: Seq<u32>, s: Seq<u32>) -> bool {
    p.len() <= s.len() && p == s.take(p.len() as int)
}

/// Of two sequences, exactly one of `a < b`, `a == b`, `b < a` holds.
pub proof fn lemma_oid_lt_trichotomy(a: Seq<u32>, b: Seq<u32>)
    ensures
        oid_lt(a, b) || oid_lt(b, a) || a == b,
        oid_lt(a, b) ==> !oid_lt(b, a) && a != b,
        oid_lt(b, a) ==> !oid_lt(a, b) && a != b,
    decreases a.len(),
{
    if a.len() == 0 {
        if b.len() == 0 {
            assert(a =~= b);
        }
    } else if b.len() == 0 {
    } else if a[0] == b[0] {
        lemma_oid_lt_trichotomy(a.drop_first(), b.drop_first());
        if a.drop_first() == b.drop_first() {
            assert forall|j: int| 0 <= j < a.len() implies a[j] == b[j] by {
                if j > 0 {
                    assert(a[j] == a.drop_first()[j - 1]);
                    assert(b[j] == b.drop_first()[j - 1]);
                }
            }
            assert(a =~= b);
        }
    }
}

/// The order is transitive.
pub proof fn lemma_oid_lt_transitive(a: Seq<u32>, b: Seq<u32>, c: Seq<u32>)
    requires
        oid_lt(a, b),
        oid_lt(b, c),
    ensures
        oid_lt(a, c),
    decreases a.len(),
{
    if a.len() == 0 {
    } else if a[0] == b[0] && b[0] == c[0] {
        lemma_oid_lt_transitive(a.drop_first(), b.drop_first(), c.drop_first());
    }
}

/// A strict prefix comes strictly before what it prefixes.
pub proof fn lemma_prefix_lt(p: Seq<u32>, s: Seq<u32>)
    requires
        is_prefix_of(p, s),
        p.len() < s.len(),
    ensures
        oid_lt(p, s),
    decreases p.len(),
{
    if p.len() > 0 {
        assert(p[0] == s[0]);
        assert(is_prefix_of(p.drop_first(), s.drop_first())) by {
            assert(p.drop_first() =~= s.drop_first().take(p.len() - 1));
        }
        lemma_prefix_lt(p.drop_first(), s.drop_first());
    }
}

/// Dropping an equal initial segment from both sides leaves the order alone.
pub proof fn lemma_oid_lt_skip(a: Seq<u32>, b: Seq<u32>, i: int)
    requires
        0 <= i <= a.len(),
        i <= b.len(),
        forall|j: int| 0 <= j < i ==> a[j] == b[j],
    ensures
        oid_lt(a, b) <==> oid_lt(a.skip(i), b.skip(i)),
    decreases i,
{
    if i == 0 {
        assert(a.skip(0) =~= a);
        assert(b.skip(0) =~= b);
    } else {
        assert(a[0] == b[0]);
        lemma_oid_lt_skip(a.drop_first(), b.drop_first(), i - 1);
        assert(a.drop_first().skip(i - 1) =~= a.skip(i));
        assert(b.drop_first().skip(i - 1) =~= b.skip(i));
    }
}

/// One step of the order: compare heads, then tails.
pub proof fn lemma_oid_lt_unfold(a: Seq<u32>, b: Seq<u32>)
    requires
        a.len() > 0,
        b.len() > 0,
    ensures
        oid_lt(a, b) <==> (a[0] < b[0] || (a[0] == b[0] && oid_lt(a.drop_first(),
            b.drop_first()))),
{
}

/// The empty sequence comes before every other one and after none.
pub proof fn lemma_oid_lt_nil(b: Seq<u32>)
    ensures
        oid_lt(Seq::empty(), b) <==> b.len() > 0,
        !oid_lt(b, Seq::empty()),
{
    if b.len() > 0 {
        assert(!oid_lt(b, Seq::empty()));
    }
}

/// A decimal digit.
pub open spec fn is_digit_char(c: char) -> bool {
    48 <= c as u32 <= 57
}

/// The numeric value of a decimal digit.
pub open spec fn digit_val(c: char) -> nat {
    (c as u32 - 48) as nat
}

/// The decimal digit for a value below ten.
pub open spec fn digit_char(d: nat) -> char {
    if d == 0 { '0' }
    else if d == 1 { '1' }
    else if d == 2 { '2' }
    else if d == 3 { '3' }
    else if d == 4 { '4' }
    else if d == 5 { '5' }
    else if d == 6 { '6' }
    else if d == 7 { '7' }
    else if d == 8 { '8' }
    else { '9' }
}

/// The usual decimal rendering of `n`, most significant digit first.
pub open spec fn dec_str(n: nat) -> Seq<char>
    decreases n,
{
    if n < 10 {
        seq![digit_char(n)]
    } else {
        dec_str(n / 10) + seq![digit_char(n % 10)]
    }
}

/// The value of a string of decimal digits (0 for the empty string).
pub open spec fn digits_val(s: Seq<char>) -> nat
    decreases s.len(),
{
    if s.len() == 0 {
        0
    } else {
        digits_val(s.drop_last()) * 10 + digit_val(s.last())
    }
}

/// Every character is a decimal digit.
pub open spec fn all_digits(s: Seq<char>) -> bool {
    forall|i: int| 0 <= i < s.len() ==> is_digit_char(s[i])
}

/// The index of the first dot, or the length if there is none.
pub open spec fn first_dot(s: Seq<char>) -> int
    decreases s.len(),
{
    if s.len() == 0 {
        0
    } else if s[0] == '.' {
        0
    } else {
        1 + first_dot(s.drop_first())
    }
}

pub proof fn lemma_first_dot_le(s: Seq<char>)
    ensures
        0 <= first_dot(s) <= s.len(),
    decreases s.len(),
{
    if s.len() > 0 && s[0] != '.' {
        lemma_first_dot_le(s.drop_first());
    }
}

proof fn lemma_first_dot_at(s: Seq<char>)
    ensures
        forall|j: int| 0 <= j < first_dot(s) ==> s[j] != '.',
        first_dot(s) < s.len() ==> s[first_dot(s)] == '.',
    decreases s.len(),
{
    lemma_first_dot_le(s);
    if s.len() > 0 && s[0] != '.' {
        lemma_first_dot_at(s.drop_first());
        lemma_first_dot_le(s.drop_first());
        assert forall|j: int| 0 <= j < first_dot(s) implies s[j] != '.' by {
            if j > 0 {
                assert(s[j] == s.drop_first()[j - 1]);
            }
        }
        if first_dot(s) < s.len() {
            assert(s[first_dot(s)] == s.drop_first()[first_dot(s) - 1]);
        }
    }
}

proof fn lemma_first_dot_of(s: Seq<char>, d: int)
    requires
        0 <= d <= s.len(),
        forall|j: int| 0 <= j < d ==> s[j] != '.',
        d < s.len() ==> s[d] == '.',
    ensures
        first_dot(s) == d,
    decreases s.len(),
{
    if s.len() > 0 && s[0] != '.' {
        assert(forall|j: int| 0 <= j < d - 1 ==> s.drop_first()[j] == s[j + 1]);
        lemma_first_dot_of(s.drop_first(), d - 1);
    }
}

/// What one token of a dot-separated decimal list means, and what follows.
pub open spec fn spec_parse_parts(s: Seq<char>) -> Option<Seq<u32>>
    decreases s.len(),
{
    let d = first_dot(s);
    let tok = s.take(d);
    if tok.len() == 0 || !all_digits(tok) || digits_val(tok) > 0xFFFF_FFFF {
        None
    } else if d == s.len() {
        Some(seq![digits_val(tok) as u32])
    } else {
        proof {
            lemma_first_dot_le(s);
        }
        match spec_parse_parts(s.skip(d + 1)) {
            Some(rest) => Some(seq![digits_val(tok) as u32] + rest),
            None => None,
        }
    }
}

/// The input with one optional leading dot removed.
pub open spec fn strip_dot(s: Seq<char>) -> Seq<char> {
    if s.len() > 0 && s[0] == '.' {
        s.drop_first()
    } else {
        s
    }
}

/// A character the text form ignores at either end: the Unicode white-space
/// set, the same set `str::trim` removes.
pub open spec fn is_space_char(c: char) -> bool {
    let u = c as u32;
    (9 <= u && u <= 13) || u == 32 || u == 0x85 || u == 0xA0 || u == 0x1680
        || (0x2000 <= u && u <= 0x200A) || u == 0x2028 || u == 0x2029 || u == 0x202F
        || u == 0x205F || u == 0x3000
}

/// The input without leading white space.
pub open spec fn trim_front(s: Seq<char>) -> Seq<char>
    decreases s.len(),
{
    if s.len() > 0 && is_space_char(s[0]) {
        trim_front(s.drop_first())
    } else {
        s
    }
}

/// The input without trailing white space.
pub open spec fn trim_back(s: Seq<char>) -> Seq<char>
    decreases s.len(),
{
    if s.len() > 0 && is_space_char(s.last()) {
        trim_back(s.drop_last())
    } else {
        s
    }
}

/// The input without surrounding white space.
pub open spec fn trim_ws(s: Seq<char>) -> Seq<char> {
    trim_back(trim_front(s))
}

/// What parsing already-trimmed text yields: `None` where parsing fails.
pub open spec fn spec_parse_trimmed(s: Seq<char>) -> Option<Seq<u32>> {
    if strip_dot(s).len() == 0 {
        None
    } else {
        spec_parse_parts(strip_dot(s))
    }
}

/// What parsing an OID string yields: surrounding white space is ignored,
/// then one optional leading dot; `None` where parsing fails.
pub open spec fn spec_parse_oid(s: Seq<char>) -> Option<Seq<u32>> {
    spec_parse_trimmed(trim_ws(s))
}

/// The first dot-separated component that fails to parse: one that is
/// empty, holds a non-digit, or is too large for 32 bits. Empty when every
/// component parses.
pub open spec fn bad_token(s: Seq<char>) -> Seq<char>
    decreases s.len(),
{
    let d = first_dot(s);
    let tok = s.take(d);
    if tok.len() == 0 || !all_digits(tok) || digits_val(tok) > 0xFFFF_FFFF {
        tok
    } else if d == s.len() {
        Seq::empty()
    } else {
        proof {
            lemma_first_dot_le(s);
        }
        bad_token(s.skip(d + 1))
    }
}

proof fn lemma_trim_front_of(s: Seq<char>, a: int)
    requires
        0 <= a <= s.len(),
        forall|j: int| 0 <= j < a ==> is_space_char(#[trigger] s[j]),
        a < s.len() ==> !is_space_char(s[a]),
    ensures
        trim_front(s) == s.skip(a),
    decreases a,
{
    if a == 0 {
        assert(s.skip(0) =~= s);
    } else {
        assert(forall|j: int| 0 <= j < a - 1
            ==> is_space_char(#[trigger] s.drop_first()[j]));
        lemma_trim_front_of(s.drop_first(), a - 1);
        assert(s.drop_first().skip(a - 1) =~= s.skip(a));
    }
}

proof fn lemma_trim_back_of(s: Seq<char>, b: int)
    requires
        0 <= b <= s.len(),
        forall|j: int| b <= j < s.len() ==> is_space_char(#[trigger] s[j]),
        b > 0 ==> !is_space_char(s[b - 1]),
    ensures
        trim_back(s) == s.take(b),
    decreases s.len(),
{
    if b == s.len() {
        assert(s.take(b) =~= s);
    } else {
        assert(is_space_char(s.last()));
        assert(forall|j: int| b <= j < s.drop_last().len()
            ==> is_space_char(#[trigger] s.drop_last()[j]));
        if b > 0 {
            assert(s.drop_last()[b - 1] == s[b - 1]);
        }
        lemma_trim_back_of(s.drop_last(), b);
        assert(s.drop_last().take(b) =~= s.take(b));
    }
}

/// The dotted-decimal text of a sequence of sub-identifiers.
pub open spec fn oid_str(parts: Seq<u32>) -> Seq<char>
    decreases parts.len(),
{
    if parts.len() == 0 {
        Seq::empty()
    } else if parts.len() == 1 {
        dec_str(parts[0] as nat)
    } else {
        dec_str(parts[0] as nat) + seq!['.'] + oid_str(parts.drop_first())
    }
}

spec fn combine_parts(p: Seq<u32>, r: Option<Seq<u32>>) -> Option<Seq<u32>> {
    match r {
        Some(x) => Some(p + x),
        None => None,
    }
}

proof fn lemma_digit_char(d: nat)
    requires
        d < 10,
    ensures
        is_digit_char(digit_char(d)),
        digit_val(digit_char(d)) == d,
        digit_char(d) != '.',
{
}

proof fn lemma_dec_str_props(n: nat)
    ensures
        dec_str(n).len() >= 1,
        all_digits(dec_str(n)),
        forall|i: int| 0 <= i < dec_str(n).len() ==> dec_str(n)[i] != '.',
        digits_val(dec_str(n)) == n,
    decreases n,
{
    if n < 10 {
        lemma_digit_char(n);
        assert(dec_str(n).drop_last() =~= Seq::<char>::empty());
        assert(digits_val(Seq::<char>::empty()) == 0);
        assert(dec_str(n).last() == digit_char(n));
    } else {
        lemma_dec_str_props(n / 10);
        lemma_digit_char(n % 10);
        let w = dec_str(n);
        assert(w.drop_last() =~= dec_str(n / 10));
        assert(w.last() == digit_char(n % 10));
        assert(digits_val(w) == (n / 10) * 10 + n % 10);
        assert((n / 10) * 10 + n % 10 == n);
        assert forall|i: int| 0 <= i < w.len() implies
            (is_digit_char(w[i]) && w[i] != '.') by {
            if i < dec_str(n / 10).len() {
                assert(w[i] == dec_str(n / 10)[i]);
            }
        }
    }
}

proof fn lemma_dv_prefix(s: Seq<char>, m: int)
    requires
        0 <= m <= s.len(),
    ensures
        digits_val(s) >= digits_val(s.take(m)),
    decreases s.len() - m,
{
    if m == s.len() {
        assert(s.take(m) =~= s);
    } else {
        assert(s.take(m + 1).drop_last() =~= s.take(m));
        assert(digits_val(s.take(m + 1)) == digits_val(s.take(m)) * 10
            + digit_val(s.take(m + 1).last()));
        lemma_dv_prefix(s, m + 1);
    }
}

proof fn lemma_oid_str_snoc(parts: Seq<u32>, p: u32)
    requires
        parts.len() >= 1,
    ensures
        oid_str(parts.push(p)) =~= oid_str(parts) + seq!['.'] + dec_str(p as nat),
    decreases parts.len(),
{
    if parts.len() == 1 {
        assert(parts.push(p).drop_first() =~= seq![p]);
        assert(oid_str(seq![p]) == dec_str(p as nat));
    } else {
        lemma_oid_str_snoc(parts.drop_first(), p);
        assert(parts.push(p).drop_first() =~= parts.drop_first().push(p));
    }
}

proof fn lemma_parse_parts_round_trip(parts: Seq<u32>)
    requires
        parts.len() >= 1,
    ensures
        spec_parse_parts(oid_str(parts)) == Some(parts),
    decreases parts.len(),
{
    let s = oid_str(parts);
    let w = dec_str(parts[0] as nat);
    lemma_dec_str_props(parts[0] as nat);
    if parts.len() == 1 {
        lemma_first_dot_of(s, s.len() as int);
        assert(s.take(s.len() as int) =~= s);
        assert(digits_val(s) == parts[0] as nat);
        assert(seq![digits_val(s.take(first_dot(s))) as u32] =~= parts);
    } else {
        lemma_parse_parts_round_trip(parts.drop_first());
        let rest = oid_str(parts.drop_first());
        assert(s == w + seq!['.'] + rest);
        assert forall|j: int| 0 <= j < w.len() implies s[j] != '.' by {
            assert(s[j] == w[j]);
        }
        assert(s[w.len() as int] == '.');
        lemma_first_dot_of(s, w.len() as int);
        assert(s.take(w.len() as int) =~= w);
        assert(s.skip(w.len() as int + 1) =~= rest);
        assert(seq![digits_val(w) as u32] + parts.drop_first() =~= parts);
    }
}

/// Parsing inverts printing: the text of any OID reads back as that OID.
pub proof fn lemma_text_round_trip(parts: Seq<u32>)
    requires
        1 <= parts.len(),
    ensures
        spec_parse_oid(oid_str(parts)) == Some(parts),
{
    lemma_dec_str_props(parts[0] as nat);
    let s = oid_str(parts);
    assert(s[0] == dec_str(parts[0] as nat)[0]);
    assert(is_digit_char(s[0]));
    assert(s[0] != '.');
    assert(!is_space_char(s[0]));
    lemma_oid_str_last(parts);
    assert(!is_space_char(s.last()));
    assert(trim_front(s) == s);
    assert(trim_back(s) == s);
    assert(strip_dot(s) == s);
    assert(s.len() > 0);
    lemma_parse_parts_round_trip(parts);
}

proof fn lemma_oid_str_last(parts: Seq<u32>)
    requires
        parts.len() >= 1,
    ensures
        oid_str(parts).len() >= 1,
        is_digit_char(oid_str(parts).last()),
    decreases parts.len(),
{
    if parts.len() == 1 {
        lemma_dec_str_props(parts[0] as nat);
        let w = dec_str(parts[0] as nat);
        assert(is_digit_char(w[w.len() - 1]));
    } else {
        lemma_oid_str_last(parts.drop_first());
        let rest = oid_str(parts.drop_first());
        assert(oid_str(parts).last() == rest.last());
    }
}

/// Why constructing or parsing an OID failed.
#[derive(Clone, Debug)]
pub enum OidError {
    /// The sequence of sub-identifiers (or the input text) was empty.
    Empty,
    /// A dot-separated component was not a decimal number that fits in `u32`.
    InvalidPart(String),
}

/// An object identifier: a non-empty sequence of 32-bit sub-identifiers.
#[derive(Clone, Debug)]
pub struct Oid {
    parts: Vec<u32>,
}

impl View for Oid {
    type V = Seq<u32>;

    closed spec fn view(&self) -> Seq<u32> {
        self.parts@
    }
}

impl Oid {
    /// Every `Oid` that can be constructed holds at least one sub-identifier.
    pub open spec fn wf(self) -> bool {
        self@.len() >= 1
    }

    /// Builds an OID from an explicit sequence of sub-identifiers; an empty
    /// sequence is rejected.
    pub fn new(parts: Vec<u32>) -> (r: Result<Self, OidError>)
        ensures
            parts@.len() >= 1 <==> r is Ok,
            r matches Ok(o) ==> o@ == parts@ && o.wf(),
            r matches Err(e) ==> e is Empty,
    {
        if parts.len() == 0 {
            Err(OidError::Empty)
        } else {
            Ok(Oid { parts })
        }
    }

    /// Builds an OID by copying a slice of sub-identifiers.
    pub fn from_slice(parts: &[u32]) -> (r: Result<Self, OidError>)
        ensures
            parts@.len() >= 1 <==> r is Ok,
            r matches Ok(o) ==> o@ == parts@ && o.wf(),
            r matches Err(e) ==> e is Empty,
    {
        let mut v: Vec<u32> = Vec::new();
        let mut i: usize = 0;
        while i < parts.len()
            invariant
                0 <= i <= parts@.len(),
                v@ == parts@.take(i as int),
            decreases parts@.len() - i,
        {
            v.push(parts[i]);
            assert(v@ =~= parts@.take(i + 1));
            i += 1;
        }
        assert(v@ =~= parts@);
        Oid::new(v)
    }

    /// The sub-identifiers as a slice.
    pub fn parts(&self) -> (r: &[u32])
        ensures
            r@ == self@,
    {
        self.parts.as_slice()
    }

    /// The number of sub-identifiers.
    pub fn len(&self) -> (r: usize)
        ensures
            r == self@.len(),
    {
        self.parts.len()
    }

    /// True only for the (unconstructible) empty OID; kept for symmetry with
    /// the slice API.
    pub fn is_empty(&self) -> (r: bool)
        ensures
            r == (self@.len() == 0),
    {
        self.parts.len() == 0
    }

    /// True when `prefix` is an initial segment of `self`.
    pub fn starts_with(&self, prefix: &Oid) -> (r: bool)
        ensures
            r == is_prefix_of(prefix@, self@),
    {
        if prefix.parts.len() > self.parts.len() {
            return false;
        }
        let mut i: usize = 0;
        while i < prefix.parts.len()
            invariant
                0 <= i <= prefix@.len() <= self@.len(),
                forall|j: int| 0 <= j < i ==> prefix@[j] == self@[j],
            decreases prefix@.len() - i,
        {
            if self.parts[i] != prefix.parts[i] {
                assert(prefix@ != self@.take(prefix@.len() as int));
                return false;
            }
            i += 1;
        }
        assert(prefix@ =~= self@.take(prefix@.len() as int));
        true
    }

    /// True when `self` is a strict initial segment of `other`.
    pub fn is_parent_of(&self, other: &Oid) -> (r: bool)
        ensures
            r == (is_prefix_of(self@, other@) && self@.len() < other@.len()),
    {
        other.parts.len() > self.parts.len() && other.starts_with(self)
    }

    /// The OID with the last sub-identifier removed, or `None` if only one
    /// sub-identifier is left.
    pub fn parent(&self) -> (r: Option<Oid>)
        requires
            self.wf(),
        ensures
            self@.len() == 1 ==> r is None,
            self@.len() > 1 ==> (r matches Some(p) && p@ == self@.take(self@.len() - 1)),
    {
        if self.parts.len() <= 1 {
            return None;
        }
        let n = self.parts.len() - 1;
        let mut v: Vec<u32> = Vec::new();
        let mut i: usize = 0;
        while i < n
            invariant
                0 <= i <= n < self@.len(),
                v@ == self@.take(i as int),
            decreases n - i,
        {
            v.push(self.parts[i]);
            assert(v@ =~= self@.take(i + 1));
            i += 1;
        }
        Some(Oid { parts: v })
    }

    /// The OID extended by one sub-identifier.
    pub fn child(&self, sub_id: u32) -> (r: Oid)
        ensures
            r@ == self@.push(sub_id),
    {
        let mut v = self.parts.clone();
        v.push(sub_id);
        Oid { parts: v }
    }

    /// How many leading sub-identifiers the two OIDs share.
    pub fn common_prefix_len(&self, other: &Oid) -> (r: usize)
        ensures
            r <= self@.len() && r <= other@.len(),
            forall|j: int| 0 <= j < r ==> self@[j] == other@[j],
            r < self@.len() && r < other@.len() ==> self@[r as int] != other@[r as int],
    {
        let n = if self.parts.len() < other.parts.len() {
            self.parts.len()
        } else {
            other.parts.len()
        };
        let mut i: usize = 0;
        while i < n
            invariant
                0 <= i <= n,
                n <= self@.len() && n <= other@.len(),
                n == if self@.len() < other@.len() { self@.len() } else { other@.len() },
                forall|j: int| 0 <= j < i ==> self@[j] == other@[j],
            decreases n - i,
        {
            if self.parts[i] != other.parts[i] {
                return i;
            }
            i += 1;
        }
        n
    }
}

pub(crate) fn push_digit(out: &mut String, d: u32)
    requires
        d < 10,
    ensures
        final(out)@ == old(out)@ + seq![digit_char(d as nat)],
{
    proof {
        reveal_strlit("0");
        reveal_strlit("1");
        reveal_strlit("2");
        reveal_strlit("3");
        reveal_strlit("4");
        reveal_strlit("5");
        reveal_strlit("6");
        reveal_strlit("7");
        reveal_strlit("8");
        reveal_strlit("9");
    }
    if d == 0 {
        out.append("0");
    } else if d == 1 {
        out.append("1");
    } else if d == 2 {
        out.append("2");
    } else if d == 3 {
        out.append("3");
    } else if d == 4 {
        out.append("4");
    } else if d == 5 {
        out.append("5");
    } else if d == 6 {
        out.append("6");
    } else if d == 7 {
        out.append("7");
    } else if d == 8 {
        out.append("8");
    } else {
        out.append("9");
    }
    proof {
        assert(final(out)@ =~= old(out)@ + seq![digit_char(d as nat)]);
    }
}

pub(crate) fn push_dec(out: &mut String, n: u32)
    ensures
        final(out)@ == old(out)@ + dec_str(n as nat),
    decreases n,
{
    if n >= 10 {
        push_dec(out, n / 10);
        push_digit(out, n % 10);
        proof {
            assert(final(out)@ =~= old(out)@ + (dec_str((n / 10) as nat)
                + seq![digit_char((n % 10) as nat)]));
            assert(dec_str(n as nat) == dec_str(n as nat / 10)
                + seq![digit_char(n as nat % 10)]);
            assert((n / 10) as nat == n as nat / 10);
            assert((n % 10) as nat == n as nat % 10);
        }
    } else {
        push_digit(out, n);
    }
}

pub(crate) fn push_dec64(out: &mut String, n: u64)
    ensures
        final(out)@ == old(out)@ + dec_str(n as nat),
    decreases n,
{
    if n >= 10 {
        push_dec64(out, n / 10);
        push_digit(out, (n % 10) as u32);
        proof {
            assert(final(out)@ =~= old(out)@ + (dec_str((n / 10) as nat)
                + seq![digit_char((n % 10) as nat)]));
            assert(dec_str(n as nat) == dec_str(n as nat / 10)
                + seq![digit_char(n as nat % 10)]);
            assert((n / 10) as nat == n as nat / 10);
            assert((n % 10) as nat == n as nat % 10);
        }
    } else {
        push_digit(out, n as u32);
    }
}

impl Oid {
    /// The dotted-decimal text of this OID.
    pub fn to_string(&self) -> (r: String)
        requires
            self.wf(),
        ensures
            r@ == oid_str(self@),
    {
        let mut out = String::new();
        push_dec(&mut out, self.parts[0]);
        proof {
            assert(out@ =~= oid_str(self@.take(1)));
        }
        let mut i: usize = 1;
        while i < self.parts.len()
            invariant
                1 <= i <= self@.len(),
                self.wf(),
                out@ == oid_str(self@.take(i as int)),
            decreases self@.len() - i,
        {
            proof {
                reveal_strlit(".");
            }
            out.append(".");
            push_dec(&mut out, self.parts[i]);
            proof {
                lemma_oid_str_snoc(self@.take(i as int), self@[i as int]);
                assert(self@.take(i as int).push(self@[i as int])
                    =~= self@.take(i as int + 1));
                assert(out@ =~= oid_str(self@.take(i as int))
                    + seq!['.'] + dec_str(self@[i as int] as nat));
            }
            i += 1;
        }
        proof {
            assert(self@.take(self@.len() as int) =~= self@);
        }
        out
    }

    /// Parses dotted-decimal text, with surrounding white space ignored and
    /// an optional leading dot, into an OID. Fails with `Empty` when nothing
    /// is left after trimming and the optional dot, and with `InvalidPart`,
    /// carrying the offending component, when one is not a decimal number
    /// that fits in 32 bits.
    pub fn parse_str(s: &str) -> (r: Result<Oid, OidError>)
        ensures
            (r is Ok <==> spec_parse_oid(s@) is Some),
            r matches Ok(o) ==> Some(o@) == spec_parse_oid(s@) && o.wf(),
            r matches Err(e) ==> (if strip_dot(trim_ws(s@)).len() == 0 {
                e is Empty
            } else {
                e matches OidError::InvalidPart(t) && t@ == bad_token(strip_dot(trim_ws(s@)))
            }),
    {
        let n = s.unicode_len();
        let mut a: usize = 0;
        while a < n && is_ws_char(s.get_char(a))
            invariant
                0 <= a <= n,
                n == s@.len(),
                forall|j: int| 0 <= j < a ==> is_space_char(#[trigger] s@[j]),
            decreases n - a,
        {
            a += 1;
        }
        let mut b: usize = n;
        while b > a && is_ws_char(s.get_char(b - 1))
            invariant
                a <= b <= n,
                n == s@.len(),
                forall|j: int| b <= j < n ==> is_space_char(#[trigger] s@[j]),
            decreases b,
        {
            b -= 1;
        }
        proof {
            lemma_trim_front_of(s@, a as int);
            assert(forall|j: int| b - a <= j < s@.skip(a as int).len()
                ==> is_space_char(#[trigger] s@.skip(a as int)[j]));
            if b > a {
                assert(s@.skip(a as int)[b - a - 1] == s@[b as int - 1]);
            }
            lemma_trim_back_of(s@.skip(a as int), b as int - a as int);
            assert(s@.skip(a as int).take(b as int - a as int)
                =~= s@.subrange(a as int, b as int));
        }
        let core = s.substring_char(a, b);
        proof {
            assert(core@ == trim_ws(s@));
        }
        Oid::parse_trimmed(core)
    }

    /// Parses already-trimmed dotted-decimal text, with an optional leading
    /// dot.
    fn parse_trimmed(s: &str) -> (r: Result<Oid, OidError>)
        ensures
            (r is Ok <==> spec_parse_trimmed(s@) is Some),
            r matches Ok(o) ==> Some(o@) == spec_parse_trimmed(s@) && o.wf(),
            r matches Err(e) ==> (if strip_dot(s@).len() == 0 {
                e is Empty
            } else {
                e matches OidError::InvalidPart(t) && t@ == bad_token(strip_dot(s@))
            }),
    {
        proof {
            reveal_strlit(".");
        }
        let n = s.unicode_len();
        let mut i: usize = 0;
        if n > 0 && s.get_char(0) == '.' {
            i = 1;
        }
        let ghost t = strip_dot(s@);
        proof {
            assert(s@.skip(i as int) =~= t);
        }
        if i == n {
            return Err(OidError::Empty);
        }
        let mut parts: Vec<u32> = Vec::new();
        loop
            invariant_except_break
                combine_parts(parts@, spec_parse_parts(s@.skip(i as int)))
                    == spec_parse_trimmed(s@),
                bad_token(t) == bad_token(s@.skip(i as int)),
            invariant
                0 <= i <= n,
                n == s@.len(),
                t == strip_dot(s@),
                t.len() > 0,
            ensures
                spec_parse_trimmed(s@) == Some(parts@),
                parts@.len() > 0,
            decreases n - i,
        {
            let ghost start_g = i as int;
            proof {
                assert(combine_parts(parts@, spec_parse_parts(s@.skip(start_g)))
                    == spec_parse_trimmed(s@));
                assert(bad_token(t) == bad_token(s@.skip(start_g)));
            }
            let ghost parts_pre = parts@;
            let start = i;
            let mut acc: u32 = 0;
            while i < n && s.get_char(i) != '.'
                invariant
                    start <= i <= n,
                    n == s@.len(),
                    strip_dot(s@).len() > 0,
                    combine_parts(parts@, spec_parse_parts(s@.skip(start as int)))
                        == spec_parse_trimmed(s@),
                    bad_token(strip_dot(s@)) == bad_token(s@.skip(start as int)),
                    forall|j: int| start <= j < i ==> (
                        is_digit_char(#[trigger] s@[j]) && s@[j] != '.'),
                    acc as nat == digits_val(s@.subrange(start as int, i as int)),
                decreases n - i,
            {
                let c = s.get_char(i);
                let cv = c as u32;
                if cv < 48 || cv > 57 {
                    proof {
                        lemma_not_parse_at(s@, start as int, i as int, false);
                        assert(spec_parse_trimmed(s@) is None);
                    }
                    return Err(OidError::InvalidPart(token_text(s, start, i)));
                }
                let d = cv - 48;
                if acc > 429496729 || (acc == 429496729 && d > 5) {
                    proof {
                        assert(s@.subrange(start as int, i as int + 1).drop_last()
                            =~= s@.subrange(start as int, i as int));
                        assert(s@.subrange(start as int, i as int + 1).last()
                            == s@[i as int]);
                        assert(digits_val(s@.subrange(start as int, i as int + 1))
                            == acc as nat * 10 + d as nat);
                        lemma_not_parse_at(s@, start as int, i as int, true);
                        assert(spec_parse_trimmed(s@) is None);
                    }
                    return Err(OidError::InvalidPart(token_text(s, start, i)));
                }
                acc = acc * 10 + d;
                proof {
                    assert(s@.subrange(start as int, i as int + 1).drop_last()
                        =~= s@.subrange(start as int, i as int));
                    assert(s@.subrange(start as int, i as int + 1).last() == s@[i as int]);
                }
                i += 1;
            }
            // the token ends here: at a dot or at the end of the input
            let ghost rem = s@.skip(start_g);
            proof {
                assert forall|j: int| 0 <= j < i - start_g implies
                    rem[j] != '.' by {
                    assert(rem[j] == s@[start_g + j]);
                }
                if (i as int) < s@.len() {
                    assert(rem[i - start_g] == s@[i as int]);
                }
                lemma_first_dot_of(rem, i - start_g);
                assert(rem.take(i - start_g) =~= s@.subrange(start_g, i as int));
            }
            if i == start {
                proof {
                    assert(rem.take(first_dot(rem)).len() == 0);
                    assert(spec_parse_parts(rem) is None);
                    assert(spec_parse_trimmed(s@) is None);
                    assert(bad_token(rem) == rem.take(first_dot(rem)));
                }
                return Err(OidError::InvalidPart(token_text(s, start, i)));
            }
            proof {
                assert(all_digits(rem.take(first_dot(rem)))) by {
                    assert(forall|j: int| 0 <= j < i - start_g
                        ==> rem.take(i - start_g)[j] == rem[j]);
                }
                assert(digits_val(rem.take(first_dot(rem))) == acc as nat);
            }
            parts.push(acc);
            if i == n {
                proof {
                    assert(rem.len() == s@.len() - start_g);
                    assert(first_dot(rem) == rem.len());
                    assert(spec_parse_parts(rem)
                        == Some(seq![digits_val(rem.take(first_dot(rem))) as u32]));
                    assert(digits_val(rem.take(first_dot(rem))) as u32 == acc);
                    assert(parts_pre + seq![acc] =~= parts@);
                    assert(spec_parse_trimmed(s@) == Some(parts@));
                }
                break;
            }
            proof {
                assert(s@[i as int] == '.');
                assert(rem.skip(i - start_g + 1) =~= s@.skip(i as int + 1));
                assert(spec_parse_parts(rem) == combine_parts(seq![acc],
                    spec_parse_parts(s@.skip(i as int + 1))));
                assert(parts_pre.push(acc) =~= parts@);
                assert(combine_parts(parts@,
                    spec_parse_parts(s@.skip(i as int + 1)))
                    == combine_parts(parts_pre, spec_parse_parts(rem))) by {
                    if spec_parse_parts(s@.skip(i as int + 1)) is Some {
                        assert(parts_pre + (seq![acc]
                            + spec_parse_parts(s@.skip(i as int + 1))->0)
                            =~= parts@
                                + spec_parse_parts(s@.skip(i as int + 1))->0);
                    }
                }
                assert(bad_token(rem) == bad_token(s@.skip(i as int + 1)));
            }
            i += 1;
        }
        match Oid::new(parts) {
            Ok(o) => Ok(o),
            Err(_) => vstd::pervasive::unreached(),
        }
    }
}

fn is_ws_char(c: char) -> (r: bool)
    ensures
        r == is_space_char(c),
{
    let u = c as u32;
    (9 <= u && u <= 13) || u == 32 || u == 0x85 || u == 0xA0 || u == 0x1680
        || (0x2000 <= u && u <= 0x200A) || u == 0x2028 || u == 0x2029 || u == 0x202F
        || u == 0x205F || u == 0x3000
}

/// The dot-separated component that starts at `start`; chars up to `from`
/// are already known not to be dots.
fn token_text(s: &str, start: usize, from: usize) -> (r: String)
    requires
        start <= from <= s@.len(),
        forall|j: int| start <= j < from ==> (#[trigger] s@[j]) != '.',
    ensures
        r@ == s@.skip(start as int).take(first_dot(s@.skip(start as int))),
{
    let n = s.unicode_len();
    let mut e = from;
    while e < n && s.get_char(e) != '.'
        invariant
            from <= e <= n,
            n == s@.len(),
            forall|j: int| from <= j < e ==> (#[trigger] s@[j]) != '.',
        decreases n - e,
    {
        e += 1;
    }
    proof {
        let rem = s@.skip(start as int);
        assert forall|j: int| 0 <= j < e - start implies rem[j] != '.' by {
            assert(rem[j] == s@[start + j]);
        }
        if (e as int) < s@.len() {
            assert(rem[e - start] == s@[e as int]);
        }
        lemma_first_dot_of(rem, e as int - start as int);
    }
    let t = s.substring_char(start, e);
    proof {
        assert(t@ =~= s@.skip(start as int).take(e as int - start as int));
    }
    t.to_owned()
}

proof fn lemma_not_parse_at(s: Seq<char>, start: int, i: int, overflow: bool)
    requires
        0 <= start <= i < s.len(),
        forall|j: int| start <= j < i ==> (is_digit_char(#[trigger] s[j]) && s[j] != '.'),
        !overflow ==> !is_digit_char(s[i]) && s[i] != '.',
        overflow ==> is_digit_char(s[i])
            && digits_val(s.subrange(start, i + 1)) > 0xFFFF_FFFF,
    ensures
        spec_parse_parts(s.skip(start)) is None,
        bad_token(s.skip(start)) == s.skip(start).take(first_dot(s.skip(start))),
{
    let rem = s.skip(start);
    let d = first_dot(rem);
    lemma_first_dot_le(rem);
    lemma_first_dot_at(rem);
    assert forall|j: int| 0 <= j <= i - start implies rem[j] != '.' by {
        assert(rem[j] == s[start + j]);
    }
    assert(d > i - start) by {
        if d <= i - start {
            assert(rem[d] == '.');
        }
    }
    let tok = rem.take(d);
    if !overflow {
        assert(tok[i - start] == s[i]);
        assert(!all_digits(tok));
    } else {
        assert(s[i] != '.');
        assert(rem.take(i - start + 1) =~= s.subrange(start, i + 1));
        assert(tok.take(i - start + 1) =~= rem.take(i - start + 1));
        lemma_dv_prefix(tok, i - start + 1);
    }
}

impl std::str::FromStr for Oid {
    type Err = OidError;

    /// Parses dotted-decimal text; see [`Oid::parse_str`].
    fn from_str(s: &str) -> Result<Self, Self::Err> {
        Oid::parse_str(s)
    }
}

impl PartialEq for Oid {
    /// Componentwise equality.
    fn eq(&self, other: &Self) -> (r: bool) {
        if self.parts.len() != other.parts.len() {
            assert(self@ != other@);
            return false;
        }
        let mut i: usize = 0;
        while i < self.parts.len()
            invariant
                0 <= i <= self@.len(),
                self@.len() == other@.len(),
                forall|j: int| 0 <= j < i ==> self@[j] == other@[j],
            decreases self@.len() - i,
        {
            if self.parts[i] != other.parts[i] {
                assert(self@ != other@);
                return false;
            }
            i += 1;
        }
        assert(self@ =~= other@);
        true
    }
}

impl vstd::std_specs::cmp::PartialEqSpecImpl for Oid {
    open spec fn obeys_eq_spec() -> bool {
        true
    }

    open spec fn eq_spec(&self, other: &Oid) -> bool {
        self@ == other@
    }
}

impl PartialOrd for Oid {
    /// The total order of the data model: lexicographic, componentwise.
    fn partial_cmp(&self, other: &Self) -> (r: Option<core::cmp::Ordering>) {
        let n = if self.parts.len() < other.parts.len() {
            self.parts.len()
        } else {
            other.parts.len()
        };
        let mut i: usize = 0;
        while i < n
            invariant
                0 <= i <= n,
                n <= self@.len() && n <= other@.len(),
                n == if self@.len() < other@.len() { self@.len() } else { other@.len() },
                forall|j: int| 0 <= j < i ==> self@[j] == other@[j],
            decreases n - i,
        {
            let a = self.parts[i];
            let b = other.parts[i];
            if a < b {
                proof {
                    lemma_oid_lt_skip(self@, other@, i as int);
                    lemma_oid_lt_trichotomy(self@, other@);
                }
                return Some(core::cmp::Ordering::Less);
            }
            if a > b {
                proof {
                    lemma_oid_lt_skip(other@, self@, i as int);
                    lemma_oid_lt_trichotomy(self@, other@);
                }
                return Some(core::cmp::Ordering::Greater);
            }
            i += 1;
        }
        if self.parts.len() < other.parts.len() {
            proof {
                lemma_oid_lt_skip(self@, other@, n as int);
                lemma_oid_lt_trichotomy(self@, other@);
            }
            Some(core::cmp::Ordering::Less)
        } else if self.parts.len() > other.parts.len() {
            proof {
                lemma_oid_lt_skip(other@, self@, n as int);
                lemma_oid_lt_trichotomy(self@, other@);
            }
            Some(core::cmp::Ordering::Greater)
        } else {
            assert(self@ =~= other@);
            proof {
                lemma_oid_lt_trichotomy(self@, other@);
            }
            Some(core::cmp::Ordering::Equal)
        }
    }
}

impl vstd::std_specs::cmp::PartialOrdSpecImpl for Oid {
    open spec fn obeys_partial_cmp_spec() -> bool {
        true
    }

    open spec fn partial_cmp_spec(&self, other: &Oid) -> Option<core::cmp::Ordering> {
        if oid_lt(self@, other@) {
            Some(core::cmp::Ordering::Less)
        } else if oid_lt(other@, self@) {
            Some(core::cmp::Ordering::Greater)
        } else {
            Some(core::cmp::Ordering::Equal)
        }
    }
}

} // verus!
