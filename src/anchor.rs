//! Heading anchors: normalisation of titles and a registry that keeps the
//! anchors of one document apart.

use vstd::prelude::*;
use crate::text::{chars_of, lowercase, lower_of, same_chars, string_of};

verus! {

/// Whether `c` is an ASCII lower-case letter or digit.
pub open spec fn is_ascii_lower_alnum(c: char) -> bool {
    ('a' <= c && c <= 'z') || ('0' <= c && c <= '9')
}

/// Whether `c` may stand in an anchor: an ASCII lower-case letter, a digit or `-`.
pub open spec fn is_anchor_char(c: char) -> bool {
    is_ascii_lower_alnum(c) || c == '-'
}

/// A character as it stands in an anchor: ASCII lower-case letters and digits
/// stay, ASCII upper-case letters are lower-cased, anything else becomes `-`.
pub open spec fn slug_char(c: char) -> char {
    if is_ascii_lower_alnum(c) {
        c
    } else if 'A' <= c && c <= 'Z' {
        ((c as u32) + 32) as char
    } else {
        '-'
    }
}

/// `s` without its leading dashes.
pub open spec fn trim_start_dashes(s: Seq<char>) -> Seq<char>
    decreases s.len(),
{
    if s.len() > 0 && s[0] == '-' {
        trim_start_dashes(s.drop_first())
    } else {
        s
    }
}

/// `s` without its trailing dashes.
pub open spec fn trim_end_dashes(s: Seq<char>) -> Seq<char>
    decreases s.len(),
{
    if s.len() > 0 && s.last() == '-' {
        trim_end_dashes(s.drop_last())
    } else {
        s
    }
}

/// The anchor base of an already lower-cased title: every character that is
/// not ASCII alphanumeric becomes `-`, then dashes at both ends are removed.
pub open spec fn anchor_base_spec(lowered: Seq<char>) -> Seq<char> {
    trim_end_dashes(trim_start_dashes(lowered.map_values(|c: char| slug_char(c))))
}

/// The decimal digit for `d < 10`.
pub open spec fn digit_char(d: nat) -> char {
    if d == 0 { '0' } else if d == 1 { '1' } else if d == 2 { '2' } else if d == 3 { '3' }
    else if d == 4 { '4' } else if d == 5 { '5' } else if d == 6 { '6' } else if d == 7 { '7' }
    else if d == 8 { '8' } else { '9' }
}

/// The decimal notation of `n`.
pub open spec fn decimal(n: nat) -> Seq<char>
    decreases n,
{
    if n < 10 {
        seq![digit_char(n)]
    } else {
        decimal(n / 10).push(digit_char(n % 10))
    }
}

/// How many times `b` occurs in `history`.
pub open spec fn occurrences(history: Seq<Seq<char>>, b: Seq<char>) -> nat
    decreases history.len(),
{
    if history.len() == 0 {
        0
    } else {
        occurrences(history.drop_last(), b) + if history.last() == b { 1nat } else { 0nat }
    }
}

/// The anchor handed out for base `b` when `history` lists the bases handed
/// out before it: `b` the first time, `b-N` the N-th time from the second on.
pub open spec fn anchor_for(history: Seq<Seq<char>>, b: Seq<char>) -> Seq<char> {
    let n = occurrences(history, b);
    if n == 0 {
        b
    } else {
        b + seq!['-'] + decimal(n + 1)
    }
}

pub proof fn lemma_occurrences_bound(history: Seq<Seq<char>>, b: Seq<char>)
    ensures
        occurrences(history, b) <= history.len(),
    decreases history.len(),
{
    if history.len() > 0 {
        lemma_occurrences_bound(history.drop_last(), b);
    }
}

proof fn lemma_trim_start(s: Seq<char>)
    ensures
        trim_start_dashes(s) == s.skip(s.len() - trim_start_dashes(s).len()),
        trim_start_dashes(s).len() <= s.len(),
        trim_start_dashes(s).len() > 0 ==> trim_start_dashes(s)[0] != '-',
    decreases s.len(),
{
    if s.len() > 0 && s[0] == '-' {
        lemma_trim_start(s.drop_first());
        let t = trim_start_dashes(s.drop_first());
        assert(s.drop_first().skip(s.len() - 1 - t.len()) =~= s.skip(s.len() - t.len()));
    } else {
        assert(s.skip(0) =~= s);
    }
}

proof fn lemma_trim_end(s: Seq<char>)
    ensures
        trim_end_dashes(s) == s.take(trim_end_dashes(s).len() as int),
        trim_end_dashes(s).len() <= s.len(),
        trim_end_dashes(s).len() > 0 ==> trim_end_dashes(s).last() != '-',
    decreases s.len(),
{
    if s.len() > 0 && s.last() == '-' {
        lemma_trim_end(s.drop_last());
        let t = trim_end_dashes(s.drop_last());
        assert(s.drop_last().take(t.len() as int) =~= s.take(t.len() as int));
    } else {
        assert(s.take(s.len() as int) =~= s);
    }
}

proof fn lemma_decimal_digits(n: nat)
    ensures
        decimal(n).len() > 0,
        forall|i: int| 0 <= i < decimal(n).len() ==> is_ascii_lower_alnum(#[trigger] decimal(n)[i]),
    decreases n,
{
    if n >= 10 {
        lemma_decimal_digits(n / 10);
        let d = decimal(n / 10);
        assert forall|i: int| 0 <= i < decimal(n).len() implies is_ascii_lower_alnum(
            #[trigger] decimal(n)[i],
        ) by {
            if i < d.len() {
                assert(decimal(n)[i] == d[i]);
            }
        }
    }
}

proof fn lemma_digit_char_injective(a: nat, b: nat)
    requires
        a < 10,
        b < 10,
        digit_char(a) == digit_char(b),
    ensures
        a == b,
{
}

proof fn lemma_decimal_injective(a: nat, b: nat)
    requires
        decimal(a) == decimal(b),
    ensures
        a == b,
    decreases a,
{
    lemma_decimal_digits(a / 10);
    lemma_decimal_digits(b / 10);
    if a < 10 && b < 10 {
        assert(decimal(a)[0] == digit_char(a));
        assert(decimal(b)[0] == digit_char(b));
        lemma_digit_char_injective(a, b);
    } else if a >= 10 && b >= 10 {
        let da = decimal(a);
        assert(da.drop_last() == decimal(a / 10));
        assert(decimal(b).drop_last() == decimal(b / 10));
        lemma_decimal_injective(a / 10, b / 10);
        assert(da.last() == digit_char(a % 10));
        assert(decimal(b).last() == digit_char(b % 10));
        lemma_digit_char_injective(a % 10, b % 10);
    } else {
        assert(decimal(a).len() != decimal(b).len());
    }
}

/// Two anchors handed out for one base after different numbers of earlier
/// uses of that base differ.
pub proof fn anchors_of_one_base_differ(h1: Seq<Seq<char>>, h2: Seq<Seq<char>>, b: Seq<char>)
    requires
        occurrences(h1, b) != occurrences(h2, b),
    ensures
        anchor_for(h1, b) != anchor_for(h2, b),
{
    let n1 = occurrences(h1, b);
    let n2 = occurrences(h2, b);
    lemma_decimal_digits(n1 + 1);
    lemma_decimal_digits(n2 + 1);
    if n1 != 0 && n2 != 0 {
        let a1 = b + seq!['-'] + decimal(n1 + 1);
        let a2 = b + seq!['-'] + decimal(n2 + 1);
        if a1 == a2 {
            assert(a1.subrange(b.len() + 1int, a1.len() as int) =~= decimal(n1 + 1));
            assert(a2.subrange(b.len() + 1int, a2.len() as int) =~= decimal(n2 + 1));
            lemma_decimal_injective(n1 + 1, n2 + 1);
        }
    } else if n1 == 0 {
        assert(anchor_for(h2, b).len() > b.len());
    } else {
        assert(anchor_for(h1, b).len() > b.len());
    }
}

/// Every anchor is made of ASCII lower-case letters, digits and `-`, and its
/// base neither starts nor ends with `-`.
pub proof fn anchor_is_url_safe(history: Seq<Seq<char>>, lowered: Seq<char>)
    ensures
        forall|i: int| 0 <= i < anchor_for(history, anchor_base_spec(lowered)).len()
            ==> is_anchor_char(#[trigger] anchor_for(history, anchor_base_spec(lowered))[i]),
        anchor_base_spec(lowered).len() > 0 ==> anchor_base_spec(lowered)[0] != '-'
            && anchor_base_spec(lowered).last() != '-',
{
    let m = lowered.map_values(|c: char| slug_char(c));
    let f = trim_start_dashes(m);
    let b = anchor_base_spec(lowered);
    lemma_trim_start(m);
    lemma_trim_end(f);
    assert forall|i: int| 0 <= i < b.len() implies is_anchor_char(#[trigger] b[i]) by {
        assert(b[i] == f[i]);
        let j = i + (m.len() - f.len());
        assert(f[i] == m[j]);
        let c = lowered[j];
        assert(m[j] == slug_char(c));
        if 'A' <= c && c <= 'Z' {
            assert('a' <= ((c as u32) + 32) as char && ((c as u32) + 32) as char <= 'z');
        }
    }
    if b.len() > 0 {
        assert(b[0] == f[0]);
    }
    let n = occurrences(history, b);
    lemma_decimal_digits(n + 1);
    let r = anchor_for(history, b);
    assert forall|i: int| 0 <= i < r.len() implies is_anchor_char(#[trigger] r[i]) by {
        if n != 0 {
            let d = decimal(n + 1);
            assert(r == b + seq!['-'] + d);
            if i < b.len() {
                assert(r[i] == b[i]);
            } else if i == b.len() {
                assert(r[i] == '-');
            } else {
                assert(r[i] == d[i - b.len() - 1]);
            }
        }
    }
}

proof fn lemma_occurrences_push(history: Seq<Seq<char>>, x: Seq<char>, b: Seq<char>)
    ensures
        occurrences(history.push(x), b) == occurrences(history, b) + if x == b { 1nat } else { 0nat },
{
    assert(history.push(x).drop_last() =~= history);
}

/// The anchor base of an already lower-cased title (see [`anchor_base_spec`]).
pub fn anchor_base(lowered: &str) -> (r: String)
    ensures
        r@ == anchor_base_spec(lowered@),
{
    let v = chars_of(lowered);
    let string = string_of(anchor_base_chars(&v).as_slice());
    string
}

fn anchor_base_chars(v: &Vec<char>) -> (r: Vec<char>)
    ensures
        r@ == anchor_base_spec(v@),
{
    let ghost mapped = v@.map_values(|c: char| slug_char(c));
    let mut m: Vec<char> = Vec::new();
    let mut i: usize = 0;
    while i < v.len()
        invariant
            i <= v.len(),
            mapped == v@.map_values(|c: char| slug_char(c)),
            m@ == mapped.take(i as int),
        decreases v.len() - i,
    {
        let c = v[i];
        let slug = if ('a' <= c && c <= 'z') || ('0' <= c && c <= '9') {
            c
        } else if 'A' <= c && c <= 'Z' {
            ((c as u8) + 32) as char
        } else {
            '-'
        };
        m.push(slug);
        proof {
            assert(m@ =~= mapped.take(i + 1));
        }
        i += 1;
    }
    assert(m@ =~= mapped);
    let n = m.len();
    let mut lo: usize = 0;
    while lo < n && m[lo] == '-'
        invariant
            lo <= n,
            n == m.len(),
            trim_start_dashes(m@.subrange(lo as int, n as int)) == trim_start_dashes(mapped),
        decreases n - lo,
    {
        assert(m@.subrange(lo as int, n as int).drop_first() =~= m@.subrange(lo + 1, n as int));
        lo += 1;
    }
    let ghost front = m@.subrange(lo as int, n as int);
    assert(trim_start_dashes(front) == front);
    let mut hi: usize = n;
    while hi > lo && m[hi - 1] == '-'
        invariant
            lo <= hi <= n,
            n == m.len(),
            trim_end_dashes(m@.subrange(lo as int, hi as int)) == trim_end_dashes(front),
        decreases hi,
    {
        assert(m@.subrange(lo as int, hi as int).drop_last() =~= m@.subrange(lo as int, hi - 1));
        hi -= 1;
    }
    let mut r: Vec<char> = Vec::new();
    let mut k: usize = lo;
    while k < hi
        invariant
            lo <= k <= hi <= n,
            n == m.len(),
            r@ == m@.subrange(lo as int, k as int),
        decreases hi - k,
    {
        r.push(m[k]);
        assert(r@ =~= m@.subrange(lo as int, k + 1));
        k += 1;
    }
    r
}

pub(crate) fn push_decimal(out: &mut Vec<char>, n: usize)
    ensures
        final(out)@ == old(out)@ + decimal(n as nat),
    decreases n,
{
    if n >= 10 {
        push_decimal(out, n / 10);
    }
    let d = n % 10;
    let c = if d == 0 { '0' } else if d == 1 { '1' } else if d == 2 { '2' } else if d == 3 { '3' }
        else if d == 4 { '4' } else if d == 5 { '5' } else if d == 6 { '6' } else if d == 7 { '7' }
        else if d == 8 { '8' } else { '9' };
    out.push(c);
    proof {
        if n >= 10 {
            assert(decimal(n as nat) == decimal((n / 10) as nat).push(digit_char((n % 10) as nat)));
        }
    }
    assert(out@ =~= old(out)@ + decimal(n as nat));
}

/// One base handed out, with how many times.
struct AnchorEntry {
    base: Vec<char>,
    count: usize,
}

/// Remembers, for one document, how often each anchor base was handed out.
pub struct AnchorRegistry {
    entries: Vec<AnchorEntry>,
    history: Ghost<Seq<Seq<char>>>,
}

impl View for AnchorRegistry {
    /// The bases handed out so far, in order.
    type V = Seq<Seq<char>>;

    closed spec fn view(&self) -> Seq<Seq<char>> {
        self.history@
    }
}

impl AnchorRegistry {
    /// Well-formedness: one entry per base handed out, holding its count.
    pub closed spec fn wf(&self) -> bool {
        &&& forall|i: int, j: int|
            0 <= i < j < self.entries.len() ==> self.entries[i].base@ != self.entries[j].base@
        &&& forall|i: int|
            0 <= i < self.entries.len() ==> #[trigger] self.entries[i].count as nat == occurrences(
                self.history@,
                self.entries[i].base@,
            ) && self.entries[i].count >= 1
        &&& forall|b: Seq<char>|
            occurrences(self.history@, b) > 0 ==> exists|i: int|
                0 <= i < self.entries.len() && #[trigger] self.entries[i].base@ == b
    }

    /// An empty registry.
    pub fn new() -> (r: Self)
        ensures
            r.wf(),
            r@ == Seq::<Seq<char>>::empty(),
    {
        AnchorRegistry { entries: Vec::new(), history: Ghost(Seq::empty()) }
    }

    /// Hands out the anchor of a title that is already lower-cased.
    pub fn assign_lowered(&mut self, lowered: &str) -> (r: String)
        requires
            old(self).wf(),
            old(self)@.len() < usize::MAX,
        ensures
            final(self).wf(),
            final(self)@ == old(self)@.push(anchor_base_spec(lowered@)),
            r@ == anchor_for(old(self)@, anchor_base_spec(lowered@)),
    {
        let v = chars_of(lowered);
        let base = anchor_base_chars(&v);
        let ghost b = base@;
        let ghost h = self.history@;
        proof {
            lemma_occurrences_bound(h, b);
            assert forall|x: Seq<char>| #[trigger] occurrences(h.push(b), x)
                == occurrences(h, x) + if b == x { 1nat } else { 0nat } by {
                lemma_occurrences_push(h, b, x);
            }
        }
        let mut i: usize = 0;
        while i < self.entries.len()
            invariant
                self.wf(),
                self.history@ == h,
                base@ == b,
                i <= self.entries.len(),
                forall|k: int| 0 <= k < i ==> self.entries[k].base@ != b,
            ensures
                i <= self.entries.len(),
                forall|k: int| 0 <= k < i ==> self.entries[k].base@ != b,
                i < self.entries.len() ==> self.entries[i as int].base@ == b,
            decreases self.entries.len() - i,
        {
            if same_chars(&self.entries[i].base, &base) {
                break;
            }
            i += 1;
        }
        if i < self.entries.len() {
            let n = self.entries[i].count;
            assert(n as nat == occurrences(h, b));
            let mut out: Vec<char> = Vec::new();
            out.extend_from_slice(base.as_slice());
            assert(out@ =~= b);
            out.push('-');
            push_decimal(&mut out, n + 1);
            let ghost old_entries = self.entries@;
            self.entries.set(i, AnchorEntry { base: base, count: n + 1 });
            self.history = Ghost(h.push(b));
            assert forall|bb: Seq<char>| occurrences(self.history@, bb) > 0 implies exists|k: int|
                0 <= k < self.entries.len() && #[trigger] self.entries[k].base@ == bb by {
                if bb != b {
                    let k = choose|k: int| 0 <= k < old_entries.len() && #[trigger] old_entries[k].base@ == bb;
                    assert(self.entries[k].base@ == bb);
                } else {
                    assert(self.entries[i as int].base@ == bb);
                }
            }
            assert(out@ =~= b + seq!['-'] + decimal((n + 1) as nat));
            string_of(out.as_slice())
        } else {
            proof {
                if occurrences(h, b) > 0 {
                    let k = choose|k: int| 0 <= k < self.entries.len() && #[trigger] self.entries[k].base@ == b;
                    assert(false);
                }
                assert(anchor_for(h, b) == b);
            }
            let out = string_of(base.as_slice());
            let ghost old_entries = self.entries@;
            self.entries.push(AnchorEntry { base: base, count: 1 });
            self.history = Ghost(h.push(b));
            assert forall|bb: Seq<char>| occurrences(self.history@, bb) > 0 implies exists|k: int|
                0 <= k < self.entries.len() && #[trigger] self.entries[k].base@ == bb by {
                if bb != b {
                    let k = choose|k: int| 0 <= k < old_entries.len() && #[trigger] old_entries[k].base@ == bb;
                    assert(self.entries[k].base@ == bb);
                } else {
                    assert(self.entries[old_entries.len() as int].base@ == bb);
                }
            }
            out
        }
    }

    /// Hands out the anchor of `title`: its lower-cased form is normalised
    /// by [`anchor_base_spec`] and numbered by [`anchor_for`].
    pub fn assign(&mut self, title: &str) -> (r: String)
        requires
            old(self).wf(),
            old(self)@.len() < usize::MAX,
        ensures
            final(self).wf(),
            final(self)@ == old(self)@.push(anchor_base_spec(lower_of(title@))),
            r@ == anchor_for(old(self)@, anchor_base_spec(lower_of(title@))),
    {
        let lowered = lowercase(title);
        self.assign_lowered(lowered.as_str())
    }
}

} // verus!
