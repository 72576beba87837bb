//! Response status kinds and the status-code allocation algorithm: a
//! response is keyed by `default`, a class pattern such as `2XX`, or a
//! single code such as `200`; each kind is eligible for a range of HTTP
//! codes, and an operation's responses claim codes from a shared pool,
//! the most specific kinds first, so that every code belongs to at most
//! one response.

use vstd::prelude::*;

use crate::node::dec_str;
use crate::node::index_string;

verus! {

/// A response key: eligible for every code, for one class of codes, or
/// for a single code.
#[derive(Debug, Clone, Copy, PartialEq, Eq, PartialOrd, Ord, Structural)]
pub enum StatusKind {
    Default,
    Class(usize),
    Code(usize),
}

/// The text was not `default`, a class pattern, or an HTTP status code.
#[derive(Debug, Clone, Copy, PartialEq, Eq, Structural)]
pub struct StatusKindParseError;

/// A kind as documents may declare it: classes `1XX` to `5XX`, codes
/// `100` to `599`.
pub open spec fn kind_wf(k: StatusKind) -> bool {
    match k {
        StatusKind::Default => true,
        StatusKind::Class(c) => 1 <= c <= 5,
        StatusKind::Code(n) => 100 <= n < 600,
    }
}

/// The first code a kind is eligible for.
pub open spec fn kind_lo(k: StatusKind) -> int {
    match k {
        StatusKind::Default => 100,
        StatusKind::Class(c) => c * 100,
        StatusKind::Code(n) => n as int,
    }
}

/// One past the last code a kind is eligible for.
pub open spec fn kind_hi(k: StatusKind) -> int {
    match k {
        StatusKind::Default => 600,
        StatusKind::Class(c) => c * 100 + 100,
        StatusKind::Code(n) => n + 1,
    }
}

/// Whether a kind is eligible for a code.
pub open spec fn kind_claims(k: StatusKind, code: int) -> bool {
    kind_lo(k) <= code < kind_hi(k)
}

/// The value of a decimal digit character, or `-1` for any other.
pub open spec fn digit_val(c: char) -> int {
    if c == '0' {
        0
    } else if c == '1' {
        1
    } else if c == '2' {
        2
    } else if c == '3' {
        3
    } else if c == '4' {
        4
    } else if c == '5' {
        5
    } else if c == '6' {
        6
    } else if c == '7' {
        7
    } else if c == '8' {
        8
    } else if c == '9' {
        9
    } else {
        -1
    }
}

/// Whether every character of `s` is a decimal digit.
pub open spec fn all_digits(s: Seq<char>) -> bool {
    forall|i: int| 0 <= i < s.len() ==> digit_val(#[trigger] s[i]) >= 0
}

/// The number a digit string denotes.
pub open spec fn dec_value(s: Seq<char>) -> int
    decreases s.len(),
{
    if s.len() == 0 {
        0
    } else {
        dec_value(s.drop_last()) * 10 + digit_val(s.last())
    }
}

/// What parsing a status-kind text yields: `default`, one of the class
/// patterns, or a code `100..599` written in decimal digits.
pub open spec fn parse_status_kind(s: Seq<char>) -> Option<StatusKind> {
    if s == seq!['d', 'e', 'f', 'a', 'u', 'l', 't'] {
        Some(StatusKind::Default)
    } else if s == seq!['1', 'X', 'X'] {
        Some(StatusKind::Class(1))
    } else if s == seq!['2', 'X', 'X'] {
        Some(StatusKind::Class(2))
    } else if s == seq!['3', 'X', 'X'] {
        Some(StatusKind::Class(3))
    } else if s == seq!['4', 'X', 'X'] {
        Some(StatusKind::Class(4))
    } else if s == seq!['5', 'X', 'X'] {
        Some(StatusKind::Class(5))
    } else if s.len() > 0 && all_digits(s) && 100 <= dec_value(s) < 600 {
        Some(StatusKind::Code(dec_value(s) as usize))
    } else {
        None
    }
}

/// Caps a number at 1000; enough to decide the `100..599` range without
/// unbounded arithmetic.
pub open spec fn capped(v: int) -> int {
    if v > 1000 {
        1000
    } else {
        v
    }
}

fn digit_of(c: char) -> (r: Option<usize>)
    ensures
        match r {
            Some(d) => digit_val(c) == d && d < 10,
            None => digit_val(c) < 0,
        },
{
    match c {
        '0' => Some(0),
        '1' => Some(1),
        '2' => Some(2),
        '3' => Some(3),
        '4' => Some(4),
        '5' => Some(5),
        '6' => Some(6),
        '7' => Some(7),
        '8' => Some(8),
        '9' => Some(9),
        _ => None,
    }
}

/// The capped value of a digit string, or nothing when a character is not
/// a digit.
fn dec_value_capped(s: &str) -> (r: Option<usize>)
    ensures
        match r {
            Some(v) => all_digits(s@) && v == capped(dec_value(s@)),
            None => !all_digits(s@),
        },
{
    let n = s.unicode_len();
    let mut acc: usize = 0;
    let mut i: usize = 0;
    proof {
        assert(s@.take(0) =~= Seq::<char>::empty());
    }
    while i < n
        invariant
            i <= n,
            n == s@.len(),
            acc == capped(dec_value(s@.take(i as int))),
            acc <= 1000,
            all_digits(s@.take(i as int)),
            dec_value(s@.take(i as int)) >= 0,
        decreases n - i,
    {
        let c = s.get_char(i);
        match digit_of(c) {
            Some(d) => {
                let ghost pre = dec_value(s@.take(i as int));
                acc = acc * 10 + d;
                if acc > 1000 {
                    acc = 1000;
                }
                proof {
                    assert(s@.take(i + 1).drop_last() =~= s@.take(i as int));
                    assert(s@.take(i + 1).last() == c);
                    assert(dec_value(s@.take(i + 1)) == pre * 10 + d);
                    assert(acc == capped(capped(pre) * 10 + d));
                    assert(capped(capped(pre) * 10 + d) == capped(pre * 10 + d)) by {
                        if pre > 1000 {
                            assert(pre * 10 + d > 1000) by (nonlinear_arith)
                                requires
                                    pre > 1000,
                                    d >= 0,
                            ;
                            assert(capped(pre) * 10 + d > 1000);
                        }
                    }
                    assert(all_digits(s@.take(i + 1))) by {
                        assert(forall|j: int|
                            0 <= j < i ==> s@.take(i + 1)[j] == s@.take(i as int)[j]);
                    }
                }
                i += 1;
            },
            None => {
                proof {
                    assert(s@[i as int] == c);
                }
                return None;
            },
        }
    }
    proof {
        assert(s@.take(n as int) =~= s@);
    }
    Some(acc)
}

impl StatusKind {
    /// Reads a response key from its text, exactly when the text is
    /// `default`, a class pattern `1XX`..`5XX`, or a decimal code in
    /// `100..599`.
    pub fn parse(value: &str) -> (r: Result<StatusKind, StatusKindParseError>)
        ensures
            match parse_status_kind(value@) {
                Some(k) => r == Ok::<StatusKind, StatusKindParseError>(k) && kind_wf(k),
                None => r == Err::<StatusKind, StatusKindParseError>(StatusKindParseError),
            },
    {
        proof {
            reveal_strlit("default");
            reveal_strlit("1XX");
            reveal_strlit("2XX");
            reveal_strlit("3XX");
            reveal_strlit("4XX");
            reveal_strlit("5XX");
            assert("default"@ =~= seq!['d', 'e', 'f', 'a', 'u', 'l', 't']);
            assert("1XX"@ =~= seq!['1', 'X', 'X']);
            assert("2XX"@ =~= seq!['2', 'X', 'X']);
            assert("3XX"@ =~= seq!['3', 'X', 'X']);
            assert("4XX"@ =~= seq!['4', 'X', 'X']);
            assert("5XX"@ =~= seq!['5', 'X', 'X']);
        }
        if crate::location::str_eq(value, "default") {
            return Ok(StatusKind::Default);
        }
        if crate::location::str_eq(value, "1XX") {
            return Ok(StatusKind::Class(1));
        }
        if crate::location::str_eq(value, "2XX") {
            return Ok(StatusKind::Class(2));
        }
        if crate::location::str_eq(value, "3XX") {
            return Ok(StatusKind::Class(3));
        }
        if crate::location::str_eq(value, "4XX") {
            return Ok(StatusKind::Class(4));
        }
        if crate::location::str_eq(value, "5XX") {
            return Ok(StatusKind::Class(5));
        }
        if value.unicode_len() == 0 {
            return Err(StatusKindParseError);
        }
        match dec_value_capped(value) {
            Some(v) => {
                if 100 <= v && v < 600 {
                    proof {
                        assert(capped(dec_value(value@)) == dec_value(value@));
                    }
                    Ok(StatusKind::Code(v))
                } else {
                    Err(StatusKindParseError)
                }
            },
            None => Err(StatusKindParseError),
        }
    }

    /// The text a kind is written as.
    pub open spec fn text(self) -> Seq<char> {
        match self {
            StatusKind::Default => seq!['d', 'e', 'f', 'a', 'u', 'l', 't'],
            StatusKind::Class(c) => dec_str(c as nat) + seq!['X', 'X'],
            StatusKind::Code(n) => dec_str(n as nat),
        }
    }

    /// Prints the kind: `default`, `<c>XX`, or the decimal code.
    pub fn to_text(&self) -> (r: String)
        ensures
            r@ == self.text(),
    {
        match self {
            StatusKind::Default => {
                let r = String::from_str("default");
                proof {
                    reveal_strlit("default");
                    assert(r@ =~= self.text());
                }
                r
            },
            StatusKind::Class(c) => {
                let mut r = index_string(*c);
                r.append("XX");
                proof {
                    reveal_strlit("XX");
                    assert(r@ =~= self.text());
                }
                r
            },
            StatusKind::Code(n) => index_string(*n),
        }
    }
}

/// An availability pool: index `x` stands for code `x + 100`, over the
/// full range `100..599`.
pub open spec fn avail_wf(avail: Seq<bool>) -> bool {
    avail.len() == 500
}

/// The codes a kind takes from a pool, in increasing order: every code at
/// or above `c` that the kind is eligible for and the pool still offers.
pub open spec fn claimed_from(avail: Seq<bool>, k: StatusKind, c: int) -> Seq<int>
    decreases 600 - c,
{
    if c < 100 || c >= 600 {
        Seq::empty()
    } else {
        let rest = claimed_from(avail, k, c + 1);
        if kind_claims(k, c) && avail[c - 100] {
            seq![c] + rest
        } else {
            rest
        }
    }
}

/// The pool after a kind has claimed its codes.
pub open spec fn avail_after(avail: Seq<bool>, k: StatusKind) -> Seq<bool> {
    Seq::new(avail.len(), |x: int| avail[x] && !kind_claims(k, x + 100))
}

/// The codes each of a sequence of kinds receives, when they claim from
/// the pool in the order given.
pub open spec fn alloc_seq(avail: Seq<bool>, kinds: Seq<StatusKind>) -> Seq<Seq<int>>
    decreases kinds.len(),
{
    if kinds.len() == 0 {
        Seq::empty()
    } else {
        seq![claimed_from(avail, kinds[0], 100)] + alloc_seq(
            avail_after(avail, kinds[0]),
            kinds.drop_first(),
        )
    }
}

pub proof fn lemma_alloc_len(avail: Seq<bool>, kinds: Seq<StatusKind>)
    ensures
        alloc_seq(avail, kinds).len() == kinds.len(),
    decreases kinds.len(),
{
    if kinds.len() > 0 {
        lemma_alloc_len(avail_after(avail, kinds[0]), kinds.drop_first());
    }
}

/// A code is claimed exactly when it is at or past `c`, eligible, and
/// still in the pool.
pub proof fn lemma_claimed_mem(avail: Seq<bool>, k: StatusKind, c0: int, c: int)
    requires
        avail_wf(avail),
        100 <= c0,
    ensures
        claimed_from(avail, k, c0).contains(c) <==> (c0 <= c < 600 && kind_claims(k, c)
            && avail[c - 100]),
    decreases 600 - c0,
{
    if c0 < 600 {
        lemma_claimed_mem(avail, k, c0 + 1, c);
        let rest = claimed_from(avail, k, c0 + 1);
        if kind_claims(k, c0) && avail[c0 - 100] {
            let whole = seq![c0] + rest;
            assert(claimed_from(avail, k, c0) == whole);
            if c == c0 {
                assert(whole[0] == c0);
                assert(whole.contains(c0));
            }
            assert forall|x: int| whole.contains(x) implies x == c0 || rest.contains(x) by {
                let i = choose|i: int| 0 <= i < whole.len() && whole[i] == x;
                if i > 0 {
                    assert(rest[i - 1] == x);
                }
            }
            if rest.contains(c) {
                let i = choose|i: int| 0 <= i < rest.len() && rest[i] == c;
                assert(whole[i + 1] == c);
            }
        } else {
            if c == c0 {
                assert(!(c0 <= c < 600 && kind_claims(k, c) && avail[c - 100]));
            }
        }
    } else {
        if claimed_from(avail, k, c0).contains(c) {
            let i = choose|i: int|
                0 <= i < claimed_from(avail, k, c0).len() && claimed_from(avail, k, c0)[i] == c;
        }
    }
}

/// Pools only shrink as kinds claim.
pub proof fn lemma_alloc_avail_monotone(avail: Seq<bool>, kinds: Seq<StatusKind>, x: int)
    requires
        avail_wf(avail),
        0 <= x < 500,
        !avail[x],
    ensures
        forall|i: int|
            0 <= i < kinds.len() ==> !(#[trigger] alloc_seq(avail, kinds)[i]).contains(x + 100),
    decreases kinds.len(),
{
    lemma_alloc_len(avail, kinds);
    if kinds.len() > 0 {
        lemma_claimed_mem(avail, kinds[0], 100, x + 100);
        assert(!claimed_from(avail, kinds[0], 100).contains(x + 100));
        let a2 = avail_after(avail, kinds[0]);
        assert(!a2[x]);
        lemma_alloc_avail_monotone(a2, kinds.drop_first(), x);
        lemma_alloc_len(a2, kinds.drop_first());
        assert forall|i: int|
            0 <= i < kinds.len() implies !(#[trigger] alloc_seq(avail, kinds)[i]).contains(
            x + 100,
        ) by {
            if i == 0 {
                assert(alloc_seq(avail, kinds)[0] == claimed_from(avail, kinds[0], 100));
            } else {
                assert(alloc_seq(avail, kinds)[i] == alloc_seq(a2, kinds.drop_first())[i - 1]);
                assert(!alloc_seq(a2, kinds.drop_first())[i - 1].contains(x + 100));
            }
        }
    }
}

/// Status-code disjointness: however the kinds are ordered, no HTTP code
/// is attributed to more than one response.
pub proof fn lemma_allocation_disjoint(
    avail: Seq<bool>,
    kinds: Seq<StatusKind>,
    i: int,
    j: int,
    c: int,
)
    requires
        avail_wf(avail),
        0 <= i < j < kinds.len(),
    ensures
        !(alloc_seq(avail, kinds)[i].contains(c) && alloc_seq(avail, kinds)[j].contains(c)),
    decreases kinds.len(),
{
    let a2 = avail_after(avail, kinds[0]);
    assert(avail_wf(a2));
    lemma_alloc_len(avail, kinds);
    lemma_alloc_len(a2, kinds.drop_first());
    if alloc_seq(avail, kinds)[i].contains(c) && alloc_seq(avail, kinds)[j].contains(c) {
        assert(forall|t: int|
            1 <= t < kinds.len() ==> alloc_seq(avail, kinds)[t] == #[trigger] alloc_seq(
                a2,
                kinds.drop_first(),
            )[t - 1]);
        if i == 0 {
            lemma_claimed_mem(avail, kinds[0], 100, c);
            assert(kind_claims(kinds[0], c) && 100 <= c < 600);
            assert(!a2[c - 100]);
            lemma_alloc_avail_monotone(a2, kinds.drop_first(), c - 100);
            assert(!alloc_seq(a2, kinds.drop_first())[j - 1].contains(c));
        } else {
            lemma_allocation_disjoint(a2, kinds.drop_first(), i - 1, j - 1, c);
        }
    }
}

/// Status-code completeness: when one of the kinds is `default`, every
/// code the pool offered is attributed to some response.
pub proof fn lemma_allocation_complete(avail: Seq<bool>, kinds: Seq<StatusKind>, c: int)
    requires
        avail_wf(avail),
        kinds.contains(StatusKind::Default),
        100 <= c < 600,
        avail[c - 100],
    ensures
        exists|i: int|
            0 <= i < kinds.len() && (#[trigger] alloc_seq(avail, kinds)[i]).contains(c),
    decreases kinds.len(),
{
    let a2 = avail_after(avail, kinds[0]);
    lemma_alloc_len(avail, kinds);
    lemma_alloc_len(a2, kinds.drop_first());
    lemma_claimed_mem(avail, kinds[0], 100, c);
    if kind_claims(kinds[0], c) {
        assert(claimed_from(avail, kinds[0], 100).contains(c));
        assert(alloc_seq(avail, kinds)[0].contains(c));
    } else {
        assert(kinds[0] != StatusKind::Default);
        assert(kinds.drop_first().contains(StatusKind::Default)) by {
            let t = choose|t: int| 0 <= t < kinds.len() && kinds[t] == StatusKind::Default;
            assert(kinds.drop_first()[t - 1] == StatusKind::Default);
        }
        assert(a2[c - 100]);
        lemma_allocation_complete(a2, kinds.drop_first(), c);
        let i = choose|i: int|
            0 <= i < kinds.drop_first().len() && (#[trigger] alloc_seq(
                a2,
                kinds.drop_first(),
            )[i]).contains(c);
        assert(alloc_seq(avail, kinds)[i + 1] == alloc_seq(a2, kinds.drop_first())[i]);
        assert(alloc_seq(avail, kinds)[i + 1].contains(c));
    }
}

/// The full pool: every code in `100..599` offered.
pub open spec fn full_avail() -> Seq<bool> {
    Seq::new(500, |x: int| true)
}

/// The pool after the kind has claimed every eligible code below `c`.
pub open spec fn avail_at(avail: Seq<bool>, k: StatusKind, c: int) -> Seq<bool> {
    Seq::new(avail.len(), |x: int| avail[x] && !(kind_claims(k, x + 100) && x + 100 < c))
}

/// Takes from the pool every code the kind is eligible for that the pool
/// still offers, in increasing order, and removes them from the pool.
pub fn claim_status_codes(kind: &StatusKind, available: &mut Vec<bool>) -> (r: Vec<usize>)
    requires
        kind_wf(*kind),
        avail_wf(old(available)@),
    ensures
        avail_wf(final(available)@),
        final(available)@ == avail_after(old(available)@, *kind),
        r@.map_values(|x: usize| x as int) == claimed_from(old(available)@, *kind, 100),
{
    let mut r: Vec<usize> = Vec::new();
    let mut c: usize = 100;
    let ghost avail0 = available@;
    proof {
        assert(r@.map_values(|x: usize| x as int) + claimed_from(avail0, *kind, 100)
            =~= claimed_from(avail0, *kind, 100));
        assert(available@ =~= avail_at(avail0, *kind, 100));
    }
    while c < 600
        invariant
            100 <= c <= 600,
            avail_wf(avail0),
            kind_wf(*kind),
            available@ == avail_at(avail0, *kind, c as int),
            claimed_from(avail0, *kind, 100) == r@.map_values(|x: usize| x as int)
                + claimed_from(avail0, *kind, c as int),
        decreases 600 - c,
    {
        let ghost pre = r@.map_values(|x: usize| x as int);
        let lo: usize = match kind {
            StatusKind::Default => 100,
            StatusKind::Class(k) => *k * 100,
            StatusKind::Code(n) => *n,
        };
        let hi: usize = match kind {
            StatusKind::Default => 600,
            StatusKind::Class(k) => *k * 100 + 100,
            StatusKind::Code(n) => *n + 1,
        };
        proof {
            assert(lo == kind_lo(*kind) && hi == kind_hi(*kind));
            assert(avail_at(avail0, *kind, c as int)[c - 100] == (avail0[c - 100] && !(
            kind_claims(*kind, c as int) && c < c)));
        }
        if lo <= c && c < hi && available[c - 100] {
            r.push(c);
            available.set(c - 100, false);
            proof {
                assert(avail0[c - 100]);
                assert(kind_claims(*kind, c as int));
                assert(r@.map_values(|x: usize| x as int) =~= pre.push(c as int));
                assert(claimed_from(avail0, *kind, c as int) == seq![c as int] + claimed_from(
                    avail0,
                    *kind,
                    c + 1,
                ));
                assert(pre + (seq![c as int] + claimed_from(avail0, *kind, c + 1))
                    =~= pre.push(c as int) + claimed_from(avail0, *kind, c + 1));
                assert forall|x: int| 0 <= x < 500 implies available@[x] == avail_at(
                    avail0,
                    *kind,
                    c + 1,
                )[x] by {
                    if x != c - 100 {
                        assert(available@[x] == avail_at(avail0, *kind, c as int)[x]);
                    }
                }
                assert(available@ =~= avail_at(avail0, *kind, c + 1));
            }
        } else {
            proof {
                if kind_claims(*kind, c as int) && avail0[c - 100] {
                    assert(avail_at(avail0, *kind, c as int)[c - 100]);
                    assert(lo <= c && c < hi);
                    assert(false);
                }
                assert(claimed_from(avail0, *kind, c as int) == claimed_from(
                    avail0,
                    *kind,
                    c + 1,
                ));
                assert forall|x: int| 0 <= x < 500 implies available@[x] == avail_at(
                    avail0,
                    *kind,
                    c + 1,
                )[x] by {
                    assert(available@[x] == avail_at(avail0, *kind, c as int)[x]);
                    if x == c - 100 {
                        assert(!(avail0[x] && kind_claims(*kind, x + 100)));
                    }
                }
                assert(available@ =~= avail_at(avail0, *kind, c + 1));
            }
        }
        c += 1;
    }
    proof {
        assert(claimed_from(avail0, *kind, 600) =~= Seq::<int>::empty());
        assert(r@.map_values(|x: usize| x as int) + Seq::<int>::empty() =~= r@.map_values(
            |x: usize| x as int,
        ));
        assert(available@ =~= avail_after(avail0, *kind));
    }
    r
}

} // verus!
